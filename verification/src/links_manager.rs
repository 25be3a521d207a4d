//! Resumable link ledger.
//!
//! A durable, append-only record of per-URL outcomes. The in-memory success
//! set is rebuilt from the success-marked lines of the record text; failure
//! lines are log-only and never suppress a future reattempt. Reading and
//! appending the record file is I/O and lives outside the library: the
//! ledger takes the record text and returns the lines to append.

use vstd::prelude::*;

use crate::chunker::{lemma_next_nl, next_nl};
use crate::text::{
    all_ws, ascii_bytes, bytes_of_ascii, bytes_eq, copy_bytes, push_all, subvec, trim, trim_spec,
    usize_to_decimal, decimal_of, starts_with, views_of, lemma_views_of_push,
};
use crate::types::Error;
use crate::urls::{extract_domain, url_host_of};

verus! {

/// The UTF-8 bytes of the success marker of a record line.
pub open spec fn check_marker() -> Seq<u8> {
    seq![0xe2u8, 0x9cu8, 0x85u8]
}

/// The UTF-8 bytes of the failure marker of a record line.
pub open spec fn cross_marker() -> Seq<u8> {
    seq![0xe2u8, 0x9du8, 0x8cu8]
}

fn check_marker_bytes() -> (r: Vec<u8>)
    ensures
        r@ == check_marker(),
{
    let mut r: Vec<u8> = Vec::new();
    r.push(0xe2);
    r.push(0x9c);
    r.push(0x85);
    proof {
        assert(r@ =~= check_marker());
    }
    r
}

fn cross_marker_bytes() -> (r: Vec<u8>)
    ensures
        r@ == cross_marker(),
{
    let mut r: Vec<u8> = Vec::new();
    r.push(0xe2);
    r.push(0x9d);
    r.push(0x8c);
    proof {
        assert(r@ =~= cross_marker());
    }
    r
}

/// Index of the first occurrence of byte `b` at or after `i`, or the length.
pub open spec fn first_byte(s: Seq<u8>, b: u8, i: int) -> int
    decreases s.len() - i,
{
    if i >= s.len() {
        s.len() as int
    } else if s[i] == b {
        i
    } else {
        first_byte(s, b, i + 1)
    }
}

proof fn lemma_first_byte(s: Seq<u8>, b: u8, i: int)
    requires
        0 <= i <= s.len(),
    ensures
        i <= first_byte(s, b, i) <= s.len(),
        forall|j: int| i <= j < first_byte(s, b, i) ==> s[j] != b,
        first_byte(s, b, i) < s.len() ==> s[first_byte(s, b, i)] == b,
    decreases s.len() - i,
{
    if i < s.len() && s[i] != b {
        lemma_first_byte(s, b, i + 1);
    }
}

fn find_byte(s: &[u8], b: u8, from: usize) -> (r: usize)
    requires
        from <= s@.len(),
    ensures
        r == first_byte(s@, b, from as int),
        from <= r <= s@.len(),
{
    let mut i: usize = from;
    while i < s.len() && s[i] != b
        invariant
            from <= i <= s@.len(),
            first_byte(s@, b, from as int) == first_byte(s@, b, i as int),
        decreases s@.len() - i,
    {
        i = i + 1;
    }
    proof {
        lemma_first_byte(s@, b, i as int);
    }
    i
}

/// Index of the first occurrence of the field separator (space, bar, space)
/// at or after `i`, or the length when there is none.
pub open spec fn first_sep(s: Seq<u8>, i: int) -> int
    decreases s.len() - i,
{
    if i < 0 || i + 3 > s.len() {
        s.len() as int
    } else if s[i] == 32 && s[i + 1] == 124 && s[i + 2] == 32 {
        i
    } else {
        first_sep(s, i + 1)
    }
}

proof fn lemma_first_sep(s: Seq<u8>, i: int)
    requires
        0 <= i <= s.len(),
    ensures
        i <= first_sep(s, i) <= s.len(),
        first_sep(s, i) < s.len() ==> first_sep(s, i) + 3 <= s.len(),
    decreases s.len() - i,
{
    if i + 3 <= s.len() && !(s[i] == 32 && s[i + 1] == 124 && s[i + 2] == 32) {
        lemma_first_sep(s, i + 1);
    }
}

fn find_sep(s: &[u8], from: usize) -> (r: usize)
    requires
        from <= s@.len(),
    ensures
        r == first_sep(s@, from as int),
        from <= r <= s@.len(),
{
    let n = s.len();
    let mut i: usize = from;
    while i < n && n - i >= 3 && !(s[i] == 32 && s[i + 1] == 124 && s[i + 2] == 32)
        invariant
            from <= i <= n == s@.len(),
            first_sep(s@, from as int) == first_sep(s@, i as int),
        decreases n - i,
    {
        i = i + 1;
    }
    if n - i < 3 {
        proof {
            lemma_first_sep(s@, i as int);
        }
        n
    } else {
        i
    }
}

/// The URL recorded in a line: the text between the first space and the
/// first field separator after it, trimmed; none when either is missing.
pub open spec fn extract_url_spec(line: Seq<u8>) -> Option<Seq<u8>> {
    let sp = first_byte(line, 32, 0);
    if sp == line.len() {
        None
    } else {
        let rest = line.subrange(sp + 1, line.len() as int);
        let sep = first_sep(rest, 0);
        if sep == rest.len() {
            None
        } else {
            Some(trim_spec(rest.subrange(0, sep)))
        }
    }
}

fn extract_url(line: &[u8]) -> (r: Option<Vec<u8>>)
    ensures
        match r {
            Some(u) => extract_url_spec(line@) == Some(u@),
            None => extract_url_spec(line@) is None,
        },
{
    proof {
        lemma_first_byte(line@, 32, 0);
    }
    let sp = find_byte(line, 32, 0);
    if sp == line.len() {
        return None;
    }
    let rest = subvec(line, sp + 1, line.len());
    proof {
        lemma_first_sep(rest@, 0);
    }
    let sep = find_sep(rest.as_slice(), 0);
    if sep == rest.len() {
        return None;
    }
    let field = subvec(rest.as_slice(), 0, sep);
    Some(trim(field.as_slice()))
}

/// The success URL recorded on this line, if any: the line is trimmed; a
/// blank or comment line records nothing; a line beginning with the success
/// marker records the URL extracted from it.
pub open spec fn success_url_of_line(line: Seq<u8>) -> Option<Seq<u8>> {
    let t = trim_spec(line);
    if t.len() == 0 || t[0] == 35 || !starts_with(t, check_marker()) {
        None
    } else {
        extract_url_spec(t)
    }
}

/// All success URLs recorded in the text from position `pos` on, line by
/// line, in order, duplicates kept.
pub open spec fn success_urls_from(s: Seq<u8>, pos: int) -> Seq<Seq<u8>>
    decreases s.len() + 1 - pos,
    when 0 <= pos
    via success_urls_from_dec
{
    if pos >= s.len() {
        Seq::empty()
    } else {
        let e = next_nl(s, pos);
        let line = s.subrange(pos, e);
        let rest = success_urls_from(s, e + 1);
        match success_url_of_line(line) {
            Some(u) => seq![u] + rest,
            None => rest,
        }
    }
}

#[via_fn]
proof fn success_urls_from_dec(s: Seq<u8>, pos: int) {
    if 0 <= pos < s.len() {
        lemma_next_nl(s, pos);
    }
}

/// The success URLs recorded in a whole record text.
pub open spec fn success_urls_of(s: Seq<u8>) -> Seq<Seq<u8>> {
    success_urls_from(s, 0)
}

proof fn lemma_seq_contains_push<A>(s: Seq<A>, x: A, y: A)
    ensures
        s.push(x).contains(y) <==> s.contains(y) || x == y,
{
    if s.contains(y) {
        let i = choose|i: int| 0 <= i < s.len() && s[i] == y;
        assert(s.push(x)[i] == y);
    }
    assert(s.push(x)[s.len() as int] == x);
    if s.push(x).contains(y) {
        let i = choose|i: int| 0 <= i < s.push(x).len() && s.push(x)[i] == y;
        if i < s.len() {
            assert(s[i] == y);
        }
    }
}

/// The in-memory ledger: the record file's name and the set of URLs with a
/// prior success entry, without duplicates.
pub struct LinksManager {
    pub links_file_path: Vec<u8>,
    pub processed_links: Vec<Vec<u8>>,
}

impl LinksManager {
    /// The success set holds no duplicates.
    pub open spec fn wf(self) -> bool {
        forall|i: int, j: int|
            0 <= i < j < self.processed_links@.len() ==> self.processed_links@[i]@
                != self.processed_links@[j]@
    }

    /// The URL has a recorded success entry.
    pub open spec fn is_processed_spec(self, u: Seq<u8>) -> bool {
        views_of(self.processed_links@).contains(u)
    }

    /// Build the ledger for a record file with the given name, rebuilding
    /// the success set from the success-marked lines of the record text.
    /// Malformed lines are ignored; failure lines are not loaded.
    pub fn new(links_file_path: Vec<u8>, record_text: &[u8]) -> (r: Self)
        requires
            record_text@.len() < usize::MAX,
        ensures
            r.links_file_path == links_file_path,
            r.wf(),
            forall|u: Seq<u8>| r.is_processed_spec(u) <==> success_urls_of(record_text@).contains(u),
    {
        let n = record_text.len();
        let mut processed: Vec<Vec<u8>> = Vec::new();
        let mut pos: usize = 0;
        let ghost mut done: Seq<Seq<u8>> = Seq::empty();
        proof {
            assert(Seq::<Seq<u8>>::empty() + success_urls_from(record_text@, 0)
                =~= success_urls_from(record_text@, 0));
        }
        while pos < n
            invariant
                n == record_text@.len() < usize::MAX,
                pos <= n + 1,
                success_urls_of(record_text@) == done + success_urls_from(
                    record_text@,
                    pos as int,
                ),
                forall|u: Seq<u8>| views_of(processed@).contains(u) <==> done.contains(u),
                forall|i: int, j: int|
                    0 <= i < j < processed@.len() ==> processed@[i]@ != processed@[j]@,
            decreases n + 1 - pos,
        {
            let e = crate::chunker::find_newline(record_text, pos);
            let ghost linev = record_text@.subrange(pos as int, e as int);
            let ghost todo_here = success_urls_from(record_text@, pos as int);
            proof {
                assert(todo_here == match success_url_of_line(linev) {
                    Some(u) => seq![u] + success_urls_from(record_text@, e + 1 as int),
                    None => success_urls_from(record_text@, e + 1 as int),
                });
            }
            let line = subvec(record_text, pos, e);
            let t = trim(line.as_slice());
            let mut contributed: Option<Vec<u8>> = None;
            if t.len() == 0 || t[0] == 35 {
                proof {
                    assert(success_url_of_line(linev) is None);
                }
            } else if t.len() >= 3 && t[0] == 0xe2 && t[1] == 0x9c && t[2] == 0x85 {
                proof {
                    assert(t@.subrange(0, 3) =~= check_marker());
                    assert(starts_with(t@, check_marker()));
                }
                contributed = extract_url(t.as_slice());
                proof {
                    assert(success_url_of_line(linev) == extract_url_spec(t@));
                }
            } else {
                proof {
                    if starts_with(t@, check_marker()) {
                        assert(t@.subrange(0, 3)[0] == t@[0] && t@.subrange(0, 3)[1] == t@[1]
                            && t@.subrange(0, 3)[2] == t@[2]);
                        assert(t@[0] == 0xe2 && t@[1] == 0x9c && t@[2] == 0x85);
                    }
                    assert(success_url_of_line(linev) is None);
                }
            }
            match contributed {
                Some(u) => {
                    let ghost pre = processed@;
                    if !contains_bytes(&processed, u.as_slice()) {
                        proof {
                            lemma_views_of_push(pre, u);
                        }
                        processed.push(u);
                        proof {
                            assert forall|i: int, j: int|
                                0 <= i < j < processed@.len() implies processed@[i]@
                                != processed@[j]@ by {
                                if j < pre.len() {
                                } else {
                                    assert(processed@[j]@ == u@);
                                    assert(views_of(pre)[i] == pre[i]@);
                                    assert(!views_of(pre).contains(u@));
                                }
                            }
                            assert forall|x: Seq<u8>| views_of(processed@).contains(x)
                                <==> done.push(u@).contains(x) by {
                                lemma_seq_contains_push(views_of(pre), u@, x);
                                lemma_seq_contains_push(done, u@, x);
                            }
                        }
                    } else {
                        proof {
                            assert forall|x: Seq<u8>| views_of(processed@).contains(x)
                                <==> done.push(u@).contains(x) by {
                                lemma_seq_contains_push(done, u@, x);
                            }
                        }
                    }
                    proof {
                        assert(seq![u@] + success_urls_from(record_text@, e + 1 as int)
                            == todo_here);
                        assert(done + todo_here =~= done.push(u@) + success_urls_from(
                            record_text@,
                            e + 1 as int,
                        ));
                        done = done.push(u@);
                    }
                },
                None => {
                    proof {
                        assert(success_urls_from(record_text@, e + 1 as int) == todo_here);
                    }
                },
            }
            pos = e + 1;
        }
        proof {
            assert(success_urls_from(record_text@, pos as int) =~= Seq::<Seq<u8>>::empty());
            assert(done + Seq::<Seq<u8>>::empty() =~= done);
        }
        LinksManager { links_file_path, processed_links: processed }
    }

    /// Whether the URL has a recorded success entry.
    pub fn is_processed(&self, url: &[u8]) -> (r: bool)
        ensures
            r == self.is_processed_spec(url@),
    {
        contains_bytes(&self.processed_links, url)
    }

    /// The number of distinct URLs with a recorded success entry.
    pub fn get_processed_count(&self) -> (r: usize)
        ensures
            r == self.processed_links@.len(),
    {
        self.processed_links.len()
    }

    /// All URLs with a recorded success entry.
    pub fn get_all_processed_links(&self) -> (r: Vec<Vec<u8>>)
        ensures
            views_of(r@) == views_of(self.processed_links@),
    {
        let mut r: Vec<Vec<u8>> = Vec::new();
        let mut i: usize = 0;
        while i < self.processed_links.len()
            invariant
                i <= self.processed_links@.len(),
                views_of(r@) == views_of(self.processed_links@).subrange(0, i as int),
            decreases self.processed_links@.len() - i,
        {
            let ghost pre = r@;
            let u = copy_bytes(&self.processed_links[i]);
            proof {
                lemma_views_of_push(pre, u);
            }
            r.push(u);
            i = i + 1;
            proof {
                assert(views_of(r@) =~= views_of(self.processed_links@).subrange(0, i as int));
            }
        }
        proof {
            assert(views_of(self.processed_links@).subrange(
                0,
                self.processed_links@.len() as int,
            ) =~= views_of(self.processed_links@));
        }
        r
    }

    /// The URL recorded on a (trimmed) record line, if the line has the
    /// recorded form.
    pub fn extract_url_from_line(&self, line: &[u8]) -> (r: Option<Vec<u8>>)
        ensures
            match r {
                Some(u) => extract_url_spec(line@) == Some(u@),
                None => extract_url_spec(line@) is None,
            },
    {
        extract_url(line)
    }
}

/// Whether some element of the list equals these bytes.
fn contains_bytes(v: &Vec<Vec<u8>>, x: &[u8]) -> (r: bool)
    ensures
        r == views_of(v@).contains(x@),
{
    let mut i: usize = 0;
    while i < v.len()
        invariant
            i <= v@.len(),
            forall|j: int| 0 <= j < i ==> views_of(v@)[j] != x@,
        decreases v@.len() - i,
    {
        if bytes_eq(v[i].as_slice(), x) {
            proof {
                assert(views_of(v@)[i as int] == x@);
            }
            return true;
        }
        proof {
            assert(views_of(v@)[i as int] == v@[i as int]@);
        }
        i = i + 1;
    }
    proof {
        if views_of(v@).contains(x@) {
            let j = choose|j: int| 0 <= j < views_of(v@).len() && views_of(v@)[j] == x@;
            assert(views_of(v@)[j] != x@);
        }
    }
    false
}


/// A success record line: marker, URL, artifact name and timestamp,
/// separated by bars.
pub open spec fn success_line_spec(url: Seq<u8>, filename: Seq<u8>, ts: Seq<u8>) -> Seq<u8> {
    check_marker() + seq![32u8] + url + bytes_of_ascii(" | "@) + filename + bytes_of_ascii(" | "@)
        + ts + seq![10u8]
}

/// A failure record line: marker, URL, error text and timestamp.
pub open spec fn failure_line_spec(url: Seq<u8>, error: Seq<u8>, ts: Seq<u8>) -> Seq<u8> {
    cross_marker() + seq![32u8] + url + bytes_of_ascii(" | ERROR: "@) + error + bytes_of_ascii(
        " | "@,
    ) + ts + seq![10u8]
}

/// Render a success record line.
pub fn success_line(url: &[u8], filename: &[u8], timestamp: &[u8]) -> (r: Vec<u8>)
    ensures
        r@ == success_line_spec(url@, filename@, timestamp@),
{
    proof {
        reveal_strlit(" | ");
    }
    let sep = ascii_bytes(" | ");
    let mut r = check_marker_bytes();
    r.push(32);
    push_all(&mut r, url);
    push_all(&mut r, sep.as_slice());
    push_all(&mut r, filename);
    push_all(&mut r, sep.as_slice());
    push_all(&mut r, timestamp);
    r.push(10);
    proof {
        assert(r@ =~= success_line_spec(url@, filename@, timestamp@));
    }
    r
}

/// Render a failure record line.
pub fn failure_line(url: &[u8], error: &[u8], timestamp: &[u8]) -> (r: Vec<u8>)
    ensures
        r@ == failure_line_spec(url@, error@, timestamp@),
{
    proof {
        reveal_strlit(" | ");
        reveal_strlit(" | ERROR: ");
    }
    let sep = ascii_bytes(" | ");
    let err_sep = ascii_bytes(" | ERROR: ");
    let mut r = cross_marker_bytes();
    r.push(32);
    push_all(&mut r, url);
    push_all(&mut r, err_sep.as_slice());
    push_all(&mut r, error);
    push_all(&mut r, sep.as_slice());
    push_all(&mut r, timestamp);
    r.push(10);
    proof {
        assert(r@ =~= failure_line_spec(url@, error@, timestamp@));
    }
    r
}

impl LinksManager {
    /// Record a success for the URL at the given timestamp. When the URL is
    /// new, it enters the success set and the record line to append is
    /// returned; a URL with a prior success entry is left alone, so re-runs
    /// never duplicate a success entry.
    pub fn mark_as_processed_at(
        &mut self,
        url: &[u8],
        filename: &[u8],
        timestamp: &[u8],
    ) -> (r: Option<Vec<u8>>)
        requires
            old(self).wf(),
        ensures
            final(self).wf(),
            final(self).links_file_path == old(self).links_file_path,
            old(self).is_processed_spec(url@) ==> r is None && final(self).processed_links == old(
                self,
            ).processed_links,
            !old(self).is_processed_spec(url@) ==> (r matches Some(line) && line@
                == success_line_spec(url@, filename@, timestamp@)) && views_of(
                final(self).processed_links@,
            ) == views_of(old(self).processed_links@).push(url@),
            forall|u: Seq<u8>|
                final(self).is_processed_spec(u) <==> old(self).is_processed_spec(u) || u == url@,
    {
        if self.is_processed(url) {
            proof {
                assert forall|u: Seq<u8>|
                    self.is_processed_spec(u) <==> self.is_processed_spec(u) || u == url@ by {}
            }
            None
        } else {
            let ghost pre = self.processed_links@;
            let u = subvec(url, 0, url.len());
            proof {
                assert(u@ =~= url@);
                lemma_views_of_push(pre, u);
            }
            self.processed_links.push(u);
            proof {
                assert forall|i: int, j: int|
                    0 <= i < j < self.processed_links@.len() implies self.processed_links@[i]@
                    != self.processed_links@[j]@ by {
                    if j < pre.len() {
                    } else {
                        assert(self.processed_links@[j]@ == url@);
                        assert(views_of(pre)[i] == pre[i]@);
                        assert(!views_of(pre).contains(url@));
                    }
                }
                assert forall|x: Seq<u8>|
                    self.is_processed_spec(x) <==> views_of(pre).contains(x) || x == url@ by {
                    lemma_seq_contains_push(views_of(pre), url@, x);
                }
            }
            Some(success_line(url, filename, timestamp))
        }
    }

    /// Record a success for the URL at the current time. Relies on the
    /// clock only for the timestamp text inside the returned line.
    pub fn mark_as_processed(&mut self, url: &[u8], filename: &[u8]) -> (r: Option<Vec<u8>>)
        requires
            old(self).wf(),
        ensures
            final(self).wf(),
            final(self).links_file_path == old(self).links_file_path,
            old(self).is_processed_spec(url@) ==> r is None && final(self).processed_links == old(
                self,
            ).processed_links,
            !old(self).is_processed_spec(url@) ==> (r matches Some(line) && (exists|ts: Seq<u8>|
                line@ == success_line_spec(url@, filename@, ts))) && views_of(
                final(self).processed_links@,
            ) == views_of(old(self).processed_links@).push(url@),
            forall|u: Seq<u8>|
                final(self).is_processed_spec(u) <==> old(self).is_processed_spec(u) || u == url@,
    {
        let ts = crate::clock::current_timestamp_text();
        let r = self.mark_as_processed_at(url, filename, ts.as_slice());
        proof {
            if r is Some {
                assert(r->0@ == success_line_spec(url@, filename@, ts@));
            }
        }
        r
    }

    /// Render the failure record line for the URL at the given timestamp.
    /// Failures are log-only: the success set is untouched, so the URL will
    /// be reattempted on a future run.
    pub fn mark_as_failed_at(&self, url: &[u8], error: &[u8], timestamp: &[u8]) -> (r: Vec<u8>)
        ensures
            r@ == failure_line_spec(url@, error@, timestamp@),
    {
        failure_line(url, error, timestamp)
    }

    /// Render the failure record line for the URL at the current time.
    pub fn mark_as_failed(&self, url: &[u8], error: &[u8]) -> (r: Vec<u8>)
        ensures
            exists|ts: Seq<u8>| r@ == failure_line_spec(url@, error@, ts),
    {
        let ts = crate::clock::current_timestamp_text();
        let r = self.mark_as_failed_at(url, error, ts.as_slice());
        proof {
            assert(r@ == failure_line_spec(url@, error@, ts@));
        }
        r
    }

    /// Keep, in order, exactly the URLs without a prior success entry.
    pub fn filter_unprocessed_urls(&self, urls: Vec<Vec<u8>>) -> (r: Vec<Vec<u8>>)
        ensures
            views_of(r@) == views_of(urls@).filter(
                |u: Seq<u8>| !views_of(self.processed_links@).contains(u),
            ),
    {
        let ghost p = |u: Seq<u8>| !views_of(self.processed_links@).contains(u);
        let mut r: Vec<Vec<u8>> = Vec::new();
        proof {
            reveal(Seq::filter);
            assert(views_of(r@) =~= views_of(urls@).subrange(0, 0).filter(p));
        }
        let mut i: usize = 0;
        while i < urls.len()
            invariant
                i <= urls@.len(),
                p == (|u: Seq<u8>| !views_of(self.processed_links@).contains(u)),
                views_of(r@) == views_of(urls@).subrange(0, i as int).filter(p),
            decreases urls@.len() - i,
        {
            let ghost prefix = views_of(urls@).subrange(0, i as int);
            proof {
                reveal(Seq::filter);
                assert(views_of(urls@).subrange(0, i + 1 as int) =~= prefix.push(
                    urls@[i as int]@,
                ));
                assert(prefix.push(urls@[i as int]@).drop_last() =~= prefix);
            }
            if !contains_bytes(&self.processed_links, urls[i].as_slice()) {
                let ghost pre = r@;
                let u = copy_bytes(&urls[i]);
                proof {
                    lemma_views_of_push(pre, u);
                }
                r.push(u);
            }
            i = i + 1;
        }
        proof {
            assert(views_of(urls@).subrange(0, urls@.len() as int) =~= views_of(urls@));
        }
        r
    }

    /// Render the whole export of the success set at the given timestamp.
    pub fn render_export(&self, timestamp: &[u8]) -> (r: Vec<u8>)
        ensures
            r@ == export_spec(views_of(self.processed_links@), timestamp@),
    {
        proof {
            reveal_strlit("# Processed Links Export\n# Exported on: ");
            reveal_strlit("\n# Total links: ");
            reveal_strlit("\n\n");
        }
        let mut r = ascii_bytes("# Processed Links Export\n# Exported on: ");
        push_all(&mut r, timestamp);
        let part2 = ascii_bytes("\n# Total links: ");
        push_all(&mut r, part2.as_slice());
        let count = usize_to_decimal(self.processed_links.len());
        push_all(&mut r, count.as_slice());
        let part3 = ascii_bytes("\n\n");
        push_all(&mut r, part3.as_slice());
        let ghost head = r@;
        let mut i: usize = 0;
        while i < self.processed_links.len()
            invariant
                i <= self.processed_links@.len(),
                r@ == head + url_lines(views_of(self.processed_links@).subrange(0, i as int)),
            decreases self.processed_links@.len() - i,
        {
            proof {
                lemma_url_lines_step(views_of(self.processed_links@), i as int);
            }
            push_all(&mut r, self.processed_links[i].as_slice());
            r.push(10);
            i = i + 1;
            proof {
                assert(r@ =~= head + url_lines(
                    views_of(self.processed_links@).subrange(0, i as int),
                ));
            }
        }
        proof {
            assert(views_of(self.processed_links@).subrange(
                0,
                self.processed_links@.len() as int,
            ) =~= views_of(self.processed_links@));
            assert(r@ =~= export_spec(views_of(self.processed_links@), timestamp@));
        }
        r
    }
}

/// Each URL on a line of its own.
pub open spec fn url_lines(links: Seq<Seq<u8>>) -> Seq<u8>
    decreases links.len(),
{
    if links.len() == 0 {
        Seq::empty()
    } else {
        links.first() + seq![10u8] + url_lines(links.drop_first())
    }
}

proof fn lemma_url_lines_step(links: Seq<Seq<u8>>, i: int)
    requires
        0 <= i < links.len(),
    ensures
        url_lines(links.subrange(0, i + 1)) == url_lines(links.subrange(0, i)) + (links[i]
            + seq![10u8]),
    decreases i,
{
    if i == 0 {
        assert(links.subrange(0, 1).first() == links[0]);
        assert(links.subrange(0, 1).drop_first() =~= Seq::<Seq<u8>>::empty());
        assert(url_lines(links.subrange(0, 1)) == links[0] + seq![10u8] + url_lines(
            Seq::<Seq<u8>>::empty(),
        ));
        assert(url_lines(links.subrange(0, 0)) =~= Seq::<u8>::empty());
        assert(links[0] + seq![10u8] + Seq::<u8>::empty() =~= Seq::<u8>::empty() + (links[0]
            + seq![10u8]));
    } else {
        lemma_url_lines_step(links.drop_first(), i - 1);
        assert(links.subrange(0, i + 1).first() == links.first());
        assert(links.subrange(0, i + 1).drop_first() =~= links.drop_first().subrange(0, i));
        assert(links.subrange(0, i).first() == links.first());
        assert(links.subrange(0, i).drop_first() =~= links.drop_first().subrange(0, i - 1));
        assert(links.drop_first()[i - 1] == links[i]);
        assert(links.first() + seq![10u8] + (url_lines(links.drop_first().subrange(0, i - 1))
            + (links[i] + seq![10u8])) =~= (links.first() + seq![10u8] + url_lines(
            links.drop_first().subrange(0, i - 1),
        )) + (links[i] + seq![10u8]));
    }
}

/// The export text: a header with the timestamp and the count, then each
/// URL on a line of its own.
pub open spec fn export_spec(links: Seq<Seq<u8>>, ts: Seq<u8>) -> Seq<u8> {
    bytes_of_ascii("# Processed Links Export\n# Exported on: "@) + ts + bytes_of_ascii(
        "\n# Total links: "@,
    ) + decimal_of(links.len()) + bytes_of_ascii("\n\n"@) + url_lines(links)
}

/// The header of a fresh record file, at the given creation timestamp.
pub open spec fn header_spec(ts: Seq<u8>) -> Seq<u8> {
    bytes_of_ascii("# Links Processing Record\n# Generated on: "@) + ts + bytes_of_ascii(
        "\n# Format: "@,
    ) + check_marker() + bytes_of_ascii(" URL | filename\n# "@) + cross_marker() + bytes_of_ascii(
        " URL | ERROR: error_message\n\n"@,
    )
}

/// Render the header of a fresh record file.
pub fn render_links_file_header(timestamp: &[u8]) -> (r: Vec<u8>)
    ensures
        r@ == header_spec(timestamp@),
{
    proof {
        reveal_strlit("# Links Processing Record\n# Generated on: ");
        reveal_strlit("\n# Format: ");
        reveal_strlit(" URL | filename\n# ");
        reveal_strlit(" URL | ERROR: error_message\n\n");
    }
    let mut r = ascii_bytes("# Links Processing Record\n# Generated on: ");
    push_all(&mut r, timestamp);
    let p2 = ascii_bytes("\n# Format: ");
    push_all(&mut r, p2.as_slice());
    let cm = check_marker_bytes();
    push_all(&mut r, cm.as_slice());
    let p3 = ascii_bytes(" URL | filename\n# ");
    push_all(&mut r, p3.as_slice());
    let xm = cross_marker_bytes();
    push_all(&mut r, xm.as_slice());
    let p4 = ascii_bytes(" URL | ERROR: error_message\n\n");
    push_all(&mut r, p4.as_slice());
    proof {
        assert(r@ =~= header_spec(timestamp@));
    }
    r
}

/// Dots replaced by underscores, as in the record file's name.
pub open spec fn dots_to_underscores(s: Seq<u8>) -> Seq<u8> {
    s.map_values(|b: u8| if b == 46 { 95u8 } else { b })
}

/// The name of the record file for a site: its host, dots replaced by
/// underscores, with a fixed suffix.
pub fn links_file_name(url: &[u8]) -> (r: Result<Vec<u8>, Error>)
    ensures
        match url_host_of(url@) {
            Some(h) => r matches Ok(name) && name@ == dots_to_underscores(h) + bytes_of_ascii(
                "_links.txt"@,
            ),
            None => crate::config::is_config_err(r, "invalid URL or missing host"@),
        },
{
    let domain = match extract_domain(url) {
        Ok(d) => d,
        Err(e) => {
            return Err(e);
        },
    };
    let mut name: Vec<u8> = Vec::new();
    let mut i: usize = 0;
    while i < domain.len()
        invariant
            i <= domain@.len(),
            name@ == dots_to_underscores(domain@.subrange(0, i as int)),
        decreases domain@.len() - i,
    {
        let b = domain[i];
        if b == 46 {
            name.push(95);
        } else {
            name.push(b);
        }
        i = i + 1;
        proof {
            assert(name@ =~= dots_to_underscores(domain@.subrange(0, i as int)));
        }
    }
    proof {
        reveal_strlit("_links.txt");
        assert(domain@.subrange(0, domain@.len() as int) =~= domain@);
    }
    let suffix = ascii_bytes("_links.txt");
    push_all(&mut name, suffix.as_slice());
    Ok(name)
}

/// Idempotent resume: the filtered list holds a URL exactly when the input
/// list holds it and the ledger has no success entry for it.
pub proof fn lemma_filter_unprocessed_complement(
    lm: LinksManager,
    urls: Seq<Seq<u8>>,
    filtered: Seq<Seq<u8>>,
)
    requires
        filtered == urls.filter(|x: Seq<u8>| !views_of(lm.processed_links@).contains(x)),
    ensures
        forall|u: Seq<u8>|
            #[trigger] filtered.contains(u) <==> urls.contains(u) && !lm.is_processed_spec(u),
{
    let p = |x: Seq<u8>| !views_of(lm.processed_links@).contains(x);
    let f = filtered;
    assert forall|u: Seq<u8>| #[trigger] f.contains(u) implies urls.contains(u) && !lm.is_processed_spec(
        u,
    ) by {
        urls.lemma_filter_contains_rev(p, u);
        let i = choose|i: int| 0 <= i < f.len() && f[i] == u;
        urls.lemma_filter_pred(p, i);
    }
    assert forall|u: Seq<u8>| urls.contains(u) && !lm.is_processed_spec(u) implies #[trigger] f.contains(
        u,
    ) by {
        let i = choose|i: int| 0 <= i < urls.len() && urls[i] == u;
        urls.lemma_filter_contains(p, i);
    }
}

} // verus!
