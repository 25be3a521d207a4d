//! Structure-aware text chunker.
//!
//! Splits a document into pieces under a byte budget while keeping fenced
//! code blocks whole and preferring paragraph and sentence boundaries.
//! A fenced code block is delimited by lines whose trimmed content begins
//! with three backticks; an unterminated fence is treated as closed at the
//! end of the document.

use vstd::prelude::*;

use crate::text::{
    all_ws, contains_seq, is_blank, is_ws, is_ws_byte, lemma_contains_extend_left,
    lemma_contains_extend_right, lemma_contains_self, lemma_contains_subrange,
    lemma_non_ws_all_ws, lemma_non_ws_concat, lemma_non_ws_of_all_concat,
    lemma_non_ws_of_all_push, lemma_trim_ends, lemma_trim_front_subrange, lemma_trim_non_ws,
    lemma_views_of_push, non_ws, non_ws_of_all, starts_with, subvec, trim, trim_front, trim_spec,
    views_of,
};
use crate::types::{seg_views, TextSegment};

verus! {

/// Index of the first line feed at or after `i`, or the length of the text.
pub open spec fn next_nl(s: Seq<u8>, i: int) -> int
    decreases s.len() - i,
{
    if i >= s.len() {
        s.len() as int
    } else if s[i] == 10 {
        i
    } else {
        next_nl(s, i + 1)
    }
}

pub proof fn lemma_next_nl(s: Seq<u8>, i: int)
    requires
        0 <= i <= s.len(),
    ensures
        i <= next_nl(s, i) <= s.len(),
        forall|j: int| i <= j < next_nl(s, i) ==> s[j] != 10,
        next_nl(s, i) < s.len() ==> s[next_nl(s, i)] == 10,
    decreases s.len() - i,
{
    if i < s.len() && s[i] != 10 {
        lemma_next_nl(s, i + 1);
    }
}

/// The three-backtick fence marker.
pub open spec fn fence_marker() -> Seq<u8> {
    seq![96u8, 96u8, 96u8]
}

/// A line opens or closes a fenced code block when its trimmed content
/// begins with the fence marker.
pub open spec fn is_fence_line(line: Seq<u8>) -> bool {
    starts_with(trim_front(line), fence_marker())
}

/// Scan the document line by line from `pos` (a line start), pairing fence
/// lines into code-block byte ranges. `open_start` is the start of the
/// fence line that opened the current block, if one is open. An
/// unterminated block is closed at the end of the document.
pub open spec fn fence_scan(s: Seq<u8>, pos: int, open_start: Option<int>) -> Seq<(int, int)>
    decreases s.len() + 1 - pos,
    when 0 <= pos
    via fence_scan_dec
{
    if pos >= s.len() {
        match open_start {
            Some(st) => seq![(st, s.len() as int)],
            None => Seq::empty(),
        }
    } else {
        let e = next_nl(s, pos);
        let line = s.subrange(pos, e);
        if is_fence_line(line) {
            match open_start {
                Some(st) => seq![(st, e)] + fence_scan(s, e + 1, None),
                None => fence_scan(s, e + 1, Some(pos)),
            }
        } else {
            fence_scan(s, e + 1, open_start)
        }
    }
}

#[via_fn]
proof fn fence_scan_dec(s: Seq<u8>, pos: int, open_start: Option<int>) {
    if 0 <= pos < s.len() {
        lemma_next_nl(s, pos);
    }
}

/// The fenced code blocks of a document, as byte ranges.
pub open spec fn code_blocks_of(s: Seq<u8>) -> Seq<(int, int)> {
    fence_scan(s, 0, None)
}

/// Blocks are non-empty in-bounds ranges starting at or after `lo`,
/// in order and disjoint.
pub open spec fn blocks_wf(bs: Seq<(int, int)>, lo: int, len: int) -> bool {
    &&& forall|i: int| 0 <= i < bs.len() ==> lo <= (#[trigger] bs[i]).0 < bs[i].1 <= len
    &&& forall|i: int| 0 <= i && i + 1 < bs.len() ==> (#[trigger] bs[i]).1 < bs[i + 1].0
}

pub proof fn lemma_fence_scan_wf(s: Seq<u8>, pos: int, open_start: Option<int>)
    requires
        0 <= pos,
        open_start is Some ==> 0 <= open_start->0 < pos && open_start->0 < s.len(),
    ensures
        blocks_wf(
            fence_scan(s, pos, open_start),
            match open_start {
                Some(st) => st,
                None => pos,
            },
            s.len() as int,
        ),
    decreases s.len() + 1 - pos,
{
    if pos >= s.len() {
    } else {
        lemma_next_nl(s, pos);
        let e = next_nl(s, pos);
        let line = s.subrange(pos, e);
        if is_fence_line(line) {
            match open_start {
                Some(st) => {
                    lemma_fence_scan_wf(s, e + 1, None);
                    let rest = fence_scan(s, e + 1, None);
                    let all = seq![(st, e)] + rest;
                    assert forall|i: int| 0 <= i < all.len() implies st <= #[trigger] all[i].0
                        < all[i].1 <= s.len() by {
                        if i > 0 {
                            assert(all[i] == rest[i - 1]);
                        }
                    }
                    assert forall|i: int| 0 <= i && i + 1 < all.len() implies #[trigger] all[i].1
                        < all[i + 1].0 by {
                        assert(all.len() == 1 + rest.len());
                        if i > 0 {
                            assert(all[i] == rest[i - 1]);
                            assert(all[i + 1] == rest[i]);
                        } else {
                            assert(all[0] == (st, e));
                            assert(all[1] == rest[0]);
                            assert(e + 1 <= rest[0].0);
                        }
                    }
                },
                None => {
                    lemma_fence_scan_wf(s, e + 1, Some(pos));
                },
            }
        } else {
            lemma_fence_scan_wf(s, e + 1, open_start);
        }
    }
}

pub proof fn lemma_code_blocks_wf(s: Seq<u8>)
    ensures
        blocks_wf(code_blocks_of(s), 0, s.len() as int),
{
    lemma_fence_scan_wf(s, 0, None);
}

/// The integer view of an executable list of byte ranges.
pub open spec fn blocks_view(v: Seq<(usize, usize)>) -> Seq<(int, int)> {
    v.map_values(|p: (usize, usize)| (p.0 as int, p.1 as int))
}

spec fn opt_view(o: Option<usize>) -> Option<int> {
    match o {
        Some(u) => Some(u as int),
        None => None,
    }
}

/// Index of the first line feed at or after `from`, or the text length.
pub fn find_newline(s: &[u8], from: usize) -> (r: usize)
    requires
        from <= s@.len(),
    ensures
        r == next_nl(s@, from as int),
        from <= r <= s@.len(),
{
    let mut i: usize = from;
    while i < s.len() && s[i] != 10
        invariant
            from <= i <= s@.len(),
            next_nl(s@, from as int) == next_nl(s@, i as int),
        decreases s@.len() - i,
    {
        i = i + 1;
    }
    proof {
        lemma_next_nl(s@, i as int);
    }
    i
}

/// Whether the line `[start, end)` of the text is a fence line.
fn line_is_fence(s: &[u8], start: usize, end: usize) -> (r: bool)
    requires
        start <= end <= s@.len(),
    ensures
        r == is_fence_line(s@.subrange(start as int, end as int)),
{
    let ghost line = s@.subrange(start as int, end as int);
    let mut i: usize = start;
    while i < end && is_ws_byte(s[i])
        invariant
            start <= i <= end <= s@.len(),
            line == s@.subrange(start as int, end as int),
            forall|j: int| 0 <= j < i - start ==> is_ws(line[j]),
        decreases end - i,
    {
        proof {
            assert(line[i - start as int] == s@[i as int]);
        }
        i = i + 1;
    }
    proof {
        assert(i < end ==> line[i - start as int] == s@[i as int]);
        lemma_trim_front_subrange(line, i - start as int);
        assert(trim_front(line) == line.subrange(i - start as int, line.len() as int));
    }
    let ghost tf = trim_front(line);
    if end - i >= 3 && s[i] == 96 && s[i + 1] == 96 && s[i + 2] == 96 {
        proof {
            assert(tf.len() >= 3);
            assert(tf[0] == s@[i as int] && tf[1] == s@[i + 1 as int] && tf[2] == s@[
                i + 2 as int
            ]);
            assert(tf.subrange(0, 3) =~= fence_marker());
        }
        true
    } else {
        proof {
            if starts_with(tf, fence_marker()) {
                assert(tf.len() >= 3);
                assert(tf.subrange(0, 3)[0] == tf[0] && tf.subrange(0, 3)[1] == tf[1]
                    && tf.subrange(0, 3)[2] == tf[2]);
                assert(tf[0] == 96u8 && tf[1] == 96u8 && tf[2] == 96u8);
                assert(tf[0] == s@[i as int]);
                assert(i + 2 < end);
            }
        }
        false
    }
}

/// Identify the fenced code blocks of a document as byte ranges,
/// exactly as `code_blocks_of` describes them.
pub fn identify_code_blocks(text: &[u8]) -> (r: Vec<(usize, usize)>)
    requires
        text@.len() < usize::MAX,
    ensures
        blocks_view(r@) == code_blocks_of(text@),
        blocks_wf(blocks_view(r@), 0, text@.len() as int),
{
    let n = text.len();
    let mut r: Vec<(usize, usize)> = Vec::new();
    let mut pos: usize = 0;
    let mut open_start: Option<usize> = None;
    while pos < n
        invariant
            n == text@.len() < usize::MAX,
            pos <= n + 1,
            open_start is Some ==> open_start->0 < pos && open_start->0 < n,
            code_blocks_of(text@) == blocks_view(r@) + fence_scan(
                text@,
                pos as int,
                opt_view(open_start),
            ),
        decreases n + 1 - pos,
    {
        let e = find_newline(text, pos);
        let fence = line_is_fence(text, pos, e);
        let ghost pre = r@;
        let ghost scan_here = fence_scan(text@, pos as int, opt_view(open_start));
        if fence {
            match open_start {
                Some(st) => {
                    r.push((st, e));
                    open_start = None;
                    proof {
                        assert(scan_here == seq![(st as int, e as int)] + fence_scan(
                            text@,
                            e + 1 as int,
                            None,
                        ));
                        assert(blocks_view(r@) =~= blocks_view(pre).push((st as int, e as int)));
                        assert(blocks_view(pre) + scan_here =~= blocks_view(r@) + fence_scan(
                            text@,
                            e + 1 as int,
                            None,
                        ));
                    }
                },
                None => {
                    open_start = Some(pos);
                    proof {
                        assert(scan_here == fence_scan(text@, e + 1 as int, Some(pos as int)));
                    }
                },
            }
        } else {
            proof {
                assert(scan_here == fence_scan(text@, e + 1 as int, opt_view(open_start)));
            }
        }
        pos = e + 1;
    }
    let ghost scan_end = fence_scan(text@, pos as int, opt_view(open_start));
    match open_start {
        Some(st) => {
            let ghost pre = r@;
            r.push((st, n));
            proof {
                assert(scan_end =~= seq![(st as int, n as int)]);
                assert(blocks_view(r@) =~= blocks_view(pre).push((st as int, n as int)));
                assert(blocks_view(pre) + scan_end =~= blocks_view(r@));
            }
        },
        None => {
            proof {
                assert(scan_end =~= Seq::<(int, int)>::empty());
                assert(blocks_view(r@) + scan_end =~= blocks_view(r@));
            }
        },
    }
    proof {
        lemma_code_blocks_wf(text@);
    }
    r
}


/// The bytes of a block range of a document.
pub open spec fn block_content(s: Seq<u8>, b: (int, int)) -> Seq<u8> {
    s.subrange(b.0, b.1)
}

/// Some segment is a code block with exactly this content.
pub open spec fn seg_has_code(segs: Seq<TextSegment>, c: Seq<u8>) -> bool {
    exists|j: int|
        0 <= j < segs.len() && (#[trigger] segs[j]).is_code_block && segs[j].content@ == c
}

/// The content equals the content of one of the given blocks.
pub open spec fn matches_some_block(bs: Seq<(int, int)>, s: Seq<u8>, c: Seq<u8>) -> bool {
    exists|k: int| 0 <= k < bs.len() && block_content(s, #[trigger] bs[k]) == c
}

/// The content and kind of each segment, in order.
pub open spec fn seg_pairs(segs: Seq<TextSegment>) -> Seq<(Seq<u8>, bool)> {
    segs.map_values(|t: TextSegment| (t.content@, t.is_code_block))
}

/// The exact segmentation of the document by the given block ranges, from
/// byte `from` on: before each code block its prose gap (dropped when it is
/// entirely whitespace), then the block's bytes verbatim as a code segment,
/// and after the last block the trailing prose (dropped when it is entirely
/// whitespace). Segments are contiguous subranges of the document, in
/// document order, covering it except the dropped all-whitespace gaps.
pub open spec fn segs_of(text: Seq<u8>, bs: Seq<(int, int)>, from: int) -> Seq<(Seq<u8>, bool)>
    decreases bs.len(),
{
    if bs.len() == 0 {
        if from < text.len() && !all_ws(text.subrange(from, text.len() as int)) {
            seq![(text.subrange(from, text.len() as int), false)]
        } else {
            Seq::empty()
        }
    } else {
        let b = bs.first();
        let gap = text.subrange(from, b.0);
        let pre: Seq<(Seq<u8>, bool)> = if b.0 > from && !all_ws(gap) {
            seq![(gap, false)]
        } else {
            Seq::empty()
        };
        pre + seq![(text.subrange(b.0, b.1), true)] + segs_of(text, bs.drop_first(), b.1)
    }
}

proof fn lemma_seg_pairs_push(segs: Seq<TextSegment>, t: TextSegment)
    ensures
        seg_pairs(segs.push(t)) == seg_pairs(segs).push((t.content@, t.is_code_block)),
{
    assert(seg_pairs(segs.push(t)) =~= seg_pairs(segs).push((t.content@, t.is_code_block)));
}

/// The contents of a pair segmentation, in order.
pub open spec fn pair_contents(ps: Seq<(Seq<u8>, bool)>) -> Seq<Seq<u8>> {
    ps.map_values(|p: (Seq<u8>, bool)| p.0)
}

/// Some pair is a code segment with exactly this content.
pub open spec fn pair_has_code(ps: Seq<(Seq<u8>, bool)>, c: Seq<u8>) -> bool {
    exists|j: int| 0 <= j < ps.len() && #[trigger] ps[j] == (c, true)
}

proof fn lemma_non_ws_of_all_single(p: Seq<u8>)
    ensures
        non_ws_of_all(seq![p]) == non_ws(p),
{
    assert(seq![p].drop_first() =~= Seq::<Seq<u8>>::empty());
    assert(non_ws_of_all(Seq::<Seq<u8>>::empty()) == Seq::<u8>::empty());
    assert(non_ws_of_all(seq![p]) =~= non_ws(p));
}

proof fn lemma_non_ws_of_all_two(a: Seq<u8>, b: Seq<u8>)
    ensures
        non_ws_of_all(seq![a, b]) == non_ws(a) + non_ws(b),
{
    assert(seq![a, b].drop_first() =~= seq![b]);
    lemma_non_ws_of_all_single(b);
    assert(non_ws_of_all(seq![a, b]) == non_ws(a) + non_ws(b));
}

/// Blocks later in a well-formed list start after the first block ends.
proof fn lemma_blocks_chain(bs: Seq<(int, int)>, lo: int, len: int, j: int)
    requires
        blocks_wf(bs, lo, len),
        0 < j < bs.len(),
    ensures
        bs[0].1 < bs[j].0,
    decreases j,
{
    if j > 1 {
        lemma_blocks_chain(bs, lo, len, j - 1);
        assert(bs[j - 1].1 < bs[j].0);
    }
}

/// Dropping the first block keeps the list well formed, from its end on.
proof fn lemma_blocks_wf_drop_first(bs: Seq<(int, int)>, lo: int, len: int)
    requires
        blocks_wf(bs, lo, len),
        bs.len() > 0,
    ensures
        blocks_wf(bs.drop_first(), bs.first().1, len),
{
    let rest = bs.drop_first();
    assert(forall|i: int| 0 <= i < rest.len() ==> #[trigger] rest[i] == bs[i + 1]);
    assert forall|i: int| 0 <= i < rest.len() implies bs.first().1 <= (#[trigger] rest[i]).0
        < rest[i].1 <= len by {
        lemma_blocks_chain(bs, lo, len, i + 1);
    }
    assert forall|i: int| 0 <= i && i + 1 < rest.len() implies (#[trigger] rest[i]).1 < rest[i
        + 1].0 by {
        assert(rest[i] == bs[i + 1] && rest[i + 1] == bs[i + 2]);
    }
}

/// The non-whitespace bytes of the segmentation are exactly those of the
/// document from `from` on: dropped gaps are all whitespace.
proof fn lemma_segs_of_non_ws(text: Seq<u8>, bs: Seq<(int, int)>, from: int)
    requires
        0 <= from <= text.len(),
        blocks_wf(bs, from, text.len() as int),
    ensures
        non_ws_of_all(pair_contents(segs_of(text, bs, from))) == non_ws(
            text.subrange(from, text.len() as int),
        ),
    decreases bs.len(),
{
    let n = text.len() as int;
    let whole = segs_of(text, bs, from);
    if bs.len() == 0 {
        let tail = text.subrange(from, n);
        if from < n && !all_ws(tail) {
            assert(pair_contents(whole) =~= seq![tail]);
            lemma_non_ws_of_all_single(tail);
        } else {
            assert(pair_contents(whole) =~= Seq::<Seq<u8>>::empty());
            lemma_non_ws_all_ws(tail);
            if from == n {
                assert(all_ws(tail));
            }
            assert(non_ws(tail) =~= Seq::<u8>::empty());
        }
    } else {
        let b = bs.first();
        let gap = text.subrange(from, b.0);
        let code = text.subrange(b.0, b.1);
        let dropped = !(b.0 > from && !all_ws(gap));
        let pre: Seq<(Seq<u8>, bool)> = if dropped {
            Seq::empty()
        } else {
            seq![(gap, false)]
        };
        lemma_blocks_wf_drop_first(bs, from, n);
        lemma_segs_of_non_ws(text, bs.drop_first(), b.1);
        let rest = segs_of(text, bs.drop_first(), b.1);
        assert(whole == pre + seq![(code, true)] + rest);
        assert(text.subrange(from, n) =~= gap + code + text.subrange(b.1, n));
        lemma_non_ws_concat(gap + code, text.subrange(b.1, n));
        lemma_non_ws_concat(gap, code);
        assert(pair_contents(whole) =~= pair_contents(pre + seq![(code, true)]) + pair_contents(
            rest,
        ));
        lemma_non_ws_of_all_concat(pair_contents(pre + seq![(code, true)]), pair_contents(rest));
        if dropped {
            lemma_non_ws_all_ws(gap);
            if b.0 == from {
                assert(all_ws(gap));
            }
            assert(non_ws(gap) =~= Seq::<u8>::empty());
            assert(pair_contents(pre + seq![(code, true)]) =~= seq![code]);
            lemma_non_ws_of_all_single(code);
            assert(non_ws(gap) + non_ws(code) =~= non_ws(code));
        } else {
            assert(pair_contents(pre + seq![(code, true)]) =~= seq![gap, code]);
            lemma_non_ws_of_all_two(gap, code);
        }
        assert((non_ws(gap) + non_ws(code)) + non_ws(text.subrange(b.1, n)) =~= non_ws(gap)
            + non_ws(code) + non_ws(text.subrange(b.1, n)));
    }
}

/// The block-related guarantees of the segmentation: every block appears as
/// a code segment; every code segment is a block's content; prose segments
/// are never all whitespace; and every content fits the document.
proof fn lemma_segs_of_blocks(text: Seq<u8>, bs: Seq<(int, int)>, from: int)
    requires
        0 <= from <= text.len(),
        blocks_wf(bs, from, text.len() as int),
    ensures
        forall|k: int|
            0 <= k < bs.len() ==> pair_has_code(
                segs_of(text, bs, from),
                block_content(text, #[trigger] bs[k]),
            ),
        forall|j: int|
            0 <= j < segs_of(text, bs, from).len() && (#[trigger] segs_of(text, bs, from)[j]).1
                ==> matches_some_block(bs, text, segs_of(text, bs, from)[j].0),
        forall|j: int|
            0 <= j < segs_of(text, bs, from).len() && !(#[trigger] segs_of(text, bs, from)[j]).1
                ==> !all_ws(segs_of(text, bs, from)[j].0),
        forall|j: int|
            0 <= j < segs_of(text, bs, from).len() ==> (#[trigger] segs_of(
                text,
                bs,
                from,
            )[j]).0.len() <= text.len(),
    decreases bs.len(),
{
    let n = text.len() as int;
    let whole = segs_of(text, bs, from);
    if bs.len() == 0 {
    } else {
        let b = bs.first();
        let gap = text.subrange(from, b.0);
        let code = text.subrange(b.0, b.1);
        let dropped = !(b.0 > from && !all_ws(gap));
        let pre: Seq<(Seq<u8>, bool)> = if dropped {
            Seq::empty()
        } else {
            seq![(gap, false)]
        };
        lemma_blocks_wf_drop_first(bs, from, n);
        lemma_segs_of_blocks(text, bs.drop_first(), b.1);
        let rest_bs = bs.drop_first();
        let rest = segs_of(text, rest_bs, b.1);
        assert(whole == pre + seq![(code, true)] + rest);
        assert forall|k: int| 0 <= k < bs.len() implies pair_has_code(
            whole,
            block_content(text, #[trigger] bs[k]),
        ) by {
            if k == 0 {
                assert(whole[pre.len() as int] == (code, true));
            } else {
                assert(bs[k] == rest_bs[k - 1]);
                assert(pair_has_code(rest, block_content(text, rest_bs[k - 1])));
                let j = choose|j: int|
                    0 <= j < rest.len() && #[trigger] rest[j] == (
                    block_content(text, rest_bs[k - 1]),
                    true,
                    );
                assert(whole[pre.len() + 1 + j] == rest[j]);
            }
        }
        assert forall|j: int| 0 <= j < whole.len() implies ((#[trigger] whole[j]).1
            ==> matches_some_block(bs, text, whole[j].0)) && (!whole[j].1 ==> !all_ws(whole[j].0))
            && whole[j].0.len() <= text.len() by {
            if j < pre.len() {
                assert(whole[j] == (gap, false));
            } else if j == pre.len() {
                assert(whole[j] == (code, true));
                assert(block_content(text, bs[0]) == code);
            } else {
                let jr = j - pre.len() - 1;
                assert(whole[j] == rest[jr]);
                if rest[jr].1 {
                    assert(matches_some_block(rest_bs, text, rest[jr].0));
                    let k = choose|k: int|
                        0 <= k < rest_bs.len() && block_content(text, #[trigger] rest_bs[k])
                            == rest[jr].0;
                    assert(rest_bs[k] == bs[k + 1]);
                }
            }
        }
    }
}

/// Partition the document into prose and code-block segments according to
/// the given block ranges: exactly the segmentation `segs_of` describes,
/// so the segments are verbatim contiguous subranges of the document, in
/// document order, covering it except the dropped all-whitespace prose
/// gaps, with one code segment per block. The non-whitespace bytes of the
/// segments are therefore exactly those of the document.
pub fn split_by_code_blocks(text: &[u8], code_blocks: &Vec<(usize, usize)>) -> (r: Vec<
    TextSegment,
>)
    requires
        blocks_wf(blocks_view(code_blocks@), 0, text@.len() as int),
    ensures
        seg_pairs(r@) == segs_of(text@, blocks_view(code_blocks@), 0),
        non_ws_of_all(seg_views(r@)) == non_ws(text@),
        forall|k: int|
            0 <= k < code_blocks@.len() ==> seg_has_code(
                r@,
                block_content(text@, #[trigger] blocks_view(code_blocks@)[k]),
            ),
        forall|j: int|
            0 <= j < r@.len() && (#[trigger] r@[j]).is_code_block ==> matches_some_block(
                blocks_view(code_blocks@),
                text@,
                r@[j].content@,
            ),
        forall|j: int| 0 <= j < r@.len() && !(#[trigger] r@[j]).is_code_block ==> !all_ws(r@[j].content@),
        forall|j: int| 0 <= j < r@.len() ==> (#[trigger] r@[j]).content@.len() <= text@.len(),
{
    let n = text.len();
    let ghost bv = blocks_view(code_blocks@);
    let mut segs: Vec<TextSegment> = Vec::new();
    let mut last_end: usize = 0;
    let mut idx: usize = 0;
    proof {
        assert(bv.subrange(0, bv.len() as int) =~= bv);
        assert(seg_pairs(segs@) =~= Seq::<(Seq<u8>, bool)>::empty());
        assert(seg_pairs(segs@) + segs_of(text@, bv, 0) =~= segs_of(text@, bv, 0));
    }
    while idx < code_blocks.len()
        invariant
            n == text@.len(),
            bv == blocks_view(code_blocks@),
            blocks_wf(bv, 0, n as int),
            idx <= code_blocks@.len(),
            last_end <= n,
            idx == 0 ==> last_end == 0,
            idx > 0 ==> last_end == bv[idx - 1].1,
            segs_of(text@, bv, 0) == seg_pairs(segs@) + segs_of(
                text@,
                bv.subrange(idx as int, bv.len() as int),
                last_end as int,
            ),
        decreases code_blocks@.len() - idx,
    {
        let (bs, be) = code_blocks[idx];
        let ghost suffix = bv.subrange(idx as int, bv.len() as int);
        let ghost gapv = text@.subrange(last_end as int, bs as int);
        let ghost codev = text@.subrange(bs as int, be as int);
        let ghost pre_pairs = seg_pairs(segs@);
        let ghost gap_pairs: Seq<(Seq<u8>, bool)> = if bs > last_end && !all_ws(gapv) {
            seq![(gapv, false)]
        } else {
            Seq::empty()
        };
        proof {
            assert(bv[idx as int] == (bs as int, be as int));
            assert(0 <= bv[idx as int].0 < bv[idx as int].1 <= n);
            if idx > 0 {
                assert(bv[idx - 1].1 < bv[idx as int].0);
            }
            assert(last_end <= bs);
            assert(suffix.first() == bv[idx as int]);
            assert(suffix.drop_first() =~= bv.subrange(idx + 1 as int, bv.len() as int));
            assert(segs_of(text@, suffix, last_end as int) == gap_pairs + seq![(codev, true)]
                + segs_of(text@, suffix.drop_first(), be as int));
        }
        if bs > last_end {
            let prose = subvec(text, last_end, bs);
            if !is_blank(prose.as_slice()) {
                let ghost pre = segs@;
                let seg = TextSegment { content: prose, is_code_block: false };
                proof {
                    lemma_seg_pairs_push(pre, seg);
                }
                segs.push(seg);
            }
        }
        let code = subvec(text, bs, be);
        let ghost pre2 = segs@;
        let seg2 = TextSegment { content: code, is_code_block: true };
        proof {
            lemma_seg_pairs_push(pre2, seg2);
        }
        segs.push(seg2);
        proof {
            assert(seg_pairs(segs@) == pre_pairs + gap_pairs + seq![(codev, true)]) by {
                assert(seg_pairs(segs@) =~= pre_pairs + gap_pairs + seq![(codev, true)]);
            }
            assert(segs_of(text@, bv, 0) == seg_pairs(segs@) + segs_of(
                text@,
                suffix.drop_first(),
                be as int,
            )) by {
                assert(pre_pairs + (gap_pairs + seq![(codev, true)] + segs_of(
                    text@,
                    suffix.drop_first(),
                    be as int,
                )) =~= (pre_pairs + gap_pairs + seq![(codev, true)]) + segs_of(
                    text@,
                    suffix.drop_first(),
                    be as int,
                ));
            }
        }
        last_end = be;
        idx = idx + 1;
    }
    let ghost mid_pairs = seg_pairs(segs@);
    proof {
        assert(bv.subrange(bv.len() as int, bv.len() as int) =~= Seq::<(int, int)>::empty());
        assert(segs_of(text@, bv, 0) == mid_pairs + segs_of(
            text@,
            Seq::<(int, int)>::empty(),
            last_end as int,
        ));
    }
    if last_end < n {
        let prose = subvec(text, last_end, n);
        if !is_blank(prose.as_slice()) {
            let ghost pre = segs@;
            let seg = TextSegment { content: prose, is_code_block: false };
            proof {
                lemma_seg_pairs_push(pre, seg);
            }
            segs.push(seg);
            proof {
                assert(seg_pairs(segs@) == segs_of(text@, bv, 0)) by {
                    assert(seg_pairs(segs@) =~= mid_pairs + seq![
                        (text@.subrange(last_end as int, n as int), false),
                    ]);
                }
            }
        } else {
            proof {
                assert(seg_pairs(segs@) == segs_of(text@, bv, 0)) by {
                    assert(seg_pairs(segs@) =~= mid_pairs + Seq::<(Seq<u8>, bool)>::empty());
                }
            }
        }
    } else {
        proof {
            assert(seg_pairs(segs@) == segs_of(text@, bv, 0)) by {
                assert(seg_pairs(segs@) =~= mid_pairs + Seq::<(Seq<u8>, bool)>::empty());
            }
        }
    }
    proof {
        // every other guarantee follows from the exact segmentation
        lemma_segs_of_non_ws(text@, bv, 0);
        lemma_segs_of_blocks(text@, bv, 0);
        let whole = segs_of(text@, bv, 0);
        assert(seg_views(segs@) =~= pair_contents(whole));
        assert(text@.subrange(0, n as int) =~= text@);
        assert forall|k: int| 0 <= k < code_blocks@.len() implies seg_has_code(
            segs@,
            block_content(text@, #[trigger] bv[k]),
        ) by {
            assert(pair_has_code(whole, block_content(text@, bv[k])));
            let j = choose|j: int|
                0 <= j < whole.len() && #[trigger] whole[j] == (block_content(text@, bv[k]), true);
            assert(seg_pairs(segs@)[j] == (segs@[j].content@, segs@[j].is_code_block));
        }
        assert forall|j: int| 0 <= j < segs@.len() implies ((#[trigger] segs@[j]).is_code_block
            ==> matches_some_block(bv, text@, segs@[j].content@)) && (!segs@[j].is_code_block
            ==> !all_ws(segs@[j].content@)) && segs@[j].content@.len() <= text@.len() by {
            assert(seg_pairs(segs@)[j] == (segs@[j].content@, segs@[j].is_code_block));
            assert(whole[j].0 == segs@[j].content@ && whole[j].1 == segs@[j].is_code_block);
        }
    }
    segs
}

/// A sentence terminator ends at byte `j`: a Latin one (period, bang,
/// question mark), or a CJK one as the last byte of its UTF-8 encoding.
pub open spec fn is_terminator_end(s: Seq<u8>, j: int) -> bool {
    ||| s[j] == 46 || s[j] == 33 || s[j] == 63
    ||| (j >= 2 && ((s[j - 2] == 227 && s[j - 1] == 128 && s[j] == 130) || (s[j - 2] == 239 && s[j
        - 1] == 188 && (s[j] == 129 || s[j] == 159))))
}

/// The largest cut position in `(lb, i]` whose preceding byte ends a
/// sentence terminator, or -1 when there is none.
pub open spec fn last_terminator_cut(s: Seq<u8>, lb: int, i: int) -> int
    decreases i - lb,
{
    if i <= lb {
        -1
    } else if is_terminator_end(s, i - 1) {
        i
    } else {
        last_terminator_cut(s, lb, i - 1)
    }
}

/// The largest cut position in `(lb, i]` whose preceding byte is
/// whitespace, or -1 when there is none.
pub open spec fn last_ws_cut(s: Seq<u8>, lb: int, i: int) -> int
    decreases i - lb,
{
    if i <= lb {
        -1
    } else if is_ws(s[i - 1]) {
        i
    } else {
        last_ws_cut(s, lb, i - 1)
    }
}

proof fn lemma_last_terminator_cut(s: Seq<u8>, lb: int, i: int)
    ensures
        last_terminator_cut(s, lb, i) == -1 || lb < last_terminator_cut(s, lb, i) <= i,
    decreases i - lb,
{
    if i > lb && !is_terminator_end(s, i - 1) {
        lemma_last_terminator_cut(s, lb, i - 1);
    }
}

proof fn lemma_last_ws_cut(s: Seq<u8>, lb: int, i: int)
    ensures
        last_ws_cut(s, lb, i) == -1 || lb < last_ws_cut(s, lb, i) <= i,
    decreases i - lb,
{
    if i > lb && !is_ws(s[i - 1]) {
        lemma_last_ws_cut(s, lb, i - 1);
    }
}

/// Where the piece beginning at `start` ends: at the end of the window of
/// `max` bytes; or earlier, just after the last sentence terminator in the
/// upper half of the window, else just after the last whitespace there,
/// else hard at the window end. The final piece runs to the end of the text.
pub open spec fn cut_of(s: Seq<u8>, start: int, max: int) -> int {
    let end = if max < s.len() - start {
        start + max
    } else {
        s.len() as int
    };
    if end == s.len() {
        end
    } else {
        let lb = start + max / 2;
        let t = last_terminator_cut(s, lb, end);
        if t >= 0 {
            t
        } else {
            let w = last_ws_cut(s, lb, end);
            if w >= 0 {
                w
            } else {
                end
            }
        }
    }
}

proof fn lemma_cut_of(s: Seq<u8>, start: int, max: int)
    requires
        0 <= start < s.len(),
        1 <= max,
    ensures
        start < cut_of(s, start, max) <= s.len(),
        cut_of(s, start, max) - start <= max,
{
    let n = s.len() as int;
    let end = if max < n - start {
        start + max
    } else {
        n
    };
    if end < n {
        let lb = start + max / 2;
        lemma_last_terminator_cut(s, lb, end);
        lemma_last_ws_cut(s, lb, end);
    }
}

/// The pieces an oversized paragraph is split into, from `start` on: each
/// runs to its cut position and is trimmed; blank pieces are dropped.
pub open spec fn long_pieces(s: Seq<u8>, start: int, max: int) -> Seq<Seq<u8>>
    decreases s.len() - start,
    when 0 <= start && 1 <= max
    via long_pieces_dec
{
    if start >= s.len() {
        Seq::empty()
    } else {
        let c = cut_of(s, start, max);
        let piece = trim_spec(s.subrange(start, c));
        let rest = long_pieces(s, c, max);
        if piece.len() > 0 {
            seq![piece] + rest
        } else {
            rest
        }
    }
}

#[via_fn]
proof fn long_pieces_dec(s: Seq<u8>, start: int, max: int) {
    if 0 <= start < s.len() && 1 <= max {
        lemma_cut_of(s, start, max);
    }
}

/// Whether a sentence terminator (Latin or CJK, in UTF-8 bytes) ends at
/// byte `i` of the text.
fn terminator_ends_at(s: &[u8], i: usize) -> (r: bool)
    requires
        i < s@.len(),
    ensures
        r == is_terminator_end(s@, i as int),
{
    let b = s[i];
    if b == 46 || b == 33 || b == 63 {
        return true;
    }
    if i >= 2 {
        let b2 = s[i - 2];
        let b1 = s[i - 1];
        if b2 == 227 && b1 == 128 && b == 130 {
            return true;
        }
        if b2 == 239 && b1 == 188 && (b == 129 || b == 159) {
            return true;
        }
    }
    false
}

/// Split one oversized paragraph into pieces of at most `max_length` bytes,
/// cutting after a sentence terminator where one lies in the second half of
/// the budget, then after whitespace, then hard. Pieces are trimmed; blank
/// pieces are dropped, so the non-whitespace bytes are preserved exactly.
pub fn split_long_paragraph(paragraph: &[u8], max_length: usize) -> (r: Vec<Vec<u8>>)
    requires
        1 <= max_length,
    ensures
        views_of(r@) == long_pieces(paragraph@, 0, max_length as int),
        non_ws_of_all(views_of(r@)) == non_ws(paragraph@),
        forall|i: int| 0 <= i < r@.len() ==> 0 < (#[trigger] r@[i])@.len() <= max_length,
        forall|i: int|
            0 <= i < r@.len() ==> !is_ws((#[trigger] r@[i])@.first()) && !is_ws(r@[i]@.last()),
{
    let n = paragraph.len();
    let mut chunks: Vec<Vec<u8>> = Vec::new();
    let mut start: usize = 0;
    proof {
        assert(views_of(chunks@) =~= Seq::<Seq<u8>>::empty());
        assert(views_of(chunks@) + long_pieces(paragraph@, 0, max_length as int) =~= long_pieces(
            paragraph@,
            0,
            max_length as int,
        ));
    }
    while start < n
        invariant
            n == paragraph@.len(),
            start <= n,
            1 <= max_length,
            views_of(chunks@) + long_pieces(paragraph@, start as int, max_length as int)
                == long_pieces(paragraph@, 0, max_length as int),
            non_ws_of_all(views_of(chunks@)) == non_ws(paragraph@.subrange(0, start as int)),
            forall|i: int| 0 <= i < chunks@.len() ==> 0 < (#[trigger] chunks@[i])@.len() <= max_length,
            forall|i: int|
                0 <= i < chunks@.len() ==> !is_ws((#[trigger] chunks@[i])@.first()) && !is_ws(
                    chunks@[i]@.last(),
                ),
        decreases n - start,
    {
        let end = if max_length < n - start {
            start + max_length
        } else {
            n
        };
        let mut cut = end;
        if end < n {
            let lb = start + max_length / 2;
            let mut i = end;
            let mut found = false;
            while i > lb && !found
                invariant
                    start <= lb <= i <= end <= n == paragraph@.len(),
                    found ==> start < cut <= end,
                    last_terminator_cut(paragraph@, lb as int, end as int) == (if found {
                        cut as int
                    } else {
                        last_terminator_cut(paragraph@, lb as int, i as int)
                    }),
                decreases i + (if found { 0int } else { 1int }),
            {
                if terminator_ends_at(paragraph, i - 1) {
                    cut = i;
                    found = true;
                } else {
                    i = i - 1;
                }
            }
            if !found {
                proof {
                    assert(last_terminator_cut(paragraph@, lb as int, end as int) == -1);
                }
                let mut i2 = end;
                while i2 > lb && !found
                    invariant
                        start <= lb <= i2 <= end <= n == paragraph@.len(),
                        found ==> start < cut <= end,
                        last_ws_cut(paragraph@, lb as int, end as int) == (if found {
                            cut as int
                        } else {
                            last_ws_cut(paragraph@, lb as int, i2 as int)
                        }),
                    decreases i2 + (if found { 0int } else { 1int }),
                {
                    if is_ws_byte(paragraph[i2 - 1]) {
                        cut = i2;
                        found = true;
                    } else {
                        i2 = i2 - 1;
                    }
                }
                proof {
                    if !found {
                        assert(last_ws_cut(paragraph@, lb as int, end as int) == -1);
                    }
                }
            }
            if !found {
                cut = end;
            }
        }
        proof {
            assert(cut as int == cut_of(paragraph@, start as int, max_length as int));
            lemma_cut_of(paragraph@, start as int, max_length as int);
            assert(start < cut <= n);
            assert(cut - start <= max_length);
        }
        let raw = subvec(paragraph, start, cut);
        let piece = trim(raw.as_slice());
        let ghost todo = long_pieces(paragraph@, start as int, max_length as int);
        let ghost rest = long_pieces(paragraph@, cut as int, max_length as int);
        proof {
            lemma_trim_non_ws(raw@);
            lemma_trim_ends(raw@);
            lemma_non_ws_all_ws(raw@);
            assert(paragraph@.subrange(0, cut as int) =~= paragraph@.subrange(0, start as int)
                + raw@);
            lemma_non_ws_concat(paragraph@.subrange(0, start as int), raw@);
            assert(todo == (if piece@.len() > 0 {
                seq![piece@] + rest
            } else {
                rest
            }));
        }
        if piece.len() > 0 {
            let ghost pre = chunks@;
            proof {
                lemma_views_of_push(pre, piece);
                lemma_non_ws_of_all_push(views_of(pre), piece@);
                assert(views_of(pre) + (seq![piece@] + rest) =~= (views_of(pre) + seq![piece@])
                    + rest);
            }
            chunks.push(piece);
        } else {
            proof {
                assert(non_ws(raw@) =~= Seq::<u8>::empty());
            }
        }
        start = cut;
    }
    proof {
        assert(paragraph@.subrange(0, start as int) =~= paragraph@);
        assert(long_pieces(paragraph@, start as int, max_length as int)
            =~= Seq::<Seq<u8>>::empty());
        assert(views_of(chunks@) + Seq::<Seq<u8>>::empty() =~= views_of(chunks@));
    }
    chunks
}

/// The greedy blank-line grouping of the paragraphs, with `cur` already
/// accumulated: blank paragraphs are skipped; a trimmed paragraph that fits
/// joins the accumulation (after a blank line); on overflow the
/// accumulation is flushed as one piece and the paragraph starts the next,
/// except that a paragraph over the budget is split by `long_pieces` and
/// emitted in place. Whatever remains accumulated is flushed at the end.
pub open spec fn group_paras(paras: Seq<Seq<u8>>, cur: Seq<u8>, max: int) -> Seq<Seq<u8>>
    decreases paras.len(),
{
    if paras.len() == 0 {
        if cur.len() > 0 {
            seq![cur]
        } else {
            Seq::empty()
        }
    } else {
        let p = trim_spec(paras.first());
        let rest = paras.drop_first();
        if p.len() == 0 {
            group_paras(rest, cur, max)
        } else if cur.len() == 0 && p.len() <= max {
            group_paras(rest, p, max)
        } else if cur.len() > 0 && p.len() <= max && cur.len() + 2 + p.len() <= max {
            group_paras(rest, cur + seq![10u8, 10u8] + p, max)
        } else {
            let flushed: Seq<Seq<u8>> = if cur.len() > 0 {
                seq![cur]
            } else {
                Seq::empty()
            };
            if p.len() > max {
                flushed + long_pieces(p, 0, max) + group_paras(rest, Seq::empty(), max)
            } else {
                flushed + group_paras(rest, p, max)
            }
        }
    }
}

/// Split a text into pieces of at most `max_length` bytes along blank-line
/// paragraph boundaries: exactly the greedy grouping `group_paras`
/// describes, over the text's blank-line paragraphs in document order.
/// A text already within the budget is returned unchanged as one piece.
/// The non-whitespace bytes of the pieces are exactly those of the text.
pub fn split_text_by_empty_lines(text: &[u8], max_length: usize) -> (r: Vec<Vec<u8>>)
    requires
        1 <= max_length <= usize::MAX - 2,
    ensures
        non_ws_of_all(views_of(r@)) == non_ws(text@),
        forall|i: int| 0 <= i < r@.len() ==> (#[trigger] r@[i])@.len() <= max_length,
        text@.len() <= max_length ==> r@.len() == 1 && r@[0]@ == text@,
        text@.len() > max_length ==> views_of(r@) == group_paras(
            crate::text::paragraphs_of(text@),
            Seq::<u8>::empty(),
            max_length as int,
        ),
{
    let n = text.len();
    if n <= max_length {
        let whole = subvec(text, 0, n);
        let mut r: Vec<Vec<u8>> = Vec::new();
        proof {
            lemma_views_of_push(Seq::<Vec<u8>>::empty(), whole);
            lemma_non_ws_of_all_push(views_of(Seq::<Vec<u8>>::empty()), whole@);
            assert(views_of(Seq::<Vec<u8>>::empty()) =~= Seq::<Seq<u8>>::empty());
            assert(non_ws_of_all(Seq::<Seq<u8>>::empty()) + non_ws(whole@) =~= non_ws(whole@));
            assert(whole@ =~= text@);
        }
        r.push(whole);
        return r;
    }
    let mut result: Vec<Vec<u8>> = Vec::new();
    let mut current: Vec<u8> = Vec::new();
    let mut pos: usize = 0;
    let ghost max_i = max_length as int;
    let ghost total = group_paras(crate::text::paragraphs_of(text@), Seq::<u8>::empty(), max_i);
    proof {
        assert(views_of(result@) =~= Seq::<Seq<u8>>::empty());
        assert(views_of(result@) + total =~= total);
    }
    while pos < n
        invariant
            n == text@.len(),
            1 <= max_length <= usize::MAX - 2,
            max_i == max_length as int,
            total == group_paras(crate::text::paragraphs_of(text@), Seq::<u8>::empty(), max_i),
            pos <= n,
            current@.len() <= max_length,
            total == views_of(result@) + group_paras(
                crate::text::split_paras(text@, pos as int),
                current@,
                max_i,
            ),
            non_ws_of_all(views_of(result@)) + non_ws(current@) == non_ws(
                text@.subrange(0, pos as int),
            ),
            forall|i: int| 0 <= i < result@.len() ==> (#[trigger] result@[i])@.len() <= max_length,
        decreases n - pos,
    {
        let brk = crate::text::find_break(text, pos);
        proof {
            crate::text::lemma_first_break(text@, pos as int);
        }
        let raw = subvec(text, pos, brk);
        let para = trim(raw.as_slice());
        let next_pos = if brk < n {
            brk + 2
        } else {
            n
        };
        proof {
            // the bytes consumed this round are the paragraph plus a
            // whitespace separator, so only the paragraph contributes
            lemma_trim_non_ws(raw@);
            lemma_non_ws_all_ws(raw@);
            let sep = text@.subrange(brk as int, next_pos as int);
            assert(all_ws(sep));
            lemma_non_ws_all_ws(sep);
            assert(text@.subrange(0, next_pos as int) =~= text@.subrange(0, pos as int) + raw@
                + sep);
            lemma_non_ws_concat(text@.subrange(0, pos as int) + raw@, sep);
            lemma_non_ws_concat(text@.subrange(0, pos as int), raw@);
            assert(non_ws(sep) =~= Seq::<u8>::empty());
            assert(non_ws(text@.subrange(0, next_pos as int)) =~= non_ws(
                text@.subrange(0, pos as int),
            ) + non_ws(raw@));
        }
        let ghost done = non_ws(text@.subrange(0, pos as int));
        let ghost acc = non_ws_of_all(views_of(result@));
        let ghost paras_here = crate::text::split_paras(text@, pos as int);
        let ghost rest_paras: Seq<Seq<u8>> = if brk < n {
            crate::text::split_paras(text@, next_pos as int)
        } else {
            Seq::empty()
        };
        let ghost entry_cur = current@;
        let ghost entry_views = views_of(result@);
        proof {
            // the paragraph list advances by exactly this raw piece
            if brk < n {
                assert(paras_here == seq![raw@] + crate::text::split_paras(
                    text@,
                    next_pos as int,
                ));
                assert(paras_here.first() == raw@);
                assert(paras_here.drop_first() =~= rest_paras);
            } else {
                assert(paras_here == seq![raw@]);
                assert(paras_here.first() == raw@);
                assert(paras_here.drop_first() =~= rest_paras);
            }
            assert(trim_spec(paras_here.first()) == para@);
        }
        if para.len() == 0 {
            proof {
                assert(non_ws(raw@) =~= Seq::<u8>::empty());
                assert(non_ws(text@.subrange(0, next_pos as int)) =~= done);
                assert(group_paras(paras_here, entry_cur, max_i) == group_paras(
                    rest_paras,
                    current@,
                    max_i,
                ));
            }
        } else {
            let para_len = para.len();
            let fits = if current.len() == 0 {
                para_len <= max_length
            } else {
                para_len <= max_length && current.len() + 2 <= max_length - para_len
            };
            if fits {
                let ghost oldcur = current@;
                if current.len() > 0 {
                    current.push(10u8);
                    current.push(10u8);
                    proof {
                        assert(current@ =~= oldcur + seq![10u8, 10u8]);
                        lemma_non_ws_concat(oldcur, seq![10u8, 10u8]);
                        lemma_non_ws_all_ws(seq![10u8, 10u8]);
                        assert(non_ws(seq![10u8, 10u8]) =~= Seq::<u8>::empty());
                        assert(non_ws(current@) =~= non_ws(oldcur));
                    }
                }
                let ghost mid = current@;
                crate::text::push_all(&mut current, para.as_slice());
                proof {
                    lemma_non_ws_concat(mid, para@);
                    assert(non_ws(current@) == non_ws(oldcur) + non_ws(para@));
                    assert(acc + (non_ws(oldcur) + non_ws(para@)) =~= (acc + non_ws(oldcur))
                        + non_ws(para@));
                    assert(non_ws(text@.subrange(0, next_pos as int)) =~= done + non_ws(para@));
                    if oldcur.len() == 0 {
                        assert(current@ =~= para@);
                        assert(group_paras(paras_here, entry_cur, max_i) == group_paras(
                            rest_paras,
                            current@,
                            max_i,
                        ));
                    } else {
                        assert(current@ =~= oldcur + seq![10u8, 10u8] + para@);
                        assert(group_paras(paras_here, entry_cur, max_i) == group_paras(
                            rest_paras,
                            current@,
                            max_i,
                        ));
                    }
                }
            } else {
                let ghost oldcur = current@;
                if current.len() > 0 {
                    let ghost pre = result@;
                    proof {
                        lemma_views_of_push(pre, current);
                        lemma_non_ws_of_all_push(views_of(pre), oldcur);
                    }
                    result.push(current);
                    current = Vec::new();
                }
                proof {
                    assert(non_ws(current@) =~= Seq::<u8>::empty());
                    assert(non_ws_of_all(views_of(result@)) + non_ws(current@) =~= acc + non_ws(
                        oldcur,
                    ));
                }
                let ghost acc2 = non_ws_of_all(views_of(result@));
                let ghost flushed: Seq<Seq<u8>> = if oldcur.len() > 0 {
                    seq![oldcur]
                } else {
                    Seq::empty()
                };
                proof {
                    assert(views_of(result@) =~= entry_views + flushed);
                }
                if para_len > max_length {
                    let mut sub = split_long_paragraph(para.as_slice(), max_length);
                    let ghost pre = result@;
                    let ghost subv = sub@;
                    proof {
                        assert(views_of(pre + subv) =~= views_of(pre) + views_of(subv));
                        lemma_non_ws_of_all_concat(views_of(pre), views_of(subv));
                    }
                    result.append(&mut sub);
                    proof {
                        assert forall|i: int| 0 <= i < result@.len() implies (#[trigger] result@[i])@.len()
                            <= max_length by {
                            if i < pre.len() {
                                assert(result@[i] == pre[i]);
                            } else {
                                assert(result@[i] == subv[i - pre.len()]);
                            }
                        }
                        assert(non_ws_of_all(views_of(result@)) == acc2 + non_ws(para@));
                        assert((acc + non_ws(oldcur)) + non_ws(para@) =~= acc + (non_ws(oldcur)
                            + non_ws(para@)));
                        assert(non_ws(text@.subrange(0, next_pos as int)) =~= done + non_ws(
                            para@,
                        ));
                        assert(acc2 + non_ws(para@) + non_ws(current@) =~= acc2 + non_ws(para@));
                        // grouping: flush, the oversized paragraph's pieces, go on empty
                        assert(group_paras(paras_here, entry_cur, max_i) == flushed + long_pieces(
                            para@,
                            0,
                            max_i,
                        ) + group_paras(rest_paras, Seq::<u8>::empty(), max_i));
                        assert(views_of(result@) =~= entry_views + flushed + long_pieces(
                            para@,
                            0,
                            max_i,
                        ));
                        assert(entry_views + (flushed + long_pieces(para@, 0, max_i) + group_paras(
                            rest_paras,
                            Seq::<u8>::empty(),
                            max_i,
                        )) =~= (entry_views + flushed + long_pieces(para@, 0, max_i))
                            + group_paras(rest_paras, Seq::<u8>::empty(), max_i));
                        assert(current@ =~= Seq::<u8>::empty());
                    }
                } else {
                    current = para;
                    proof {
                        assert(non_ws(text@.subrange(0, next_pos as int)) =~= done + non_ws(
                            para@,
                        ));
                        assert(acc2 + non_ws(para@) =~= (acc + non_ws(oldcur)) + non_ws(para@));
                        // grouping: flush, the paragraph starts the next piece
                        assert(group_paras(paras_here, entry_cur, max_i) == flushed + group_paras(
                            rest_paras,
                            para@,
                            max_i,
                        ));
                        assert(entry_views + (flushed + group_paras(rest_paras, para@, max_i))
                            =~= (entry_views + flushed) + group_paras(rest_paras, para@, max_i));
                    }
                }
            }
        }
        proof {
            // past the end, only an empty leftover paragraph remains; it
            // groups like no paragraph at all
            if brk >= n {
                let leftover = crate::text::split_paras(text@, next_pos as int);
                assert(leftover == seq![text@.subrange(n as int, n as int)]);
                assert(text@.subrange(n as int, n as int) =~= Seq::<u8>::empty());
                assert(trim_spec(Seq::<u8>::empty()) =~= Seq::<u8>::empty());
                assert(leftover.drop_first() =~= Seq::<Seq<u8>>::empty());
                assert(group_paras(leftover, current@, max_i) == group_paras(
                    Seq::<Seq<u8>>::empty(),
                    current@,
                    max_i,
                ));
            }
        }
        pos = next_pos;
    }
    proof {
        // at the end the remaining paragraph list is a single empty piece,
        // so the grouping only flushes the accumulation
        let leftover = crate::text::split_paras(text@, pos as int);
        assert(leftover == seq![text@.subrange(pos as int, n as int)]);
        assert(text@.subrange(pos as int, n as int) =~= Seq::<u8>::empty());
        assert(trim_spec(Seq::<u8>::empty()) =~= Seq::<u8>::empty());
        assert(leftover.drop_first() =~= Seq::<Seq<u8>>::empty());
        assert(group_paras(leftover, current@, max_i) == group_paras(
            Seq::<Seq<u8>>::empty(),
            current@,
            max_i,
        ));
    }
    if current.len() > 0 {
        let ghost pre = result@;
        proof {
            lemma_views_of_push(pre, current);
            lemma_non_ws_of_all_push(views_of(pre), current@);
            assert(views_of(pre) + seq![current@] =~= views_of(pre).push(current@));
        }
        result.push(current);
    } else {
        proof {
            assert(non_ws_of_all(views_of(result@)) + non_ws(current@) =~= non_ws_of_all(
                views_of(result@),
            ));
            assert(views_of(result@) + Seq::<Seq<u8>>::empty() =~= views_of(result@));
        }
    }
    proof {
        assert(text@.subrange(0, n as int) =~= text@);
    }
    result
}


/// The content equals the content of one of the document's code blocks.
pub open spec fn is_block_copy(s: Seq<u8>, c: Seq<u8>) -> bool {
    matches_some_block(code_blocks_of(s), s, c)
}

/// Some chunk contains the given bytes contiguously.
pub open spec fn some_chunk_contains(chunks: Seq<Seq<u8>>, c: Seq<u8>) -> bool {
    exists|i: int| 0 <= i < chunks.len() && contains_seq(#[trigger] chunks[i], c)
}

/// A code segment with this content is still to be processed (at or after `si`).
pub open spec fn seg_code_todo(segs: Seq<TextSegment>, si: int, c: Seq<u8>) -> bool {
    exists|j: int| si <= j < segs.len() && (#[trigger] segs[j]).is_code_block && segs[j].content@ == c
}

proof fn lemma_some_chunk_contains_push(chunks: Seq<Seq<u8>>, x: Seq<u8>, c: Seq<u8>)
    requires
        some_chunk_contains(chunks, c) || contains_seq(x, c),
    ensures
        some_chunk_contains(chunks.push(x), c),
{
    if some_chunk_contains(chunks, c) {
        let i = choose|i: int| 0 <= i < chunks.len() && contains_seq(#[trigger] chunks[i], c);
        assert(chunks.push(x)[i] == chunks[i]);
    } else {
        assert(chunks.push(x)[chunks.len() as int] == x);
    }
}

proof fn lemma_todo_advance(segs: Seq<TextSegment>, si: int, c: Seq<u8>)
    requires
        seg_code_todo(segs, si, c),
        0 <= si < segs.len(),
    ensures
        (segs[si].is_code_block && segs[si].content@ == c) || seg_code_todo(segs, si + 1, c),
{
    let j = choose|j: int|
        si <= j < segs.len() && (#[trigger] segs[j]).is_code_block && segs[j].content@ == c;
    if j > si {
        assert(seg_code_todo(segs, si + 1, c));
    }
}

/// The size-bound invariant of the packing loop, over emitted chunks:
/// every chunk is non-empty and within the budget or a code-block copy.
spec fn chunks_size_ok(chunks: Seq<Vec<u8>>, text: Seq<u8>, max: int) -> bool {
    forall|i: int|
        0 <= i < chunks.len() ==> ((#[trigger] chunks[i])@.len() <= max || is_block_copy(
            text,
            chunks[i]@,
        )) && chunks[i]@.len() > 0
}

/// The atomicity invariant of the packing loop: every code block of the
/// document is already inside an emitted chunk, inside the chunk being
/// accumulated, or still ahead as an unprocessed code segment.
spec fn blocks_placed(
    chunks: Seq<Vec<u8>>,
    cur: Seq<u8>,
    text: Seq<u8>,
    segs: Seq<TextSegment>,
    si: int,
) -> bool {
    forall|k: int|
        0 <= k < code_blocks_of(text).len() ==> {
            let c = block_content(text, #[trigger] code_blocks_of(text)[k]);
            some_chunk_contains(views_of(chunks), c) || contains_seq(cur, c) || seg_code_todo(
                segs,
                si,
                c,
            )
        }
}

proof fn lemma_size_ok_push(chunks: Seq<Vec<u8>>, x: Vec<u8>, text: Seq<u8>, max: int)
    requires
        chunks_size_ok(chunks, text, max),
        x@.len() <= max || is_block_copy(text, x@),
        x@.len() > 0,
    ensures
        chunks_size_ok(chunks.push(x), text, max),
{
    assert forall|i: int| 0 <= i < chunks.push(x).len() implies ((#[trigger] chunks.push(x)[i])@.len()
        <= max || is_block_copy(text, chunks.push(x)[i]@)) && chunks.push(x)[i]@.len() > 0 by {
        if i < chunks.len() {
            assert(chunks.push(x)[i] == chunks[i]);
        } else {
            assert(chunks.push(x)[i] == x);
        }
    }
}

/// Flushing the accumulated chunk moves its obligations to the emitted chunks.
proof fn lemma_placed_flush(
    chunks: Seq<Vec<u8>>,
    cur: Vec<u8>,
    text: Seq<u8>,
    segs: Seq<TextSegment>,
    si: int,
)
    requires
        blocks_placed(chunks, cur@, text, segs, si),
    ensures
        blocks_placed(chunks.push(cur), Seq::<u8>::empty(), text, segs, si),
{
    lemma_views_of_push(chunks, cur);
    assert forall|k: int| 0 <= k < code_blocks_of(text).len() implies {
        let c = block_content(text, #[trigger] code_blocks_of(text)[k]);
        some_chunk_contains(views_of(chunks.push(cur)), c) || contains_seq(Seq::<u8>::empty(), c)
            || seg_code_todo(segs, si, c)
    } by {
        let c = block_content(text, code_blocks_of(text)[k]);
        if some_chunk_contains(views_of(chunks), c) || contains_seq(cur@, c) {
            lemma_some_chunk_contains_push(views_of(chunks), cur@, c);
            assert(views_of(chunks.push(cur)) == views_of(chunks).push(cur@));
        }
    }
}

/// Appending to the accumulated chunk preserves the placement invariant.
proof fn lemma_placed_extend(
    chunks: Seq<Vec<u8>>,
    cur: Seq<u8>,
    ext: Seq<u8>,
    text: Seq<u8>,
    segs: Seq<TextSegment>,
    si: int,
)
    requires
        blocks_placed(chunks, cur, text, segs, si),
    ensures
        blocks_placed(chunks, cur + ext, text, segs, si),
{
    assert forall|k: int| 0 <= k < code_blocks_of(text).len() implies {
        let c = block_content(text, #[trigger] code_blocks_of(text)[k]);
        some_chunk_contains(views_of(chunks), c) || contains_seq(cur + ext, c) || seg_code_todo(
            segs,
            si,
            c,
        )
    } by {
        let c = block_content(text, code_blocks_of(text)[k]);
        if contains_seq(cur, c) {
            lemma_contains_extend_right(cur, ext, c);
        }
    }
}

/// A prose segment leaves the placement obligations unchanged.
proof fn lemma_placed_advance_prose(
    chunks: Seq<Vec<u8>>,
    cur: Seq<u8>,
    text: Seq<u8>,
    segs: Seq<TextSegment>,
    si: int,
)
    requires
        blocks_placed(chunks, cur, text, segs, si),
        0 <= si < segs.len(),
        !segs[si].is_code_block,
    ensures
        blocks_placed(chunks, cur, text, segs, si + 1),
{
    assert forall|k: int| 0 <= k < code_blocks_of(text).len() implies {
        let c = block_content(text, #[trigger] code_blocks_of(text)[k]);
        some_chunk_contains(views_of(chunks), c) || contains_seq(cur, c) || seg_code_todo(
            segs,
            si + 1,
            c,
        )
    } by {
        let c = block_content(text, code_blocks_of(text)[k]);
        if seg_code_todo(segs, si, c) {
            lemma_todo_advance(segs, si, c);
        }
    }
}

/// Split a document into translation-safe chunks of at most `max_length`
/// bytes. Fenced code blocks are never split: each one lies whole inside a
/// single chunk, and a code block larger than the budget is emitted verbatim
/// as its own (oversized) chunk -- the only chunks allowed over the budget.
/// The non-whitespace bytes of the chunks, in order, are exactly those of
/// the document. An empty document yields no chunks; a document within the
/// budget yields exactly one chunk equal to the document.
pub fn split_text_into_chunks(text: &[u8], max_length: usize) -> (r: Vec<Vec<u8>>)
    requires
        1 <= max_length <= usize::MAX - 2,
        text@.len() <= usize::MAX - 2,
    ensures
        non_ws_of_all(views_of(r@)) == non_ws(text@),
        forall|i: int|
            0 <= i < r@.len() ==> (#[trigger] r@[i])@.len() <= max_length || is_block_copy(
                text@,
                r@[i]@,
            ),
        forall|i: int| 0 <= i < r@.len() ==> (#[trigger] r@[i])@.len() > 0,
        forall|k: int|
            0 <= k < code_blocks_of(text@).len() ==> some_chunk_contains(
                views_of(r@),
                block_content(text@, #[trigger] code_blocks_of(text@)[k]),
            ),
        text@.len() == 0 ==> r@.len() == 0,
        0 < text@.len() <= max_length ==> r@.len() == 1 && r@[0]@ == text@,
{
    let n = text.len();
    if n == 0 {
        let r: Vec<Vec<u8>> = Vec::new();
        proof {
            assert(code_blocks_of(text@) =~= Seq::<(int, int)>::empty());
            lemma_non_ws_all_ws(text@);
            assert(non_ws(text@) =~= Seq::<u8>::empty());
            assert(views_of(r@) =~= Seq::<Seq<u8>>::empty());
        }
        return r;
    }
    if n <= max_length {
        let whole = subvec(text, 0, n);
        let mut r: Vec<Vec<u8>> = Vec::new();
        proof {
            lemma_views_of_push(r@, whole);
            lemma_non_ws_of_all_push(views_of(r@), whole@);
            assert(views_of(r@) =~= Seq::<Seq<u8>>::empty());
            assert(non_ws_of_all(Seq::<Seq<u8>>::empty()) + non_ws(whole@) =~= non_ws(whole@));
        }
        r.push(whole);
        proof {
            assert(whole@ =~= text@);
            lemma_code_blocks_wf(text@);
            assert forall|k: int| 0 <= k < code_blocks_of(text@).len() implies some_chunk_contains(
                views_of(r@),
                block_content(text@, #[trigger] code_blocks_of(text@)[k]),
            ) by {
                let b = code_blocks_of(text@)[k];
                lemma_contains_subrange(text@, b.0, b.1);
                assert(views_of(r@)[0] == whole@);
                assert(contains_seq(views_of(r@)[0], block_content(text@, b)));
            }
        }
        return r;
    }
    let blocks = identify_code_blocks(text);
    let segs = split_by_code_blocks(text, &blocks);
    let ghost cbs = code_blocks_of(text@);
    let mut chunks: Vec<Vec<u8>> = Vec::new();
    let mut current: Vec<u8> = Vec::new();
    proof {
        assert(views_of(chunks@) =~= Seq::<Seq<u8>>::empty());
        assert(seg_views(segs@).subrange(0, 0) =~= Seq::<Seq<u8>>::empty());
        lemma_non_ws_all_ws(current@);
        assert(non_ws(current@) =~= Seq::<u8>::empty());
        assert(non_ws_of_all(views_of(chunks@)) + non_ws(current@) =~= Seq::<u8>::empty());
    }
    let mut si: usize = 0;
    while si < segs.len()
        invariant
            n == text@.len() <= usize::MAX - 2,
            1 <= max_length <= usize::MAX - 2,
            si <= segs@.len(),
            cbs == code_blocks_of(text@),
            non_ws_of_all(seg_views(segs@)) == non_ws(text@),
            forall|j: int|
                0 <= j < segs@.len() && (#[trigger] segs@[j]).is_code_block ==> matches_some_block(
                    cbs,
                    text@,
                    segs@[j].content@,
                ),
            forall|j: int| 0 <= j < segs@.len() ==> (#[trigger] segs@[j]).content@.len() <= n,
            current@.len() <= max_length,
            non_ws_of_all(views_of(chunks@)) + non_ws(current@) == non_ws_of_all(
                seg_views(segs@).subrange(0, si as int),
            ),
            chunks_size_ok(chunks@, text@, max_length as int),
            blocks_placed(chunks@, current@, text@, segs@, si as int),
        decreases segs@.len() - si,
    {
        let ghost done = non_ws_of_all(seg_views(segs@).subrange(0, si as int));
        let ghost segc = segs@[si as int].content@;
        proof {
            assert(seg_views(segs@).subrange(0, si + 1 as int) =~= seg_views(segs@).subrange(
                0,
                si as int,
            ).push(segc));
            lemma_non_ws_of_all_push(seg_views(segs@).subrange(0, si as int), segc);
        }
        let seg_is_code = segs[si].is_code_block;
        let seg_len = segs[si].content.len();
        if seg_is_code {
            if current.len() > 0 && seg_len + 2 > max_length - current.len() {
                let ghost pre = chunks@;
                let ghost cur = current@;
                proof {
                    lemma_views_of_push(pre, current);
                    lemma_non_ws_of_all_push(views_of(pre), cur);
                    lemma_size_ok_push(pre, current, text@, max_length as int);
                    lemma_placed_flush(pre, current, text@, segs@, si as int);
                }
                chunks.push(current);
                current = Vec::new();
                proof {
                    lemma_non_ws_all_ws(current@);
                    assert(non_ws(current@) =~= Seq::<u8>::empty());
                    assert(non_ws_of_all(views_of(chunks@)) + non_ws(current@) =~= non_ws_of_all(
                        views_of(pre),
                    ) + non_ws(cur));
                }
            }
            if seg_len > max_length {
                if current.len() > 0 {
                    let ghost pre = chunks@;
                    let ghost cur = current@;
                    proof {
                        lemma_views_of_push(pre, current);
                        lemma_non_ws_of_all_push(views_of(pre), cur);
                        lemma_size_ok_push(pre, current, text@, max_length as int);
                        lemma_placed_flush(pre, current, text@, segs@, si as int);
                    }
                    chunks.push(current);
                    current = Vec::new();
                    proof {
                        lemma_non_ws_all_ws(current@);
                        assert(non_ws(current@) =~= Seq::<u8>::empty());
                        assert(non_ws_of_all(views_of(chunks@)) + non_ws(current@)
                            =~= non_ws_of_all(views_of(pre)) + non_ws(cur));
                    }
                }
                // the oversized code block becomes its own chunk, verbatim
                let copy = subvec(segs[si].content.as_slice(), 0, seg_len);
                let ghost pre = chunks@;
                proof {
                    assert(copy@ =~= segc);
                    lemma_views_of_push(pre, copy);
                    lemma_non_ws_of_all_push(views_of(pre), copy@);
                    lemma_size_ok_push(pre, copy, text@, max_length as int);
                }
                chunks.push(copy);
                proof {
                    assert(blocks_placed(chunks@, current@, text@, segs@, si + 1 as int)) by {
                        assert forall|k: int| 0 <= k < cbs.len() implies {
                            let c = block_content(text@, #[trigger] cbs[k]);
                            some_chunk_contains(views_of(chunks@), c) || contains_seq(current@, c)
                                || seg_code_todo(segs@, si + 1 as int, c)
                        } by {
                            let c = block_content(text@, cbs[k]);
                            if some_chunk_contains(views_of(pre), c) || contains_seq(current@, c) {
                                if some_chunk_contains(views_of(pre), c) {
                                    lemma_some_chunk_contains_push(views_of(pre), copy@, c);
                                    assert(views_of(chunks@) == views_of(pre).push(copy@));
                                }
                            } else if seg_code_todo(segs@, si as int, c) {
                                lemma_todo_advance(segs@, si as int, c);
                                if segs@[si as int].is_code_block && segc == c {
                                    lemma_contains_self(copy@);
                                    lemma_some_chunk_contains_push(views_of(pre), copy@, c);
                                    assert(views_of(chunks@) == views_of(pre).push(copy@));
                                }
                            }
                        }
                    }
                }
            } else {
                let ghost oldcur = current@;
                if current.len() > 0 {
                    current.push(10u8);
                    current.push(10u8);
                    proof {
                        assert(current@ =~= oldcur + seq![10u8, 10u8]);
                        lemma_non_ws_concat(oldcur, seq![10u8, 10u8]);
                        lemma_non_ws_all_ws(seq![10u8, 10u8]);
                        assert(non_ws(seq![10u8, 10u8]) =~= Seq::<u8>::empty());
                        assert(non_ws(current@) =~= non_ws(oldcur));
                        lemma_placed_extend(
                            chunks@,
                            oldcur,
                            seq![10u8, 10u8],
                            text@,
                            segs@,
                            si as int,
                        );
                    }
                }
                let ghost mid = current@;
                crate::text::push_all(&mut current, segs[si].content.as_slice());
                proof {
                    lemma_non_ws_concat(mid, segc);
                    assert(non_ws(current@) == non_ws(oldcur) + non_ws(segc));
                    assert(non_ws_of_all(views_of(chunks@)) + (non_ws(oldcur) + non_ws(segc))
                        =~= (non_ws_of_all(views_of(chunks@)) + non_ws(oldcur)) + non_ws(segc));
                    // the block is now contained in the accumulated chunk
                    lemma_placed_extend(chunks@, mid, segc, text@, segs@, si as int);
                    lemma_contains_self(segc);
                    lemma_contains_extend_left(mid, segc, segc);
                    assert(blocks_placed(chunks@, current@, text@, segs@, si + 1 as int)) by {
                        assert forall|k: int| 0 <= k < cbs.len() implies {
                            let c = block_content(text@, #[trigger] cbs[k]);
                            some_chunk_contains(views_of(chunks@), c) || contains_seq(current@, c)
                                || seg_code_todo(segs@, si + 1 as int, c)
                        } by {
                            let c = block_content(text@, cbs[k]);
                            if !some_chunk_contains(views_of(chunks@), c) && !contains_seq(
                                current@,
                                c,
                            ) {
                                assert(seg_code_todo(segs@, si as int, c));
                                lemma_todo_advance(segs@, si as int, c);
                                if segs@[si as int].is_code_block && segc == c {
                                    assert(contains_seq(current@, c));
                                }
                            }
                        }
                    }
                }
            }
        } else {
            let pieces = split_text_by_empty_lines(segs[si].content.as_slice(), max_length);
            proof {
                lemma_placed_advance_prose(chunks@, current@, text@, segs@, si as int);
            }
            let mut pi: usize = 0;
            while pi < pieces.len()
                invariant
                    n == text@.len() <= usize::MAX - 2,
                    1 <= max_length <= usize::MAX - 2,
                    pi <= pieces@.len(),
                    cbs == code_blocks_of(text@),
                    current@.len() <= max_length,
                    forall|i: int|
                        0 <= i < pieces@.len() ==> (#[trigger] pieces@[i])@.len() <= max_length,
                    non_ws_of_all(views_of(chunks@)) + non_ws(current@) == done + non_ws_of_all(
                        views_of(pieces@).subrange(0, pi as int),
                    ),
                    chunks_size_ok(chunks@, text@, max_length as int),
                    blocks_placed(chunks@, current@, text@, segs@, si + 1 as int),
                decreases pieces@.len() - pi,
            {
                let ghost pdone = non_ws_of_all(views_of(pieces@).subrange(0, pi as int));
                let ghost piecev = pieces@[pi as int]@;
                proof {
                    assert(views_of(pieces@).subrange(0, pi + 1 as int) =~= views_of(
                        pieces@,
                    ).subrange(0, pi as int).push(piecev));
                    lemma_non_ws_of_all_push(views_of(pieces@).subrange(0, pi as int), piecev);
                }
                let piece_len = pieces[pi].len();
                if is_blank(pieces[pi].as_slice()) {
                    proof {
                        lemma_non_ws_all_ws(piecev);
                        assert(non_ws(piecev) =~= Seq::<u8>::empty());
                        assert(pdone + non_ws(piecev) =~= pdone);
                    }
                } else {
                    let fits = if current.len() == 0 {
                        true
                    } else {
                        current.len() + 2 <= max_length - piece_len
                    };
                    if fits {
                        let ghost oldcur = current@;
                        if current.len() > 0 {
                            current.push(10u8);
                            current.push(10u8);
                            proof {
                                assert(current@ =~= oldcur + seq![10u8, 10u8]);
                                lemma_non_ws_concat(oldcur, seq![10u8, 10u8]);
                                lemma_non_ws_all_ws(seq![10u8, 10u8]);
                                assert(non_ws(seq![10u8, 10u8]) =~= Seq::<u8>::empty());
                                assert(non_ws(current@) =~= non_ws(oldcur));
                                lemma_placed_extend(
                                    chunks@,
                                    oldcur,
                                    seq![10u8, 10u8],
                                    text@,
                                    segs@,
                                    si + 1 as int,
                                );
                            }
                        }
                        let ghost mid = current@;
                        crate::text::push_all(&mut current, pieces[pi].as_slice());
                        proof {
                            lemma_non_ws_concat(mid, piecev);
                            assert(non_ws(current@) == non_ws(oldcur) + non_ws(piecev));
                            assert(non_ws_of_all(views_of(chunks@)) + (non_ws(oldcur) + non_ws(
                                piecev,
                            )) =~= (non_ws_of_all(views_of(chunks@)) + non_ws(oldcur)) + non_ws(
                                piecev,
                            ));
                            lemma_placed_extend(chunks@, mid, piecev, text@, segs@, si + 1 as int);
                        }
                    } else {
                        let ghost pre = chunks@;
                        let ghost cur = current@;
                        proof {
                            lemma_views_of_push(pre, current);
                            lemma_non_ws_of_all_push(views_of(pre), cur);
                            lemma_size_ok_push(pre, current, text@, max_length as int);
                            lemma_placed_flush(pre, current, text@, segs@, si + 1 as int);
                        }
                        chunks.push(current);
                        current = subvec(pieces[pi].as_slice(), 0, piece_len);
                        proof {
                            assert(current@ =~= piecev);
                            assert((non_ws_of_all(views_of(pre)) + non_ws(cur)) + non_ws(piecev)
                                =~= non_ws_of_all(views_of(pre)) + non_ws(cur) + non_ws(piecev));
                            lemma_placed_extend(
                                chunks@,
                                Seq::<u8>::empty(),
                                piecev,
                                text@,
                                segs@,
                                si + 1 as int,
                            );
                            assert(Seq::<u8>::empty() + piecev =~= piecev);
                        }
                    }
                }
                pi = pi + 1;
            }
            proof {
                assert(views_of(pieces@).subrange(0, pieces@.len() as int) =~= views_of(pieces@));
                assert(done + (non_ws_of_all(views_of(pieces@)))
                    == done + non_ws(segc));
            }
        }
        si = si + 1;
    }
    if current.len() > 0 {
        let ghost pre = chunks@;
        let ghost cur = current@;
        proof {
            lemma_views_of_push(pre, current);
            lemma_non_ws_of_all_push(views_of(pre), cur);
            lemma_size_ok_push(pre, current, text@, max_length as int);
            lemma_placed_flush(pre, current, text@, segs@, segs@.len() as int);
        }
        chunks.push(current);
    }
    proof {
        assert(seg_views(segs@).subrange(0, segs@.len() as int) =~= seg_views(segs@));
        assert forall|k: int| 0 <= k < cbs.len() implies some_chunk_contains(
            views_of(chunks@),
            block_content(text@, #[trigger] cbs[k]),
        ) by {
            let c = block_content(text@, cbs[k]);
            assert(!seg_code_todo(segs@, segs@.len() as int, c));
            assert(!contains_seq(Seq::<u8>::empty(), c) || c.len() == 0);
            if c.len() == 0 {
                assert(cbs[k].0 < cbs[k].1) by {
                    lemma_code_blocks_wf(text@);
                }
                assert(false);
            }
        }
    }
    chunks
}

} // verus!
