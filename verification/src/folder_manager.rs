//! Output layout and bilingual assembly.
//!
//! Folder paths and file names are deterministic functions of the URL (plus
//! the date and time a name is stamped with), so repeated runs target
//! consistent locations. The bilingual assembler merges an original and a
//! translated document for side-by-side reading; it is a best-effort
//! pairing, exactly as specified here, not a true aligner.

use vstd::prelude::*;

use crate::text::{
    ascii_bytes, bytes_of_ascii, find_break, paragraphs_of, push_all, split_paras, subvec, trim,
    trim_spec, views_of, lemma_views_of_push,
};
use crate::types::{Error, FileType, spec_folder_name, TranslationConfig};
use crate::urls::{url_host_of, url_path_of, url_host, url_path};

verus! {

/// The host of the URL, or the fixed placeholder when the URL has none.
pub open spec fn host_or_unknown(u: Seq<u8>) -> Seq<u8> {
    match url_host_of(u) {
        Some(h) => h,
        None => bytes_of_ascii("unknown"@),
    }
}

/// Dots replaced by underscores.
pub open spec fn dots_to_underscores(s: Seq<u8>) -> Seq<u8> {
    s.map_values(|b: u8| if b == 46 { 95u8 } else { b })
}

/// Path bytes that name separators or query syntax become underscores.
pub open spec fn path_byte_mapped(b: u8) -> u8 {
    if b == 47 || b == 63 || b == 35 || b == 38 || b == 61 || b == 37 {
        95u8
    } else {
        b
    }
}

/// ASCII letters, digits, underscore, hyphen and dot are kept in a name.
pub open spec fn path_byte_kept(b: u8) -> bool {
    (48 <= b <= 57) || (65 <= b <= 90) || (97 <= b <= 122) || b == 95 || b == 45 || b == 46
}

/// Leading slashes removed.
pub open spec fn skip_slashes(s: Seq<u8>) -> Seq<u8>
    decreases s.len(),
{
    if s.len() > 0 && s.first() == 47 {
        skip_slashes(s.drop_first())
    } else {
        s
    }
}

/// Trailing dots removed.
pub open spec fn trim_dots_back(s: Seq<u8>) -> Seq<u8>
    decreases s.len(),
{
    if s.len() > 0 && s.last() == 46 {
        trim_dots_back(s.drop_last())
    } else {
        s
    }
}

/// The sanitized path part of a file name: an empty or root path becomes a
/// fixed word; otherwise leading slashes go, separators and query syntax
/// become underscores, only name-safe bytes are kept, and trailing dots go.
pub open spec fn path_part_spec(p: Seq<u8>) -> Seq<u8> {
    if p.len() == 0 || p == bytes_of_ascii("/"@) {
        bytes_of_ascii("index"@)
    } else {
        trim_dots_back(
            skip_slashes(p).map_values(|b: u8| path_byte_mapped(b)).filter(
                |b: u8| path_byte_kept(b),
            ),
        )
    }
}

/// A long path part is clipped and marked as clipped.
pub open spec fn clip_spec(s: Seq<u8>) -> Seq<u8> {
    if s.len() > 100 {
        s.subrange(0, 97) + bytes_of_ascii("..."@)
    } else {
        s
    }
}

/// The output file name for a URL: the host (dots as underscores) and the
/// sanitized and clipped path part, separated by an underscore. A function
/// of the URL alone, so repeated runs target the same location.
pub open spec fn filename_spec(u: Seq<u8>, p: Seq<u8>) -> Seq<u8> {
    dots_to_underscores(host_or_unknown(u)) + seq![95u8] + clip_spec(path_part_spec(p))
        + bytes_of_ascii(".md"@)
}

/// The per-URL output folder: under the base directory, the host alone when
/// translation is off, else the host tagged with the language pair and then
/// the per-kind folder.
pub open spec fn folder_path_spec(
    base_dir: Seq<u8>,
    tc: TranslationConfig,
    h: Seq<u8>,
    ft: FileType,
) -> Seq<u8> {
    if tc.enabled {
        base_dir + seq![47u8] + h + seq![95u8] + tc.source_lang@ + seq![45u8] + tc.target_lang@
            + seq![47u8] + bytes_of_ascii(spec_folder_name(ft))
    } else {
        base_dir + seq![47u8] + h
    }
}

/// The full path of one output file: its folder, then the file name.
pub open spec fn file_path_spec(
    base_dir: Seq<u8>,
    tc: TranslationConfig,
    u: Seq<u8>,
    h: Seq<u8>,
    p: Seq<u8>,
    ft: FileType,
) -> Seq<u8> {
    folder_path_spec(base_dir, tc, h, ft) + seq![47u8] + filename_spec(u, p)
}

/// One output file of a work item: where it goes and what it holds.
pub struct SaveFile {
    pub file_type: FileType,
    pub path: Vec<u8>,
    pub content: Vec<u8>,
}

/// Manages the per-URL output layout and assembles bilingual content.
#[derive(Clone)]
pub struct FolderManager {
    pub base_dir: Vec<u8>,
    pub translation_config: TranslationConfig,
}

impl FolderManager {
    pub fn new(base_dir: Vec<u8>, translation_config: TranslationConfig) -> (r: Self)
        ensures
            r.base_dir == base_dir,
            r.translation_config == translation_config,
    {
        FolderManager { base_dir, translation_config }
    }

    /// The output folder for a URL and file kind.
    pub fn get_folder_path(&self, url: &[u8], file_type: FileType) -> (r: Result<Vec<u8>, Error>)
        ensures
            match url_host_of(url@) {
                Some(h) => r matches Ok(p) && p@ == folder_path_spec(
                    self.base_dir@,
                    self.translation_config,
                    h,
                    file_type,
                ),
                None => crate::config::is_config_err(r, "invalid URL or missing host"@),
            },
    {
        let domain = match crate::urls::extract_domain(url) {
            Ok(d) => d,
            Err(e) => {
                return Err(e);
            },
        };
        let mut p = crate::text::copy_bytes(&self.base_dir);
        p.push(47);
        push_all(&mut p, domain.as_slice());
        if self.translation_config.enabled {
            p.push(95);
            push_all(&mut p, self.translation_config.source_lang.as_slice());
            p.push(45);
            push_all(&mut p, self.translation_config.target_lang.as_slice());
            p.push(47);
            let fname = file_type.folder_name_bytes();
            push_all(&mut p, fname.as_slice());
            proof {
                assert(p@ =~= folder_path_spec(
                    self.base_dir@,
                    self.translation_config,
                    url_host_of(url@)->0,
                    file_type,
                ));
            }
        } else {
            proof {
                assert(p@ =~= folder_path_spec(
                    self.base_dir@,
                    self.translation_config,
                    url_host_of(url@)->0,
                    file_type,
                ));
            }
        }
        Ok(p)
    }

    /// The output file name for a URL: a deterministic function of the URL,
    /// so repeated runs target the same location.
    pub fn generate_filename(&self, url: &[u8]) -> (r: Result<Vec<u8>, Error>)
        ensures
            match url_path_of(url@) {
                Some(p) => r matches Ok(name) && name@ == filename_spec(url@, p),
                None => crate::config::is_config_err(r, "invalid URL or missing host"@),
            },
    {
        let path = match url_path(url) {
            Some(p) => p,
            None => {
                proof {
                    reveal_strlit("invalid URL or missing host");
                }
                return Err(Error::Config(ascii_bytes("invalid URL or missing host")));
            },
        };
        let host = match url_host(url) {
            Some(h) => h,
            None => {
                proof {
                    reveal_strlit("unknown");
                }
                ascii_bytes("unknown")
            },
        };
        let mut name: Vec<u8> = Vec::new();
        let mut i: usize = 0;
        while i < host.len()
            invariant
                i <= host@.len(),
                name@ == dots_to_underscores(host@.subrange(0, i as int)),
            decreases host@.len() - i,
        {
            let b = host[i];
            name.push(if b == 46 {
                95
            } else {
                b
            });
            i = i + 1;
            proof {
                assert(name@ =~= dots_to_underscores(host@.subrange(0, i as int)));
            }
        }
        proof {
            assert(host@.subrange(0, host@.len() as int) =~= host@);
        }
        name.push(95);
        let part = path_part(path.as_slice());
        let clipped = clip(part.as_slice());
        push_all(&mut name, clipped.as_slice());
        proof {
            reveal_strlit(".md");
        }
        let suffix = ascii_bytes(".md");
        push_all(&mut name, suffix.as_slice());
        proof {
            assert(name@ =~= filename_spec(url@, path@));
        }
        Ok(name)
    }

    /// The output folders a run needs for this URL: one per file kind when
    /// translation is on, the plain one otherwise.
    pub fn folders_to_create(&self, url: &[u8]) -> (r: Result<Vec<Vec<u8>>, Error>)
        ensures
            match url_host_of(url@) {
                Some(h) => r matches Ok(fs) && views_of(fs@) == (if self.translation_config.enabled {
                    seq![
                        folder_path_spec(self.base_dir@, self.translation_config, h, FileType::Original),
                        folder_path_spec(self.base_dir@, self.translation_config, h, FileType::Translated),
                        folder_path_spec(self.base_dir@, self.translation_config, h, FileType::Bilingual),
                    ]
                } else {
                    seq![folder_path_spec(self.base_dir@, self.translation_config, h, FileType::Original)]
                }),
                None => crate::config::is_config_err(r, "invalid URL or missing host"@),
            },
    {
        let mut fs: Vec<Vec<u8>> = Vec::new();
        let first = match self.get_folder_path(url, FileType::Original) {
            Ok(p) => p,
            Err(e) => {
                return Err(e);
            },
        };
        fs.push(first);
        if self.translation_config.enabled {
            let second = match self.get_folder_path(url, FileType::Translated) {
                Ok(p) => p,
                Err(e) => {
                    return Err(e);
                },
            };
            fs.push(second);
            let third = match self.get_folder_path(url, FileType::Bilingual) {
                Ok(p) => p,
                Err(e) => {
                    return Err(e);
                },
            };
            fs.push(third);
            proof {
                let h = url_host_of(url@)->0;
                assert(views_of(fs@) =~= seq![
                    folder_path_spec(self.base_dir@, self.translation_config, h, FileType::Original),
                    folder_path_spec(self.base_dir@, self.translation_config, h, FileType::Translated),
                    folder_path_spec(self.base_dir@, self.translation_config, h, FileType::Bilingual),
                ]);
            }
        } else {
            proof {
                let h = url_host_of(url@)->0;
                assert(views_of(fs@) =~= seq![
                    folder_path_spec(self.base_dir@, self.translation_config, h, FileType::Original),
                ]);
            }
        }
        Ok(fs)
    }

    /// The full path of the output file of one kind for a URL: a
    /// deterministic function of the URL and the file kind.
    pub fn get_file_path(&self, url: &[u8], file_type: FileType) -> (r: Result<Vec<u8>, Error>)
        ensures
            match (url_host_of(url@), url_path_of(url@)) {
                (Some(h), Some(p)) => r matches Ok(fp) && fp@ == file_path_spec(
                    self.base_dir@,
                    self.translation_config,
                    url@,
                    h,
                    p,
                    file_type,
                ),
                _ => crate::config::is_config_err(r, "invalid URL or missing host"@),
            },
    {
        let folder = match self.get_folder_path(url, file_type) {
            Ok(f) => f,
            Err(e) => {
                return Err(e);
            },
        };
        let name = match self.generate_filename(url) {
            Ok(n) => n,
            Err(e) => {
                return Err(e);
            },
        };
        let mut fp = folder;
        fp.push(47);
        push_all(&mut fp, name.as_slice());
        proof {
            if url_host_of(url@) is Some && url_path_of(url@) is Some {
                assert(fp@ =~= file_path_spec(
                    self.base_dir@,
                    self.translation_config,
                    url@,
                    url_host_of(url@)->0,
                    url_path_of(url@)->0,
                    file_type,
                ));
            }
        }
        Ok(fp)
    }

    /// What one URL's outputs are and where they go: always the original;
    /// with translation in hand, the translated text and the bilingual
    /// merge beside it. Paths are deterministic in the URL and file kind.
    pub fn save_plan(&self, url: &[u8], original: &[u8], translated: Option<&Vec<u8>>) -> (r:
        Result<Vec<SaveFile>, Error>)
        ensures
            match (url_host_of(url@), url_path_of(url@)) {
                (Some(h), Some(p)) => r matches Ok(plan) && {
                    let fp = |ft: FileType| file_path_spec(
                        self.base_dir@,
                        self.translation_config,
                        url@,
                        h,
                        p,
                        ft,
                    );
                    if self.translation_config.enabled && translated is Some {
                        &&& plan@.len() == 3
                        &&& plan@[0].file_type == FileType::Original && plan@[0].path@ == fp(
                            FileType::Original,
                        ) && plan@[0].content@ == original@
                        &&& plan@[1].file_type == FileType::Translated && plan@[1].path@ == fp(
                            FileType::Translated,
                        ) && plan@[1].content@ == translated->0@
                        &&& plan@[2].file_type == FileType::Bilingual && plan@[2].path@ == fp(
                            FileType::Bilingual,
                        ) && plan@[2].content@ == bilingual_spec(original@, translated->0@)
                    } else {
                        &&& plan@.len() == 1
                        &&& plan@[0].file_type == FileType::Original && plan@[0].path@ == fp(
                            FileType::Original,
                        ) && plan@[0].content@ == original@
                    }
                },
                _ => crate::config::is_config_err(r, "invalid URL or missing host"@),
            },
    {
        let orig_path = match self.get_file_path(url, FileType::Original) {
            Ok(p) => p,
            Err(e) => {
                return Err(e);
            },
        };
        let mut plan: Vec<SaveFile> = Vec::new();
        plan.push(
            SaveFile {
                file_type: FileType::Original,
                path: orig_path,
                content: subvec(original, 0, original.len()),
            },
        );
        proof {
            assert(original@.subrange(0, original@.len() as int) =~= original@);
        }
        if self.translation_config.enabled {
            if let Some(t) = translated {
                let trans_path = match self.get_file_path(url, FileType::Translated) {
                    Ok(p) => p,
                    Err(e) => {
                        return Err(e);
                    },
                };
                plan.push(
                    SaveFile {
                        file_type: FileType::Translated,
                        path: trans_path,
                        content: crate::text::copy_bytes(t),
                    },
                );
                let bi_path = match self.get_file_path(url, FileType::Bilingual) {
                    Ok(p) => p,
                    Err(e) => {
                        return Err(e);
                    },
                };
                let merged = self.create_bilingual_content(original, t.as_slice());
                plan.push(
                    SaveFile { file_type: FileType::Bilingual, path: bi_path, content: merged },
                );
            }
        }
        Ok(plan)
    }

    /// Merge an original and a translated document: with equal blank-line
    /// paragraph counts, each translated paragraph is placed above its
    /// original, pair by pair; otherwise the whole translated text comes
    /// under its heading, a rule, then the whole original under its own.
    pub fn create_bilingual_content(&self, original: &[u8], translated: &[u8]) -> (r: Vec<u8>)
        ensures
            r@ == bilingual_spec(original@, translated@),
    {
        let orig_paras = split_paragraphs(original);
        let trans_paras = split_paragraphs(translated);
        if orig_paras.len() == trans_paras.len() {
            let ghost os = views_of(orig_paras@);
            let ghost ts = views_of(trans_paras@);
            let mut r: Vec<u8> = Vec::new();
            let mut i: usize = 0;
            while i < orig_paras.len()
                invariant
                    orig_paras@.len() == trans_paras@.len(),
                    os == views_of(orig_paras@),
                    ts == views_of(trans_paras@),
                    i <= orig_paras@.len(),
                    r@ + paired_mode(os, ts, i as int) == paired_mode(os, ts, 0),
                decreases orig_paras@.len() - i,
            {
                let ghost pre = r@;
                let op = trim(orig_paras[i].as_slice());
                let tp = trim(trans_paras[i].as_slice());
                if op.len() > 0 || tp.len() > 0 {
                    if tp.len() > 0 {
                        push_all(&mut r, tp.as_slice());
                        r.push(10);
                        r.push(10);
                    }
                    if op.len() > 0 {
                        push_all(&mut r, op.as_slice());
                        r.push(10);
                        r.push(10);
                    }
                    r.push(10);
                }
                proof {
                    assert(r@ =~= pre + paired_block(os[i as int], ts[i as int]));
                    assert(paired_mode(os, ts, i as int) == paired_block(os[i as int], ts[i as int])
                        + paired_mode(os, ts, i + 1));
                    assert(pre + (paired_block(os[i as int], ts[i as int]) + paired_mode(
                        os,
                        ts,
                        i + 1,
                    )) =~= (pre + paired_block(os[i as int], ts[i as int])) + paired_mode(
                        os,
                        ts,
                        i + 1,
                    ));
                }
                i = i + 1;
            }
            proof {
                assert(r@ + paired_mode(os, ts, os.len() as int) =~= r@);
            }
            r
        } else {
            proof {
                reveal_strlit("\n\n---\n\n");
            }
            let ot = trim(original);
            let tt = trim(translated);
            let mut r: Vec<u8> = Vec::new();
            if tt.len() > 0 {
                let h = translated_heading_bytes();
                push_all(&mut r, h.as_slice());
                r.push(10);
                r.push(10);
                push_all(&mut r, tt.as_slice());
                let rule = ascii_bytes("\n\n---\n\n");
                push_all(&mut r, rule.as_slice());
            }
            if ot.len() > 0 {
                let h = original_heading_bytes();
                push_all(&mut r, h.as_slice());
                r.push(10);
                r.push(10);
                push_all(&mut r, ot.as_slice());
                r.push(10);
            }
            proof {
                assert(r@ =~= bilingual_spec(original@, translated@));
            }
            r
        }
    }
}

/// Split a text into its blank-line paragraphs, empty pieces kept.
pub fn split_paragraphs(s: &[u8]) -> (r: Vec<Vec<u8>>)
    ensures
        views_of(r@) == paragraphs_of(s@),
{
    let r = split_paragraphs_from(s, 0);
    r
}

fn split_paragraphs_from(s: &[u8], pos: usize) -> (r: Vec<Vec<u8>>)
    requires
        pos <= s@.len(),
    ensures
        views_of(r@) == split_paras(s@, pos as int),
    decreases s@.len() - pos,
{
    proof {
        crate::text::lemma_first_break(s@, pos as int);
    }
    let b = find_break(s, pos);
    if b >= s.len() {
        let piece = subvec(s, pos, s.len());
        let mut r: Vec<Vec<u8>> = Vec::new();
        proof {
            lemma_views_of_push(r@, piece);
        }
        r.push(piece);
        proof {
            assert(views_of(r@) =~= split_paras(s@, pos as int));
        }
        r
    } else {
        let piece = subvec(s, pos, b);
        let mut rest = split_paragraphs_from(s, b + 2);
        let mut r: Vec<Vec<u8>> = Vec::new();
        r.push(piece);
        let ghost head = r@;
        r.append(&mut rest);
        proof {
            assert(views_of(r@) =~= split_paras(s@, pos as int));
        }
        r
    }
}

/// One pair of the paragraph-aligned mode: the translated paragraph above
/// the original, each followed by a blank line, then a spacer line; nothing
/// when both are blank.
pub open spec fn paired_block(o: Seq<u8>, t: Seq<u8>) -> Seq<u8> {
    let ot = trim_spec(o);
    let tt = trim_spec(t);
    if ot.len() == 0 && tt.len() == 0 {
        Seq::empty()
    } else {
        (if tt.len() > 0 {
            tt + seq![10u8, 10u8]
        } else {
            Seq::empty()
        }) + (if ot.len() > 0 {
            ot + seq![10u8, 10u8]
        } else {
            Seq::empty()
        }) + seq![10u8]
    }
}

/// The paragraph-aligned mode from pair `i` on.
pub open spec fn paired_mode(os: Seq<Seq<u8>>, ts: Seq<Seq<u8>>, i: int) -> Seq<u8>
    decreases os.len() - i,
{
    if i < 0 || i >= os.len() || os.len() != ts.len() {
        Seq::empty()
    } else {
        paired_block(os[i], ts[i]) + paired_mode(os, ts, i + 1)
    }
}

/// The bold heading above the translated text in the whole-document
/// fallback (UTF-8 bytes of the Chinese word for "translated text").
pub open spec fn translated_heading() -> Seq<u8> {
    seq![42u8, 42u8, 0xe8u8, 0xafu8, 0x91u8, 0xe6u8, 0x96u8, 0x87u8, 58u8, 42u8, 42u8]
}

/// The bold heading above the original text in the whole-document fallback
/// (UTF-8 bytes of the Chinese word for "original text").
pub open spec fn original_heading() -> Seq<u8> {
    seq![42u8, 42u8, 0xe5u8, 0x8eu8, 0x9fu8, 0xe6u8, 0x96u8, 0x87u8, 58u8, 42u8, 42u8]
}

/// The bilingual merge of an original and a translated document: paragraph
/// pairs when the blank-line paragraph counts agree, else both whole texts
/// under the translated and the original heading, in that order, separated
/// by a rule.
pub open spec fn bilingual_spec(orig: Seq<u8>, trans: Seq<u8>) -> Seq<u8> {
    let os = paragraphs_of(orig);
    let ts = paragraphs_of(trans);
    if os.len() == ts.len() {
        paired_mode(os, ts, 0)
    } else {
        let ot = trim_spec(orig);
        let tt = trim_spec(trans);
        (if tt.len() > 0 {
            translated_heading() + seq![10u8, 10u8] + tt + bytes_of_ascii("\n\n---\n\n"@)
        } else {
            Seq::empty()
        }) + (if ot.len() > 0 {
            original_heading() + seq![10u8, 10u8] + ot + seq![10u8]
        } else {
            Seq::empty()
        })
    }
}

fn translated_heading_bytes() -> (r: Vec<u8>)
    ensures
        r@ == translated_heading(),
{
    let mut r: Vec<u8> = Vec::new();
    r.push(42);
    r.push(42);
    r.push(0xe8);
    r.push(0xaf);
    r.push(0x91);
    r.push(0xe6);
    r.push(0x96);
    r.push(0x87);
    r.push(58);
    r.push(42);
    r.push(42);
    proof {
        assert(r@ =~= translated_heading());
    }
    r
}

fn original_heading_bytes() -> (r: Vec<u8>)
    ensures
        r@ == original_heading(),
{
    let mut r: Vec<u8> = Vec::new();
    r.push(42);
    r.push(42);
    r.push(0xe5);
    r.push(0x8e);
    r.push(0x9f);
    r.push(0xe6);
    r.push(0x96);
    r.push(0x87);
    r.push(58);
    r.push(42);
    r.push(42);
    proof {
        assert(r@ =~= original_heading());
    }
    r
}

/// The sanitized path part of a file name.
fn path_part(p: &[u8]) -> (r: Vec<u8>)
    ensures
        r@ == path_part_spec(p@),
{
    proof {
        reveal_strlit("/");
        reveal_strlit("index");
    }
    let slash = ascii_bytes("/");
    if p.len() == 0 || crate::text::bytes_eq(p, slash.as_slice()) {
        proof {
            assert(bytes_of_ascii("/"@).len() == 1);
        }
        return ascii_bytes("index");
    }
    let mut i: usize = 0;
    while i < p.len() && p[i] == 47
        invariant
            i <= p@.len(),
            forall|j: int| 0 <= j < i ==> p@[j] == 47,
        decreases p@.len() - i,
    {
        i = i + 1;
    }
    let ghost skipped = skip_slashes(p@);
    proof {
        lemma_skip_slashes_subrange(p@, i as int);
    }
    let mut kept: Vec<u8> = Vec::new();
    let start = i;
    while i < p.len()
        invariant
            start <= i <= p@.len(),
            skipped == p@.subrange(start as int, p@.len() as int),
            kept@ == skipped.subrange(0, i - start as int).map_values(
                |b: u8| path_byte_mapped(b),
            ).filter(|b: u8| path_byte_kept(b)),
        decreases p@.len() - i,
    {
        let b = p[i];
        let m: u8 = if b == 47 || b == 63 || b == 35 || b == 38 || b == 61 || b == 37 {
            95
        } else {
            b
        };
        let keep = (48 <= m && m <= 57) || (65 <= m && m <= 90) || (97 <= m && m <= 122) || m == 95
            || m == 45 || m == 46;
        proof {
            reveal(Seq::filter);
            let pref = skipped.subrange(0, i - start as int);
            let pref1 = skipped.subrange(0, i + 1 - start as int);
            assert(pref1 =~= pref.push(skipped[i - start as int]));
            assert(pref1.map_values(|b: u8| path_byte_mapped(b)) =~= pref.map_values(
                |b: u8| path_byte_mapped(b),
            ).push(m));
            assert(pref1.map_values(|b: u8| path_byte_mapped(b)).drop_last() =~= pref.map_values(
                |b: u8| path_byte_mapped(b),
            ));
        }
        if keep {
            kept.push(m);
        }
        i = i + 1;
    }
    proof {
        assert(skipped.subrange(0, skipped.len() as int) =~= skipped);
    }
    // drop trailing dots
    let mut hi = kept.len();
    while hi > 0 && kept[hi - 1] == 46
        invariant
            hi <= kept@.len(),
            forall|j: int| hi <= j < kept@.len() ==> kept@[j] == 46,
        decreases hi,
    {
        hi = hi - 1;
    }
    let r = subvec(kept.as_slice(), 0, hi);
    proof {
        lemma_trim_dots_subrange(kept@, hi as int);
        assert(p@ != bytes_of_ascii("/"@)) by {
            if p@ == bytes_of_ascii("/"@) {
                assert(p@.len() == 1 && p@[0] == 47);
            }
        }
    }
    r
}

proof fn lemma_skip_slashes_subrange(s: Seq<u8>, k: int)
    requires
        0 <= k <= s.len(),
        forall|i: int| 0 <= i < k ==> s[i] == 47,
        k == s.len() || s[k] != 47,
    ensures
        skip_slashes(s) == s.subrange(k, s.len() as int),
    decreases k,
{
    if k == 0 {
        if s.len() == 0 || s.first() != 47 {
            assert(skip_slashes(s) =~= s.subrange(0, s.len() as int));
        }
    } else {
        let t = s.drop_first();
        lemma_skip_slashes_subrange(t, k - 1);
        assert(skip_slashes(s) == skip_slashes(t));
        assert(t.subrange(k - 1, t.len() as int) =~= s.subrange(k, s.len() as int));
    }
}

proof fn lemma_trim_dots_subrange(s: Seq<u8>, k: int)
    requires
        0 <= k <= s.len(),
        forall|i: int| k <= i < s.len() ==> s[i] == 46,
        k == 0 || s[k - 1] != 46,
    ensures
        trim_dots_back(s) == s.subrange(0, k),
    decreases s.len() - k,
{
    if k == s.len() {
        if s.len() == 0 || s.last() != 46 {
            assert(trim_dots_back(s) =~= s.subrange(0, k));
        } else {
            assert(false);
        }
    } else {
        assert(s.last() == 46);
        let t = s.drop_last();
        lemma_trim_dots_subrange(t, k);
        assert(trim_dots_back(s) == trim_dots_back(t));
        assert(t.subrange(0, k) =~= s.subrange(0, k));
    }
}

/// Clip a long path part at the name budget, marking the cut.
fn clip(s: &[u8]) -> (r: Vec<u8>)
    ensures
        r@ == clip_spec(s@),
{
    if s.len() > 100 {
        proof {
            reveal_strlit("...");
        }
        let mut r = subvec(s, 0, 97);
        let dots = ascii_bytes("...");
        push_all(&mut r, dots.as_slice());
        r
    } else {
        subvec(s, 0, s.len())
    }
}

} // verus!
