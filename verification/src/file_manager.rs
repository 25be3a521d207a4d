//! Flat output file naming for the single-folder layout.

use vstd::prelude::*;

use crate::text::{
    ascii_bytes, bytes_of_ascii, push_all, subvec, trim_byte, trim_byte_back, trim_byte_front,
    bytes_eq,
};
use crate::types::Error;
use crate::urls::{url_host, url_host_of, url_path, url_path_of};

verus! {

/// Path separators and query syntax become underscores in a flat name.
pub open spec fn flat_byte_mapped(b: u8) -> u8 {
    if b == 47 || b == 92 || b == 63 || b == 38 || b == 61 || b == 35 {
        95u8
    } else {
        b
    }
}

/// The sanitized path of a flat file name: separators and query syntax
/// become underscores, underscores are trimmed from both ends, an empty
/// result becomes a fixed word, and the result is cut at the name budget.
pub open spec fn flat_path_spec(p: Seq<u8>) -> Seq<u8> {
    let mapped = p.map_values(|b: u8| flat_byte_mapped(b));
    let t = trim_byte_back(trim_byte_front(mapped, 95), 95);
    let named = if t.len() == 0 {
        bytes_of_ascii("index"@)
    } else {
        t
    };
    if named.len() > 100 {
        named.subrange(0, 100)
    } else {
        named
    }
}

/// The host of the URL, or the fixed placeholder when the URL has none.
pub open spec fn flat_host(u: Seq<u8>) -> Seq<u8> {
    match url_host_of(u) {
        Some(h) => h,
        None => bytes_of_ascii("unknown"@),
    }
}

/// The flat output file name for a URL: the host, then the sanitized path
/// unless it is the fixed word for an empty path. A function of the URL
/// alone, so repeated runs target the same location.
pub open spec fn flat_filename_spec(u: Seq<u8>, p: Seq<u8>) -> Seq<u8> {
    flat_host(u) + (if flat_path_spec(p) == bytes_of_ascii("index"@) {
        Seq::<u8>::empty()
    } else {
        seq![95u8] + flat_path_spec(p)
    }) + bytes_of_ascii(".md"@)
}

/// Names the files of the single-folder output layout.
pub struct FileManager {
    pub output_dir: Vec<u8>,
}

impl FileManager {
    pub fn new(output_dir: Vec<u8>) -> (r: Self)
        ensures
            r.output_dir == output_dir,
    {
        FileManager { output_dir }
    }

    /// The flat output file name for a URL: a deterministic function of the
    /// URL, so repeated runs target the same location.
    pub fn generate_filename(&self, url: &[u8]) -> (r: Result<Vec<u8>, Error>)
        ensures
            match url_path_of(url@) {
                Some(p) => r matches Ok(name) && name@ == flat_filename_spec(url@, p),
                None => crate::config::is_config_err(r, "invalid URL or missing host"@),
            },
    {
        let path = match url_path(url) {
            Some(p) => p,
            None => {
                proof {
                    reveal_strlit("invalid URL or missing host");
                }
                return Err(Error::Config(ascii_bytes("invalid URL or missing host")));
            },
        };
        let host = match url_host(url) {
            Some(h) => h,
            None => {
                proof {
                    reveal_strlit("unknown");
                }
                ascii_bytes("unknown")
            },
        };
        let mut mapped: Vec<u8> = Vec::new();
        let mut i: usize = 0;
        while i < path.len()
            invariant
                i <= path@.len(),
                mapped@ == path@.subrange(0, i as int).map_values(|b: u8| flat_byte_mapped(b)),
            decreases path@.len() - i,
        {
            let b = path[i];
            mapped.push(
                if b == 47 || b == 92 || b == 63 || b == 38 || b == 61 || b == 35 {
                    95
                } else {
                    b
                },
            );
            i = i + 1;
            proof {
                assert(mapped@ =~= path@.subrange(0, i as int).map_values(
                    |b: u8| flat_byte_mapped(b),
                ));
            }
        }
        proof {
            assert(path@.subrange(0, path@.len() as int) =~= path@);
        }
        let trimmed = trim_byte(mapped.as_slice(), 95);
        proof {
            reveal_strlit("index");
        }
        let named = if trimmed.len() == 0 {
            ascii_bytes("index")
        } else {
            trimmed
        };
        let cut = if named.len() > 100 {
            subvec(named.as_slice(), 0, 100)
        } else {
            named
        };
        let mut name = host;
        let index_word = ascii_bytes("index");
        if !bytes_eq(cut.as_slice(), index_word.as_slice()) {
            name.push(95);
            push_all(&mut name, cut.as_slice());
        }
        proof {
            reveal_strlit(".md");
        }
        let suffix = ascii_bytes(".md");
        push_all(&mut name, suffix.as_slice());
        proof {
            assert(name@ =~= flat_filename_spec(url@, path@));
        }
        Ok(name)
    }
}

} // verus!
