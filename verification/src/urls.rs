//! URL handling: host and path extraction, and URL normalization.
//!
//! Parsing itself is done by the `url` crate; its results are named, not
//! restated, since WHATWG URL parsing is a function of the input alone.

use vstd::prelude::*;

use crate::text::{ascii_bytes, bytes_of_ascii, push_all, slice_starts_with, starts_with};
use crate::types::Error;

verus! {

/// The host of the URL written in these bytes, as the WHATWG URL parser
/// yields it, or none when the bytes are not a parseable absolute URL or
/// the URL has no host. A function of the bytes alone.
pub uninterp spec fn url_host_of(s: Seq<u8>) -> Option<Seq<u8>>;

/// The path of the URL written in these bytes, as the WHATWG URL parser
/// yields it, or none when the bytes are not a parseable absolute URL.
/// A function of the bytes alone.
pub uninterp spec fn url_path_of(s: Seq<u8>) -> Option<Seq<u8>>;

/// Relies on url::Url::parse and url::Url::host_str: the host of an
/// absolute URL, a deterministic function of the input.
#[verifier::external_body]
pub(crate) fn url_host(s: &[u8]) -> (r: Option<Vec<u8>>)
    ensures
        match r {
            Some(h) => url_host_of(s@) == Some(h@),
            None => url_host_of(s@) is None,
        },
{
    match core::str::from_utf8(s) {
        Ok(t) => match url::Url::parse(t) {
            Ok(u) => u.host_str().map(|h| h.as_bytes().to_vec()),
            Err(_) => None,
        },
        Err(_) => None,
    }
}

/// Relies on url::Url::parse and url::Url::path: the path of an absolute
/// URL, a deterministic function of the input.
#[verifier::external_body]
pub(crate) fn url_path(s: &[u8]) -> (r: Option<Vec<u8>>)
    ensures
        match r {
            Some(p) => url_path_of(s@) == Some(p@),
            None => url_path_of(s@) is None,
        },
{
    match core::str::from_utf8(s) {
        Ok(t) => match url::Url::parse(t) {
            Ok(u) => Some(u.path().as_bytes().to_vec()),
            Err(_) => None,
        },
        Err(_) => None,
    }
}

/// The host of the URL, or a fatal configuration error when the URL cannot
/// be parsed or has no host.
pub fn extract_domain(url: &[u8]) -> (r: Result<Vec<u8>, Error>)
    ensures
        match url_host_of(url@) {
            Some(h) => r matches Ok(d) && d@ == h,
            None => crate::config::is_config_err(r, "invalid URL or missing host"@),
        },
{
    match url_host(url) {
        Some(h) => Ok(h),
        None => {
            proof {
                reveal_strlit("invalid URL or missing host");
            }
            Err(Error::Config(ascii_bytes("invalid URL or missing host")))
        },
    }
}

/// Prefix a URL with an `https` scheme when it names no scheme at all.
pub fn normalize_url(url: &Vec<u8>) -> (r: Vec<u8>)
    ensures
        starts_with(url@, bytes_of_ascii("http://"@)) || starts_with(
            url@,
            bytes_of_ascii("https://"@),
        ) ==> r@ == url@,
        !(starts_with(url@, bytes_of_ascii("http://"@)) || starts_with(
            url@,
            bytes_of_ascii("https://"@),
        )) ==> r@ == bytes_of_ascii("https://"@) + url@,
{
    proof {
        reveal_strlit("http://");
        reveal_strlit("https://");
    }
    let http = ascii_bytes("http://");
    let https = ascii_bytes("https://");
    if slice_starts_with(url.as_slice(), http.as_slice()) || slice_starts_with(
        url.as_slice(),
        https.as_slice(),
    ) {
        crate::text::copy_bytes(url)
    } else {
        let mut r = https;
        push_all(&mut r, url.as_slice());
        r
    }
}

} // verus!
