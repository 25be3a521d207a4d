//! Page-to-text conversion: the request URL and the response's meaning.
//!
//! The conversion service is an opaque network collaborator; fetching is
//! done outside the library. Here are the request address a URL maps to and
//! the exact interpretation of a response: any non-success status is a
//! terminal conversion failure, never retried at this layer.

use vstd::prelude::*;

use crate::text::{ascii_bytes, bytes_of_ascii, decimal_of, push_all, u64_to_decimal};
use crate::types::Error;

verus! {

/// The address of the conversion service for a page.
pub fn conversion_request_url(url: &[u8]) -> (r: Vec<u8>)
    ensures
        r@ == bytes_of_ascii("https://r.jina.ai/"@) + url@,
{
    proof {
        reveal_strlit("https://r.jina.ai/");
    }
    let mut r = ascii_bytes("https://r.jina.ai/");
    push_all(&mut r, url);
    r
}

/// The result is a conversion error naming this status code.
pub open spec fn is_conversion_status_err(r: Result<Vec<u8>, Error>, status: int) -> bool {
    r matches Err(Error::Conversion(m)) && m@ == bytes_of_ascii("HTTP error: "@) + decimal_of(
        status as nat,
    )
}

/// What a conversion response means: the body on a success status, a
/// conversion error naming the status otherwise.
pub fn interpret_conversion_response(status_ok: bool, status: u16, body: Vec<u8>) -> (r: Result<
    Vec<u8>,
    Error,
>)
    ensures
        status_ok ==> r == Ok::<Vec<u8>, Error>(body),
        !status_ok ==> is_conversion_status_err(r, status as int),
{
    if status_ok {
        Ok(body)
    } else {
        proof {
            reveal_strlit("HTTP error: ");
        }
        let mut m = ascii_bytes("HTTP error: ");
        let digits = u64_to_decimal(status as u64);
        push_all(&mut m, digits.as_slice());
        Err(Error::Conversion(m))
    }
}

} // verus!
