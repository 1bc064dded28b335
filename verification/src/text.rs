//! Turning the bytes of a name into text.

use std::string::FromUtf8Error;
use vstd::prelude::*;
use vstd::utf8::{decode_utf8, valid_utf8};
use crate::error::Error;

verus! {

/// The error of `String::from_utf8`. Nothing is read from it.
#[verifier::external_type_specification]
#[verifier::external_body]
pub struct ExFromUtf8Error(FromUtf8Error);

/// `String::from_utf8`: succeeds exactly on valid UTF-8, and then gives the
/// text that the bytes encode.
pub assume_specification[ String::from_utf8 ](vec: Vec<u8>) -> (r: Result<String, FromUtf8Error>)
    ensures
        r is Ok <==> valid_utf8(vec@),
        r is Ok ==> r->Ok_0@ == decode_utf8(vec@),
;

/// The text that `raw` encodes, or the failure for bytes that encode none.
pub open spec fn spec_text(raw: Seq<u8>) -> Result<Seq<char>, Error> {
    if valid_utf8(raw) {
        Ok(decode_utf8(raw))
    } else {
        Err(Error::InvalidUtf8)
    }
}

/// Decodes `raw` as UTF-8, rejecting anything that is not valid.
pub fn text_from_bytes(raw: Vec<u8>) -> (r: Result<String, Error>)
    ensures
        match spec_text(raw@) {
            Ok(text) => r is Ok && r->Ok_0@ == text,
            Err(e) => r == Err::<String, Error>(e),
        },
{
    match String::from_utf8(raw) {
        Ok(text) => Ok(text),
        Err(_) => Err(Error::InvalidUtf8),
    }
}

} // verus!
