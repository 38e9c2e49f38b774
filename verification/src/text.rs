//! Text held in a byte source as UTF-8.

use crate::bytes::span_is;
use vstd::prelude::*;
use vstd::slice::slice_subrange;
use vstd::utf8::{decode_utf8, encode_utf8, encode_utf8_decode_utf8, valid_utf8};

verus! {

/// Calls `core::str::from_utf8`. The standard library documents that it
/// succeeds exactly on well-formed UTF-8 and that the string it returns is
/// the given bytes read as UTF-8; the contract says so with vstd's
/// `valid_utf8` and `decode_utf8`.
#[verifier::external_body]
fn str_from_utf8<'a>(bytes: &'a [u8]) -> (r: Option<&'a str>)
    ensures
        match r {
            Some(t) => valid_utf8(bytes@) && t@ == decode_utf8(bytes@),
            None => !valid_utf8(bytes@),
        },
{
    match core::str::from_utf8(bytes) {
        Ok(t) => Some(t),
        Err(_) => None,
    }
}

/// The text that `bytes` holds, or `None` when they are not UTF-8.
pub open spec fn text_of(bytes: Seq<u8>) -> Option<Seq<char>> {
    if valid_utf8(bytes) {
        Some(decode_utf8(bytes))
    } else {
        None
    }
}

/// Reads the bytes of `data` between `start` and `end` as text.
pub fn read_text(data: &[u8], start: usize, end: usize) -> (r: Option<String>)
    requires
        start <= end <= data@.len(),
    ensures
        match r {
            Some(t) => text_of(data@.subrange(start as int, end as int)) == Some(t@),
            None => text_of(data@.subrange(start as int, end as int)) is None,
        },
{
    match str_from_utf8(slice_subrange(data, start, end)) {
        Some(t) => Some(t.to_owned()),
        None => None,
    }
}

/// Two texts with the same UTF-8 bytes are the same text.
pub proof fn lemma_text_by_bytes(a: Seq<char>, b: Seq<char>)
    requires
        encode_utf8(a) == encode_utf8(b),
    ensures
        a == b,
{
    encode_utf8_decode_utf8(a);
    encode_utf8_decode_utf8(b);
}

/// Whether two strings hold the same text.
pub fn same_text(a: &str, b: &str) -> (r: bool)
    ensures
        r == (a@ == b@),
{
    let x: &[u8] = a.as_bytes();
    let y: &[u8] = b.as_bytes();
    let r: bool = span_is(x, 0, x.len(), y);
    proof {
        assert(x@.subrange(0, x@.len() as int) =~= x@);
        if r {
            lemma_text_by_bytes(a@, b@);
        }
    }
    r
}

} // verus!
