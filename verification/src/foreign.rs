//! What this crate takes on trust from `bytes`, `tokio` and the standard library.

use bytes::Bytes;
use tokio::io::ReadBuf;
use vstd::prelude::*;
use vstd::utf8::{encode_utf8, valid_utf8};

verus! {

/// `bytes::Bytes`: an immutable, cheaply cloned run of bytes.
#[verifier::external_type_specification]
#[verifier::external_body]
pub struct ExBytes(bytes::Bytes);

/// The bytes that a `Bytes` handle gives access to.
pub uninterp spec fn bytes_view(b: Bytes) -> Seq<u8>;

/// `Bytes::len` counts the bytes.
pub assume_specification[ Bytes::len ](b: &Bytes) -> (n: usize)
    ensures
        n == bytes_view(*b).len(),
;

/// `Bytes::is_empty` says whether there are no bytes.
pub assume_specification[ Bytes::is_empty ](b: &Bytes) -> (r: bool)
    ensures
        r == (bytes_view(*b).len() == 0),
;

/// Cloning a `Bytes` gives another handle on the same bytes.
pub assume_specification[ <Bytes as Clone>::clone ](b: &Bytes) -> (r: Bytes)
    ensures
        bytes_view(r) == bytes_view(*b),
;

/// `Bytes` dereferences to the slice of its bytes.
pub assume_specification[ <Bytes as std::ops::Deref>::deref ](b: &Bytes) -> (r: &[u8])
    ensures
        r@ == bytes_view(*b),
;

/// Two `Bytes` are equal when they hold the same bytes, wherever those are kept.
pub assume_specification[ <Bytes as PartialEq>::eq ](a: &Bytes, b: &Bytes) -> (r: bool)
    ensures
        r == (bytes_view(*a) == bytes_view(*b)),
;

/// A `Bytes` made of a static slice holds that slice's bytes.
pub assume_specification[ <Bytes as From<&'static [u8]>>::from ](slice: &'static [u8]) -> (r: Bytes)
    ensures
        bytes_view(r) == slice@,
;

/// A `Bytes` made of a static string holds the string's UTF-8 encoding.
pub assume_specification[ <Bytes as From<&'static str>>::from ](slice: &'static str) -> (r: Bytes)
    ensures
        bytes_view(r) == encode_utf8(slice@),
;

/// A `Bytes` made of a vector holds the vector's bytes.
pub assume_specification[ <Bytes as From<Vec<u8>>>::from ](vec: Vec<u8>) -> (r: Bytes)
    ensures
        bytes_view(r) == vec@,
;

/// A `Bytes` made of a string holds the string's UTF-8 encoding.
pub assume_specification[ <Bytes as From<String>>::from ](s: String) -> (r: Bytes)
    ensures
        bytes_view(r) == encode_utf8(s@),
;

/// A hexadecimal digit, in lower case.
pub open spec fn hex_digit(n: u8) -> char {
    if n < 10 {
        (n + 0x30) as char
    } else {
        (n + 0x57) as char
    }
}

/// A byte inside a byte string literal: itself where it is printable, and escaped
/// otherwise.
pub open spec fn byte_text(b: u8) -> Seq<char> {
    if b == 0x0a {
        seq!['\\', 'n']
    } else if b == 0x0d {
        seq!['\\', 'r']
    } else if b == 0x09 {
        seq!['\\', 't']
    } else if b == 0x5c || b == 0x22 {
        seq!['\\', b as char]
    } else if b == 0 {
        seq!['\\', '0']
    } else if 0x20 <= b < 0x7f {
        seq![b as char]
    } else {
        seq!['\\', 'x', hex_digit(b / 16), hex_digit(b % 16)]
    }
}

/// Bytes as a byte string literal.
pub open spec fn byte_string_text(s: Seq<u8>) -> Seq<char> {
    seq!['b', '"'] + s.map_values(|b: u8| byte_text(b)).flatten() + seq!['"']
}

/// `<Bytes as Debug>::fmt` through `format!("{:?}", ..)` writes the bytes as a byte
/// string literal.
#[verifier::external_body]
pub(crate) fn bytes_debug(b: &Bytes) -> (s: String)
    ensures
        s@ == byte_string_text(bytes_view(*b)),
{
    format!("{:?}", b)
}

/// `tokio::io::ReadBuf`: a byte buffer of fixed capacity that is filled from the front.
#[verifier::external_type_specification]
#[verifier::external_body]
pub struct ExReadBuf<'a>(tokio::io::ReadBuf<'a>);

/// The filled part of a `ReadBuf`.
pub uninterp spec fn read_buf_filled(b: ReadBuf<'_>) -> Seq<u8>;

/// The number of bytes that a `ReadBuf` can hold in all.
pub uninterp spec fn read_buf_capacity(b: ReadBuf<'_>) -> nat;

/// `ReadBuf::remaining` counts the bytes that still fit.
pub assume_specification<'a>[ ReadBuf::<'a>::remaining ](b: &ReadBuf<'a>) -> (n: usize)
    ensures
        n + read_buf_filled(*b).len() == read_buf_capacity(*b),
;

/// `ReadBuf::put_slice` appends a slice to the filled part. It panics when the slice
/// does not fit.
pub assume_specification<'a>[ ReadBuf::<'a>::put_slice ](b: &mut ReadBuf<'a>, buf: &[u8])
    requires
        read_buf_filled(*old(b)).len() + buf@.len() <= read_buf_capacity(*old(b)),
    ensures
        read_buf_filled(*final(b)) == read_buf_filled(*old(b)) + buf@,
        read_buf_capacity(*final(b)) == read_buf_capacity(*old(b)),
;

/// `std::io::Error`, which the `std::io` traits name in their results.
#[verifier::external_type_specification]
#[verifier::external_body]
pub struct ExIoError(std::io::Error);

/// `std::str::Utf8Error`, which says where UTF-8 ends.
#[verifier::external_type_specification]
#[verifier::external_body]
pub struct ExUtf8Error(std::str::Utf8Error);

/// The error that `std::str::from_utf8` has for bytes that are not valid UTF-8. It says
/// where the valid part ends and how long the invalid one is, which depends on the
/// bytes alone.
pub uninterp spec fn utf8_error_of(v: Seq<u8>) -> std::str::Utf8Error;

/// `std::str::from_utf8` takes exactly the valid UTF-8 for a string, and the string is
/// the one that these bytes encode. The error for other bytes is named.
pub assume_specification<'a>[ std::str::from_utf8 ](v: &'a [u8]) -> (r: Result<
    &'a str,
    std::str::Utf8Error,
>)
    ensures
        r is Ok == valid_utf8(v@),
        r matches Ok(s) ==> encode_utf8(s@) == v@,
        r matches Err(e) ==> e == utf8_error_of(v@),
;

/// Every type converts from itself through `From`, and the value stays what it is.
pub assume_specification<X>[ <X as std::convert::From<X>>::from ](t: X) -> (r: X)
    ensures
        r == t,
;

} // verus!
