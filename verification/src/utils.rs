//! Character classes of the wire grammar, over raw bytes.
//!
//! The grammar is pure ASCII, so every class is a predicate on one byte.
//! Each predicate exists as a spec function (used throughout the crate's
//! contracts) and as an executable twin proved equal to it.

use vstd::prelude::*;

verus! {

/// ASCII digit `0`-`9`.
pub open spec fn is_digit(b: u8) -> bool {
    0x30 <= b <= 0x39
}

/// ASCII lowercase letter `a`-`z`.
pub open spec fn is_lcalpha(b: u8) -> bool {
    0x61 <= b <= 0x7a
}

/// ASCII letter `A`-`Z` or `a`-`z`.
pub open spec fn is_alpha(b: u8) -> bool {
    (0x41 <= b <= 0x5a) || (0x61 <= b <= 0x7a)
}

/// First byte of a key: lowercase letter or `*`.
pub open spec fn is_key_start(b: u8) -> bool {
    is_lcalpha(b) || b == 0x2a
}

/// Later byte of a key: lowercase letter, digit, `_`, `-`, `.` or `*`.
pub open spec fn is_key_byte(b: u8) -> bool {
    is_lcalpha(b) || is_digit(b) || b == 0x5f || b == 0x2d || b == 0x2e || b == 0x2a
}

/// `tchar` of RFC 7230: `!#$%&'*+-.^_`|~`, digits and letters.
pub open spec fn is_tchar(b: u8) -> bool {
    is_alpha(b) || is_digit(b) || b == 0x21 || b == 0x23 || b == 0x24 || b == 0x25 || b == 0x26
        || b == 0x27 || b == 0x2a || b == 0x2b || b == 0x2d || b == 0x2e || b == 0x5e || b == 0x5f
        || b == 0x60 || b == 0x7c || b == 0x7e
}

/// First byte of a token: letter or `*`.
pub open spec fn is_token_start(b: u8) -> bool {
    is_alpha(b) || b == 0x2a
}

/// Later byte of a token: `tchar`, `:` or `/`.
pub open spec fn is_token_byte(b: u8) -> bool {
    is_tchar(b) || b == 0x3a || b == 0x2f
}

/// Byte allowed inside a string: printable ASCII 0x20-0x7e.
pub open spec fn is_visible(b: u8) -> bool {
    0x20 <= b <= 0x7e
}

/// Byte of the base64 alphabet with padding: letters, digits, `+`, `/`, `=`.
pub open spec fn is_base64_byte(b: u8) -> bool {
    is_alpha(b) || is_digit(b) || b == 0x2b || b == 0x2f || b == 0x3d
}

/// Optional whitespace: space or horizontal tab.
pub open spec fn is_ows(b: u8) -> bool {
    b == 0x20 || b == 0x09
}

/// Every byte is an ASCII digit.
pub open spec fn digits_only(s: Seq<u8>) -> bool {
    forall|i: int| 0 <= i < s.len() ==> is_digit(#[trigger] s[i])
}

/// Every byte is a space.
pub open spec fn is_all_sp(s: Seq<u8>) -> bool {
    forall|i: int| 0 <= i < s.len() ==> #[trigger] s[i] == 0x20
}

/// Every byte is ASCII.
pub open spec fn is_all_ascii(s: Seq<u8>) -> bool {
    forall|i: int| 0 <= i < s.len() ==> #[trigger] s[i] < 0x80
}

/// A whole key: non-empty, first byte a key start, rest key bytes.
pub open spec fn is_valid_key(s: Seq<u8>) -> bool {
    &&& s.len() > 0
    &&& is_key_start(s[0])
    &&& forall|i: int| 0 < i < s.len() ==> is_key_byte(#[trigger] s[i])
}

/// A whole string body: every byte printable ASCII.
pub open spec fn is_valid_string(s: Seq<u8>) -> bool {
    forall|i: int| 0 <= i < s.len() ==> is_visible(#[trigger] s[i])
}

/// A whole token: non-empty, first byte a token start, rest token bytes.
pub open spec fn is_valid_token(s: Seq<u8>) -> bool {
    &&& s.len() > 0
    &&& is_token_start(s[0])
    &&& forall|i: int| 0 < i < s.len() ==> is_token_byte(#[trigger] s[i])
}

pub proof fn lemma_ascii_append(a: Seq<u8>, b: Seq<u8>)
    requires
        is_all_ascii(a),
        is_all_ascii(b),
    ensures
        is_all_ascii(a + b),
{
    assert forall|i: int| 0 <= i < (a + b).len() implies #[trigger] (a + b)[i] < 0x80 by {
        if i < a.len() {
            assert(a[i] < 0x80);
        } else {
            assert(b[i - a.len()] < 0x80);
        }
    }
}

pub fn digit(b: u8) -> (r: bool)
    ensures
        r == is_digit(b),
{
    0x30 <= b && b <= 0x39
}

pub fn lcalpha(b: u8) -> (r: bool)
    ensures
        r == is_lcalpha(b),
{
    0x61 <= b && b <= 0x7a
}

pub fn alpha(b: u8) -> (r: bool)
    ensures
        r == is_alpha(b),
{
    (0x41 <= b && b <= 0x5a) || (0x61 <= b && b <= 0x7a)
}

pub fn key_start(b: u8) -> (r: bool)
    ensures
        r == is_key_start(b),
{
    lcalpha(b) || b == 0x2a
}

pub fn key_byte(b: u8) -> (r: bool)
    ensures
        r == is_key_byte(b),
{
    lcalpha(b) || digit(b) || b == 0x5f || b == 0x2d || b == 0x2e || b == 0x2a
}

pub fn tchar(b: u8) -> (r: bool)
    ensures
        r == is_tchar(b),
{
    alpha(b) || digit(b) || b == 0x21 || b == 0x23 || b == 0x24 || b == 0x25 || b == 0x26
        || b == 0x27 || b == 0x2a || b == 0x2b || b == 0x2d || b == 0x2e || b == 0x5e || b == 0x5f
        || b == 0x60 || b == 0x7c || b == 0x7e
}

pub fn token_start(b: u8) -> (r: bool)
    ensures
        r == is_token_start(b),
{
    alpha(b) || b == 0x2a
}

pub fn token_byte(b: u8) -> (r: bool)
    ensures
        r == is_token_byte(b),
{
    tchar(b) || b == 0x3a || b == 0x2f
}

pub fn visible(b: u8) -> (r: bool)
    ensures
        r == is_visible(b),
{
    0x20 <= b && b <= 0x7e
}

pub fn ows(b: u8) -> (r: bool)
    ensures
        r == is_ows(b),
{
    b == 0x20 || b == 0x09
}

} // verus!
