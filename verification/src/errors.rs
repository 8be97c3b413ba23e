//! The failure messages of the library. Every fallible operation reports a
//! plain message string; the spec functions here pin each message down
//! exactly, so contracts can say which message an input produces.

use vstd::prelude::*;
use vstd::string::StringExecFns;

verus! {

/// Message for a key whose first character encodes no integer length.
pub open spec fn msg_invalid_head(c: char) -> Seq<char> {
    "invalid order key head: "@ + seq![c]
}

/// Message for a structurally malformed key: the reserved minimum, a key
/// cut short of its declared integer length, a character outside the
/// alphabet, or a fractional part ending in the zero digit.
pub open spec fn msg_invalid_key(k: Seq<char>) -> Seq<char> {
    "invalid order key: "@ + k
}

/// Message for an empty key string, which is no stored key at all.
pub open spec fn msg_empty_key() -> Seq<char> {
    "invalid order key"@
}

/// Message for an integer part whose length disagrees with its head.
pub open spec fn msg_invalid_int(x: Seq<char>) -> Seq<char> {
    "invalid integer part of order key: "@ + x
}

/// Message for bounds out of order: the lower bound does not sort below
/// the upper bound.
pub open spec fn msg_invalid_order(a: Seq<char>, b: Seq<char>) -> Seq<char> {
    "invalid order: "@ + a + " >= "@ + b
}

/// Message for an exhausted integer space at the top.
pub open spec fn msg_range_overflow() -> Seq<char> {
    "range overflow"@
}

/// Message for an exhausted integer space at the bottom.
pub open spec fn msg_range_underflow() -> Seq<char> {
    "range underflow"@
}

/// Relies on String::push: appends exactly the given character.
#[verifier::external_body]
fn push_char(s: &mut String, c: char)
    ensures
        final(s)@ == old(s)@.push(c),
{
    s.push(c);
}

pub fn err_invalid_head(c: char) -> (r: String)
    ensures
        r@ == msg_invalid_head(c),
{
    let mut s = String::from_str("invalid order key head: ");
    push_char(&mut s, c);
    proof {
        assert(s@ =~= msg_invalid_head(c));
    }
    s
}

pub fn err_invalid_key(k: &str) -> (r: String)
    ensures
        r@ == msg_invalid_key(k@),
{
    String::from_str("invalid order key: ").concat(k)
}

pub fn err_empty_key() -> (r: String)
    ensures
        r@ == msg_empty_key(),
{
    String::from_str("invalid order key")
}

pub fn err_invalid_int(x: &str) -> (r: String)
    ensures
        r@ == msg_invalid_int(x@),
{
    String::from_str("invalid integer part of order key: ").concat(x)
}

pub fn err_invalid_order(a: &str, b: &str) -> (r: String)
    ensures
        r@ == msg_invalid_order(a@, b@),
{
    let r = String::from_str("invalid order: ").concat(a).concat(" >= ").concat(b);
    proof {
        assert(r@ =~= msg_invalid_order(a@, b@));
    }
    r
}

pub fn err_range_overflow() -> (r: String)
    ensures
        r@ == msg_range_overflow(),
{
    String::from_str("range overflow")
}

pub fn err_range_underflow() -> (r: String)
    ensures
        r@ == msg_range_underflow(),
{
    String::from_str("range underflow")
}

} // verus!
