//! The ordered 62-symbol digit alphabet `0-9 A-Z a-z`. The index of a symbol
//! is its digit value; the ordering of the symbols agrees with the byte
//! (code point) ordering, which is what keeps key comparison plain.

use vstd::prelude::*;
use vstd::string::StrSliceExecFns;

verus! {

broadcast use vstd::string::group_string_axioms;

/// The alphabet as a sequence of characters: the digit of value `v` stands
/// at index `v`.
pub open spec fn alphabet() -> Seq<char> {
    "0123456789ABCDEFGHIJKLMNOPQRSTUVWXYZabcdefghijklmnopqrstuvwxyz"@
}

/// Does `c` belong to the digit alphabet?
pub open spec fn is_digit(c: char) -> bool {
    ||| '0' <= c && c <= '9'
    ||| 'A' <= c && c <= 'Z'
    ||| 'a' <= c && c <= 'z'
}

/// The digit value of an alphabet character: `'0'..='9'` map to 0..=9,
/// `'A'..='Z'` to 10..=35 and `'a'..='z'` to 36..=61.
pub open spec fn digit_val(c: char) -> int {
    if '0' <= c && c <= '9' {
        c as int - '0' as int
    } else if 'A' <= c && c <= 'Z' {
        c as int - 'A' as int + 10
    } else {
        c as int - 'a' as int + 36
    }
}

/// The alphabet character of digit value `v`.
pub open spec fn char_of(v: int) -> char {
    alphabet()[v]
}

/// Every character of `s` belongs to the digit alphabet.
pub open spec fn all_digits(s: Seq<char>) -> bool {
    forall|i: int| 0 <= i < s.len() ==> is_digit(#[trigger] s[i])
}

/// The alphabet maps values to digits and back: indexing and `digit_val`
/// are inverse to each other.
pub proof fn lemma_alphabet()
    ensures
        alphabet().len() == 62,
        forall|v: int|
            0 <= v < 62 ==> is_digit(#[trigger] char_of(v)) && digit_val(char_of(v)) == v,
        forall|c: char| is_digit(c) ==> char_of(#[trigger] digit_val(c)) == c,
{
    reveal_strlit("0123456789ABCDEFGHIJKLMNOPQRSTUVWXYZabcdefghijklmnopqrstuvwxyz");
    assert forall|c: char| is_digit(c) implies char_of(#[trigger] digit_val(c)) == c by {
        let v = digit_val(c);
        let d = char_of(v);
        assert(is_digit(d) && digit_val(d) == v);
    }
}

/// Digit values respect the code point order of their characters.
pub proof fn lemma_digit_val_order(c1: char, c2: char)
    requires
        is_digit(c1),
        is_digit(c2),
    ensures
        digit_val(c1) < digit_val(c2) <==> c1 < c2,
        digit_val(c1) == digit_val(c2) <==> c1 == c2,
{
}

/// The digit value of `c`, or `None` when `c` is outside the alphabet.
pub fn digit_value(c: char) -> (r: Option<u8>)
    ensures
        r is Some <==> is_digit(c),
        r is Some ==> r->0 == digit_val(c),
{
    if '0' <= c && c <= '9' {
        Some((c as u32 - 48) as u8)
    } else if 'A' <= c && c <= 'Z' {
        Some((c as u32 - 55) as u8)
    } else if 'a' <= c && c <= 'z' {
        Some((c as u32 - 61) as u8)
    } else {
        None
    }
}

/// The one-character string holding the digit of value `v`.
pub fn digit_char(v: u8) -> (s: String)
    requires
        v < 62,
    ensures
        s@ == seq![char_of(v as int)],
{
    let d: &str = "0123456789ABCDEFGHIJKLMNOPQRSTUVWXYZabcdefghijklmnopqrstuvwxyz";
    proof {
        reveal_strlit("0123456789ABCDEFGHIJKLMNOPQRSTUVWXYZabcdefghijklmnopqrstuvwxyz");
        lemma_alphabet();
        assert(d.is_ascii());
    }
    let s: &str = d.substring_ascii(v as usize, v as usize + 1);
    proof {
        assert(s@ =~= seq![char_of(v as int)]);
    }
    s.to_owned()
}

} // verus!
