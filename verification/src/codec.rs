//! The self-delimiting integer part of an order key. The first character
//! (the head) encodes the length of the whole integer part: heads
//! `'a'..='z'` give lengths 2..=27 for non-negative magnitudes, heads
//! `'A'..='Z'` give lengths 27..=2 for negative ones, mirrored so that
//! plain lexicographic comparison of two integer parts agrees with their
//! numeric order. The module provides the successor and predecessor
//! operations over this encoding.

use crate::alphabet::{
    all_digits, char_of, digit_char, digit_val, digit_value, is_digit, lemma_alphabet,
};
use crate::errors::{
    err_invalid_head, err_invalid_int, err_invalid_key, msg_invalid_head, msg_invalid_int,
    msg_invalid_key,
};
use vstd::prelude::*;
use vstd::string::{StrSliceExecFns, StringExecFns};

verus! {

/// Is `c` a head character: a letter that encodes an integer length?
pub open spec fn valid_head(c: char) -> bool {
    ||| 'A' <= c && c <= 'Z'
    ||| 'a' <= c && c <= 'z'
}

/// The total length of an integer part whose head is `c`: `'a'..='z'`
/// give 2..=27, `'A'..='Z'` give 27..=2.
pub open spec fn head_len(c: char) -> int {
    if 'a' <= c && c <= 'z' {
        c as int - 'a' as int + 2
    } else {
        'Z' as int - c as int + 2
    }
}

/// A well-formed integer part: a head followed by exactly `head_len - 1`
/// further alphabet digits.
pub open spec fn valid_int(s: Seq<char>) -> bool {
    &&& s.len() >= 1
    &&& valid_head(s[0])
    &&& s.len() == head_len(s[0])
    &&& all_digits(s)
}

/// `n` copies of the digit of value `v`.
pub open spec fn repeat_char(v: int, n: int) -> Seq<char> {
    Seq::new(n as nat, |i: int| char_of(v))
}

/// The reserved absolute minimum integer part: head `'A'` followed by 26
/// zero digits. It is one decrement away from underflow and is itself no
/// valid order key.
pub open spec fn smallest_int() -> Seq<char> {
    seq!['A'] + repeat_char(0, 26)
}

/// The largest representable integer part: head `'z'` followed by 26 max
/// digits.
pub open spec fn largest_int() -> Seq<char> {
    seq!['z'] + repeat_char(61, 26)
}

/// Heads are alphabet digits, and both reserved extremes are well formed.
pub proof fn lemma_int_bounds_valid()
    ensures
        valid_int(smallest_int()),
        valid_int(largest_int()),
        smallest_int().len() == 27,
        largest_int().len() == 27,
{
    lemma_alphabet();
    assert(digit_val('A') == 10 && digit_val('z') == 61 && digit_val('0') == 0);
    assert(char_of(0) == '0') by {
        assert(digit_val('0') == 0);
    }
    assert(char_of(61) == 'z') by {
        assert(digit_val('z') == 61);
    }
    assert(valid_int(smallest_int()));
    assert(valid_int(largest_int()));
}

/// Two distinct well-formed integer parts differ within their common
/// length, so neither is a prefix of the other.
pub proof fn lemma_int_not_prefix(x: Seq<char>, y: Seq<char>)
    requires
        valid_int(x),
        valid_int(y),
        x != y,
    ensures
        !crate::order::is_prefix(x, y),
        !crate::order::is_prefix(y, x),
{
    if x[0] == y[0] {
        assert(x.len() == y.len());
        if crate::order::is_prefix(x, y) {
            assert(x =~= y.take(x.len() as int));
            assert(x =~= y);
        }
        if crate::order::is_prefix(y, x) {
            assert(y =~= x.take(y.len() as int));
            assert(y =~= x);
        }
    } else {
        if crate::order::is_prefix(x, y) {
            assert(y.take(x.len() as int)[0] == y[0]);
        }
        if crate::order::is_prefix(y, x) {
            assert(x.take(y.len() as int)[0] == x[0]);
        }
    }
}

/// The length an integer part must have, read off its head character, or
/// the invalid-head failure.
pub fn get_int_len(head: char) -> (r: Result<usize, String>)
    ensures
        r is Ok <==> valid_head(head),
        r matches Ok(n) ==> n == head_len(head) && 2 <= n <= 27,
        r matches Err(m) ==> m@ == msg_invalid_head(head),
{
    if 'a' <= head && head <= 'z' {
        Ok((head as u32 - 97 + 2) as usize)
    } else if 'A' <= head && head <= 'Z' {
        Ok((90 - head as u32 + 2) as usize)
    } else {
        Err(err_invalid_head(head))
    }
}

/// The integer-part prefix of `key`: exactly `head_len(key[0])`
/// characters. Fails when the head is no head, or when the key is shorter
/// than the length its head declares.
pub fn get_int_part(key: &str) -> (r: Result<String, String>)
    requires
        key@.len() >= 1,
    ensures
        r is Ok <==> valid_head(key@[0]) && head_len(key@[0]) <= key@.len(),
        r matches Ok(p) ==> p@ == key@.take(head_len(key@[0])),
        r matches Err(m) ==> m@ == (if !valid_head(key@[0]) {
            msg_invalid_head(key@[0])
        } else {
            msg_invalid_key(key@)
        }),
{
    let n: usize = key.unicode_len();
    let head: char = key.get_char(0);
    match get_int_len(head) {
        Err(m) => Err(m),
        Ok(l) => {
            if l > n {
                Err(err_invalid_key(key))
            } else {
                Ok(key.substring_char(0, l).to_owned())
            }
        },
    }
}

/// Checks that `i` is a well-formed integer part: a valid head, exactly
/// the declared number of characters, all of them alphabet digits.
pub fn validate_int(i: &str) -> (r: Result<(), String>)
    ensures
        r is Ok <==> valid_int(i@),
        r matches Err(m) ==> m@ == (if i@.len() >= 1 && !valid_head(i@[0]) {
            msg_invalid_head(i@[0])
        } else {
            msg_invalid_int(i@)
        }),
{
    let n: usize = i.unicode_len();
    if n == 0 {
        return Err(err_invalid_int(i));
    }
    let head: char = i.get_char(0);
    let exp: usize = match get_int_len(head) {
        Err(m) => {
            return Err(m);
        },
        Ok(l) => l,
    };
    if n != exp {
        return Err(err_invalid_int(i));
    }
    let mut j: usize = 1;
    while j < n
        invariant
            1 <= j <= n,
            n == i@.len(),
            forall|k: int| 0 <= k < j ==> is_digit(#[trigger] i@[k]),
            valid_head(i@[0]),
        decreases n - j,
    {
        if digit_value(i.get_char(j)).is_none() {
            return Err(err_invalid_int(i));
        }
        j = j + 1;
    }
    Ok(())
}

/// The successor of a digit string in base 62, propagating the carry from
/// the least significant digit; `None` when every digit wraps around.
pub open spec fn inc_digits(d: Seq<char>) -> Option<Seq<char>>
    decreases d.len(),
{
    if d.len() == 0 {
        None
    } else if d.last() != 'z' {
        Some(d.update(d.len() - 1, char_of(digit_val(d.last()) + 1)))
    } else {
        match inc_digits(d.drop_last()) {
            None => None,
            Some(e) => Some(e.push('0')),
        }
    }
}

/// The predecessor of a digit string in base 62, propagating the borrow
/// from the least significant digit; `None` when every digit wraps around.
pub open spec fn dec_digits(d: Seq<char>) -> Option<Seq<char>>
    decreases d.len(),
{
    if d.len() == 0 {
        None
    } else if d.last() != '0' {
        Some(d.update(d.len() - 1, char_of(digit_val(d.last()) - 1)))
    } else {
        match dec_digits(d.drop_last()) {
            None => None,
            Some(e) => Some(e.push('z')),
        }
    }
}

/// The successor of a well-formed integer part. An empty result means the
/// integer space is exhausted at the top. When all digits wrap, the head
/// moves up one letter: from `'Z'` to the canonical zero `"a0"`, within
/// the letter ranges to a head whose declared length is one digit longer
/// (non-negative) or one digit shorter (negative).
pub open spec fn inc_int(x: Seq<char>) -> Seq<char> {
    match inc_digits(x.skip(1)) {
        Some(d) => seq![x[0]] + d,
        None => {
            if x[0] == 'Z' {
                seq!['a', '0']
            } else if x[0] == 'z' {
                Seq::empty()
            } else {
                let h = char_of(digit_val(x[0]) + 1);
                seq![h] + repeat_char(0, head_len(h) - 1)
            }
        },
    }
}

/// The predecessor of a well-formed integer part. An empty result means
/// the integer space is exhausted at the bottom.
pub open spec fn dec_int(x: Seq<char>) -> Seq<char> {
    match dec_digits(x.skip(1)) {
        Some(d) => seq![x[0]] + d,
        None => {
            if x[0] == 'a' {
                seq!['Z', 'z']
            } else if x[0] == 'A' {
                Seq::empty()
            } else {
                let h = char_of(digit_val(x[0]) - 1);
                seq![h] + repeat_char(61, head_len(h) - 1)
            }
        },
    }
}

/// How the digit successor behaves: it wraps to `None` exactly on the
/// all-max string; otherwise it keeps the length, keeps every character a
/// digit, leaves at least one non-zero digit, and grows the string in
/// lexicographic order.
pub proof fn lemma_inc_digits_props(d: Seq<char>)
    requires
        all_digits(d),
    ensures
        inc_digits(d) is None <==> d == repeat_char(61, d.len() as int),
        inc_digits(d) matches Some(e) ==> e.len() == d.len() && all_digits(e) && crate::order::lex_lt(
            d,
            e,
        ) && (exists|i: int| 0 <= i < e.len() && e[i] != '0'),
    decreases d.len(),
{
    lemma_alphabet();
    let n = d.len() as int;
    if d.len() == 0 {
        assert(d =~= repeat_char(61, 0));
    } else if d.last() != 'z' {
        let v = digit_val(d.last());
        assert(digit_val('z') == 61);
        assert(v < 61);
        let c = char_of(v + 1);
        assert(is_digit(c) && digit_val(c) == v + 1);
        let e = d.update(n - 1, c);
        assert(all_digits(e));
        assert(d =~= d.take(n - 1) + seq![d.last()]);
        assert(e =~= d.take(n - 1) + seq![c]);
        crate::alphabet::lemma_digit_val_order(d.last(), c);
        assert(crate::order::lex_lt(seq![d.last()], seq![c]));
        crate::order::lemma_lex_cancel(d.take(n - 1), seq![d.last()], seq![c]);
        assert(e[n - 1] == c && c != '0') by {
            assert(digit_val('0') == 0);
        }
        assert(d != repeat_char(61, n)) by {
            assert(repeat_char(61, n)[n - 1] == char_of(61));
            assert(char_of(61) == 'z') by {
                assert(digit_val('z') == 61);
            }
        }
    } else {
        let f = d.drop_last();
        assert(all_digits(f));
        lemma_inc_digits_props(f);
        assert(d =~= f + seq!['z']);
        match inc_digits(f) {
            None => {
                assert(f == repeat_char(61, n - 1));
                assert(d =~= repeat_char(61, n)) by {
                    assert(char_of(61) == 'z') by {
                        assert(digit_val('z') == 61);
                    }
                }
            },
            Some(e1) => {
                let e = e1.push('0');
                assert(e =~= e1 + seq!['0']);
                assert(d != repeat_char(61, n)) by {
                    assert(f != repeat_char(61, n - 1));
                    assert(repeat_char(61, n).take(n - 1) =~= repeat_char(61, n - 1));
                    if d == repeat_char(61, n) {
                        assert(f =~= d.take(n - 1));
                    }
                }
                assert(all_digits(e)) by {
                    assert(is_digit('0'));
                    assert(forall|i: int| 0 <= i < e1.len() ==> is_digit(#[trigger] e1[i]));
                }
                crate::order::lemma_lex_total(f, e1);
                assert(!crate::order::is_prefix(f, e1)) by {
                    if crate::order::is_prefix(f, e1) {
                        assert(f =~= e1.take(f.len() as int));
                        assert(f =~= e1);
                    }
                }
                crate::order::lemma_lex_concat(f, e1, seq!['z'], seq!['0']);
                let i = choose|i: int| 0 <= i < e1.len() && e1[i] != '0';
                assert(e[i] != '0');
            },
        }
    }
}

/// How the digit predecessor behaves, mirror of the successor: it wraps
/// to `None` exactly on the all-zero string; otherwise it keeps length and
/// digits and shrinks the string in lexicographic order.
pub proof fn lemma_dec_digits_props(d: Seq<char>)
    requires
        all_digits(d),
    ensures
        dec_digits(d) is None <==> d == repeat_char(0, d.len() as int),
        dec_digits(d) matches Some(e) ==> e.len() == d.len() && all_digits(e) && crate::order::lex_lt(
            e,
            d,
        ),
    decreases d.len(),
{
    lemma_alphabet();
    let n = d.len() as int;
    if d.len() == 0 {
        assert(d =~= repeat_char(0, 0));
    } else if d.last() != '0' {
        let v = digit_val(d.last());
        assert(digit_val('0') == 0);
        assert(v > 0 && v <= 61);
        let c = char_of(v - 1);
        assert(is_digit(c) && digit_val(c) == v - 1);
        let e = d.update(n - 1, c);
        assert(all_digits(e));
        assert(d =~= d.take(n - 1) + seq![d.last()]);
        assert(e =~= d.take(n - 1) + seq![c]);
        crate::alphabet::lemma_digit_val_order(c, d.last());
        assert(crate::order::lex_lt(seq![c], seq![d.last()]));
        crate::order::lemma_lex_cancel(d.take(n - 1), seq![c], seq![d.last()]);
        assert(d != repeat_char(0, n)) by {
            assert(repeat_char(0, n)[n - 1] == char_of(0));
            assert(char_of(0) == '0') by {
                assert(digit_val('0') == 0);
            }
        }
    } else {
        let f = d.drop_last();
        assert(all_digits(f));
        lemma_dec_digits_props(f);
        assert(d =~= f + seq!['0']);
        match dec_digits(f) {
            None => {
                assert(f == repeat_char(0, n - 1));
                assert(d =~= repeat_char(0, n)) by {
                    assert(char_of(0) == '0') by {
                        assert(digit_val('0') == 0);
                    }
                }
            },
            Some(e1) => {
                let e = e1.push('z');
                assert(e =~= e1 + seq!['z']);
                assert(d != repeat_char(0, n)) by {
                    assert(f != repeat_char(0, n - 1));
                    assert(repeat_char(0, n).take(n - 1) =~= repeat_char(0, n - 1));
                    if d == repeat_char(0, n) {
                        assert(f =~= d.take(n - 1));
                    }
                }
                assert(all_digits(e)) by {
                    assert(is_digit('z'));
                    assert(forall|i: int| 0 <= i < e1.len() ==> is_digit(#[trigger] e1[i]));
                }
                crate::order::lemma_lex_total(e1, f);
                assert(!crate::order::is_prefix(e1, f)) by {
                    if crate::order::is_prefix(e1, f) {
                        assert(e1 =~= f.take(e1.len() as int));
                        assert(e1 =~= f);
                    }
                }
                crate::order::lemma_lex_concat(e1, f, seq!['z'], seq!['0']);
            },
        }
    }
}

/// Stepping a digit string up and back down returns it unchanged.
pub proof fn lemma_inc_dec_digits(d: Seq<char>)
    requires
        all_digits(d),
        inc_digits(d) is Some,
    ensures
        dec_digits(inc_digits(d)->0) == Some(d),
    decreases d.len(),
{
    lemma_alphabet();
    let n = d.len() as int;
    if d.last() != 'z' {
        let v = digit_val(d.last());
        assert(digit_val('z') == 61 && v < 61);
        let c = char_of(v + 1);
        let e = d.update(n - 1, c);
        assert(e.last() == c);
        assert(c != '0') by {
            assert(digit_val('0') == 0 && digit_val(c) == v + 1);
        }
        let back = e.update(n - 1, char_of(digit_val(c) - 1));
        assert(char_of(digit_val(c) - 1) == d.last()) by {
            assert(digit_val(c) - 1 == v);
        }
        assert(back =~= d);
    } else {
        let f = d.drop_last();
        assert(all_digits(f));
        lemma_inc_dec_digits(f);
        let e1 = inc_digits(f)->0;
        let e = e1.push('0');
        assert(inc_digits(d) == Some(e));
        assert(e.last() == '0');
        assert(e.drop_last() =~= e1);
        assert(dec_digits(e1) == Some(f));
        assert(f.push('z') =~= d);
    }
}

/// Stepping a digit string down and back up returns it unchanged.
pub proof fn lemma_dec_inc_digits(d: Seq<char>)
    requires
        all_digits(d),
        dec_digits(d) is Some,
    ensures
        inc_digits(dec_digits(d)->0) == Some(d),
    decreases d.len(),
{
    lemma_alphabet();
    let n = d.len() as int;
    if d.last() != '0' {
        let v = digit_val(d.last());
        assert(digit_val('0') == 0 && v > 0);
        let c = char_of(v - 1);
        let e = d.update(n - 1, c);
        assert(e.last() == c);
        assert(c != 'z') by {
            assert(digit_val('z') == 61 && digit_val(c) == v - 1 && v <= 61);
        }
        let back = e.update(n - 1, char_of(digit_val(c) + 1));
        assert(char_of(digit_val(c) + 1) == d.last()) by {
            assert(digit_val(c) + 1 == v);
        }
        assert(back =~= d);
    } else {
        let f = d.drop_last();
        assert(all_digits(f));
        lemma_dec_inc_digits(f);
        let e1 = dec_digits(f)->0;
        let e = e1.push('z');
        assert(dec_digits(d) == Some(e));
        assert(e.last() == 'z');
        assert(e.drop_last() =~= e1);
        assert(inc_digits(e1) == Some(f));
        assert(f.push('0') =~= d);
    }
}

/// The successor of a well-formed integer part is empty exactly at the
/// largest representable integer; otherwise it is well formed, sorts
/// strictly above its argument, and is never the reserved minimum.
pub proof fn lemma_inc_int_props(x: Seq<char>)
    requires
        valid_int(x),
    ensures
        inc_int(x).len() == 0 <==> x == largest_int(),
        inc_int(x).len() != 0 ==> valid_int(inc_int(x)) && crate::order::lex_lt(x, inc_int(x))
            && inc_int(x) != smallest_int(),
{
    lemma_alphabet();
    lemma_int_bounds_valid();
    let x0 = x[0];
    let d = x.skip(1);
    let big = d.len() as int;
    assert(all_digits(d));
    lemma_inc_digits_props(d);
    assert(x =~= seq![x0] + d);
    match inc_digits(d) {
        Some(e) => {
            let r = seq![x0] + e;
            assert(inc_int(x) == r);
            assert(r.len() == x.len());
            assert(valid_int(r)) by {
                assert(forall|i: int| 1 <= i < r.len() ==> r[i] == e[i - 1]);
            }
            crate::order::lemma_lex_cancel(seq![x0], d, e);
            assert(x != largest_int()) by {
                if x == largest_int() {
                    assert(d =~= repeat_char(61, 26));
                }
            }
            assert(r != smallest_int()) by {
                if r == smallest_int() {
                    let i = choose|i: int| 0 <= i < e.len() && e[i] != '0';
                    assert(r[i + 1] == e[i]);
                    assert(smallest_int()[i + 1] == char_of(0));
                    assert(char_of(0) == '0') by {
                        assert(digit_val('0') == 0);
                    }
                }
            }
        },
        None => {
            assert(d == repeat_char(61, big));
            if x0 == 'Z' {
                assert(head_len('Z') == 2 && big == 1);
                let r = seq!['a', '0'];
                assert(inc_int(x) == r);
                assert(valid_int(r)) by {
                    assert(r[0] == 'a' && r[1] == '0');
                    assert(head_len('a') == 2);
                }
                assert(crate::order::lex_lt(x, r));
                assert(r != smallest_int());
            } else if x0 == 'z' {
                assert(x =~= largest_int()) by {
                    assert(head_len('z') == 27);
                }
            } else {
                let v = digit_val(x0);
                let h = char_of(v + 1);
                assert(digit_val('Z') == 35 && digit_val('z') == 61 && digit_val('A') == 10
                    && digit_val('a') == 36);
                assert(v != 35 && v != 61);
                assert(10 <= v <= 34 || 36 <= v <= 60);
                assert(is_digit(h) && digit_val(h) == v + 1);
                assert(valid_head(h));
                let r = seq![h] + repeat_char(0, head_len(h) - 1);
                assert(inc_int(x) == r);
                assert(x != largest_int());
                assert(valid_int(r)) by {
                    assert(char_of(0) == '0') by {
                        assert(digit_val('0') == 0);
                    }
                    assert(forall|i: int|
                        1 <= i < r.len() ==> r[i] == repeat_char(0, head_len(h) - 1)[i - 1]);
                }
                assert(crate::order::lex_lt(x, r)) by {
                    crate::alphabet::lemma_digit_val_order(x0, h);
                    assert(r[0] == h && x[0] == x0 && x0 < h);
                }
                assert(r != smallest_int()) by {
                    assert(digit_val(h) >= 11 && digit_val('A') == 10);
                    assert(h != 'A');
                    assert(smallest_int()[0] == 'A');
                }
            }
        },
    }
}

/// The predecessor of a well-formed integer part is empty exactly at the
/// reserved minimum; otherwise it is well formed and sorts strictly below
/// its argument.
pub proof fn lemma_dec_int_props(x: Seq<char>)
    requires
        valid_int(x),
    ensures
        dec_int(x).len() == 0 <==> x == smallest_int(),
        dec_int(x).len() != 0 ==> valid_int(dec_int(x)) && crate::order::lex_lt(dec_int(x), x),
{
    lemma_alphabet();
    lemma_int_bounds_valid();
    let x0 = x[0];
    let d = x.skip(1);
    let big = d.len() as int;
    assert(all_digits(d));
    lemma_dec_digits_props(d);
    assert(x =~= seq![x0] + d);
    match dec_digits(d) {
        Some(e) => {
            let r = seq![x0] + e;
            assert(dec_int(x) == r);
            assert(valid_int(r)) by {
                assert(forall|i: int| 1 <= i < r.len() ==> r[i] == e[i - 1]);
            }
            crate::order::lemma_lex_cancel(seq![x0], e, d);
            assert(x != smallest_int()) by {
                if x == smallest_int() {
                    assert(d =~= repeat_char(0, 26));
                }
            }
        },
        None => {
            assert(d == repeat_char(0, big));
            if x0 == 'a' {
                assert(head_len('a') == 2 && big == 1);
                let r = seq!['Z', 'z'];
                assert(dec_int(x) == r);
                assert(valid_int(r)) by {
                    assert(r[0] == 'Z' && r[1] == 'z');
                    assert(head_len('Z') == 2);
                }
                assert(crate::order::lex_lt(r, x));
                assert(x != smallest_int());
            } else if x0 == 'A' {
                assert(x =~= smallest_int()) by {
                    assert(head_len('A') == 27);
                }
            } else {
                let v = digit_val(x0);
                let h = char_of(v - 1);
                assert(digit_val('Z') == 35 && digit_val('z') == 61 && digit_val('A') == 10
                    && digit_val('a') == 36);
                assert(v != 10 && v != 36);
                assert(11 <= v <= 35 || 37 <= v <= 61);
                assert(is_digit(h) && digit_val(h) == v - 1);
                assert(valid_head(h));
                let r = seq![h] + repeat_char(61, head_len(h) - 1);
                assert(dec_int(x) == r);
                assert(x != smallest_int());
                assert(valid_int(r)) by {
                    assert(char_of(61) == 'z') by {
                        assert(digit_val('z') == 61);
                    }
                    assert(forall|i: int|
                        1 <= i < r.len() ==> r[i] == repeat_char(61, head_len(h) - 1)[i - 1]);
                }
                assert(crate::order::lex_lt(r, x)) by {
                    crate::alphabet::lemma_digit_val_order(h, x0);
                    assert(r[0] == h && x[0] == x0 && h < x0);
                }
            }
        },
    }
}

/// Successor and predecessor undo each other wherever both are defined:
/// stepping up and back down, or down and back up, returns the integer
/// part unchanged.
pub proof fn lemma_codec_roundtrip(x: Seq<char>)
    requires
        valid_int(x),
    ensures
        inc_int(x).len() != 0 ==> dec_int(inc_int(x)) == x,
        dec_int(x).len() != 0 ==> inc_int(dec_int(x)) == x,
{
    lemma_alphabet();
    let x0 = x[0];
    let d = x.skip(1);
    let big = d.len() as int;
    assert(all_digits(d));
    lemma_inc_digits_props(d);
    lemma_dec_digits_props(d);
    assert(x =~= seq![x0] + d);
    assert(digit_val('Z') == 35 && digit_val('z') == 61 && digit_val('A') == 10 && digit_val('a')
        == 36 && digit_val('0') == 0);
    assert(char_of(0) == '0' && char_of(61) == 'z');
    // up, then down
    if inc_int(x).len() != 0 {
        match inc_digits(d) {
            Some(e) => {
                lemma_inc_dec_digits(d);
                let r = seq![x0] + e;
                assert(inc_int(x) == r);
                assert(r.skip(1) =~= e);
                assert(dec_digits(e) == Some(d));
                assert(dec_int(r) == seq![x0] + d);
            },
            None => {
                assert(d == repeat_char(61, big));
                if x0 == 'Z' {
                    let r = seq!['a', '0'];
                    assert(r.skip(1) =~= seq!['0']);
                    assert(seq!['0'].drop_last() =~= Seq::<char>::empty());
                    assert(dec_digits(Seq::<char>::empty()) is None);
                    assert(dec_digits(seq!['0']) is None);
                    assert(dec_int(r) == seq!['Z', 'z']);
                    assert(x =~= seq!['Z', 'z']) by {
                        assert(head_len('Z') == 2 && big == 1);
                    }
                } else {
                    let v = digit_val(x0);
                    let h = char_of(v + 1);
                    let r = seq![h] + repeat_char(0, head_len(h) - 1);
                    assert(inc_int(x) == r);
                    assert(r.skip(1) =~= repeat_char(0, head_len(h) - 1));
                    lemma_dec_digits_props(repeat_char(0, head_len(h) - 1));
                    assert(dec_digits(r.skip(1)) is None);
                    assert(h != 'a') by {
                        assert(digit_val(h) == v + 1 && v + 1 != 36);
                    }
                    assert(h != 'A') by {
                        assert(digit_val(h) == v + 1 && v + 1 != 10);
                    }
                    assert(char_of(digit_val(h) - 1) == x0);
                    assert(dec_int(r) == seq![x0] + repeat_char(61, head_len(x0) - 1));
                    assert(x =~= seq![x0] + repeat_char(61, head_len(x0) - 1));
                }
            },
        }
    }
    // down, then up
    if dec_int(x).len() != 0 {
        match dec_digits(d) {
            Some(e) => {
                lemma_dec_inc_digits(d);
                let r = seq![x0] + e;
                assert(dec_int(x) == r);
                assert(r.skip(1) =~= e);
                assert(inc_digits(e) == Some(d));
                assert(inc_int(r) == seq![x0] + d);
            },
            None => {
                assert(d == repeat_char(0, big));
                if x0 == 'a' {
                    let r = seq!['Z', 'z'];
                    assert(r.skip(1) =~= seq!['z']);
                    assert(seq!['z'].drop_last() =~= Seq::<char>::empty());
                    assert(inc_digits(Seq::<char>::empty()) is None);
                    assert(inc_digits(seq!['z']) is None);
                    assert(inc_int(r) == seq!['a', '0']);
                    assert(x =~= seq!['a', '0']) by {
                        assert(head_len('a') == 2 && big == 1);
                    }
                } else if x0 != 'A' {
                    let v = digit_val(x0);
                    let h = char_of(v - 1);
                    let r = seq![h] + repeat_char(61, head_len(h) - 1);
                    assert(dec_int(x) == r);
                    assert(r.skip(1) =~= repeat_char(61, head_len(h) - 1));
                    lemma_inc_digits_props(repeat_char(61, head_len(h) - 1));
                    assert(inc_digits(r.skip(1)) is None);
                    assert(h != 'Z') by {
                        assert(digit_val(h) == v - 1 && v - 1 != 35);
                    }
                    assert(h != 'z') by {
                        assert(digit_val(h) == v - 1 && v - 1 != 61);
                    }
                    assert(char_of(digit_val(h) + 1) == x0);
                    assert(inc_int(r) == seq![x0] + repeat_char(0, head_len(x0) - 1));
                    assert(x =~= seq![x0] + repeat_char(0, head_len(x0) - 1));
                }
            },
        }
    }
}

/// No well-formed integer part sorts above the largest one.
pub proof fn lemma_largest_lex_max(y: Seq<char>)
    requires
        valid_int(y),
    ensures
        !crate::order::lex_lt(largest_int(), y),
{
    lemma_alphabet();
    lemma_int_bounds_valid();
    if crate::order::lex_lt(largest_int(), y) {
        assert(largest_int()[0] == 'z');
        assert(is_digit(y[0]) && y[0] <= 'z');
        assert(y[0] == 'z');
        assert(head_len(y[0]) == 27 && y.len() == 27);
        assert(largest_int().drop_first() =~= repeat_char(61, 26));
        assert(char_of(61) == 'z') by {
            assert(digit_val('z') == 61);
        }
        lemma_all_max_lex_max(y.drop_first(), largest_int().drop_first());
    }
}

/// An all-max digit string is lexicographically maximal among digit
/// strings of its length.
proof fn lemma_all_max_lex_max(d: Seq<char>, m: Seq<char>)
    requires
        all_digits(d),
        m.len() == d.len(),
        forall|i: int| 0 <= i < m.len() ==> m[i] == 'z',
    ensures
        !crate::order::lex_lt(m, d),
    decreases d.len(),
{
    if d.len() > 0 {
        assert(is_digit(d[0]) && d[0] <= 'z');
        if m[0] == d[0] {
            assert(all_digits(d.drop_first()));
            lemma_all_max_lex_max(d.drop_first(), m.drop_first());
        }
    }
}

/// `n` copies of the digit of value `v`, as a string.
pub fn repeat_digit(v: u8, n: usize) -> (s: String)
    requires
        v < 62,
    ensures
        s@ == repeat_char(v as int, n as int),
{
    let mut s = String::new();
    let mut i: usize = 0;
    while i < n
        invariant
            i <= n,
            v < 62,
            s@.len() == i,
            forall|j: int| 0 <= j < i ==> s@[j] == char_of(v as int),
        decreases n - i,
    {
        let d = digit_char(v);
        s.append(d.as_str());
        i = i + 1;
    }
    proof {
        assert(s@ =~= repeat_char(v as int, n as int));
    }
    s
}

/// Successor of a digit string, `None` on wrap-around.
fn inc_digits_exec(d: &str) -> (r: Option<String>)
    requires
        all_digits(d@),
    ensures
        r is Some <==> inc_digits(d@) is Some,
        r matches Some(s) ==> s@ == inc_digits(d@)->0,
    decreases d@.len(),
{
    let n: usize = d.unicode_len();
    if n == 0 {
        return None;
    }
    let last: char = d.get_char(n - 1);
    proof {
        lemma_alphabet();
        assert(is_digit(last));
    }
    if last != 'z' {
        proof {
            assert(digit_val('z') == 61);
            assert(digit_val(last) != 61);
        }
        let v: u8 = digit_value(last).unwrap();
        let mut out = d.substring_char(0, n - 1).to_owned();
        let c = digit_char(v + 1);
        out.append(c.as_str());
        proof {
            assert(out@ =~= d@.update(n - 1, char_of(digit_val(last) + 1)));
        }
        Some(out)
    } else {
        let front: &str = d.substring_char(0, n - 1);
        proof {
            assert(front@ =~= d@.drop_last());
            assert(all_digits(front@));
        }
        match inc_digits_exec(front) {
            None => None,
            Some(s) => {
                let mut out = s;
                let c = digit_char(0);
                out.append(c.as_str());
                proof {
                    assert(digit_val('0') == 0);
                    assert(char_of(0) == '0');
                    assert(out@ =~= inc_digits(d@)->0);
                }
                Some(out)
            },
        }
    }
}

/// Predecessor of a digit string, `None` on wrap-around.
fn dec_digits_exec(d: &str) -> (r: Option<String>)
    requires
        all_digits(d@),
    ensures
        r is Some <==> dec_digits(d@) is Some,
        r matches Some(s) ==> s@ == dec_digits(d@)->0,
    decreases d@.len(),
{
    let n: usize = d.unicode_len();
    if n == 0 {
        return None;
    }
    let last: char = d.get_char(n - 1);
    proof {
        lemma_alphabet();
        assert(is_digit(last));
    }
    if last != '0' {
        proof {
            assert(digit_val('0') == 0);
            assert(digit_val(last) != 0);
        }
        let v: u8 = digit_value(last).unwrap();
        let mut out = d.substring_char(0, n - 1).to_owned();
        let c = digit_char(v - 1);
        out.append(c.as_str());
        proof {
            assert(out@ =~= d@.update(n - 1, char_of(digit_val(last) - 1)));
        }
        Some(out)
    } else {
        let front: &str = d.substring_char(0, n - 1);
        proof {
            assert(front@ =~= d@.drop_last());
            assert(all_digits(front@));
        }
        match dec_digits_exec(front) {
            None => None,
            Some(s) => {
                let mut out = s;
                let c = digit_char(61);
                out.append(c.as_str());
                proof {
                    assert(digit_val('z') == 61);
                    assert(char_of(61) == 'z');
                    assert(out@ =~= dec_digits(d@)->0);
                }
                Some(out)
            },
        }
    }
}

/// The next integer part after `x`: adds one in base 62 with carry
/// propagation, moving the head when every digit wraps. Returns the empty
/// string when no larger integer part is representable, and fails only on
/// a malformed input.
pub fn increment_int(x: &str) -> (r: Result<String, String>)
    ensures
        r is Ok <==> valid_int(x@),
        r matches Ok(s) ==> s@ == inc_int(x@),
        r matches Err(m) ==> m@ == (if x@.len() >= 1 && !valid_head(x@[0]) {
            msg_invalid_head(x@[0])
        } else {
            msg_invalid_int(x@)
        }),
{
    validate_int(x)?;
    let n: usize = x.unicode_len();
    let head: char = x.get_char(0);
    let digits: &str = x.substring_char(1, n);
    proof {
        lemma_alphabet();
        assert(digits@ =~= x@.skip(1));
        assert(all_digits(digits@));
    }
    match inc_digits_exec(digits) {
        Some(s) => {
            let mut out = x.substring_char(0, 1).to_owned();
            out.append(s.as_str());
            proof {
                assert(out@ =~= seq![x@[0]] + inc_digits(x@.skip(1))->0);
            }
            Ok(out)
        },
        None => {
            if head == 'Z' {
                let z = String::from_str("a0");
                proof {
                    reveal_strlit("a0");
                    assert(z@ =~= seq!['a', '0']);
                }
                Ok(z)
            } else if head == 'z' {
                proof {
                    assert(inc_int(x@) =~= Seq::<char>::empty());
                }
                Ok(String::new())
            } else {
                let v: u8 = digit_value(head).unwrap();
                let h = digit_char(v + 1);
                let k: usize = if 'a' > head {
                    n - 2
                } else {
                    n
                };
                proof {
                    assert(head_len(char_of(v + 1)) - 1 == k as int);
                }
                let out = h.concat(repeat_digit(0, k).as_str());
                proof {
                    assert(out@ =~= inc_int(x@));
                }
                Ok(out)
            }
        },
    }
}

/// The previous integer part before `x`: subtracts one in base 62 with
/// borrow propagation, moving the head when every digit wraps. Returns the
/// empty string when no smaller integer part is representable, and fails
/// only on a malformed input.
pub fn decrement_int(x: &str) -> (r: Result<String, String>)
    ensures
        r is Ok <==> valid_int(x@),
        r matches Ok(s) ==> s@ == dec_int(x@),
        r matches Err(m) ==> m@ == (if x@.len() >= 1 && !valid_head(x@[0]) {
            msg_invalid_head(x@[0])
        } else {
            msg_invalid_int(x@)
        }),
{
    validate_int(x)?;
    let n: usize = x.unicode_len();
    let head: char = x.get_char(0);
    let digits: &str = x.substring_char(1, n);
    proof {
        lemma_alphabet();
        assert(digits@ =~= x@.skip(1));
        assert(all_digits(digits@));
    }
    match dec_digits_exec(digits) {
        Some(s) => {
            let mut out = x.substring_char(0, 1).to_owned();
            out.append(s.as_str());
            proof {
                assert(out@ =~= seq![x@[0]] + dec_digits(x@.skip(1))->0);
            }
            Ok(out)
        },
        None => {
            if head == 'a' {
                let z = String::from_str("Zz");
                proof {
                    reveal_strlit("Zz");
                    assert(z@ =~= seq!['Z', 'z']);
                }
                Ok(z)
            } else if head == 'A' {
                proof {
                    assert(dec_int(x@) =~= Seq::<char>::empty());
                }
                Ok(String::new())
            } else {
                let v: u8 = digit_value(head).unwrap();
                let h = digit_char(v - 1);
                let k: usize = if head <= 'Z' {
                    n
                } else {
                    n - 2
                };
                proof {
                    assert(head_len(char_of(v - 1)) - 1 == k as int);
                }
                let out = h.concat(repeat_digit(61, k).as_str());
                proof {
                    assert(out@ =~= dec_int(x@));
                }
                Ok(out)
            }
        },
    }
}

} // verus!
