//! Order keys and their validation. A key is an integer part followed by
//! an optional fractional part; the validator rejects everything that the
//! generating operations could not handle: a bad head, a truncated
//! integer part, characters outside the alphabet, a fractional part
//! ending in the zero digit, and the reserved minimum sentinel.

use crate::alphabet::{all_digits, digit_val, digit_value, is_digit, lemma_alphabet};
use crate::codec::{
    dec_int, head_len, inc_int, lemma_codec_roundtrip, lemma_dec_int_props, lemma_inc_int_props,
    largest_int, lemma_int_bounds_valid, lemma_int_not_prefix, lemma_largest_lex_max, repeat_char,
    smallest_int, valid_head, valid_int,
};
use crate::errors::{
    err_empty_key, err_invalid_key, err_invalid_order, err_range_overflow, err_range_underflow,
    msg_empty_key, msg_invalid_head, msg_invalid_key, msg_invalid_order,
};
use crate::midpoint::{lemma_midpoint, midpoint, midpoint_spec};
use crate::order::{
    lemma_lex_cancel, lemma_lex_concat, lemma_lex_extend, lemma_lex_total, lex_lt,
};
use vstd::prelude::*;
use vstd::string::{StrSliceExecFns, StringExecFns};

verus! {

/// The integer-part prefix of a key.
pub open spec fn key_int(s: Seq<char>) -> Seq<char> {
    s.take(head_len(s[0]))
}

/// The fractional remainder of a key, after its integer part.
pub open spec fn key_frac(s: Seq<char>) -> Seq<char> {
    s.skip(head_len(s[0]))
}

/// A valid order key: a complete integer part, every character an
/// alphabet digit, not the reserved minimum, and no trailing zero digit
/// in the fractional part.
pub open spec fn valid_key(s: Seq<char>) -> bool {
    &&& s.len() >= 1
    &&& valid_head(s[0])
    &&& head_len(s[0]) <= s.len()
    &&& all_digits(s)
    &&& s != smallest_int()
    &&& (s.len() > head_len(s[0]) ==> s.last() != '0')
}

/// The message a key failing validation is reported with.
pub open spec fn validate_err(k: Seq<char>) -> Seq<char> {
    if k.len() == 0 {
        msg_empty_key()
    } else if !valid_head(k[0]) {
        msg_invalid_head(k[0])
    } else {
        msg_invalid_key(k)
    }
}

/// A valid key splits into a well-formed integer part and a fractional
/// digit string that does not end in zero.
pub proof fn lemma_valid_key_parts(s: Seq<char>)
    requires
        valid_key(s),
    ensures
        valid_int(key_int(s)),
        all_digits(key_frac(s)),
        s == key_int(s) + key_frac(s),
        key_int(s)[0] == s[0],
        key_frac(s).len() == s.len() - head_len(s[0]),
        key_frac(s).len() > 0 ==> key_frac(s).last() != '0',
        key_frac(s).len() == 0 ==> key_int(s) == s,
{
    let l = head_len(s[0]);
    assert(s =~= s.take(l) + s.skip(l));
    assert(valid_int(key_int(s))) by {
        assert(forall|i: int| 0 <= i < l ==> key_int(s)[i] == s[i]);
    }
    if s.len() > l {
        assert(key_frac(s).last() == s.last());
    }
    if s.len() == l {
        assert(key_int(s) =~= s);
    }
}

/// Appending a fractional part to a well-formed integer part other than
/// the reserved minimum gives a valid key, provided the fraction is made
/// of digits and, when present, does not end in zero.
pub proof fn lemma_key_from_parts(x: Seq<char>, f: Seq<char>)
    requires
        valid_int(x),
        all_digits(f),
        f.len() > 0 ==> f.last() != '0',
        f.len() == 0 ==> x != smallest_int(),
    ensures
        valid_key(x + f),
        key_int(x + f) == x,
        key_frac(x + f) == f,
{
    lemma_int_bounds_valid();
    let s = x + f;
    assert(s[0] == x[0]);
    assert(all_digits(s)) by {
        assert(forall|i: int| 0 <= i < x.len() ==> s[i] == x[i]);
        assert(forall|i: int| x.len() <= i < s.len() ==> s[i] == f[i - x.len()]);
    }
    if f.len() > 0 {
        assert(s.last() == f.last());
        assert(s != smallest_int()) by {
            assert(smallest_int().len() == head_len('A'));
            if s == smallest_int() {
                assert(s.len() == 27 && s[0] == 'A');
                assert(head_len(s[0]) == 27);
            }
        }
    }
    assert(key_int(s) =~= x);
    assert(key_frac(s) =~= f);
}

/// Does `x` equal the reserved minimum integer part?
fn is_smallest_int(x: &str) -> (r: bool)
    ensures
        r == (x@ == smallest_int()),
{
    proof {
        lemma_alphabet();
        lemma_int_bounds_valid();
        assert(crate::alphabet::char_of(0) == '0') by {
            assert(crate::alphabet::digit_val('0') == 0);
        }
    }
    let n: usize = x.unicode_len();
    if n != 27 {
        return false;
    }
    if x.get_char(0) != 'A' {
        return false;
    }
    let mut j: usize = 1;
    while j < 27
        invariant
            1 <= j <= 27,
            x@.len() == 27,
            x@[0] == 'A',
            forall|k: int| 1 <= k < j ==> x@[k] == '0',
        decreases 27 - j,
    {
        if x.get_char(j) != '0' {
            proof {
                lemma_alphabet();
                assert(crate::alphabet::char_of(0) == '0') by {
                    assert(crate::alphabet::digit_val('0') == 0);
                }
                assert(smallest_int()[j as int] == repeat_char(0, 26)[j as int - 1]);
                assert(smallest_int()[j as int] == '0');
            }
            return false;
        }
        j = j + 1;
    }
    proof {
        assert(x@ =~= smallest_int());
    }
    true
}

/// Checks that `key` is a valid order key; every other operation is
/// guaranteed to parse a key this check accepts.
pub fn validate_order_key(key: &str) -> (r: Result<(), String>)
    ensures
        r is Ok <==> valid_key(key@),
        r matches Err(m) ==> m@ == validate_err(key@),
{
    let n: usize = key.unicode_len();
    if n == 0 {
        return Err(err_empty_key());
    }
    if is_smallest_int(key) {
        proof {
            lemma_int_bounds_valid();
            assert(key@[0] == 'A');
            assert(valid_head('A'));
        }
        return Err(err_invalid_key(key));
    }
    let i = match crate::codec::get_int_part(key) {
        Ok(p) => p,
        Err(m) => {
            return Err(m);
        },
    };
    let mut j: usize = 0;
    while j < n
        invariant
            j <= n,
            n == key@.len(),
            n >= 1,
            valid_head(key@[0]),
            forall|k: int| 0 <= k < j ==> is_digit(#[trigger] key@[k]),
        decreases n - j,
    {
        if digit_value(key.get_char(j)).is_none() {
            return Err(err_invalid_key(key));
        }
        j = j + 1;
    }
    let l: usize = i.as_str().unicode_len();
    if n > l && key.get_char(n - 1) == '0' {
        return Err(err_invalid_key(key));
    }
    Ok(())
}

/// A key taken apart into plain digit values: the sign read off the
/// head, the digit values of the integer part after the head (most
/// significant first), and the digit values of the fractional part.
/// Callers can weigh them by powers of 62 for an approximate numeric
/// value of the key.
#[derive(Debug, PartialEq, Eq)]
pub struct KeyDigits {
    /// The key encodes a negative magnitude: its head is an upper-case
    /// letter.
    pub negative: bool,
    /// Digit values of the integer part after the head, most significant
    /// first.
    pub int_digits: Vec<u8>,
    /// Digit values of the fractional part, most significant first.
    pub frac_digits: Vec<u8>,
}

/// Take a key apart into plain digit values, validating it first.
pub fn key_digits(key: &str) -> (r: Result<KeyDigits, String>)
    ensures
        r is Ok <==> valid_key(key@),
        r matches Ok(d) ==> ({
            let l = head_len(key@[0]);
            &&& d.negative == ('A' <= key@[0] && key@[0] <= 'Z')
            &&& d.int_digits@.len() == l - 1
            &&& (forall|i: int|
                0 <= i < l - 1 ==> #[trigger] d.int_digits@[i] == digit_val(key@[i + 1]))
            &&& d.frac_digits@.len() == key@.len() - l
            &&& (forall|i: int|
                0 <= i < key@.len() - l ==> #[trigger] d.frac_digits@[i] == digit_val(
                    key@[l + i],
                ))
        }),
        r matches Err(m) ==> m@ == validate_err(key@),
{
    if let Err(m) = validate_order_key(key) {
        return Err(m);
    }
    let n: usize = key.unicode_len();
    let head: char = key.get_char(0);
    let l: usize = match crate::codec::get_int_len(head) {
        Ok(v) => v,
        Err(m) => {
            return Err(m);
        },
    };
    let negative: bool = 'A' <= head && head <= 'Z';
    let mut int_digits: Vec<u8> = Vec::new();
    let mut j: usize = 1;
    while j < l
        invariant
            1 <= j <= l,
            l <= n,
            n == key@.len(),
            all_digits(key@),
            int_digits@.len() == j - 1,
            forall|i: int|
                0 <= i < j - 1 ==> #[trigger] int_digits@[i] == digit_val(key@[i + 1]),
        decreases l - j,
    {
        let v: u8 = digit_value(key.get_char(j)).unwrap();
        int_digits.push(v);
        j = j + 1;
    }
    let mut frac_digits: Vec<u8> = Vec::new();
    let mut j2: usize = l;
    while j2 < n
        invariant
            l <= j2 <= n,
            n == key@.len(),
            all_digits(key@),
            frac_digits@.len() == j2 - l,
            forall|i: int|
                0 <= i < j2 - l ==> #[trigger] frac_digits@[i] == digit_val(key@[l + i]),
        decreases n - j2,
    {
        let v: u8 = digit_value(key.get_char(j2)).unwrap();
        frac_digits.push(v);
        j2 = j2 + 1;
    }
    Ok(KeyDigits { negative, int_digits, frac_digits })
}

/// The canonical zero key, returned between two open ends.
pub open spec fn zero_key() -> Seq<char> {
    seq!['a', '0']
}

/// The views of a pair of optional bounds.
pub open spec fn bound_view(x: &Option<String>) -> Option<Seq<char>> {
    match x {
        Some(s) => Some(s@),
        None => None,
    }
}

/// Are two optional bounds acceptable: each present bound a valid key,
/// and the lower one strictly below the upper one?
pub open spec fn bounds_valid(a: Option<Seq<char>>, b: Option<Seq<char>>) -> bool {
    &&& (a matches Some(ak) ==> valid_key(ak))
    &&& (b matches Some(bk) ==> valid_key(bk))
    &&& match (a, b) {
        (Some(ak), Some(bk)) => lex_lt(ak, bk),
        _ => true,
    }
}

/// The message reported for an unacceptable pair of bounds: the lower
/// bound's failure first, then the upper bound's, then the ordering.
pub open spec fn key_between_err(a: Option<Seq<char>>, b: Option<Seq<char>>) -> Seq<char> {
    if a is Some && !valid_key(a->0) {
        validate_err(a->0)
    } else if b is Some && !valid_key(b->0) {
        validate_err(b->0)
    } else {
        msg_invalid_order(a->0, b->0)
    }
}

/// The key generated between two acceptable bounds. Between two open ends
/// it is the zero key; under an upper bound alone it is the bound's bare
/// integer part, its predecessor, or a midpoint below the reserved
/// minimum's fractional space; above a lower bound alone it is the next
/// integer, falling back to fractional space at the top of the integer
/// range; between two bounds it works in fractional space when the
/// integer parts agree and on the next integer otherwise.
pub open spec fn key_between_ok(a: Option<Seq<char>>, b: Option<Seq<char>>) -> Seq<char> {
    if a is None && b is None {
        zero_key()
    } else if a is None {
        let bk = b->0;
        let ib = key_int(bk);
        let fb = key_frac(bk);
        if ib == smallest_int() {
            ib + midpoint_spec(Seq::empty(), fb)
        } else if fb.len() > 0 {
            ib
        } else {
            dec_int(ib)
        }
    } else if b is None {
        let ak = a->0;
        let ia = key_int(ak);
        let fa = key_frac(ak);
        if inc_int(ia).len() == 0 {
            ia + midpoint_spec(fa, Seq::empty())
        } else {
            inc_int(ia)
        }
    } else {
        let ak = a->0;
        let bk = b->0;
        let ia = key_int(ak);
        let fa = key_frac(ak);
        let ib = key_int(bk);
        let fb = key_frac(bk);
        if ia == ib {
            ia + midpoint_spec(fa, fb)
        } else if lex_lt(inc_int(ia), bk) {
            inc_int(ia)
        } else {
            ia + midpoint_spec(fa, Seq::empty())
        }
    }
}

/// Two valid keys in order with different integer parts have those
/// integer parts in order too, and the lower one is not at the top of the
/// integer range, so its successor exists.
pub proof fn lemma_between_ints(ak: Seq<char>, bk: Seq<char>)
    requires
        valid_key(ak),
        valid_key(bk),
        lex_lt(ak, bk),
        key_int(ak) != key_int(bk),
    ensures
        lex_lt(key_int(ak), key_int(bk)),
        inc_int(key_int(ak)).len() != 0,
{
    lemma_valid_key_parts(ak);
    lemma_valid_key_parts(bk);
    let ia = key_int(ak);
    let ib = key_int(bk);
    lemma_lex_total(ia, ib);
    if lex_lt(ib, ia) {
        lemma_int_not_prefix(ib, ia);
        lemma_lex_concat(ib, ia, key_frac(bk), key_frac(ak));
        lemma_lex_total(ak, bk);
    }
    assert(lex_lt(ia, ib));
    lemma_inc_int_props(ia);
    if inc_int(ia).len() == 0 {
        lemma_largest_lex_max(ib);
    }
}

/// The generated key sorts strictly between the bounds that are present,
/// and is itself a valid key, with one corner: under the sole upper bound
/// that is the successor of the reserved minimum, the reserved minimum
/// itself comes out.
pub proof fn lemma_key_between_ok(a: Option<Seq<char>>, b: Option<Seq<char>>)
    requires
        bounds_valid(a, b),
    ensures
        ({
            let k = key_between_ok(a, b);
            &&& k.len() > 0
            &&& (a matches Some(ak) ==> lex_lt(ak, k))
            &&& (b matches Some(bk) ==> lex_lt(k, bk))
            &&& (valid_key(k) || k == smallest_int())
            &&& (k == smallest_int() <==> (a is None && b == Some(inc_int(smallest_int()))))
        }),
{
    lemma_alphabet();
    lemma_int_bounds_valid();
    let k = key_between_ok(a, b);
    assert(smallest_int() != largest_int()) by {
        assert(smallest_int()[0] == 'A' && largest_int()[0] == 'z');
    }
    lemma_inc_int_props(smallest_int());
    if a is None && b is None {
        assert(k == zero_key());
        assert(valid_key(k)) by {
            assert(head_len('a') == 2);
            assert(k[0] == 'a' && k[1] == '0');
            assert(is_digit('a') && is_digit('0'));
            assert(k != smallest_int()) by {
                assert(smallest_int().len() == 27);
            }
        }
        assert(k != smallest_int());
    } else if a is None {
        let bk = b->0;
        lemma_valid_key_parts(bk);
        let ib = key_int(bk);
        let fb = key_frac(bk);
        if ib == smallest_int() {
            assert(fb.len() > 0) by {
                if fb.len() == 0 {
                    assert(bk == ib);
                }
            }
            lemma_midpoint(Seq::empty(), fb);
            let m = midpoint_spec(Seq::empty(), fb);
            assert(k == ib + m);
            lemma_key_from_parts(ib, m);
            lemma_lex_cancel(ib, m, fb);
            assert(lex_lt(k, bk));
            assert(bk != inc_int(smallest_int())) by {
                if bk == inc_int(smallest_int()) {
                    assert(valid_int(bk));
                    assert(key_int(bk) =~= bk);
                    lemma_inc_int_props(smallest_int());
                    crate::order::lemma_lex_total(smallest_int(), inc_int(smallest_int()));
                }
            }
        } else if fb.len() > 0 {
            assert(k == ib);
            assert(valid_key(k));
            assert(lex_lt(k, bk)) by {
                lemma_lex_extend(ib, fb);
                assert(bk == ib + fb);
            }
            assert(bk != inc_int(smallest_int())) by {
                if bk == inc_int(smallest_int()) {
                    assert(valid_int(bk));
                    assert(bk.len() == head_len(bk[0]));
                    assert(fb.len() == 0);
                }
            }
        } else {
            assert(bk == ib);
            lemma_dec_int_props(ib);
            assert(k == dec_int(ib));
            assert(k.len() != 0);
            assert(valid_int(k) && lex_lt(k, ib));
            assert(lex_lt(k, bk));
            assert(k != smallest_int() ==> valid_key(k));
            lemma_codec_roundtrip(ib);
            if k == smallest_int() {
                assert(inc_int(dec_int(ib)) == ib);
                assert(bk == inc_int(smallest_int()));
            }
            if bk == inc_int(smallest_int()) {
                lemma_codec_roundtrip(smallest_int());
                assert(dec_int(inc_int(smallest_int())) == smallest_int());
                assert(k == smallest_int());
            }
        }
    } else if b is None {
        let ak = a->0;
        lemma_valid_key_parts(ak);
        let ia = key_int(ak);
        let fa = key_frac(ak);
        lemma_inc_int_props(ia);
        if inc_int(ia).len() == 0 {
            lemma_midpoint(fa, Seq::empty());
            let m = midpoint_spec(fa, Seq::empty());
            assert(k == ia + m);
            lemma_key_from_parts(ia, m);
            assert(lex_lt(ak, k)) by {
                lemma_lex_cancel(ia, fa, m);
                assert(ak == ia + fa);
            }
        } else {
            assert(k == inc_int(ia));
            assert(valid_key(k));
            assert(lex_lt(ak, k)) by {
                lemma_lex_total(ia, k);
                lemma_int_not_prefix(ia, k);
                lemma_lex_concat(ia, k, fa, Seq::empty());
                assert(k + Seq::<char>::empty() =~= k);
                assert(ak == ia + fa);
            }
        }
    } else {
        let ak = a->0;
        let bk = b->0;
        lemma_valid_key_parts(ak);
        lemma_valid_key_parts(bk);
        let ia = key_int(ak);
        let fa = key_frac(ak);
        let ib = key_int(bk);
        let fb = key_frac(bk);
        if ia == ib {
            assert(fb.len() > 0) by {
                if fb.len() == 0 {
                    assert(bk == ib);
                    lemma_lex_cancel(ia, fa, Seq::empty());
                    assert(ia + Seq::<char>::empty() =~= ia);
                    assert(ak == ia + fa);
                    assert(lex_lt(fa, Seq::empty()));
                }
            }
            assert(lex_lt(fa, fb)) by {
                lemma_lex_cancel(ia, fa, fb);
                assert(ak == ia + fa && bk == ia + fb);
            }
            lemma_midpoint(fa, fb);
            let m = midpoint_spec(fa, fb);
            assert(k == ia + m);
            lemma_key_from_parts(ia, m);
            assert(lex_lt(ak, k)) by {
                lemma_lex_cancel(ia, fa, m);
            }
            assert(lex_lt(k, bk)) by {
                lemma_lex_cancel(ia, m, fb);
            }
        } else {
            lemma_between_ints(ak, bk);
            let i = inc_int(ia);
            lemma_inc_int_props(ia);
            if lex_lt(i, bk) {
                assert(k == i);
                assert(valid_key(k));
                assert(lex_lt(ak, k)) by {
                    lemma_lex_total(ia, i);
                    lemma_int_not_prefix(ia, i);
                    lemma_lex_concat(ia, i, fa, Seq::empty());
                    assert(i + Seq::<char>::empty() =~= i);
                    assert(ak == ia + fa);
                }
            } else {
                lemma_midpoint(fa, Seq::empty());
                let m = midpoint_spec(fa, Seq::empty());
                assert(k == ia + m);
                lemma_key_from_parts(ia, m);
                assert(lex_lt(ak, k)) by {
                    lemma_lex_cancel(ia, fa, m);
                    assert(ak == ia + fa);
                }
                assert(lex_lt(k, bk)) by {
                    lemma_int_not_prefix(ia, ib);
                    lemma_lex_concat(ia, ib, m, fb);
                    assert(bk == ib + fb);
                }
            }
        }
    }
}

/// A key that sorts lexicographically strictly between the two bounds.
/// `None` for the lower bound means there is no smaller neighbour, `None`
/// for the upper bound no larger one. Fails when a present bound is no
/// valid key, or when both are present out of order; with one corner
/// exception the returned key is itself valid, so it can be fed back as a
/// bound.
pub fn key_between(a: &Option<String>, b: &Option<String>) -> (r: Result<String, String>)
    ensures
        r is Ok <==> bounds_valid(bound_view(a), bound_view(b)),
        r matches Ok(k) ==> k@ == key_between_ok(bound_view(a), bound_view(b)),
        r matches Ok(k) ==> (a matches Some(ak) ==> lex_lt(ak@, k@)),
        r matches Ok(k) ==> (b matches Some(bk) ==> lex_lt(k@, bk@)),
        r matches Ok(k) ==> (valid_key(k@) || k@ == smallest_int()),
        r matches Ok(k) ==> (k@ == smallest_int() <==> (a is None && bound_view(b) == Some(
            inc_int(smallest_int()),
        ))),
        r matches Err(m) ==> m@ == key_between_err(bound_view(a), bound_view(b)),
{
    if let Some(ak) = a {
        if let Err(m) = validate_order_key(ak.as_str()) {
            return Err(m);
        }
    }
    if let Some(bk) = b {
        if let Err(m) = validate_order_key(bk.as_str()) {
            return Err(m);
        }
    }
    if let (Some(ak), Some(bk)) = (a, b) {
        if !crate::order::str_lt(ak.as_str(), bk.as_str()) {
            return Err(err_invalid_order(ak.as_str(), bk.as_str()));
        }
    }
    proof {
        lemma_key_between_ok(bound_view(a), bound_view(b));
    }
    match (a, b) {
        (None, None) => {
            let z = String::from_str("a0");
            proof {
                reveal_strlit("a0");
                assert(z@ =~= zero_key());
            }
            Ok(z)
        },
        (None, Some(bk)) => {
            let bs: &str = bk.as_str();
            let nb: usize = bs.unicode_len();
            let ib: String = match crate::codec::get_int_part(bs) {
                Ok(p) => p,
                Err(m) => {
                    return Err(m);
                },
            };
            let l: usize = ib.as_str().unicode_len();
            let fb: &str = bs.substring_char(l, nb);
            proof {
                lemma_valid_key_parts(bk@);
                assert(ib@ == key_int(bk@));
                assert(fb@ =~= key_frac(bk@));
            }
            if is_smallest_int(ib.as_str()) {
                let empty: &str = "";
                proof {
                    reveal_strlit("");
                    assert(empty@ =~= Seq::<char>::empty());
                    if fb@.len() > 0 {
                        assert(fb@.last() != '0');
                    }
                }
                let m = midpoint(empty, fb);
                let out = ib.concat(m.as_str());
                proof {
                    assert(out@ == key_between_ok(bound_view(a), bound_view(b)));
                }
                Ok(out)
            } else if crate::order::str_lt(ib.as_str(), bs) {
                proof {
                    lemma_lex_extend(ib@, fb@);
                    assert(bk@ == ib@ + fb@);
                    assert(key_frac(bk@).len() > 0);
                }
                Ok(ib)
            } else {
                proof {
                    lemma_lex_extend(ib@, fb@);
                    assert(bk@ == ib@ + fb@);
                    assert(key_frac(bk@).len() == 0);
                }
                let res = match crate::codec::decrement_int(ib.as_str()) {
                    Ok(s) => s,
                    Err(m) => {
                        return Err(m);
                    },
                };
                if res.as_str().is_empty() {
                    proof {
                        lemma_dec_int_props(ib@);
                    }
                    Err(err_range_underflow())
                } else {
                    Ok(res)
                }
            }
        },
        (Some(ak), None) => {
            let sa: &str = ak.as_str();
            let na: usize = sa.unicode_len();
            let ia: String = match crate::codec::get_int_part(sa) {
                Ok(p) => p,
                Err(m) => {
                    return Err(m);
                },
            };
            let l: usize = ia.as_str().unicode_len();
            let fa: &str = sa.substring_char(l, na);
            proof {
                lemma_valid_key_parts(ak@);
                assert(ia@ == key_int(ak@));
                assert(fa@ =~= key_frac(ak@));
            }
            let i = match crate::codec::increment_int(ia.as_str()) {
                Ok(s) => s,
                Err(m) => {
                    return Err(m);
                },
            };
            if i.as_str().is_empty() {
                let empty: &str = "";
                proof {
                    reveal_strlit("");
                    assert(empty@ =~= Seq::<char>::empty());
                }
                let m = midpoint(fa, empty);
                let out = ia.concat(m.as_str());
                proof {
                    assert(out@ == key_between_ok(bound_view(a), bound_view(b)));
                }
                Ok(out)
            } else {
                Ok(i)
            }
        },
        (Some(ak), Some(bk)) => {
            let sa: &str = ak.as_str();
            let sb: &str = bk.as_str();
            let na: usize = sa.unicode_len();
            let nb: usize = sb.unicode_len();
            let ia: String = match crate::codec::get_int_part(sa) {
                Ok(p) => p,
                Err(m) => {
                    return Err(m);
                },
            };
            let ib: String = match crate::codec::get_int_part(sb) {
                Ok(p) => p,
                Err(m) => {
                    return Err(m);
                },
            };
            let la: usize = ia.as_str().unicode_len();
            let lb: usize = ib.as_str().unicode_len();
            let fa: &str = sa.substring_char(la, na);
            let fb: &str = sb.substring_char(lb, nb);
            proof {
                lemma_valid_key_parts(ak@);
                lemma_valid_key_parts(bk@);
                assert(ia@ == key_int(ak@));
                assert(fa@ =~= key_frac(ak@));
                assert(ib@ == key_int(bk@));
                assert(fb@ =~= key_frac(bk@));
                lemma_lex_total(ia@, ib@);
            }
            let ints_equal: bool = !crate::order::str_lt(ia.as_str(), ib.as_str())
                && !crate::order::str_lt(ib.as_str(), ia.as_str());
            if ints_equal {
                proof {
                    assert(ia@ == ib@);
                    lemma_lex_cancel(ia@, fa@, fb@);
                    assert(ak@ == ia@ + fa@ && bk@ == ia@ + fb@);
                    if fb@.len() > 0 {
                        assert(fb@.last() != '0');
                    }
                }
                let m = midpoint(fa, fb);
                let out = ia.concat(m.as_str());
                proof {
                    assert(out@ == key_between_ok(bound_view(a), bound_view(b)));
                }
                Ok(out)
            } else {
                proof {
                    lemma_between_ints(ak@, bk@);
                }
                let i = match crate::codec::increment_int(ia.as_str()) {
                    Ok(s) => s,
                    Err(m) => {
                        return Err(m);
                    },
                };
                if i.as_str().is_empty() {
                    Err(err_range_overflow())
                } else if crate::order::str_lt(i.as_str(), sb) {
                    Ok(i)
                } else {
                    let empty: &str = "";
                    proof {
                        reveal_strlit("");
                        assert(empty@ =~= Seq::<char>::empty());
                    }
                    let m = midpoint(fa, empty);
                    let out = ia.concat(m.as_str());
                    proof {
                        assert(out@ == key_between_ok(bound_view(a), bound_view(b)));
                    }
                    Ok(out)
                }
            }
        },
    }
}

} // verus!
