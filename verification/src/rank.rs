//! The rank of an integer part: its position, counted from the reserved
//! minimum, in the total order of all well-formed integer parts. The rank
//! makes the codec's behaviour exact: incrementing moves the rank up by
//! exactly one, so no integer part lies between another and its
//! successor, and the lexicographic order of integer parts is precisely
//! the order of their ranks.

use crate::alphabet::{all_digits, char_of, digit_val, is_digit, lemma_alphabet};
use crate::codec::{
    dec_int, head_len, inc_digits, inc_int, lemma_codec_roundtrip, lemma_dec_int_props,
    lemma_inc_int_props, lemma_int_bounds_valid, repeat_char, smallest_int, valid_head, valid_int,
};
use crate::order::{lemma_lex_cancel, lex_lt};
use vstd::arithmetic::mul::{lemma_mul_inequality, lemma_mul_is_associative};
use vstd::arithmetic::power::{lemma_pow_positive, pow};
use vstd::prelude::*;

verus! {

/// 62 to the power `k`.
pub open spec fn pow62(k: nat) -> int {
    pow(62, k)
}

/// The value of a digit string read as a base-62 number, most
/// significant digit first.
pub open spec fn digits_val(d: Seq<char>) -> int
    decreases d.len(),
{
    if d.len() == 0 {
        0
    } else {
        62 * digits_val(d.drop_last()) + digit_val(d.last())
    }
}

/// The position of a head character among the 52 heads, in their order:
/// `'A'..='Z'` give 0..=25, `'a'..='z'` give 26..=51.
pub open spec fn head_idx(c: char) -> int {
    if 'A' <= c && c <= 'Z' {
        c as int - 'A' as int
    } else {
        c as int - 'a' as int + 26
    }
}

/// The declared length of the head at position `i`, mirror of
/// `head_len`.
pub open spec fn idx_len(i: int) -> int {
    if i < 26 {
        27 - i
    } else {
        i - 24
    }
}

/// How many integer parts use a head before position `i`: each head `h`
/// contributes one integer part per choice of its `idx_len(h) - 1`
/// digits.
pub open spec fn head_base(i: nat) -> int
    decreases i,
{
    if i == 0 {
        0
    } else {
        head_base((i - 1) as nat) + pow62((idx_len(i - 1) - 1) as nat)
    }
}

/// The rank of a well-formed integer part: the number of well-formed
/// integer parts that sort strictly below it.
pub open spec fn int_rank(x: Seq<char>) -> int {
    head_base(head_idx(x[0]) as nat) + digits_val(x.skip(1))
}

/// One step of the power of 62.
proof fn lemma_pow62_unfold(k: nat)
    requires
        k >= 1,
    ensures
        pow62(k) == 62 * pow62((k - 1) as nat),
{
    vstd::arithmetic::power::lemma_pow_adds(62, 1, (k - 1) as nat);
    vstd::arithmetic::power::lemma_pow1(62);
}

/// A digit string's value lies below the power of 62 of its length, and
/// takes the two ends exactly on the all-zero and all-max strings.
pub proof fn lemma_digits_val_bounds(d: Seq<char>)
    requires
        all_digits(d),
    ensures
        0 <= digits_val(d) < pow62(d.len()),
        digits_val(d) == 0 <==> d == repeat_char(0, d.len() as int),
        digits_val(d) == pow62(d.len()) - 1 <==> d == repeat_char(61, d.len() as int),
    decreases d.len(),
{
    lemma_alphabet();
    lemma_pow_positive(62, d.len());
    let n = d.len() as int;
    if d.len() == 0 {
        assert(d =~= repeat_char(0, 0));
        assert(d =~= repeat_char(61, 0));
        assert(pow62(0) == 1) by {
            vstd::arithmetic::power::lemma_pow0(62);
        }
    } else {
        let f = d.drop_last();
        assert(all_digits(f));
        lemma_digits_val_bounds(f);
        let c = d.last();
        assert(is_digit(c));
        assert(pow62(d.len()) == 62 * pow62(f.len())) by {
            lemma_pow62_unfold(d.len());
        }
        assert(char_of(0) == '0' && char_of(61) == 'z') by {
            assert(digit_val('0') == 0 && digit_val('z') == 61);
        }
        assert(digits_val(d) == 0 <==> (digits_val(f) == 0 && c == '0')) by {
            assert(digit_val('0') == 0);
            if digit_val(c) == 0 {
                assert(c == '0');
            }
        }
        assert(digits_val(d) == pow62(d.len()) - 1 <==> (digits_val(f) == pow62(f.len()) - 1 && c
            == 'z')) by {
            assert(digit_val('z') == 61);
            if digit_val(c) == 61 {
                assert(c == 'z');
            }
        }
        assert(d == repeat_char(0, n) <==> (f == repeat_char(0, n - 1) && c == '0')) by {
            assert(char_of(0) == '0');
            if f == repeat_char(0, n - 1) && c == '0' {
                assert forall|i: int| 0 <= i < n implies d[i] == repeat_char(0, n)[i] by {
                    if i < n - 1 {
                        assert(d[i] == f[i] && f[i] == repeat_char(0, n - 1)[i]);
                    } else {
                        assert(d[i] == c);
                    }
                }
                assert(d =~= repeat_char(0, n));
            }
            if d == repeat_char(0, n) {
                assert forall|i: int| 0 <= i < n - 1 implies f[i] == repeat_char(0, n - 1)[i] by {
                    assert(f[i] == d[i] && d[i] == repeat_char(0, n)[i]);
                }
                assert(f =~= repeat_char(0, n - 1));
                assert(c == repeat_char(0, n)[n - 1]);
            }
        }
        assert(d == repeat_char(61, n) <==> (f == repeat_char(61, n - 1) && c == 'z')) by {
            assert(char_of(61) == 'z');
            if f == repeat_char(61, n - 1) && c == 'z' {
                assert forall|i: int| 0 <= i < n implies d[i] == repeat_char(61, n)[i] by {
                    if i < n - 1 {
                        assert(d[i] == f[i] && f[i] == repeat_char(61, n - 1)[i]);
                    } else {
                        assert(d[i] == c);
                    }
                }
                assert(d =~= repeat_char(61, n));
            }
            if d == repeat_char(61, n) {
                assert forall|i: int| 0 <= i < n - 1 implies f[i] == repeat_char(61, n - 1)[i] by {
                    assert(f[i] == d[i] && d[i] == repeat_char(61, n)[i]);
                }
                assert(f =~= repeat_char(61, n - 1));
                assert(c == repeat_char(61, n)[n - 1]);
            }
        }
    }
}

/// Adding one to a digit string adds one to its value.
pub proof fn lemma_digits_val_inc(d: Seq<char>)
    requires
        all_digits(d),
        inc_digits(d) is Some,
    ensures
        digits_val(inc_digits(d)->0) == digits_val(d) + 1,
    decreases d.len(),
{
    lemma_alphabet();
    let n = d.len() as int;
    if d.last() != 'z' {
        let c = char_of(digit_val(d.last()) + 1);
        let e = d.update(n - 1, c);
        assert(e.drop_last() =~= d.drop_last());
        assert(e.last() == c);
        assert(digit_val(c) == digit_val(d.last()) + 1) by {
            assert(digit_val('z') == 61);
        }
    } else {
        let f = d.drop_last();
        assert(all_digits(f));
        lemma_digits_val_inc(f);
        let e1 = inc_digits(f)->0;
        let e = e1.push('0');
        assert(inc_digits(d) == Some(e));
        assert(e.drop_last() =~= e1);
        assert(e.last() == '0');
        assert(digit_val('0') == 0 && digit_val('z') == 61);
    }
}

/// A digit string's value splits off its first digit, weighted by the
/// power of 62 of the remaining length.
pub proof fn lemma_digits_val_first(d: Seq<char>)
    requires
        d.len() > 0,
    ensures
        digits_val(d) == digit_val(d[0]) * pow62((d.len() - 1) as nat) + digits_val(
            d.drop_first(),
        ),
    decreases d.len(),
{
    let n = d.len() as int;
    if d.len() == 1 {
        assert(d.drop_last() =~= Seq::<char>::empty());
        assert(d.drop_first() =~= Seq::<char>::empty());
        assert(d.last() == d[0]);
        assert(pow62(0) == 1) by {
            vstd::arithmetic::power::lemma_pow0(62);
        }
    } else {
        let f = d.drop_last();
        lemma_digits_val_first(f);
        assert(f[0] == d[0]);
        assert(d.drop_first().drop_last() =~= f.drop_first());
        assert(d.drop_first().last() == d.last());
        assert(digits_val(d.drop_first()) == 62 * digits_val(f.drop_first()) + digit_val(
            d.last(),
        ));
        assert(pow62((d.len() - 1) as nat) == 62 * pow62((f.len() - 1) as nat)) by {
            lemma_pow62_unfold((d.len() - 1) as nat);
        }
        assert(62 * (digit_val(d[0]) * pow62((f.len() - 1) as nat)) == digit_val(d[0]) * (62
            * pow62((f.len() - 1) as nat))) by {
            lemma_mul_is_associative(62, digit_val(d[0]), pow62((f.len() - 1) as nat));
            lemma_mul_is_associative(digit_val(d[0]), 62, pow62((f.len() - 1) as nat));
        }
    }
}

/// Digit strings of one length compare lexicographically exactly as
/// their values compare.
pub proof fn lemma_digits_val_lex(d1: Seq<char>, d2: Seq<char>)
    requires
        all_digits(d1),
        all_digits(d2),
        d1.len() == d2.len(),
    ensures
        lex_lt(d1, d2) <==> digits_val(d1) < digits_val(d2),
    decreases d1.len(),
{
    lemma_alphabet();
    if d1.len() > 0 {
        let p = pow62((d1.len() - 1) as nat);
        lemma_pow_positive(62, (d1.len() - 1) as nat);
        lemma_digits_val_first(d1);
        lemma_digits_val_first(d2);
        lemma_digits_val_bounds(d1.drop_first());
        lemma_digits_val_bounds(d2.drop_first());
        let v1 = digit_val(d1[0]);
        let v2 = digit_val(d2[0]);
        crate::alphabet::lemma_digit_val_order(d1[0], d2[0]);
        if v1 < v2 {
            assert((v1 + 1) * p <= v2 * p) by {
                lemma_mul_inequality(v1 + 1, v2, p);
            }
            assert((v1 + 1) * p == v1 * p + p) by {
                assert((v1 + 1) * p == v1 * p + 1 * p) by {
                    vstd::arithmetic::mul::lemma_mul_is_distributive_add_other_way(p, v1, 1);
                }
            }
            assert(lex_lt(d1, d2));
        } else if v2 < v1 {
            assert((v2 + 1) * p <= v1 * p) by {
                lemma_mul_inequality(v2 + 1, v1, p);
            }
            assert((v2 + 1) * p == v2 * p + p) by {
                assert((v2 + 1) * p == v2 * p + 1 * p) by {
                    vstd::arithmetic::mul::lemma_mul_is_distributive_add_other_way(p, v2, 1);
                }
            }
            assert(!lex_lt(d1, d2));
        } else {
            assert(d1[0] == d2[0]);
            assert(all_digits(d1.drop_first()) && all_digits(d2.drop_first()));
            lemma_digits_val_lex(d1.drop_first(), d2.drop_first());
        }
    }
}

/// The head counts accumulate: every integer part with a head before
/// position `i` ranks below every one with a head at or after it.
pub proof fn lemma_head_base_mono(i: nat, j: nat)
    requires
        i < j <= 52,
    ensures
        head_base(i) + pow62((idx_len(i as int) - 1) as nat) <= head_base(j),
        head_base(i) >= 0,
    decreases j,
{
    assert forall|k: nat| k <= 52 implies head_base(k) >= 0 by {
        lemma_head_base_nonneg(k);
    }
    if j == i + 1 {
    } else {
        lemma_head_base_mono(i, (j - 1) as nat);
        lemma_pow_positive(62, (idx_len(j - 1) - 1) as nat);
    }
}

/// Head counts are never negative.
proof fn lemma_head_base_nonneg(i: nat)
    ensures
        head_base(i) >= 0,
    decreases i,
{
    if i > 0 {
        lemma_head_base_nonneg((i - 1) as nat);
        lemma_pow_positive(62, (idx_len(i as int - 1) - 1) as nat);
    }
}

/// For a valid head, position and declared length agree with `head_len`.
proof fn lemma_head_idx(c: char)
    requires
        valid_head(c),
    ensures
        0 <= head_idx(c) < 52,
        idx_len(head_idx(c)) == head_len(c),
        is_digit(c),
{
}

/// The rank of a well-formed integer part lies in the space of all
/// ranks, and is zero exactly at the reserved minimum.
pub proof fn lemma_rank_bounds(x: Seq<char>)
    requires
        valid_int(x),
    ensures
        0 <= int_rank(x) < head_base(52),
        int_rank(x) == 0 <==> x == smallest_int(),
{
    lemma_alphabet();
    lemma_int_bounds_valid();
    let ix = head_idx(x[0]) as nat;
    let d = x.skip(1);
    assert(all_digits(d));
    lemma_head_idx(x[0]);
    lemma_digits_val_bounds(d);
    lemma_head_base_nonneg(ix);
    if ix < 51 {
        lemma_head_base_mono(ix, 52);
    } else {
        assert(head_base(52) == head_base(51) + pow62((idx_len(51) - 1) as nat));
    }
    assert(int_rank(x) < head_base(52));
    if int_rank(x) == 0 {
        assert(head_base(ix) == 0 && digits_val(d) == 0);
        assert(ix == 0) by {
            if ix > 0 {
                lemma_head_base_mono(0, ix);
                lemma_pow_positive(62, (idx_len(0) - 1) as nat);
            }
        }
        assert(x[0] == 'A');
        assert(d == repeat_char(0, d.len() as int));
        assert(head_len('A') == 27 && d.len() == 26);
        assert(x =~= smallest_int());
    }
    if x == smallest_int() {
        assert(x[0] == 'A' && head_idx('A') == 0);
        assert(x.skip(1) =~= repeat_char(0, 26));
        assert(digits_val(repeat_char(0, 26)) == 0) by {
            assert(all_digits(repeat_char(0, 26))) by {
                assert(char_of(0) == '0') by {
                    assert(digit_val('0') == 0);
                }
            }
            lemma_digits_val_bounds(repeat_char(0, 26));
        }
    }
}

/// Well-formed integer parts sort lexicographically exactly as their
/// ranks compare: the rank is a faithful picture of the order.
pub proof fn lemma_rank_lex(x: Seq<char>, y: Seq<char>)
    requires
        valid_int(x),
        valid_int(y),
    ensures
        lex_lt(x, y) <==> int_rank(x) < int_rank(y),
{
    lemma_alphabet();
    let ix = head_idx(x[0]);
    let iy = head_idx(y[0]);
    lemma_head_idx(x[0]);
    lemma_head_idx(y[0]);
    let dx = x.skip(1);
    let dy = y.skip(1);
    assert(all_digits(dx) && all_digits(dy));
    lemma_digits_val_bounds(dx);
    lemma_digits_val_bounds(dy);
    if x[0] == y[0] {
        assert(x.len() == y.len());
        lemma_digits_val_lex(dx, dy);
        assert(x =~= seq![x[0]] + dx);
        assert(y =~= seq![y[0]] + dy);
        lemma_lex_cancel(seq![x[0]], dx, dy);
    } else {
        crate::alphabet::lemma_digit_val_order(x[0], y[0]);
        if (x[0] as int) < (y[0] as int) {
            assert(ix < iy);
            lemma_head_base_mono(ix as nat, iy as nat);
            assert(int_rank(x) < int_rank(y));
            assert(lex_lt(x, y));
        } else {
            assert(iy < ix);
            lemma_head_base_mono(iy as nat, ix as nat);
            assert(int_rank(y) < int_rank(x));
            assert(!lex_lt(x, y));
        }
    }
}

/// Incrementing a well-formed integer part moves its rank up by exactly
/// one; together with the order picture this says the successor is
/// immediate.
pub proof fn lemma_rank_inc(x: Seq<char>)
    requires
        valid_int(x),
        inc_int(x).len() != 0,
    ensures
        int_rank(inc_int(x)) == int_rank(x) + 1,
{
    lemma_alphabet();
    lemma_inc_int_props(x);
    let d = x.skip(1);
    assert(all_digits(d));
    crate::codec::lemma_inc_digits_props(d);
    lemma_head_idx(x[0]);
    lemma_digits_val_bounds(d);
    match inc_digits(d) {
        Some(e) => {
            lemma_digits_val_inc(d);
            let r = seq![x[0]] + e;
            assert(inc_int(x) == r);
            assert(r.skip(1) =~= e);
            assert(r[0] == x[0]);
        },
        None => {
            assert(d == repeat_char(61, d.len() as int));
            assert(digits_val(d) == pow62(d.len()) - 1);
            if x[0] == 'Z' {
                let r = seq!['a', '0'];
                assert(inc_int(x) == r);
                assert(r.skip(1) =~= seq!['0']);
                assert(digits_val(seq!['0']) == 0) by {
                    assert(seq!['0'].drop_last() =~= Seq::<char>::empty());
                    assert(digits_val(Seq::<char>::empty()) == 0);
                    assert(digit_val('0') == 0);
                }
                assert(head_idx('Z') == 25 && head_idx('a') == 26);
                assert(head_base(26) == head_base(25) + pow62((idx_len(25) - 1) as nat));
                assert(idx_len(25) == 2);
                assert(d.len() == 1);
                assert(pow62(1) == 62 * pow62(0) && pow62(0) == 1) by {
                    lemma_pow62_unfold(1);
                    vstd::arithmetic::power::lemma_pow0(62);
                }
            } else {
                let v = digit_val(x[0]);
                let h = char_of(v + 1);
                let r = seq![h] + repeat_char(0, head_len(h) - 1);
                assert(inc_int(x) == r);
                assert(r.skip(1) =~= repeat_char(0, head_len(h) - 1));
                assert(all_digits(repeat_char(0, head_len(h) - 1))) by {
                    assert(char_of(0) == '0') by {
                        assert(digit_val('0') == 0);
                    }
                }
                lemma_digits_val_bounds(repeat_char(0, head_len(h) - 1));
                assert(digits_val(r.skip(1)) == 0);
                assert(is_digit(h) && digit_val(h) == v + 1);
                assert(head_idx(h) == head_idx(x[0]) + 1) by {
                    assert(digit_val('Z') == 35 && digit_val('z') == 61 && digit_val('A') == 10
                        && digit_val('a') == 36);
                }
                lemma_head_idx(h);
                assert(head_base((head_idx(x[0]) + 1) as nat) == head_base(head_idx(x[0]) as nat)
                    + pow62((idx_len(head_idx(x[0])) - 1) as nat));
            }
        },
    }
}

/// Decrementing a well-formed integer part other than the reserved
/// minimum moves its rank down by exactly one.
pub proof fn lemma_rank_dec(x: Seq<char>)
    requires
        valid_int(x),
        x != smallest_int(),
    ensures
        dec_int(x).len() != 0,
        int_rank(dec_int(x)) == int_rank(x) - 1,
{
    lemma_dec_int_props(x);
    lemma_codec_roundtrip(x);
    lemma_rank_inc(dec_int(x));
}

/// The successor is immediate: no well-formed integer part sorts
/// strictly between an integer part and its successor.
pub proof fn lemma_inc_int_adjacent(x: Seq<char>, y: Seq<char>)
    requires
        valid_int(x),
        valid_int(y),
        inc_int(x).len() != 0,
        lex_lt(x, y),
    ensures
        !lex_lt(y, inc_int(x)),
{
    lemma_inc_int_props(x);
    lemma_rank_inc(x);
    lemma_rank_lex(x, y);
    lemma_rank_lex(y, inc_int(x));
}

} // verus!
