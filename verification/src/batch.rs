//! The batch generator: `n` evenly spread keys between two bounds. With
//! an open upper end the generator walks upward feeding each key back as
//! the lower bound; with an open lower end it walks downward and returns
//! the keys in increasing order; between two bounds it bisects, so key
//! lengths grow logarithmically in `n` rather than linearly.

use crate::codec::{lemma_int_bounds_valid, smallest_int, valid_head};
use crate::errors::msg_invalid_key;
use crate::keys::{
    bound_view, bounds_valid, key_between, key_between_err, key_between_ok, lemma_key_between_ok,
    valid_key,
};
use crate::order::{lemma_lex_trans, lex_lt};
use vstd::prelude::*;

verus! {

/// The views of a sequence of key strings.
pub open spec fn views(v: Seq<String>) -> Seq<Seq<char>> {
    v.map_values(|s: String| s@)
}

/// The keys of the upward walk: each generated key becomes the next lower
/// bound, with no upper bound. This walk cannot run out of key space.
pub open spec fn keys_up_spec(a: Option<Seq<char>>, n: nat) -> Seq<Seq<char>>
    decreases n,
{
    if n == 0 {
        Seq::empty()
    } else {
        let c = key_between_ok(a, None);
        seq![c] + keys_up_spec(Some(c), (n - 1) as nat)
    }
}

/// The keys of the downward walk from `b`, in increasing order: each
/// generated key becomes the next upper bound.
pub open spec fn keys_down_asc(b: Seq<char>, n: nat) -> Seq<Seq<char>>
    decreases n,
{
    if n == 0 {
        Seq::empty()
    } else {
        let c = key_between_ok(None, Some(b));
        keys_down_asc(c, (n - 1) as nat) + seq![c]
    }
}

/// Does the downward walk from `b` run for `n` steps without hitting the
/// reserved minimum? It fails only when a produced key is itself no valid
/// bound for the next step.
pub open spec fn keys_down_ok(b: Seq<char>, n: nat) -> bool
    decreases n,
{
    n == 0 || (valid_key(b) && keys_down_ok(key_between_ok(None, Some(b)), (n - 1) as nat))
}

/// The balanced bisection between two bounds: the middle key, with half
/// of the remaining keys recursively on each side.
pub open spec fn keys_balanced_spec(a: Seq<char>, b: Seq<char>, n: nat) -> Seq<Seq<char>>
    decreases n,
{
    if n == 0 {
        Seq::empty()
    } else {
        let c = key_between_ok(Some(a), Some(b));
        keys_balanced_spec(a, c, (n / 2) as nat) + seq![c] + keys_balanced_spec(
            c,
            b,
            (n - n / 2 - 1) as nat,
        )
    }
}

/// The list of keys the batch generator produces for the given bounds.
pub open spec fn n_keys_list(a: Option<Seq<char>>, b: Option<Seq<char>>, n: nat) -> Seq<
    Seq<char>,
> {
    if b is None {
        keys_up_spec(a, n)
    } else if a is None {
        keys_down_asc(b->0, n)
    } else {
        keys_balanced_spec(a->0, b->0, n)
    }
}

/// The upward walk yields `n` valid keys, strictly increasing, all
/// strictly above the lower bound: feeding each key back as the bound
/// never repeats or reorders a key.
pub proof fn lemma_keys_up(a: Option<Seq<char>>, n: nat)
    requires
        a matches Some(ak) ==> valid_key(ak),
    ensures
        ({
            let ks = keys_up_spec(a, n);
            &&& ks.len() == n
            &&& forall|i: int| 0 <= i < n ==> valid_key(#[trigger] ks[i])
            &&& forall|i: int, j: int| 0 <= i < j < n ==> lex_lt(ks[i], ks[j])
            &&& (a matches Some(ak) ==> forall|i: int|
                0 <= i < n ==> lex_lt(ak, #[trigger] ks[i]))
        }),
    decreases n,
{
    if n > 0 {
        lemma_key_between_ok(a, None);
        let c = key_between_ok(a, None);
        lemma_keys_up(Some(c), (n - 1) as nat);
        let rest = keys_up_spec(Some(c), (n - 1) as nat);
        let ks = keys_up_spec(a, n);
        assert(ks == seq![c] + rest);
        assert(ks[0] == c);
        assert(forall|i: int| 1 <= i < n ==> ks[i] == rest[i - 1]);
        assert forall|i: int, j: int| 0 <= i < j < n implies lex_lt(ks[i], ks[j]) by {
            if i == 0 {
                assert(lex_lt(c, rest[j - 1]));
            }
        }
        if a is Some {
            let ak = a->0;
            assert forall|i: int| 0 <= i < n implies lex_lt(ak, #[trigger] ks[i]) by {
                if i > 0 {
                    lemma_lex_trans(ak, c, rest[i - 1]);
                }
            }
        }
    }
}

/// The downward walk always plans exactly `n` keys.
proof fn lemma_keys_down_asc_len(b: Seq<char>, n: nat)
    ensures
        keys_down_asc(b, n).len() == n,
    decreases n,
{
    if n > 0 {
        lemma_keys_down_asc_len(key_between_ok(None, Some(b)), (n - 1) as nat);
    }
}

/// When the downward walk completes, it yields `n` keys in increasing
/// order, all strictly below the upper bound; every key but possibly the
/// lowest one is valid, and the lowest can only be the reserved minimum,
/// reached on the walk's very last step.
pub proof fn lemma_keys_down(b: Seq<char>, n: nat)
    requires
        valid_key(b),
        keys_down_ok(b, n),
    ensures
        ({
            let ks = keys_down_asc(b, n);
            &&& ks.len() == n
            &&& forall|i: int, j: int| 0 <= i < j < n ==> lex_lt(ks[i], ks[j])
            &&& forall|i: int| 0 <= i < n ==> lex_lt(#[trigger] ks[i], b)
            &&& forall|i: int|
                0 <= i < n ==> (valid_key(#[trigger] ks[i]) || ks[i] == smallest_int())
            &&& forall|i: int| 0 < i < n ==> valid_key(#[trigger] ks[i])
        }),
    decreases n,
{
    if n > 0 {
        lemma_key_between_ok(None, Some(b));
        let c = key_between_ok(None, Some(b));
        let ks = keys_down_asc(b, n);
        let rest = keys_down_asc(c, (n - 1) as nat);
        lemma_keys_down_asc_len(c, (n - 1) as nat);
        assert(ks == rest + seq![c]);
        assert(ks[n - 1] == c);
        assert(forall|i: int| 0 <= i < n - 1 ==> ks[i] == rest[i]);
        if n == 1 {
        } else {
            assert(keys_down_ok(c, (n - 1) as nat));
            assert(valid_key(c));
            lemma_keys_down(c, (n - 1) as nat);
            assert forall|i: int, j: int| 0 <= i < j < n implies lex_lt(ks[i], ks[j]) by {
                if j == n - 1 {
                    assert(lex_lt(rest[i], c));
                }
            }
            assert forall|i: int| 0 <= i < n implies lex_lt(#[trigger] ks[i], b) by {
                if i < n - 1 {
                    lemma_lex_trans(rest[i], c, b);
                }
            }
        }
    }
}

/// The balanced bisection yields `n` valid keys, strictly increasing,
/// all strictly between the two bounds.
pub proof fn lemma_keys_balanced(a: Seq<char>, b: Seq<char>, n: nat)
    requires
        valid_key(a),
        valid_key(b),
        lex_lt(a, b),
    ensures
        ({
            let ks = keys_balanced_spec(a, b, n);
            &&& ks.len() == n
            &&& forall|i: int| 0 <= i < n ==> valid_key(#[trigger] ks[i])
            &&& forall|i: int, j: int| 0 <= i < j < n ==> lex_lt(ks[i], ks[j])
            &&& forall|i: int| 0 <= i < n ==> lex_lt(a, #[trigger] ks[i]) && lex_lt(ks[i], b)
        }),
    decreases n,
{
    if n > 0 {
        lemma_key_between_ok(Some(a), Some(b));
        let c = key_between_ok(Some(a), Some(b));
        let m = (n / 2) as nat;
        let r = (n - n / 2 - 1) as nat;
        lemma_keys_balanced(a, c, m);
        lemma_keys_balanced(c, b, r);
        let left = keys_balanced_spec(a, c, m);
        let right = keys_balanced_spec(c, b, r);
        let ks = keys_balanced_spec(a, b, n);
        assert(ks == left + seq![c] + right);
        assert(ks[m as int] == c);
        assert(forall|i: int| 0 <= i < m ==> ks[i] == left[i]);
        assert(forall|i: int| m < i < n ==> ks[i] == right[i - m - 1]);
        assert forall|i: int| 0 <= i < n implies lex_lt(a, #[trigger] ks[i]) && lex_lt(ks[i], b)
            && valid_key(ks[i]) by {
            if i < m {
                lemma_lex_trans(left[i], c, b);
            } else if i > m {
                lemma_lex_trans(a, c, right[i - m - 1]);
            }
        }
        assert forall|i: int, j: int| 0 <= i < j < n implies lex_lt(ks[i], ks[j]) by {
            if i < m && j > m {
                lemma_lex_trans(left[i], c, right[j - m - 1]);
            }
        }
    }
}

/// How many steps the downward walk can take from `b`: `None` when the
/// walk has entered the fractional space below the reserved minimum and
/// can go on forever; otherwise the rank of the bound's integer part,
/// plus one when a fractional part leaves room below the bare integer.
pub open spec fn down_limit(b: Seq<char>) -> Option<int> {
    if crate::keys::key_frac(b).len() > 0 {
        if crate::keys::key_int(b) == smallest_int() {
            None
        } else {
            Some(crate::rank::int_rank(crate::keys::key_int(b)) + 1)
        }
    } else {
        Some(crate::rank::int_rank(b))
    }
}

/// The downward walk from a valid bound runs for exactly the step counts
/// its limit allows, so success of the batch generator under a sole upper
/// bound is pinned to the rank of that bound's integer part.
pub proof fn lemma_down_walk_limit(b: Seq<char>, n: nat)
    requires
        valid_key(b),
    ensures
        keys_down_ok(b, n) <==> (down_limit(b) matches Some(l) ==> n <= l),
    decreases n,
{
    crate::keys::lemma_valid_key_parts(b);
    let ib = crate::keys::key_int(b);
    let fb = crate::keys::key_frac(b);
    crate::rank::lemma_rank_bounds(ib);
    if n > 0 {
        lemma_key_between_ok(None, Some(b));
        let c = key_between_ok(None, Some(b));
        if ib == smallest_int() {
            assert(fb.len() > 0) by {
                if fb.len() == 0 {
                    assert(b == ib);
                }
            }
            crate::midpoint::lemma_midpoint(Seq::empty(), fb);
            let m = crate::midpoint::midpoint_spec(Seq::empty(), fb);
            assert(c == ib + m);
            crate::keys::lemma_key_from_parts(ib, m);
            assert(crate::keys::key_int(c) == smallest_int());
            assert(crate::keys::key_frac(c).len() > 0);
            lemma_down_walk_limit(c, (n - 1) as nat);
        } else if fb.len() > 0 {
            assert(c == ib);
            assert(valid_key(c));
            crate::keys::lemma_valid_key_parts(c);
            assert(crate::keys::key_frac(c) =~= Seq::<char>::empty());
            assert(crate::keys::key_int(c) =~= c);
            lemma_down_walk_limit(c, (n - 1) as nat);
        } else {
            assert(b == ib);
            crate::rank::lemma_rank_dec(ib);
            assert(c == crate::codec::dec_int(ib));
            crate::codec::lemma_dec_int_props(ib);
            assert(crate::codec::valid_int(c));
            crate::rank::lemma_rank_bounds(c);
            if c == smallest_int() {
                assert(!valid_key(c));
                assert(keys_down_ok(c, (n - 1) as nat) <==> n == 1);
                assert(crate::rank::int_rank(b) == 1);
            } else {
                assert(valid_key(c));
                crate::keys::lemma_valid_key_parts(c);
                assert(crate::keys::key_frac(c) =~= Seq::<char>::empty());
                assert(crate::keys::key_int(c) =~= c);
                lemma_down_walk_limit(c, (n - 1) as nat);
            }
        }
    }
}

/// `n` keys that sort lexicographically strictly between the two bounds,
/// in strictly increasing order. Fails as `key_between` does on bad
/// bounds; a downward walk that exhausts the space below the upper bound
/// fails once it would have to step below the reserved minimum.
pub fn n_keys_between(a: &Option<String>, b: &Option<String>, n: usize) -> (r: Result<
    Vec<String>,
    String,
>)
    ensures
        r is Ok <==> (n == 0 || (bounds_valid(bound_view(a), bound_view(b)) && ((a is None
            && b is Some) ==> keys_down_ok(bound_view(b)->0, n as nat)))),
        r matches Ok(ks) ==> ks@.len() == n && views(ks@) == n_keys_list(
            bound_view(a),
            bound_view(b),
            n as nat,
        ),
        r matches Ok(ks) ==> forall|i: int, j: int| 0 <= i < j < n ==> lex_lt(ks@[i]@, ks@[j]@),
        r matches Ok(ks) ==> (a matches Some(ak) ==> forall|i: int|
            0 <= i < n ==> lex_lt(ak@, #[trigger] ks@[i]@)),
        r matches Ok(ks) ==> (b matches Some(bk) ==> forall|i: int|
            0 <= i < n ==> lex_lt(#[trigger] ks@[i]@, bk@)),
        r matches Ok(ks) ==> forall|i: int|
            0 <= i < n ==> (valid_key(#[trigger] ks@[i]@) || ks@[i]@ == smallest_int()),
        r matches Ok(ks) ==> forall|i: int| 0 < i < n ==> valid_key(#[trigger] ks@[i]@),
        r matches Err(m) ==> m@ == (if !bounds_valid(bound_view(a), bound_view(b)) {
            key_between_err(bound_view(a), bound_view(b))
        } else {
            msg_invalid_key(smallest_int())
        }),
    decreases n,
{
    let mut result: Vec<String> = Vec::new();
    if n == 0 {
        proof {
            assert(views(result@) =~= n_keys_list(bound_view(a), bound_view(b), 0));
        }
        return Ok(result);
    }
    match (a, b) {
        (_, None) => {
            let c0 = match key_between(a, b) {
                Ok(c) => c,
                Err(m) => {
                    return Err(m);
                },
            };
            proof {
                lemma_keys_up(bound_view(a), n as nat);
            }
            let mut cur = c0;
            result.push(cur.clone());
            let mut i: usize = 1;
            proof {
                assert(views(result@) =~= seq![cur@]);
                assert(keys_up_spec(bound_view(a), n as nat) == seq![cur@] + keys_up_spec(
                    Some(cur@),
                    (n - 1) as nat,
                ));
            }
            while i < n
                invariant
                    1 <= i <= n,
                    b is None,
                    valid_key(cur@),
                    result@.len() == i,
                    views(result@) + keys_up_spec(Some(cur@), (n - i) as nat) == keys_up_spec(
                        bound_view(a),
                        n as nat,
                    ),
                decreases n - i,
            {
                let co: Option<String> = Some(cur);
                let cnew = match key_between(&co, b) {
                    Ok(c) => c,
                    Err(m) => {
                        return Err(m);
                    },
                };
                proof {
                    assert(keys_up_spec(Some(co->0@), (n - i) as nat) == seq![cnew@]
                        + keys_up_spec(Some(cnew@), (n - i - 1) as nat));
                    assert(views(result@.push(cnew)) =~= views(result@) + seq![cnew@]);
                    assert((views(result@) + seq![cnew@]) + keys_up_spec(
                        Some(cnew@),
                        (n - i - 1) as nat,
                    ) =~= views(result@) + (seq![cnew@] + keys_up_spec(
                        Some(cnew@),
                        (n - i - 1) as nat,
                    )));
                }
                result.push(cnew.clone());
                cur = cnew;
                i = i + 1;
            }
            proof {
                assert(keys_up_spec(Some(cur@), 0) =~= Seq::<Seq<char>>::empty());
                assert(views(result@) + Seq::<Seq<char>>::empty() =~= views(result@));
                assert(views(result@) == keys_up_spec(bound_view(a), n as nat));
                assert(forall|i: int|
                    0 <= i < n ==> views(result@)[i] == #[trigger] result@[i]@);
            }
            Ok(result)
        },
        (None, Some(_)) => {
            let c0 = match key_between(a, b) {
                Ok(c) => c,
                Err(m) => {
                    return Err(m);
                },
            };
            let bv = Ghost(bound_view(b)->0);
            let mut cur = c0;
            result.insert(0, cur.clone());
            let mut i: usize = 1;
            proof {
                assert(views(result@) =~= seq![cur@]);
                assert(keys_down_asc(bv@, n as nat) == keys_down_asc(cur@, (n - 1) as nat)
                    + seq![cur@]);
                assert(keys_down_ok(bv@, n as nat) == (valid_key(bv@) && keys_down_ok(
                    cur@,
                    (n - 1) as nat,
                )));
            }
            while i < n
                invariant
                    1 <= i <= n,
                    a is None,
                    b is Some,
                    bv@ == bound_view(b)->0,
                    valid_key(bv@),
                    valid_key(cur@) || cur@ == smallest_int(),
                    result@.len() == i,
                    keys_down_ok(bv@, n as nat) == keys_down_ok(cur@, (n - i) as nat),
                    keys_down_asc(cur@, (n - i) as nat) + views(result@) == keys_down_asc(
                        bv@,
                        n as nat,
                    ),
                decreases n - i,
            {
                let co: Option<String> = Some(cur);
                let cnew = match key_between(a, &co) {
                    Ok(c) => c,
                    Err(m) => {
                        proof {
                            lemma_int_bounds_valid();
                            assert(!valid_key(co->0@));
                            assert(co->0@ == smallest_int());
                            assert(smallest_int()[0] == 'A' && valid_head('A'));
                            assert(m@ == msg_invalid_key(smallest_int()));
                            assert(!keys_down_ok(co->0@, (n - i) as nat));
                        }
                        return Err(m);
                    },
                };
                proof {
                    assert(keys_down_asc(co->0@, (n - i) as nat) == keys_down_asc(
                        cnew@,
                        (n - i - 1) as nat,
                    ) + seq![cnew@]);
                    assert(views(result@.insert(0, cnew)) =~= seq![cnew@] + views(result@));
                    assert(keys_down_asc(cnew@, (n - i - 1) as nat) + (seq![cnew@] + views(
                        result@,
                    )) =~= (keys_down_asc(cnew@, (n - i - 1) as nat) + seq![cnew@]) + views(
                        result@,
                    ));
                    assert(keys_down_ok(co->0@, (n - i) as nat) == keys_down_ok(
                        cnew@,
                        (n - i - 1) as nat,
                    ));
                }
                result.insert(0, cnew.clone());
                cur = cnew;
                i = i + 1;
            }
            proof {
                assert(keys_down_asc(cur@, 0) =~= Seq::<Seq<char>>::empty());
                assert(Seq::<Seq<char>>::empty() + views(result@) =~= views(result@));
                assert(views(result@) == keys_down_asc(bv@, n as nat));
                assert(keys_down_ok(cur@, 0));
                lemma_keys_down(bv@, n as nat);
                assert(forall|i: int|
                    0 <= i < n ==> views(result@)[i] == #[trigger] result@[i]@);
            }
            Ok(result)
        },
        (Some(_), Some(_)) => {
            let c = match key_between(a, b) {
                Ok(c) => c,
                Err(m) => {
                    return Err(m);
                },
            };
            let mid: usize = n / 2;
            let cb: Option<String> = Some(c.clone());
            let mut out = match n_keys_between(a, &cb, mid) {
                Ok(v) => v,
                Err(m) => {
                    return Err(m);
                },
            };
            let mut right = match n_keys_between(&cb, b, n - mid - 1) {
                Ok(v) => v,
                Err(m) => {
                    return Err(m);
                },
            };
            proof {
                assert(views(out@.push(c) + right@) =~= views(out@) + seq![c@] + views(right@));
            }
            out.push(c);
            out.append(&mut right);
            proof {
                let av = bound_view(a)->0;
                let bv = bound_view(b)->0;
                assert(views(out@) == keys_balanced_spec(av, bv, n as nat));
                lemma_keys_balanced(av, bv, n as nat);
                assert(forall|i: int|
                    0 <= i < n ==> views(out@)[i] == #[trigger] out@[i]@);
            }
            Ok(out)
        },
    }
}

} // verus!