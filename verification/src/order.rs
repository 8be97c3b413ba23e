//! Strict lexicographic order on character sequences, compared by code
//! point. On keys over the digit alphabet this coincides with byte order,
//! which is the order callers are expected to sort stored keys by.

use vstd::prelude::*;

verus! {

/// `a` sorts strictly before `b` in lexicographic (code point) order.
/// A proper prefix sorts before every extension of itself.
pub open spec fn lex_lt(a: Seq<char>, b: Seq<char>) -> bool
    decreases a.len(),
{
    if b.len() == 0 {
        false
    } else if a.len() == 0 {
        true
    } else if a[0] < b[0] {
        true
    } else if a[0] == b[0] {
        lex_lt(a.drop_first(), b.drop_first())
    } else {
        false
    }
}

/// `p` is a (not necessarily proper) prefix of `s`.
pub open spec fn is_prefix(p: Seq<char>, s: Seq<char>) -> bool {
    p.len() <= s.len() && p =~= s.take(p.len() as int)
}

/// The order is total: of `a < b`, `a == b` and `b < a` exactly one holds.
pub proof fn lemma_lex_total(a: Seq<char>, b: Seq<char>)
    ensures
        lex_lt(a, b) || lex_lt(b, a) || a == b,
        lex_lt(a, b) ==> !lex_lt(b, a) && a != b,
        lex_lt(b, a) ==> !lex_lt(a, b) && a != b,
    decreases a.len(),
{
    if a.len() == 0 && b.len() == 0 {
        assert(a =~= b);
    } else if a.len() > 0 && b.len() > 0 {
        if !(a[0] < b[0]) && !(b[0] < a[0]) {
            assert(a[0] == b[0]);
            lemma_lex_total(a.drop_first(), b.drop_first());
            if a.drop_first() == b.drop_first() {
                assert forall|j: int| 0 <= j < a.len() implies a[j] == b[j] by {
                    if j > 0 {
                        assert(a.drop_first()[j - 1] == b.drop_first()[j - 1]);
                    }
                }
                assert(a =~= b);
            }
        }
    }
}

/// The order is transitive.
pub proof fn lemma_lex_trans(a: Seq<char>, b: Seq<char>, c: Seq<char>)
    requires
        lex_lt(a, b),
        lex_lt(b, c),
    ensures
        lex_lt(a, c),
    decreases a.len(),
{
    if a.len() > 0 {
        if a[0] == b[0] && b[0] == c[0] {
            lemma_lex_trans(a.drop_first(), b.drop_first(), c.drop_first());
        }
    }
}

/// A sequence sorts before itself extended, and only a real extension
/// moves it: `a < a + ext` exactly when `ext` is non-empty.
pub proof fn lemma_lex_extend(a: Seq<char>, ext: Seq<char>)
    ensures
        lex_lt(a, a + ext) <==> ext.len() > 0,
    decreases a.len(),
{
    if a.len() == 0 {
        assert(a + ext =~= ext);
    } else {
        assert((a + ext)[0] == a[0]);
        assert((a + ext).drop_first() =~= a.drop_first() + ext);
        lemma_lex_extend(a.drop_first(), ext);
    }
}

/// A shared prefix cancels: `p + f < p + g` exactly when `f < g`.
pub proof fn lemma_lex_cancel(p: Seq<char>, f: Seq<char>, g: Seq<char>)
    ensures
        lex_lt(p + f, p + g) <==> lex_lt(f, g),
    decreases p.len(),
{
    if p.len() == 0 {
        assert(p + f =~= f);
        assert(p + g =~= g);
    } else {
        assert((p + f)[0] == p[0] && (p + g)[0] == p[0]);
        assert((p + f).drop_first() =~= p.drop_first() + f);
        assert((p + g).drop_first() =~= p.drop_first() + g);
        lemma_lex_cancel(p.drop_first(), f, g);
    }
}

/// When `x < y` and `x` is not a prefix of `y`, the two differ within
/// their common length, so any extensions compare the same way.
pub proof fn lemma_lex_concat(x: Seq<char>, y: Seq<char>, f: Seq<char>, g: Seq<char>)
    requires
        lex_lt(x, y),
        !is_prefix(x, y),
    ensures
        lex_lt(x + f, y + g),
    decreases x.len(),
{
    if x.len() == 0 {
        assert(x =~= y.take(0));
    } else {
        assert((x + f)[0] == x[0] && (y + g)[0] == y[0]);
        if x[0] < y[0] {
        } else {
            assert(x[0] == y[0]);
            assert((x + f).drop_first() =~= x.drop_first() + f);
            assert((y + g).drop_first() =~= y.drop_first() + g);
            if is_prefix(x.drop_first(), y.drop_first()) {
                assert forall|j: int| 0 <= j < x.len() implies x[j] == y[j] by {
                    if j > 0 {
                        assert(x.drop_first()[j - 1] == y.drop_first().take(
                            x.drop_first().len() as int,
                        )[j - 1]);
                    }
                }
                assert(x =~= y.take(x.len() as int));
            }
            lemma_lex_concat(x.drop_first(), y.drop_first(), f, g);
        }
    }
}

/// Compare two strings in lexicographic code point order.
pub fn str_lt(a: &str, b: &str) -> (r: bool)
    ensures
        r == lex_lt(a@, b@),
{
    let na: usize = a.unicode_len();
    let nb: usize = b.unicode_len();
    let mut i: usize = 0;
    loop
        invariant
            i <= na,
            i <= nb,
            na == a@.len(),
            nb == b@.len(),
            forall|j: int| 0 <= j < i ==> a@[j] == b@[j],
        decreases na - i,
    {
        proof {
            assert(a@ =~= a@.take(i as int) + a@.skip(i as int));
            assert(b@ =~= b@.take(i as int) + b@.skip(i as int));
            assert(a@.take(i as int) =~= b@.take(i as int));
            lemma_lex_cancel(a@.take(i as int), a@.skip(i as int), b@.skip(i as int));
        }
        if i == nb {
            return false;
        }
        if i == na {
            return true;
        }
        let ca = a.get_char(i);
        let cb = b.get_char(i);
        if ca < cb {
            return true;
        }
        if cb < ca {
            return false;
        }
        proof {
            assert(ca == cb);
        }
        i = i + 1;
    }
}

} // verus!
