//! The midpoint engine: the shortest digit string that sorts strictly
//! between two fractional digit strings. An empty lower string means
//! "unbounded below", an empty upper string "unbounded above". The result
//! never ends in the zero digit, so it can always serve as the fractional
//! part of an order key.

use crate::alphabet::{all_digits, char_of, digit_char, digit_val, digit_value, is_digit,
    lemma_alphabet, lemma_digit_val_order};
use crate::order::{lemma_lex_cancel, lemma_lex_extend, lex_lt};
use vstd::prelude::*;
use vstd::string::{StrSliceExecFns, StringExecFns};

verus! {

/// The midpoint of two fractional digit strings. The shared prefix is
/// kept, the lower string being read as padded with zero digits; after
/// it, a single digit halfway between the two first digits is enough when
/// they leave a gap, the upper string's first digit alone is enough when
/// it has more digits behind it, and otherwise the result deepens one
/// digit at a time along the lower string.
pub open spec fn midpoint_spec(a: Seq<char>, b: Seq<char>) -> Seq<char>
    decreases a.len() + b.len(),
{
    if b.len() > 0 && (if a.len() > 0 {
        a[0] == b[0]
    } else {
        b[0] == '0'
    }) {
        seq![b[0]] + midpoint_spec(
            if a.len() > 0 {
                a.drop_first()
            } else {
                a
            },
            b.drop_first(),
        )
    } else {
        let da = if a.len() > 0 {
            digit_val(a[0])
        } else {
            0
        };
        let db = if b.len() > 0 {
            digit_val(b[0])
        } else {
            62
        };
        if db - da > 1 {
            seq![char_of((da + db + 1) / 2)]
        } else if b.len() > 1 {
            seq![b[0]]
        } else {
            if a.len() > 0 {
                seq![a[0]] + midpoint_spec(a.drop_first(), Seq::empty())
            } else {
                seq![char_of(0)] + midpoint_spec(a, Seq::empty())
            }
        }
    }
}

/// The midpoint lies strictly between its bounds, consists of alphabet
/// digits, is never empty and never ends in the zero digit.
pub proof fn lemma_midpoint(a: Seq<char>, b: Seq<char>)
    requires
        all_digits(a),
        all_digits(b),
        b.len() > 0 ==> lex_lt(a, b) && b.last() != '0',
    ensures
        midpoint_spec(a, b).len() > 0,
        all_digits(midpoint_spec(a, b)),
        midpoint_spec(a, b).last() != '0',
        lex_lt(a, midpoint_spec(a, b)),
        b.len() > 0 ==> lex_lt(midpoint_spec(a, b), b),
    decreases a.len() + b.len(),
{
    lemma_alphabet();
    let m = midpoint_spec(a, b);
    if b.len() > 0 && (if a.len() > 0 {
        a[0] == b[0]
    } else {
        b[0] == '0'
    }) {
        let ta = if a.len() > 0 {
            a.drop_first()
        } else {
            a
        };
        let tb = b.drop_first();
        assert(all_digits(ta) && all_digits(tb));
        if a.len() > 0 {
            assert(lex_lt(ta, tb));
            assert(tb.len() > 0);
        } else {
            assert(b[0] == '0');
            assert(tb.len() > 0) by {
                if tb.len() == 0 {
                    assert(b.last() == b[0]);
                }
            }
            assert(lex_lt(ta, tb));
        }
        assert(tb.last() == b.last());
        lemma_midpoint(ta, tb);
        let m1 = midpoint_spec(ta, tb);
        assert(m == seq![b[0]] + m1);
        assert(m.last() == m1.last());
        assert(all_digits(m)) by {
            assert(forall|i: int| 1 <= i < m.len() ==> m[i] == m1[i - 1]);
        }
        assert(lex_lt(a, m)) by {
            if a.len() > 0 {
                assert(a =~= seq![a[0]] + ta);
                lemma_lex_cancel(seq![a[0]], ta, m1);
            }
        }
        assert(lex_lt(m, b)) by {
            assert(b =~= seq![b[0]] + tb);
            lemma_lex_cancel(seq![b[0]], m1, tb);
        }
    } else {
        let da = if a.len() > 0 {
            digit_val(a[0])
        } else {
            0
        };
        let db = if b.len() > 0 {
            digit_val(b[0])
        } else {
            62
        };
        if a.len() > 0 && b.len() > 0 {
            assert(a[0] != b[0]);
            assert(a[0] < b[0]);
            lemma_digit_val_order(a[0], b[0]);
            assert(da < db);
        }
        if db - da > 1 {
            let mid = (da + db + 1) / 2;
            assert(da < mid && mid < db && 1 <= mid <= 61);
            let c = char_of(mid);
            assert(is_digit(c) && digit_val(c) == mid);
            assert(m == seq![c]);
            assert(c != '0') by {
                assert(digit_val('0') == 0);
            }
            if a.len() > 0 {
                lemma_digit_val_order(a[0], c);
            }
            if b.len() > 0 {
                lemma_digit_val_order(c, b[0]);
            }
        } else if b.len() > 1 {
            assert(m == seq![b[0]]);
            assert(b[0] != '0') by {
                if a.len() > 0 {
                    assert(digit_val('0') == 0);
                    assert(da >= 0 && db > da);
                    assert(digit_val(b[0]) >= 1);
                }
            }
            assert(lex_lt(m, b)) by {
                assert(b =~= seq![b[0]] + b.drop_first());
                lemma_lex_extend(seq![b[0]], b.drop_first());
            }
        } else {
            let ta = if a.len() > 0 {
                a.drop_first()
            } else {
                a
            };
            assert(all_digits(ta));
            lemma_midpoint(ta, Seq::empty());
            let m1 = midpoint_spec(ta, Seq::empty());
            let c0 = if a.len() > 0 {
                a[0]
            } else {
                char_of(0)
            };
            assert(m == seq![c0] + m1);
            assert(m.last() == m1.last());
            assert(is_digit(c0)) by {
                if a.len() == 0 {
                    assert(is_digit(char_of(0)));
                }
            }
            assert(all_digits(m)) by {
                assert(forall|i: int| 1 <= i < m.len() ==> m[i] == m1[i - 1]);
            }
            assert(lex_lt(a, m)) by {
                if a.len() > 0 {
                    assert(a =~= seq![a[0]] + ta);
                    lemma_lex_cancel(seq![a[0]], ta, m1);
                }
            }
            if b.len() > 0 {
                assert(b.len() == 1);
                assert(lex_lt(m, b)) by {
                    if a.len() > 0 {
                        assert(m[0] == a[0] && a[0] < b[0]);
                    } else {
                        assert(b[0] != '0');
                        assert(char_of(0) == '0') by {
                            assert(digit_val('0') == 0);
                        }
                        assert(digit_val(b[0]) >= 1) by {
                            assert(digit_val('0') == 0);
                        }
                        lemma_digit_val_order('0', b[0]);
                        assert(m[0] == '0' && m[0] < b[0]);
                    }
                }
            }
        }
    }
}

/// Compute the midpoint of two fractional digit strings.
pub fn midpoint(a: &str, b: &str) -> (m: String)
    requires
        all_digits(a@),
        all_digits(b@),
        b@.len() > 0 ==> lex_lt(a@, b@) && b@.last() != '0',
    ensures
        m@ == midpoint_spec(a@, b@),
    decreases a@.len() + b@.len(),
{
    proof {
        lemma_alphabet();
    }
    let na: usize = a.unicode_len();
    let nb: usize = b.unicode_len();
    let first_matches: bool = if nb > 0 {
        if na > 0 {
            a.get_char(0) == b.get_char(0)
        } else {
            b.get_char(0) == '0'
        }
    } else {
        false
    };
    if first_matches {
        let ta: &str = if na > 0 {
            a.substring_char(1, na)
        } else {
            a
        };
        let tb: &str = b.substring_char(1, nb);
        proof {
            assert(tb@ =~= b@.drop_first());
            if na > 0 {
                assert(ta@ =~= a@.drop_first());
                assert(lex_lt(ta@, tb@));
            } else {
                assert(tb@.len() > 0) by {
                    if tb@.len() == 0 {
                        assert(b@.last() == b@[0]);
                    }
                }
            }
            if tb@.len() > 0 {
                assert(tb@.last() == b@.last());
            }
        }
        let m1 = midpoint(ta, tb);
        let mut out = b.substring_char(0, 1).to_owned();
        out.append(m1.as_str());
        proof {
            assert(out@ =~= midpoint_spec(a@, b@));
        }
        out
    } else {
        let da: u8 = if na > 0 {
            digit_value(a.get_char(0)).unwrap()
        } else {
            0
        };
        let db: u8 = if nb > 0 {
            digit_value(b.get_char(0)).unwrap()
        } else {
            62
        };
        proof {
            if na > 0 && nb > 0 {
                assert(a@[0] != b@[0]);
                assert(a@[0] < b@[0]);
                lemma_digit_val_order(a@[0], b@[0]);
            }
        }
        if db > da + 1 {
            let mid: u8 = (da + db + 1) / 2;
            digit_char(mid)
        } else if nb > 1 {
            b.substring_char(0, 1).to_owned()
        } else {
            let ta: &str = if na > 0 {
                a.substring_char(1, na)
            } else {
                a
            };
            let empty: &str = "";
            proof {
                reveal_strlit("");
                assert(empty@ =~= Seq::<char>::empty());
                if na > 0 {
                    assert(ta@ =~= a@.drop_first());
                }
            }
            let m1 = midpoint(ta, empty);
            let mut out = if na > 0 {
                a.substring_char(0, 1).to_owned()
            } else {
                digit_char(0)
            };
            out.append(m1.as_str());
            proof {
                assert(out@ =~= midpoint_spec(a@, b@));
            }
            out
        }
    }
}

} // verus!
