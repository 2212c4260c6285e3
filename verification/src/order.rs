//! Lexicographic orders used to keep feature names and feature sets canonical.
//!
//! Feature names are ordered by code point; feature sets (as sorted name
//! lists) are ordered by the lexicographic lift of that order. Both orders
//! are strict total orders, which is what makes the canonical sorted form
//! of a set unique.

use vstd::prelude::*;

verus! {

/// Strict lexicographic order on character sequences, by code point.
pub open spec fn lex_lt(a: Seq<char>, b: Seq<char>) -> bool
    decreases a.len(),
{
    if b.len() == 0 {
        false
    } else if a.len() == 0 {
        true
    } else if a[0] != b[0] {
        a[0] < b[0]
    } else {
        lex_lt(a.skip(1), b.skip(1))
    }
}

/// Strict lexicographic order on sequences of names: the lift of `lex_lt`.
pub open spec fn names_lt(a: Seq<Seq<char>>, b: Seq<Seq<char>>) -> bool
    decreases a.len(),
{
    if b.len() == 0 {
        false
    } else if a.len() == 0 {
        true
    } else if a[0] != b[0] {
        lex_lt(a[0], b[0])
    } else {
        names_lt(a.skip(1), b.skip(1))
    }
}

/// A name list in canonical form: strictly ascending, hence duplicate-free.
pub open spec fn sorted_names(s: Seq<Seq<char>>) -> bool {
    forall|i: int, j: int| 0 <= i < j < s.len() ==> lex_lt(s[i], s[j])
}

pub proof fn lemma_lex_lt_trichotomy(a: Seq<char>, b: Seq<char>)
    ensures
        lex_lt(a, b) || lex_lt(b, a) || a == b,
    decreases a.len(),
{
    if b.len() == 0 {
        if a.len() == 0 {
            assert(a =~= b);
        }
    } else if a.len() == 0 {
    } else if a[0] != b[0] {
    } else {
        lemma_lex_lt_trichotomy(a.skip(1), b.skip(1));
        if a.skip(1) == b.skip(1) {
            assert forall|i: int| 0 <= i < a.len() implies a[i] == b[i] by {
                if i > 0 {
                    assert(a.skip(1)[i - 1] == a[i]);
                    assert(b.skip(1)[i - 1] == b[i]);
                }
            }
            assert(a.skip(1).len() == b.skip(1).len());
            assert(a.len() == b.len());
            assert(a =~= b);
        }
    }
}

pub proof fn lemma_lex_lt_asym(a: Seq<char>, b: Seq<char>)
    ensures
        lex_lt(a, b) ==> !lex_lt(b, a),
    decreases a.len(),
{
    if a.len() > 0 && b.len() > 0 && a[0] == b[0] {
        lemma_lex_lt_asym(a.skip(1), b.skip(1));
    }
}

pub proof fn lemma_lex_lt_trans(a: Seq<char>, b: Seq<char>, c: Seq<char>)
    ensures
        lex_lt(a, b) && lex_lt(b, c) ==> lex_lt(a, c),
    decreases a.len(),
{
    if lex_lt(a, b) && lex_lt(b, c) {
        if a.len() == 0 {
        } else {
            if a[0] == b[0] && b[0] == c[0] {
                lemma_lex_lt_trans(a.skip(1), b.skip(1), c.skip(1));
            }
        }
    }
}

pub proof fn lemma_names_lt_trichotomy(a: Seq<Seq<char>>, b: Seq<Seq<char>>)
    ensures
        names_lt(a, b) || names_lt(b, a) || a == b,
    decreases a.len(),
{
    if b.len() == 0 {
        if a.len() == 0 {
            assert(a =~= b);
        }
    } else if a.len() == 0 {
    } else if a[0] != b[0] {
        lemma_lex_lt_trichotomy(a[0], b[0]);
    } else {
        lemma_names_lt_trichotomy(a.skip(1), b.skip(1));
        if a.skip(1) == b.skip(1) {
            assert forall|i: int| 0 <= i < a.len() implies a[i] == b[i] by {
                if i > 0 {
                    assert(a.skip(1)[i - 1] == a[i]);
                    assert(b.skip(1)[i - 1] == b[i]);
                }
            }
            assert(a.len() == b.len());
            assert(a =~= b);
        }
    }
}

pub proof fn lemma_names_lt_asym(a: Seq<Seq<char>>, b: Seq<Seq<char>>)
    ensures
        names_lt(a, b) ==> !names_lt(b, a),
    decreases a.len(),
{
    if a.len() > 0 && b.len() > 0 {
        if a[0] == b[0] {
            lemma_names_lt_asym(a.skip(1), b.skip(1));
        } else {
            lemma_lex_lt_asym(a[0], b[0]);
        }
    }
}

pub proof fn lemma_names_lt_trans(a: Seq<Seq<char>>, b: Seq<Seq<char>>, c: Seq<Seq<char>>)
    ensures
        names_lt(a, b) && names_lt(b, c) ==> names_lt(a, c),
    decreases a.len(),
{
    if names_lt(a, b) && names_lt(b, c) {
        if a.len() == 0 {
        } else {
            if a[0] == b[0] && b[0] == c[0] {
                lemma_names_lt_trans(a.skip(1), b.skip(1), c.skip(1));
            } else if a[0] == b[0] {
                // head comparison decided by b[0] vs c[0]
            } else if b[0] == c[0] {
            } else {
                lemma_lex_lt_trans(a[0], b[0], c[0]);
                if a[0] == c[0] {
                    lemma_lex_lt_asym(a[0], b[0]);
                    lemma_lex_lt_asym(b[0], c[0]);
                    assert(false);
                }
            }
        }
    }
}

/// Two strictly sorted name lists holding the same set of names are equal.
pub proof fn lemma_sorted_names_unique(a: Seq<Seq<char>>, b: Seq<Seq<char>>)
    requires
        sorted_names(a),
        sorted_names(b),
        a.to_set() == b.to_set(),
    ensures
        a == b,
    decreases a.len(),
{
    if a.len() == 0 {
        if b.len() > 0 {
            assert(b.to_set().contains(b[0]));
            assert(a.to_set().contains(b[0]));
            assert(false);
        }
        assert(a =~= b);
    } else if b.len() == 0 {
        assert(a.to_set().contains(a[0]));
        assert(b.to_set().contains(a[0]));
        assert(false);
    } else {
        // The heads are both the unique minimum of the common set.
        assert(a.to_set().contains(a[0]));
        assert(b.to_set().contains(b[0]));
        let j = choose|j: int| 0 <= j < b.len() && b[j] == a[0];
        assert(b.to_set().contains(a[0]));
        let i = choose|i: int| 0 <= i < a.len() && a[i] == b[0];
        assert(a.to_set().contains(b[0]));
        if a[0] != b[0] {
            assert(0 <= j < b.len() && b[j] == a[0]);
            assert(0 <= i < a.len() && a[i] == b[0]);
            assert(j != 0 && i != 0);
            assert(lex_lt(b[0], b[j]));
            assert(lex_lt(a[0], a[i]));
            lemma_lex_lt_asym(a[0], b[0]);
            assert(false);
        }
        let at = a.skip(1);
        let bt = b.skip(1);
        assert forall|x: Seq<char>| at.to_set().contains(x) implies bt.to_set().contains(x) by {
            let k = choose|k: int| 0 <= k < at.len() && at[k] == x;
            assert(a[k + 1] == x);
            assert(a.to_set().contains(x));
            assert(b.to_set().contains(x));
            let m = choose|m: int| 0 <= m < b.len() && b[m] == x;
            if m == 0 {
                // x == b[0] == a[0], but x sits strictly above a[0] in a
                assert(lex_lt(a[0], a[k + 1]));
                lemma_lex_lt_asym(a[0], x);
                assert(false);
            }
            assert(bt[m - 1] == x);
            assert(bt.contains(x));
        }
        assert forall|x: Seq<char>| bt.to_set().contains(x) implies at.to_set().contains(x) by {
            let k = choose|k: int| 0 <= k < bt.len() && bt[k] == x;
            assert(b[k + 1] == x);
            assert(b.to_set().contains(x));
            assert(a.to_set().contains(x));
            let m = choose|m: int| 0 <= m < a.len() && a[m] == x;
            if m == 0 {
                assert(lex_lt(b[0], b[k + 1]));
                lemma_lex_lt_asym(b[0], x);
                assert(false);
            }
            assert(at[m - 1] == x);
            assert(at.contains(x));
        }
        assert(at.to_set() =~= bt.to_set());
        assert(sorted_names(at)) by {
            assert forall|p: int, q: int| 0 <= p < q < at.len() implies lex_lt(at[p], at[q]) by {
                assert(at[p] == a[p + 1]);
                assert(at[q] == a[q + 1]);
            }
        }
        assert(sorted_names(bt)) by {
            assert forall|p: int, q: int| 0 <= p < q < bt.len() implies lex_lt(bt[p], bt[q]) by {
                assert(bt[p] == b[p + 1]);
                assert(bt[q] == b[q + 1]);
            }
        }
        lemma_sorted_names_unique(at, bt);
        assert forall|i2: int| 0 <= i2 < a.len() implies a[i2] == b[i2] by {
            if i2 > 0 {
                assert(at[i2 - 1] == a[i2]);
                assert(bt[i2 - 1] == b[i2]);
            }
        }
        assert(a.len() == b.len());
        assert(a =~= b);
    }
}

/// If two sequences agree on their first `i` elements, comparing them is the
/// same as comparing what is left after those elements.
pub proof fn lemma_lex_lt_common_prefix(a: Seq<char>, b: Seq<char>, i: int)
    requires
        0 <= i <= a.len(),
        i <= b.len(),
        forall|k: int| 0 <= k < i ==> a[k] == b[k],
    ensures
        lex_lt(a, b) == lex_lt(a.skip(i), b.skip(i)),
    decreases i,
{
    if i > 0 {
        assert(a.len() > 0 && b.len() > 0);
        assert(a[0] == b[0]);
        assert forall|k: int| 0 <= k < i - 1 implies a.skip(1)[k] == b.skip(1)[k] by {
            assert(a.skip(1)[k] == a[k + 1]);
            assert(b.skip(1)[k] == b[k + 1]);
        }
        lemma_lex_lt_common_prefix(a.skip(1), b.skip(1), i - 1);
        assert(a.skip(1).skip(i - 1) =~= a.skip(i));
        assert(b.skip(1).skip(i - 1) =~= b.skip(i));
        assert(lex_lt(a, b) == lex_lt(a.skip(1), b.skip(1)));
    } else {
        assert(a.skip(0) =~= a);
        assert(b.skip(0) =~= b);
    }
}

/// If two name lists agree on their first `i` elements, comparing them is
/// the same as comparing what is left after those elements.
pub proof fn lemma_names_lt_common_prefix(a: Seq<Seq<char>>, b: Seq<Seq<char>>, i: int)
    requires
        0 <= i <= a.len(),
        i <= b.len(),
        forall|k: int| 0 <= k < i ==> a[k] == b[k],
    ensures
        names_lt(a, b) == names_lt(a.skip(i), b.skip(i)),
    decreases i,
{
    if i > 0 {
        assert(a.len() > 0 && b.len() > 0);
        assert(a[0] == b[0]);
        assert forall|k: int| 0 <= k < i - 1 implies a.skip(1)[k] == b.skip(1)[k] by {
            assert(a.skip(1)[k] == a[k + 1]);
            assert(b.skip(1)[k] == b[k + 1]);
        }
        lemma_names_lt_common_prefix(a.skip(1), b.skip(1), i - 1);
        assert(a.skip(1).skip(i - 1) =~= a.skip(i));
        assert(b.skip(1).skip(i - 1) =~= b.skip(i));
        assert(names_lt(a, b) == names_lt(a.skip(1), b.skip(1)));
    } else {
        assert(a.skip(0) =~= a);
        assert(b.skip(0) =~= b);
    }
}

/// Compare two strings in the order given by `lex_lt`.
pub fn str_lt(a: &str, b: &str) -> (r: bool)
    ensures
        r == lex_lt(a@, b@),
{
    let alen = a.unicode_len();
    let blen = b.unicode_len();
    let mut i: usize = 0;
    loop
        invariant
            0 <= i <= alen,
            i <= blen,
            alen == a@.len(),
            blen == b@.len(),
            forall|k: int| 0 <= k < i ==> a@[k] == b@[k],
        decreases alen - i,
    {
        proof {
            lemma_lex_lt_common_prefix(a@, b@, i as int);
        }
        if i == alen {
            // `a` is exhausted: it is smaller exactly when `b` goes on
            return i < blen;
        }
        if i == blen {
            return false;
        }
        let ca = a.get_char(i);
        let cb = b.get_char(i);
        if ca != cb {
            return (ca as u32) < (cb as u32);
        }
        i = i + 1;
    }
}

/// Test two strings for equality of their character sequences.
pub fn str_eq(a: &str, b: &str) -> (r: bool)
    ensures
        r == (a@ == b@),
{
    let lt1 = str_lt(a, b);
    let lt2 = str_lt(b, a);
    proof {
        lemma_lex_lt_trichotomy(a@, b@);
        lemma_lex_lt_asym(a@, b@);
        lemma_lex_lt_asym(b@, a@);
    }
    !lt1 && !lt2
}

} // verus!
