//! Lexicographic order on integer sequences.
//!
//! Both key strategies reduce their total order to the same mathematical
//! one: every key denotes a finite sequence of integers (its *code*) and
//! keys compare lexicographically on their codes, a strict prefix coming
//! before every extension of it.

use vstd::prelude::*;

verus! {

/// Strict lexicographic order on integer sequences.  A strict prefix is
/// smaller than every extension of it.
pub open spec fn lex_lt(a: Seq<int>, b: Seq<int>) -> bool
    decreases a.len(),
{
    if b.len() == 0 {
        false
    } else if a.len() == 0 {
        true
    } else if a[0] < b[0] {
        true
    } else if a[0] > b[0] {
        false
    } else {
        lex_lt(a.drop_first(), b.drop_first())
    }
}

/// No sequence is lexicographically below itself.
pub proof fn lemma_lex_irrefl(a: Seq<int>)
    ensures
        !lex_lt(a, a),
    decreases a.len(),
{
    if a.len() > 0 {
        lemma_lex_irrefl(a.drop_first());
    }
}

/// The lexicographic order is transitive.
pub proof fn lemma_lex_trans(a: Seq<int>, b: Seq<int>, c: Seq<int>)
    requires
        lex_lt(a, b),
        lex_lt(b, c),
    ensures
        lex_lt(a, c),
    decreases a.len(),
{
    if a.len() > 0 && b.len() > 0 && c.len() > 0 && a[0] == b[0] && b[0] == c[0] {
        lemma_lex_trans(a.drop_first(), b.drop_first(), c.drop_first());
    }
}

/// Any two integer sequences are ordered or equal.
pub proof fn lemma_lex_total(a: Seq<int>, b: Seq<int>)
    ensures
        lex_lt(a, b) || lex_lt(b, a) || a == b,
    decreases a.len(),
{
    if a.len() > 0 && b.len() > 0 && a[0] == b[0] {
        lemma_lex_total(a.drop_first(), b.drop_first());
        if a.drop_first() == b.drop_first() {
            assert(forall|j: int|
                1 <= j < a.len() ==> a[j] == a.drop_first()[j - 1] && b[j] == b.drop_first()[j
                    - 1]);
            assert(a =~= b);
        }
    }
}

/// The order is asymmetric: at most one direction holds.
pub proof fn lemma_lex_asym(a: Seq<int>, b: Seq<int>)
    ensures
        !(lex_lt(a, b) && lex_lt(b, a)),
{
    if lex_lt(a, b) && lex_lt(b, a) {
        lemma_lex_trans(a, b, a);
        lemma_lex_irrefl(a);
    }
}

/// If two sequences agree on their first `i` elements and `a` has a
/// smaller element at position `i`, then `a` is lexicographically smaller.
pub proof fn lemma_lex_from_diff(a: Seq<int>, b: Seq<int>, i: int)
    requires
        0 <= i < a.len(),
        i < b.len(),
        forall|j: int| 0 <= j < i ==> a[j] == b[j],
        a[i] < b[i],
    ensures
        lex_lt(a, b),
    decreases i,
{
    if i > 0 {
        lemma_lex_from_diff(a.drop_first(), b.drop_first(), i - 1);
    }
}

/// A strict prefix is lexicographically smaller than its extension.
pub proof fn lemma_lex_from_prefix(a: Seq<int>, b: Seq<int>)
    requires
        a.len() < b.len(),
        forall|j: int| 0 <= j < a.len() ==> a[j] == b[j],
    ensures
        lex_lt(a, b),
    decreases a.len(),
{
    if a.len() > 0 {
        lemma_lex_from_prefix(a.drop_first(), b.drop_first());
    }
}

/// Among the positions below `n` where two sequences differ there is a
/// first one.
pub proof fn lemma_first_diff(a: Seq<int>, b: Seq<int>, n: int)
    requires
        0 <= n <= a.len(),
        n <= b.len(),
        exists|j: int| 0 <= j < n && a[j] != b[j],
    ensures
        exists|j0: int|
            0 <= j0 < n && a[j0] != b[j0] && (forall|x: int| 0 <= x < j0 ==> a[x] == b[x]),
    decreases n,
{
    if exists|j: int| 0 <= j < n - 1 && a[j] != b[j] {
        lemma_first_diff(a, b, n - 1);
        let j0 = choose|j0: int|
            0 <= j0 < n - 1 && a[j0] != b[j0] && (forall|x: int| 0 <= x < j0 ==> a[x] == b[x]);
        assert(0 <= j0 < n && a[j0] != b[j0] && (forall|x: int| 0 <= x < j0 ==> a[x] == b[x]));
    } else {
        let j = choose|j: int| 0 <= j < n && a[j] != b[j];
        assert(j == n - 1);
        assert(0 <= n - 1 < n && a[n - 1] != b[n - 1] && (forall|x: int|
            0 <= x < n - 1 ==> a[x] == b[x]));
    }
}

/// Two ordered sequences differ at the first unequal position, or the
/// smaller one is a strict prefix of the larger.
pub proof fn lemma_lex_characterize(a: Seq<int>, b: Seq<int>)
    requires
        lex_lt(a, b),
    ensures
        (a.len() < b.len() && forall|j: int| 0 <= j < a.len() ==> a[j] == b[j]) || (exists|i: int|
            0 <= i < a.len() && i < b.len() && a[i] < b[i] && (forall|j: int|
                0 <= j < i ==> a[j] == b[j])),
    decreases a.len(),
{
    if a.len() > 0 && b.len() > 0 && a[0] == b[0] {
        lemma_lex_characterize(a.drop_first(), b.drop_first());
        if a.drop_first().len() < b.drop_first().len() && (forall|j: int|
            0 <= j < a.drop_first().len() ==> a.drop_first()[j] == b.drop_first()[j]) {
            assert(forall|j: int| 0 <= j < a.len() ==> a[j] == b[j]) by {
                assert(forall|j: int| 1 <= j < a.len() ==> a[j] == a.drop_first()[j - 1]
                    && b[j] == b.drop_first()[j - 1]);
            }
        } else {
            let i = choose|i: int|
                0 <= i < a.drop_first().len() && i < b.drop_first().len()
                    && a.drop_first()[i] < b.drop_first()[i] && (forall|j: int|
                    0 <= j < i ==> a.drop_first()[j] == b.drop_first()[j]);
            assert(forall|j: int|
                1 <= j < a.len() ==> a[j] == a.drop_first()[j - 1]);
            assert(forall|j: int|
                1 <= j < b.len() ==> b[j] == b.drop_first()[j - 1]);
            assert(0 <= i + 1 < a.len() && i + 1 < b.len() && a[i + 1] < b[i + 1]
                && (forall|j: int| 0 <= j < i + 1 ==> a[j] == b[j]));
        }
    } else if a.len() > 0 && b.len() > 0 && a[0] < b[0] {
        assert(0 <= 0 < a.len() && 0 < b.len() && a[0] < b[0] && (forall|j: int|
            0 <= j < 0 ==> a[j] == b[j]));
    }
}

} // verus!
