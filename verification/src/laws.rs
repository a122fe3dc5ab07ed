//! The algebraic laws of merging.
//!
//! Replica states are compared through their maps (`LSeq::to_map`) and
//! their visible sequences (`LSeq::render_seq`).  The laws here say that
//! the join of two states does not depend on who merges whom, that
//! merging a state into itself changes nothing, that the order in which
//! remote snapshots are merged does not matter, that a tombstone is
//! never overridden, and that equal states render equally.

use vstd::prelude::*;
use crate::index::FractionalIndex;
use crate::order::{lex_lt, lemma_lex_irrefl, lemma_lex_trans};
use crate::lseq::{LSeq, CodedEntry, map_of, joined, distinct_codes, lemma_map_of_dom,
    lemma_map_of_index, lemma_map_of_insert};

verus! {

/// Two states never disagree on the value a key was created with: where
/// both hold a key live, they hold the same value.  Every pair of states
/// of one system has this shape, because a key is bound to one value for
/// its whole life.
pub open spec fn compatible<V>(
    m1: Map<Seq<int>, Option<V>>,
    m2: Map<Seq<int>, Option<V>>,
) -> bool {
    forall|c: Seq<int>|
        #![auto]
        m1.dom().contains(c) && m2.dom().contains(c) && m1[c] is Some && m2[c] is Some ==> m1[c]
            == m2[c]
}

/// Entries strictly sorted by code.
pub open spec fn sorted_codes<V>(ps: Seq<CodedEntry<V>>) -> bool {
    forall|i: int, j: int|
        0 <= i < j < ps.len() ==> lex_lt(#[trigger] ps[i].0, #[trigger] ps[j].0)
}

/// Joining compatible states is commutative.
pub proof fn lemma_join_comm<V>(m1: Map<Seq<int>, Option<V>>, m2: Map<Seq<int>, Option<V>>)
    requires
        compatible(m1, m2),
    ensures
        joined(m1, m2) == joined(m2, m1),
{
    assert(joined(m1, m2) =~= joined(m2, m1));
}

/// Joining a state with itself changes nothing.
pub proof fn lemma_join_idempotent<V>(m: Map<Seq<int>, Option<V>>)
    ensures
        joined(m, m) == m,
{
    assert(joined(m, m) =~= m);
}

/// Joining is associative.
pub proof fn lemma_join_assoc<V>(
    m1: Map<Seq<int>, Option<V>>,
    m2: Map<Seq<int>, Option<V>>,
    m3: Map<Seq<int>, Option<V>>,
)
    ensures
        joined(joined(m1, m2), m3) == joined(m1, joined(m2, m3)),
{
    assert(joined(joined(m1, m2), m3) =~= joined(m1, joined(m2, m3)));
}

/// Delete wins: a tombstone on either side of a join tombstones the key
/// in the result, so no merge ever resurrects a deleted element.
pub proof fn lemma_delete_wins<V>(
    m1: Map<Seq<int>, Option<V>>,
    m2: Map<Seq<int>, Option<V>>,
    c: Seq<int>,
)
    ensures
        m1.dom().contains(c) && m1[c] is None ==> joined(m1, m2).dom().contains(c) && joined(
            m1,
            m2,
        )[c] is None,
        m2.dom().contains(c) && m2[c] is None ==> joined(m1, m2).dom().contains(c) && joined(
            m1,
            m2,
        )[c] is None,
{
}

/// Two strictly sorted entry lists that denote the same map are the
/// same list.
pub proof fn lemma_sorted_pairs_equal<V>(ps: Seq<CodedEntry<V>>, qs: Seq<CodedEntry<V>>)
    requires
        sorted_codes(ps),
        sorted_codes(qs),
        map_of(ps) == map_of(qs),
    ensures
        ps == qs,
    decreases ps.len(),
{
    assert(distinct_codes(ps)) by {
        assert forall|i: int, j: int| 0 <= i < j < ps.len() implies ps[i].0 != ps[j].0 by {
            lemma_lex_irrefl(ps[i].0);
        }
    }
    assert(distinct_codes(qs)) by {
        assert forall|i: int, j: int| 0 <= i < j < qs.len() implies qs[i].0 != qs[j].0 by {
            lemma_lex_irrefl(qs[i].0);
        }
    }
    if ps.len() == 0 {
        if qs.len() > 0 {
            lemma_map_of_index(qs, 0);
            lemma_map_of_dom(ps, qs[0].0);
            assert(false);
        }
        assert(ps =~= qs);
    } else if qs.len() == 0 {
        lemma_map_of_index(ps, 0);
        lemma_map_of_dom(qs, ps[0].0);
        assert(false);
    } else {
        // the heads carry the same (minimal) code
        lemma_map_of_index(ps, 0);
        lemma_map_of_dom(qs, ps[0].0);
        let i = choose|i: int| 0 <= i < qs.len() && qs[i].0 == ps[0].0;
        lemma_map_of_index(qs, 0);
        lemma_map_of_dom(ps, qs[0].0);
        let j = choose|j: int| 0 <= j < ps.len() && ps[j].0 == qs[0].0;
        if i > 0 {
            assert(lex_lt(qs[0].0, qs[i].0));
            if j > 0 {
                assert(lex_lt(ps[0].0, ps[j].0));
                lemma_lex_trans(ps[0].0, ps[j].0, ps[0].0);
                lemma_lex_irrefl(ps[0].0);
            } else {
                lemma_lex_irrefl(ps[0].0);
            }
        }
        assert(qs[0].0 == ps[0].0);
        lemma_map_of_index(qs, 0);
        assert(qs[0].1 == ps[0].1);
        // the tails denote the map without the head's code
        let c0 = ps[0].0;
        let pr = ps.drop_first();
        let qr = qs.drop_first();
        assert(forall|x: int| 0 <= x < pr.len() ==> pr[x] == ps[x + 1]);
        assert(forall|x: int| 0 <= x < qr.len() ==> qr[x] == qs[x + 1]);
        assert(sorted_codes(pr));
        assert(sorted_codes(qr));
        assert(forall|x: int| 0 <= x < pr.len() ==> pr[x].0 != c0);
        assert(forall|x: int| 0 <= x < qr.len() ==> qr[x].0 != c0);
        lemma_map_of_insert(pr, 0, c0, ps[0].1);
        assert(pr.insert(0, (c0, ps[0].1)) =~= ps);
        lemma_map_of_insert(qr, 0, c0, qs[0].1);
        assert(qr.insert(0, (c0, qs[0].1)) =~= qs);
        lemma_map_of_dom(pr, c0);
        lemma_map_of_dom(qr, c0);
        assert(map_of(pr) =~= map_of(ps).remove(c0)) by {
            assert(map_of(ps) == map_of(pr).insert(c0, ps[0].1));
        }
        assert(map_of(qr) =~= map_of(qs).remove(c0)) by {
            assert(map_of(qs) == map_of(qr).insert(c0, qs[0].1));
        }
        lemma_sorted_pairs_equal(pr, qr);
        assert(ps =~= qs);
    }
}

/// Equal states render equally: two sorted containers that denote the
/// same map hold the same entries, and so the same visible sequence.
pub proof fn lemma_render_determined<K: FractionalIndex, V>(a: LSeq<K, V>, b: LSeq<K, V>)
    requires
        a.inv(),
        b.inv(),
        a.to_map() == b.to_map(),
    ensures
        a.pairs() == b.pairs(),
        a.render_seq() == b.render_seq(),
{
    lemma_sorted_pairs_equal(a.pairs(), b.pairs());
}

/// Convergence: when replicas `a` and `b` exchange snapshots and each
/// merges the other's, the two results show the same visible sequence.
/// `a2` and `b2` are the states after the two merges, as `merge`
/// describes them.
pub proof fn lemma_convergence<K: FractionalIndex, V>(
    a: LSeq<K, V>,
    b: LSeq<K, V>,
    a2: LSeq<K, V>,
    b2: LSeq<K, V>,
)
    requires
        a2.inv(),
        b2.inv(),
        compatible(a.to_map(), b.to_map()),
        a2.to_map() == joined(a.to_map(), b.to_map()),
        b2.to_map() == joined(b.to_map(), a.to_map()),
    ensures
        a2.render_seq() == b2.render_seq(),
{
    lemma_join_comm(a.to_map(), b.to_map());
    lemma_render_determined(a2, b2);
}

/// Idempotence: merging a snapshot of a container into itself leaves
/// its visible sequence unchanged.
pub proof fn lemma_merge_idempotent<K: FractionalIndex, V>(c: LSeq<K, V>, c2: LSeq<K, V>)
    requires
        c.inv(),
        c2.inv(),
        c2.to_map() == joined(c.to_map(), c.to_map()),
    ensures
        c2.render_seq() == c.render_seq(),
{
    lemma_join_idempotent(c.to_map());
    lemma_render_determined(c2, c);
}

/// Merging two compatible remote snapshots in either order yields the
/// same visible sequence.
pub proof fn lemma_merge_order_irrelevant<K: FractionalIndex, V>(
    m: LSeq<K, V>,
    b: LSeq<K, V>,
    c: LSeq<K, V>,
    x: LSeq<K, V>,
    y: LSeq<K, V>,
)
    requires
        x.inv(),
        y.inv(),
        compatible(b.to_map(), c.to_map()),
        x.to_map() == joined(joined(m.to_map(), b.to_map()), c.to_map()),
        y.to_map() == joined(joined(m.to_map(), c.to_map()), b.to_map()),
    ensures
        x.render_seq() == y.render_seq(),
{
    lemma_join_assoc(m.to_map(), b.to_map(), c.to_map());
    lemma_join_assoc(m.to_map(), c.to_map(), b.to_map());
    lemma_join_comm(b.to_map(), c.to_map());
    lemma_render_determined(x, y);
}

} // verus!
