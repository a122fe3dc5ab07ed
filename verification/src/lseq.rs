//! The replicated sequence container.
//!
//! An `LSeq` owns a replica id and an ordered list of entries, each a
//! fractional-index key paired with an optional value; `None` marks a
//! tombstone.  Entries are kept strictly sorted by key code, which is
//! the canonical element order.  The container is modelled by the map
//! from key codes to optional values (`to_map`) together with the
//! rendered sequence of live values (`render_seq`); every operation
//! states its effect on that model exactly.

use vstd::prelude::*;
use crate::index::{FractionalIndex, PeerId};
use crate::order::{lex_lt, lemma_lex_irrefl, lemma_lex_trans, lemma_lex_total};

verus! {

/// Relies on `String::push` of std: appending one character to the end
/// of a string appends it to the string's character sequence.
pub assume_specification[ String::push ](s: &mut String, ch: char)
    ensures
        final(s)@ == old(s)@.push(ch),
;

/// A code paired with the optional value stored under it.
pub type CodedEntry<V> = (Seq<int>, Option<V>);

/// The (code, value) pairs denoted by a list of keyed entries.
pub open spec fn coded<K: FractionalIndex, V>(s: Seq<(K, Option<V>)>) -> Seq<CodedEntry<V>> {
    s.map(|j: int, e: (K, Option<V>)| (e.0.code(), e.1))
}

/// The map denoted by a list of coded entries; a later entry for the
/// same code wins, as in repeated map insertion.
pub open spec fn map_of<V>(ps: Seq<CodedEntry<V>>) -> Map<Seq<int>, Option<V>>
    decreases ps.len(),
{
    if ps.len() == 0 {
        Map::empty()
    } else {
        map_of(ps.drop_last()).insert(ps.last().0, ps.last().1)
    }
}

/// No two entries carry the same code.
pub open spec fn distinct_codes<V>(ps: Seq<CodedEntry<V>>) -> bool {
    forall|i: int, j: int| 0 <= i < j < ps.len() ==> ps[i].0 != ps[j].0
}

/// The sequence of live values, in entry order.
pub open spec fn live_values<V>(ps: Seq<CodedEntry<V>>) -> Seq<V>
    decreases ps.len(),
{
    if ps.len() == 0 {
        Seq::empty()
    } else {
        live_values(ps.drop_last()) + match ps.last().1 {
            Some(v) => seq![v],
            None => Seq::empty(),
        }
    }
}

/// How one incoming entry folds into a local state: an unknown code is
/// adopted as-is, an incoming tombstone wins, and an incoming value for
/// a known code is ignored.
pub open spec fn merge_one<V>(
    m: Map<Seq<int>, Option<V>>,
    c: Seq<int>,
    v: Option<V>,
) -> Map<Seq<int>, Option<V>> {
    if !m.dom().contains(c) {
        m.insert(c, v)
    } else if v is None {
        m.insert(c, None)
    } else {
        m
    }
}

/// The join of two replica states: union of the keys, tombstones in
/// the incoming state win, and otherwise the local state is kept.
pub open spec fn joined<V>(
    m1: Map<Seq<int>, Option<V>>,
    m2: Map<Seq<int>, Option<V>>,
) -> Map<Seq<int>, Option<V>> {
    Map::new(
        |c: Seq<int>| m1.dom().contains(c) || m2.dom().contains(c),
        |c: Seq<int>|
            if m2.dom().contains(c) && m2[c] is None {
                None
            } else if m1.dom().contains(c) {
                m1[c]
            } else {
                m2[c]
            },
    )
}

/// Folding a list of incoming entries one at a time.
pub open spec fn fold_merge<V>(
    m: Map<Seq<int>, Option<V>>,
    ps: Seq<CodedEntry<V>>,
) -> Map<Seq<int>, Option<V>>
    decreases ps.len(),
{
    if ps.len() == 0 {
        m
    } else {
        fold_merge(merge_one(m, ps[0].0, ps[0].1), ps.drop_first())
    }
}

/// The state reached by inserting a run of values one after another,
/// each key minted with the previous one as its left bound and a fixed
/// right bound.
pub open spec fn batch_insert<K: FractionalIndex, V>(
    m: Map<Seq<int>, Option<V>>,
    peer: PeerId,
    left: Option<Seq<int>>,
    right: Option<Seq<int>>,
    vals: Seq<V>,
) -> Map<Seq<int>, Option<V>>
    decreases vals.len(),
{
    if vals.len() == 0 {
        m
    } else {
        let c = K::gen_code(peer, left, right);
        batch_insert::<K, V>(m.insert(c, Some(vals[0])), peer, Some(c), right, vals.drop_first())
    }
}

/// The code a key option denotes.
pub open spec fn opt_code<K: FractionalIndex>(o: Option<K>) -> Option<Seq<int>> {
    match o {
        Some(k) => Some(k.code()),
        None => None,
    }
}

/// A code is in the map of an entry list exactly when some entry
/// carries it.
pub proof fn lemma_map_of_dom<V>(ps: Seq<CodedEntry<V>>, c: Seq<int>)
    ensures
        map_of(ps).dom().contains(c) <==> exists|i: int| 0 <= i < ps.len() && ps[i].0 == c,
    decreases ps.len(),
{
    if ps.len() > 0 {
        lemma_map_of_dom(ps.drop_last(), c);
        if map_of(ps).dom().contains(c) {
            if ps.last().0 == c {
                assert(ps[ps.len() - 1].0 == c);
            } else {
                let i = choose|i: int| 0 <= i < ps.drop_last().len() && ps.drop_last()[i].0 == c;
                assert(ps[i].0 == c);
            }
        }
        if exists|i: int| 0 <= i < ps.len() && ps[i].0 == c {
            let i = choose|i: int| 0 <= i < ps.len() && ps[i].0 == c;
            if i < ps.len() - 1 {
                assert(ps.drop_last()[i].0 == c);
            }
        }
    }
}

/// With distinct codes, the map reads back each entry's value.
pub proof fn lemma_map_of_index<V>(ps: Seq<CodedEntry<V>>, i: int)
    requires
        distinct_codes(ps),
        0 <= i < ps.len(),
    ensures
        map_of(ps).dom().contains(ps[i].0),
        map_of(ps)[ps[i].0] == ps[i].1,
    decreases ps.len(),
{
    lemma_map_of_dom(ps, ps[i].0);
    if i < ps.len() - 1 {
        assert(distinct_codes(ps.drop_last()));
        assert(ps.drop_last()[i] == ps[i]);
        lemma_map_of_index(ps.drop_last(), i);
        assert(ps[i].0 != ps.last().0);
    }
}

/// Inserting an entry with a fresh code anywhere in the list inserts
/// its pair into the map.
pub proof fn lemma_map_of_insert<V>(ps: Seq<CodedEntry<V>>, j: int, c: Seq<int>, v: Option<V>)
    requires
        0 <= j <= ps.len(),
        forall|i: int| 0 <= i < ps.len() ==> ps[i].0 != c,
    ensures
        map_of(ps.insert(j, (c, v))) == map_of(ps).insert(c, v),
    decreases ps.len(),
{
    let qs = ps.insert(j, (c, v));
    if j == ps.len() {
        assert(qs.drop_last() =~= ps);
        assert(qs.last() == (c, v));
    } else {
        assert(qs.drop_last() =~= ps.drop_last().insert(j, (c, v)));
        assert(qs.last() == ps.last());
        lemma_map_of_insert(ps.drop_last(), j, c, v);
        assert(ps.last().0 != c);
        assert(map_of(ps.drop_last()).insert(c, v).insert(ps.last().0, ps.last().1)
            =~= map_of(ps.drop_last()).insert(ps.last().0, ps.last().1).insert(c, v));
    }
}

/// Overwriting the value of the entry that carries `c` updates the map
/// at `c`.
pub proof fn lemma_map_of_update<V>(ps: Seq<CodedEntry<V>>, j: int, c: Seq<int>, v: Option<V>)
    requires
        distinct_codes(ps),
        0 <= j < ps.len(),
        ps[j].0 == c,
    ensures
        map_of(ps.update(j, (c, v))) == map_of(ps).insert(c, v),
    decreases ps.len(),
{
    let qs = ps.update(j, (c, v));
    if j == ps.len() - 1 {
        assert(qs.drop_last() =~= ps.drop_last());
        assert(qs.last() == (c, v));
        assert(map_of(ps.drop_last()).insert(c, v) =~= map_of(ps.drop_last()).insert(
            c,
            ps.last().1,
        ).insert(c, v));
    } else {
        assert(qs.drop_last() =~= ps.drop_last().update(j, (c, v)));
        assert(qs.last() == ps.last());
        assert(distinct_codes(ps.drop_last()));
        assert(ps.drop_last()[j] == ps[j]);
        lemma_map_of_update(ps.drop_last(), j, c, v);
        assert(ps.last().0 != c);
        assert(map_of(ps.drop_last()).insert(c, v).insert(ps.last().0, ps.last().1)
            =~= map_of(ps.drop_last()).insert(ps.last().0, ps.last().1).insert(c, v));
    }
}

/// Folding a distinct entry list into a state is joining with its map.
pub proof fn lemma_fold_merge_joined<V>(m: Map<Seq<int>, Option<V>>, ps: Seq<CodedEntry<V>>)
    requires
        distinct_codes(ps),
    ensures
        fold_merge(m, ps) == joined(m, map_of(ps)),
    decreases ps.len(),
{
    if ps.len() == 0 {
        assert(joined(m, map_of(ps)) =~= m);
    } else {
        let c0 = ps[0].0;
        let v0 = ps[0].1;
        let rest = ps.drop_first();
        assert(forall|i: int| 0 <= i < rest.len() ==> rest[i] == ps[i + 1]);
        assert(distinct_codes(rest));
        assert(forall|i: int| 0 <= i < rest.len() ==> rest[i].0 != c0);
        lemma_fold_merge_joined(merge_one(m, c0, v0), rest);
        lemma_map_of_insert(rest, 0, c0, v0);
        assert(rest.insert(0, (c0, v0)) =~= ps);
        lemma_map_of_dom(rest, c0);
        assert(!map_of(rest).dom().contains(c0));
        assert(joined(merge_one(m, c0, v0), map_of(rest)) =~= joined(
            m,
            map_of(rest).insert(c0, v0),
        ));
    }
}

/// A replicated ordered sequence: a replica id and the sorted list of
/// keyed entries, tombstones included.
pub struct LSeq<K, V> {
    pub peer: PeerId,
    pub entries: Vec<(K, Option<V>)>,
}

impl<K: FractionalIndex, V> LSeq<K, V> {
    /// The entries as (code, value) pairs, in storage order.
    pub open spec fn pairs(self) -> Seq<CodedEntry<V>> {
        coded(self.entries@)
    }

    /// Entries are strictly sorted by key code.
    pub open spec fn inv(self) -> bool {
        forall|i: int, j: int|
            0 <= i < j < self.pairs().len() ==> lex_lt(
                #[trigger] self.pairs()[i].0,
                #[trigger] self.pairs()[j].0,
            )
    }

    /// The state as a map from key code to stored optional value.
    pub open spec fn to_map(self) -> Map<Seq<int>, Option<V>> {
        map_of(self.pairs())
    }

    /// The visible sequence: live values in key order.
    pub open spec fn render_seq(self) -> Seq<V> {
        live_values(self.pairs())
    }

    /// The code of the entry just before raw position `index`, if any.
    pub open spec fn left_code_at(self, index: int) -> Option<Seq<int>> {
        if 1 <= index && index - 1 < self.pairs().len() {
            Some(self.pairs()[index - 1].0)
        } else {
            None
        }
    }

    /// The code of the entry at raw position `index`, if any.
    pub open spec fn right_code_at(self, index: int) -> Option<Seq<int>> {
        if 0 <= index < self.pairs().len() {
            Some(self.pairs()[index].0)
        } else {
            None
        }
    }

    /// Sorted entries never repeat a code.
    pub proof fn lemma_inv_distinct(self)
        requires
            self.inv(),
        ensures
            distinct_codes(self.pairs()),
    {
        assert forall|i: int, j: int|
            0 <= i < j < self.pairs().len() implies self.pairs()[i].0 != self.pairs()[j].0 by {
            lemma_lex_irrefl(self.pairs()[i].0);
        }
    }

    /// An empty container bound to `peer` for its whole life.
    pub fn new(peer: PeerId) -> (r: Self)
        ensures
            r.peer == peer,
            r.inv(),
            r.pairs() == Seq::<CodedEntry<V>>::empty(),
            r.to_map() == Map::<Seq<int>, Option<V>>::empty(),
            r.render_seq() == Seq::<V>::empty(),
    {
        let r = LSeq { peer, entries: Vec::new() };
        proof {
            assert(r.pairs() =~= Seq::<CodedEntry<V>>::empty());
        }
        r
    }

    /// Store `val` under `key`, replacing the stored value if the code
    /// is already present (map insertion).
    fn put(&mut self, key: K, val: Option<V>)
        requires
            old(self).inv(),
        ensures
            final(self).inv(),
            final(self).peer == old(self).peer,
            final(self).to_map() == old(self).to_map().insert(key.code(), val),
    {
        let ghost c = key.code();
        let ghost ps0 = self.pairs();
        let mut j: usize = 0;
        while j < self.entries.len() && self.entries[j].0.key_lt(&key)
            invariant
                j <= self.entries.len(),
                forall|i: int| 0 <= i < j ==> lex_lt(#[trigger] self.pairs()[i].0, c),
                c == key.code(),
                self.pairs() == ps0,
                old(self) == self,
            decreases self.entries.len() - j,
        {
            j = j + 1;
        }
        proof {
            self.lemma_inv_distinct();
        }
        if j < self.entries.len() && self.entries[j].0.key_eq(&key) {
            let (k0, _) = self.entries.remove(j);
            self.entries.insert(j, (k0, val));
            proof {
                assert(self.pairs() =~= ps0.update(j as int, (c, val)));
                lemma_map_of_update(ps0, j as int, c, val);
                assert forall|x: int, y: int|
                    0 <= x < y < self.pairs().len() implies lex_lt(
                    #[trigger] self.pairs()[x].0,
                    #[trigger] self.pairs()[y].0,
                ) by {
                    assert(self.pairs()[x].0 == ps0[x].0 && self.pairs()[y].0 == ps0[y].0);
                }
            }
        } else {
            proof {
                if j < self.entries.len() {
                    lemma_lex_total(c, ps0[j as int].0);
                }
                assert forall|i: int| j <= i < ps0.len() implies lex_lt(
                    c,
                    #[trigger] ps0[i].0,
                ) by {
                    if j < i {
                        lemma_lex_trans(c, ps0[j as int].0, ps0[i].0);
                    }
                }
                assert forall|i: int| 0 <= i < ps0.len() implies ps0[i].0 != c by {
                    lemma_lex_irrefl(ps0[i].0);
                }
                lemma_map_of_insert(ps0, j as int, c, val);
            }
            self.entries.insert(j, (key, val));
            proof {
                assert(self.pairs() =~= ps0.insert(j as int, (c, val)));
                assert forall|x: int, y: int|
                    0 <= x < y < self.pairs().len() implies lex_lt(
                    #[trigger] self.pairs()[x].0,
                    #[trigger] self.pairs()[y].0,
                ) by {
                    let px = self.pairs()[x].0;
                    let py = self.pairs()[y].0;
                    if x == j {
                        assert(py == ps0[y - 1].0);
                    } else if y == j {
                        assert(px == ps0[x].0);
                    } else if x < j && y > j {
                        assert(px == ps0[x].0 && py == ps0[y - 1].0);
                    } else if y < j {
                        assert(px == ps0[x].0 && py == ps0[y].0);
                    } else {
                        assert(px == ps0[x - 1].0 && py == ps0[y - 1].0);
                    }
                }
            }
        }
    }

    /// Insert `value` at raw position `index`.  The new key is minted
    /// between the entries around `index`; past-the-end positions fall
    /// back to unbounded generation, as documented.
    pub fn insert(&mut self, index: usize, value: V)
        requires
            old(self).inv(),
        ensures
            final(self).inv(),
            final(self).peer == old(self).peer,
            final(self).to_map() == old(self).to_map().insert(
                K::gen_code(
                    old(self).peer,
                    old(self).left_code_at(index as int),
                    old(self).right_code_at(index as int),
                ),
                Some(value),
            ),
    {
        let left: Option<&K> = if index > 0 && index - 1 < self.entries.len() {
            Some(&self.entries[index - 1].0)
        } else {
            None
        };
        let right: Option<&K> = if index < self.entries.len() {
            Some(&self.entries[index].0)
        } else {
            None
        };
        let key = K::new(self.peer, left, right);
        self.put(key, Some(value));
    }

    /// Insert a run of values at raw position `index`.  The first key
    /// is minted between the entries around `index`; each further key
    /// uses the key just minted as its left bound, against the same
    /// right bound, so the run stays contiguous.
    pub fn insert_range(&mut self, index: usize, values: Vec<V>)
        requires
            old(self).inv(),
        ensures
            final(self).inv(),
            final(self).peer == old(self).peer,
            final(self).to_map() == batch_insert::<K, V>(
                old(self).to_map(),
                old(self).peer,
                old(self).left_code_at(index as int),
                old(self).right_code_at(index as int),
                values@,
            ),
    {
        let mut left: Option<K> = if index > 0 && index - 1 < self.entries.len() {
            Some(self.entries[index - 1].0.clone_key())
        } else {
            None
        };
        let right: Option<K> = if index < self.entries.len() {
            Some(self.entries[index].0.clone_key())
        } else {
            None
        };
        let ghost lc0 = old(self).left_code_at(index as int);
        let ghost rc0 = old(self).right_code_at(index as int);
        let ghost m0 = self.to_map();
        let mut vs = values;
        while vs.len() > 0
            invariant
                self.inv(),
                self.peer == old(self).peer,
                opt_code(right) == rc0,
                batch_insert::<K, V>(m0, old(self).peer, lc0, rc0, values@) == batch_insert::<
                    K,
                    V,
                >(self.to_map(), old(self).peer, opt_code(left), rc0, vs@),
            decreases vs.len(),
        {
            let ghost vsg = vs@;
            let v = vs.remove(0);
            let key = K::new(self.peer, left.as_ref(), right.as_ref());
            let next_left = key.clone_key();
            let ghost c = key.code();
            proof {
                assert(c == K::gen_code(old(self).peer, opt_code(left), rc0));
                assert(vs@ =~= vsg.drop_first());
            }
            self.put(key, Some(v));
            left = Some(next_left);
        }
        proof {
            assert(vs@ =~= Seq::<V>::empty());
        }
    }

    /// Remove the entry at raw position `index`: the slot is kept and
    /// tombstoned, and the value that was there is returned.
    pub fn remove(&mut self, index: usize) -> (r: Option<V>)
        requires
            old(self).inv(),
        ensures
            final(self).inv(),
            final(self).peer == old(self).peer,
            index < old(self).pairs().len() ==> {
                &&& r == old(self).pairs()[index as int].1
                &&& final(self).pairs() == old(self).pairs().update(
                    index as int,
                    (old(self).pairs()[index as int].0, None::<V>),
                )
                &&& final(self).to_map() == old(self).to_map().insert(
                    old(self).pairs()[index as int].0,
                    None,
                )
            },
            index >= old(self).pairs().len() ==> r is None && *final(self) == *old(self),
    {
        if index < self.entries.len() {
            let ghost ps0 = self.pairs();
            let (k, v) = self.entries.remove(index);
            let ghost c = k.code();
            self.entries.insert(index, (k, None));
            proof {
                old(self).lemma_inv_distinct();
                assert(self.pairs() =~= ps0.update(index as int, (c, None)));
                lemma_map_of_update(ps0, index as int, c, None);
                assert forall|x: int, y: int|
                    0 <= x < y < self.pairs().len() implies lex_lt(
                    #[trigger] self.pairs()[x].0,
                    #[trigger] self.pairs()[y].0,
                ) by {
                    assert(self.pairs()[x].0 == ps0[x].0 && self.pairs()[y].0 == ps0[y].0);
                }
            }
            v
        } else {
            None
        }
    }

    /// Fold one incoming entry into this state (the merge rule for a
    /// single key).
    fn absorb(&mut self, key: K, val: Option<V>)
        requires
            old(self).inv(),
        ensures
            final(self).inv(),
            final(self).peer == old(self).peer,
            final(self).to_map() == merge_one(old(self).to_map(), key.code(), val),
    {
        let ghost c = key.code();
        let ghost ps0 = self.pairs();
        let mut j: usize = 0;
        while j < self.entries.len() && self.entries[j].0.key_lt(&key)
            invariant
                j <= self.entries.len(),
                forall|i: int| 0 <= i < j ==> lex_lt(#[trigger] self.pairs()[i].0, c),
                c == key.code(),
                self.pairs() == ps0,
                old(self) == self,
            decreases self.entries.len() - j,
        {
            j = j + 1;
        }
        proof {
            self.lemma_inv_distinct();
            lemma_map_of_dom(ps0, c);
        }
        if j < self.entries.len() && self.entries[j].0.key_eq(&key) {
            proof {
                lemma_map_of_index(ps0, j as int);
            }
            if val.is_none() {
                let (k0, _) = self.entries.remove(j);
                self.entries.insert(j, (k0, None));
                proof {
                    assert(self.pairs() =~= ps0.update(j as int, (c, None::<V>)));
                    lemma_map_of_update(ps0, j as int, c, None);
                    assert forall|x: int, y: int|
                        0 <= x < y < self.pairs().len() implies lex_lt(
                        #[trigger] self.pairs()[x].0,
                        #[trigger] self.pairs()[y].0,
                    ) by {
                        assert(self.pairs()[x].0 == ps0[x].0 && self.pairs()[y].0 == ps0[y].0);
                    }
                }
            } else {
                proof {
                    assert(self.to_map() =~= merge_one(old(self).to_map(), c, val));
                }
            }
        } else {
            proof {
                if j < self.entries.len() {
                    lemma_lex_total(c, ps0[j as int].0);
                }
                assert forall|i: int| j <= i < ps0.len() implies lex_lt(
                    c,
                    #[trigger] ps0[i].0,
                ) by {
                    if j < i {
                        lemma_lex_trans(c, ps0[j as int].0, ps0[i].0);
                    }
                }
                assert forall|i: int| 0 <= i < ps0.len() implies ps0[i].0 != c by {
                    lemma_lex_irrefl(ps0[i].0);
                }
                lemma_map_of_insert(ps0, j as int, c, val);
            }
            self.entries.insert(j, (key, val));
            proof {
                assert(self.pairs() =~= ps0.insert(j as int, (c, val)));
                assert forall|x: int, y: int|
                    0 <= x < y < self.pairs().len() implies lex_lt(
                    #[trigger] self.pairs()[x].0,
                    #[trigger] self.pairs()[y].0,
                ) by {
                    let px = self.pairs()[x].0;
                    let py = self.pairs()[y].0;
                    if x == j {
                        assert(py == ps0[y - 1].0);
                    } else if y == j {
                        assert(px == ps0[x].0);
                    } else if x < j && y > j {
                        assert(px == ps0[x].0 && py == ps0[y - 1].0);
                    } else if y < j {
                        assert(px == ps0[x].0 && py == ps0[y].0);
                    } else {
                        assert(px == ps0[x - 1].0 && py == ps0[y - 1].0);
                    }
                }
            }
        }
    }

    /// Merge another replica's state into this one, entry by entry:
    /// unknown keys are adopted, incoming tombstones win, and incoming
    /// values for known keys are ignored.  The result is the join of
    /// the two states.
    pub fn merge(&mut self, other: Self)
        requires
            old(self).inv(),
            other.inv(),
        ensures
            final(self).inv(),
            final(self).peer == old(self).peer,
            final(self).to_map() == joined(old(self).to_map(), other.to_map()),
    {
        let ghost m0 = self.to_map();
        let ghost qs0 = other.pairs();
        let LSeq { peer: _, entries: mut rest } = other;
        while rest.len() > 0
            invariant
                self.inv(),
                self.peer == old(self).peer,
                fold_merge(m0, qs0) == fold_merge(self.to_map(), coded(rest@)),
            decreases rest.len(),
        {
            let ghost qs = coded(rest@);
            let (k, v) = rest.remove(0);
            self.absorb(k, v);
            proof {
                assert(coded(rest@) =~= qs.drop_first());
            }
        }
        proof {
            assert(coded(rest@) =~= Seq::<CodedEntry<V>>::empty());
            other.lemma_inv_distinct();
            lemma_fold_merge_joined(m0, qs0);
        }
    }
}

impl<K: FractionalIndex, V: Copy> LSeq<K, V> {
    /// The live (non-tombstoned) values, in key order.
    pub fn iter(&self) -> (r: Vec<V>)
        ensures
            r@ == self.render_seq(),
    {
        let mut r: Vec<V> = Vec::new();
        let mut i: usize = 0;
        while i < self.entries.len()
            invariant
                i <= self.entries.len(),
                r@ == live_values(self.pairs().take(i as int)),
            decreases self.entries.len() - i,
        {
            let ghost t = self.pairs().take(i as int);
            match self.entries[i].1 {
                Some(v) => {
                    r.push(v);
                },
                None => {},
            }
            proof {
                assert(self.pairs().take(i + 1).drop_last() =~= t);
                assert(self.pairs().take(i + 1).last() == self.pairs()[i as int]);
                match self.pairs()[i as int].1 {
                    Some(v) => {
                        assert(r@ =~= live_values(t) + seq![v]);
                    },
                    None => {
                        assert(r@ =~= live_values(t) + Seq::<V>::empty());
                    },
                }
            }
            i = i + 1;
        }
        proof {
            assert(self.pairs().take(self.entries@.len() as int) =~= self.pairs());
        }
        r
    }
}

impl<K: FractionalIndex> LSeq<K, char> {
    /// The visible text: live characters concatenated in key order.
    pub fn render_string(&self) -> (s: String)
        ensures
            s@ == self.render_seq(),
    {
        let mut s = String::new();
        let mut i: usize = 0;
        while i < self.entries.len()
            invariant
                i <= self.entries.len(),
                s@ == live_values(self.pairs().take(i as int)),
            decreases self.entries.len() - i,
        {
            let ghost t = self.pairs().take(i as int);
            match self.entries[i].1 {
                Some(c) => {
                    s.push(c);
                },
                None => {},
            }
            proof {
                assert(self.pairs().take(i + 1).drop_last() =~= t);
                assert(self.pairs().take(i + 1).last() == self.pairs()[i as int]);
                match self.pairs()[i as int].1 {
                    Some(c) => {
                        assert(s@ =~= live_values(t) + seq![c]);
                    },
                    None => {
                        assert(s@ =~= live_values(t) + Seq::<char>::empty());
                    },
                }
            }
            i = i + 1;
        }
        proof {
            assert(self.pairs().take(self.entries@.len() as int) =~= self.pairs());
        }
        s
    }
}

impl<K: FractionalIndex, V: Copy> Clone for LSeq<K, V> {
    /// A deep copy denoting the same state.
    fn clone(&self) -> (r: Self)
        ensures
            r.peer == self.peer,
            r.pairs() == self.pairs(),
    {
        let mut out: Vec<(K, Option<V>)> = Vec::new();
        let mut i: usize = 0;
        while i < self.entries.len()
            invariant
                i <= self.entries.len(),
                out@.len() == i,
                forall|j: int|
                    0 <= j < i ==> (#[trigger] out@[j]).0.code() == self.pairs()[j].0 && out@[j].1
                        == self.pairs()[j].1,
            decreases self.entries.len() - i,
        {
            let k = self.entries[i].0.clone_key();
            let v = self.entries[i].1;
            out.push((k, v));
            i = i + 1;
        }
        let r = LSeq { peer: self.peer, entries: out };
        proof {
            assert(r.pairs() =~= self.pairs());
        }
        r
    }
}

} // verus!
