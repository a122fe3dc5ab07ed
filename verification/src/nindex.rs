//! The non-interleaving segment-path index.
//!
//! A key is a sequence of segments, each an owning replica id and a
//! counter.  Keys order lexicographically over the segments, a segment
//! comparing by owner first and counter second; the code of a key packs
//! each segment into one integer, so that order is the plain
//! lexicographic order on codes.
//!
//! Generation walks the two neighbour paths.  At each depth it tries to
//! extend the left segment's counter by one; it claims that candidate
//! only when the right bound still exceeds it and, while both paths are
//! live, only when the candidate is owned by the requesting replica —
//! otherwise it copies the left segment and goes one level deeper.  An
//! absent left bound is a single segment owned by the requester with
//! counter zero; an absent right bound is a single maximum sentinel
//! segment.  A replica extending its own previous insertion therefore
//! grows a counter instead of the depth, which keeps its runs
//! contiguous under merge.

use vstd::prelude::*;
use crate::index::{FractionalIndex, PeerId};
use crate::order::{lex_lt, lemma_lex_from_diff, lemma_lex_from_prefix, lemma_lex_asym,
    lemma_lex_irrefl, lemma_lex_characterize, lemma_first_diff};
use crate::render::{dec_digits, push_decimal};

verus! {

/// One step of a segment path: an owning replica and its counter.
#[derive(Clone, Copy, PartialEq, Eq, Structural)]
pub struct Segment {
    pub peer: PeerId,
    pub seq_no: u32,
}

impl Segment {
    /// A segment with the given owner and counter.
    pub fn new(peer: PeerId, seq_no: u32) -> (r: Self)
        ensures
            r.peer == peer,
            r.seq_no == seq_no,
    {
        Self { peer, seq_no }
    }

    /// The maximum sentinel segment.
    pub fn max() -> (r: Self)
        ensures
            r == max_segment(),
    {
        Self { peer: u32::MAX, seq_no: u32::MAX }
    }
}

/// The greatest segment in the segment order.
pub open spec fn max_segment() -> Segment {
    Segment { peer: u32::MAX, seq_no: u32::MAX }
}

/// Strict segment order: owner first, counter second.
pub open spec fn seg_lt(a: Segment, b: Segment) -> bool {
    a.peer < b.peer || (a.peer == b.peer && a.seq_no < b.seq_no)
}

/// The integer a segment contributes to its key's code.
pub open spec fn seg_val(s: Segment) -> int {
    s.peer * 0x1_0000_0000 + s.seq_no
}

/// Packing a segment into one integer respects the segment order.
pub proof fn lemma_seg_val_order(a: Segment, b: Segment)
    ensures
        seg_lt(a, b) <==> seg_val(a) < seg_val(b),
        (seg_val(a) == seg_val(b)) <==> a == b,
{
}

/// The counter one above `c`, capped at the counter limit.
pub open spec fn sat_succ(c: u32) -> u32 {
    if c < u32::MAX {
        (c + 1) as u32
    } else {
        u32::MAX
    }
}

/// The segment the walk reads from the low path at depth `i` (a zero
/// counter owned by the requester once the path is exhausted).
pub open spec fn lo_seg(p: PeerId, lo: Seq<Segment>, i: int) -> Segment {
    if 0 <= i < lo.len() {
        lo[i]
    } else {
        Segment { peer: p, seq_no: 0 }
    }
}

/// The segment the walk reads from the high path at depth `i` (the
/// maximum sentinel once the path is exhausted).
pub open spec fn hi_seg(hi: Seq<Segment>, i: int) -> Segment {
    if 0 <= i < hi.len() {
        hi[i]
    } else {
        max_segment()
    }
}

/// The candidate segment the walk would claim at depth `i`: the left
/// segment's counter extended by one, owned by the left segment's owner
/// while both paths are live and by the requester afterwards.
pub open spec fn cand(p: PeerId, lo: Seq<Segment>, hi: Seq<Segment>, i: int) -> Segment {
    if 0 <= i < lo.len() && i < hi.len() {
        Segment { peer: lo[i].peer, seq_no: sat_succ(lo[i].seq_no) }
    } else {
        Segment { peer: p, seq_no: sat_succ(lo_seg(p, lo, i).seq_no) }
    }
}

/// Whether the walk claims its candidate at depth `i`.
pub open spec fn claims(p: PeerId, lo: Seq<Segment>, hi: Seq<Segment>, i: int) -> bool {
    if 0 <= i < lo.len() && i < hi.len() {
        seg_lt(cand(p, lo, hi, i), hi[i]) && lo[i].peer == p
    } else {
        seg_lt(cand(p, lo, hi, i), hi_seg(hi, i))
    }
}

/// The depth at which the walk starting at `i` claims.
pub open spec fn claim_pos(p: PeerId, lo: Seq<Segment>, hi: Seq<Segment>, i: int) -> int
    decreases lo.len() + hi.len() - i,
{
    if claims(p, lo, hi, i) {
        i
    } else {
        claim_pos(p, lo, hi, i + 1)
    }
}

/// The larger of two lengths, as an `int`.
pub open spec fn max_seg_len(lo: Seq<Segment>, hi: Seq<Segment>) -> int {
    if lo.len() >= hi.len() {
        lo.len() as int
    } else {
        hi.len() as int
    }
}

/// The walk claims at the first claiming depth, and no later than the
/// depth at which both paths are exhausted.
pub proof fn lemma_claim_pos(p: PeerId, lo: Seq<Segment>, hi: Seq<Segment>, i: int)
    requires
        0 <= i,
    ensures
        i <= claim_pos(p, lo, hi, i),
        claims(p, lo, hi, claim_pos(p, lo, hi, i)),
        forall|j: int| i <= j < claim_pos(p, lo, hi, i) ==> !claims(p, lo, hi, j),
        claim_pos(p, lo, hi, i) <= if i >= max_seg_len(lo, hi) {
            i
        } else {
            max_seg_len(lo, hi)
        },
    decreases lo.len() + hi.len() - i,
{
    if claims(p, lo, hi, i) {
    } else {
        lemma_claim_pos(p, lo, hi, i + 1);
    }
}

/// The segment path generated by `p` between the paths `lo` and `hi`.
pub open spec fn gen_segs(p: PeerId, lo: Seq<Segment>, hi: Seq<Segment>) -> Seq<Segment> {
    let k = claim_pos(p, lo, hi, 0);
    Seq::new((k + 1) as nat, |j: int| if j < k {
        lo_seg(p, lo, j)
    } else {
        cand(p, lo, hi, k)
    })
}

/// The code of a segment path: one packed integer per segment.
pub open spec fn segs_code(segs: Seq<Segment>) -> Seq<int> {
    segs.map(|j: int, s: Segment| seg_val(s))
}

/// The segment path a code was built from.
pub open spec fn decode_segs(c: Seq<int>) -> Seq<Segment> {
    c.map(
        |j: int, e: int| Segment { peer: (e / 0x1_0000_0000) as u32, seq_no: (e % 0x1_0000_0000) as u32 },
    )
}

/// Decoding inverts encoding.
pub proof fn lemma_decode_segs(segs: Seq<Segment>)
    ensures
        decode_segs(segs_code(segs)) == segs,
{
    assert forall|j: int| 0 <= j < segs.len() implies decode_segs(segs_code(segs))[j]
        == segs[j] by {
        let s = segs[j];
        assert(seg_val(s) / 0x1_0000_0000 == s.peer && seg_val(s) % 0x1_0000_0000 == s.seq_no)
            by (nonlinear_arith)
            requires
                0 <= s.peer <= u32::MAX,
                0 <= s.seq_no <= u32::MAX,
                seg_val(s) == s.peer * 0x1_0000_0000 + s.seq_no,
        ;
    }
    assert(decode_segs(segs_code(segs)) =~= segs);
}

/// The default low path used by `p` for an absent left bound.
pub open spec fn default_lo_segs(p: PeerId) -> Seq<Segment> {
    seq![Segment { peer: p, seq_no: 0 }]
}

/// The default high path used for an absent right bound.
pub open spec fn default_hi_segs() -> Seq<Segment> {
    seq![max_segment()]
}

/// A segment-path fractional index.
pub struct NonInterleavingIndex(pub Vec<Segment>);

impl FractionalIndex for NonInterleavingIndex {
    open spec fn code(self) -> Seq<int> {
        segs_code(self.0@)
    }

    open spec fn gen_code(peer_id: PeerId, left: Option<Seq<int>>, right: Option<Seq<int>>) -> Seq<
        int,
    > {
        let lo = match left {
            Some(c) => decode_segs(c),
            None => default_lo_segs(peer_id),
        };
        let hi = match right {
            Some(c) => decode_segs(c),
            None => default_hi_segs(),
        };
        segs_code(gen_segs(peer_id, lo, hi))
    }

    fn new(peer_id: PeerId, left: Option<&Self>, right: Option<&Self>) -> (r: Self)
        ensures
            r.0@ == gen_segs(
                peer_id,
                match left {
                    Some(l) => l.0@,
                    None => default_lo_segs(peer_id),
                },
                match right {
                    Some(h) => h.0@,
                    None => default_hi_segs(),
                },
            ),
    {
        let default_lo: Vec<Segment> = vec![Segment { peer: peer_id, seq_no: 0 }];
        let default_hi: Vec<Segment> = vec![Segment { peer: u32::MAX, seq_no: u32::MAX }];
        let lo_s: &Vec<Segment> = match left {
            Some(l) => &l.0,
            None => &default_lo,
        };
        let hi_s: &Vec<Segment> = match right {
            Some(h) => &h.0,
            None => &default_hi,
        };
        let ghost glo = lo_s@;
        let ghost ghi = hi_s@;
        let ghost k = claim_pos(peer_id, glo, ghi, 0);
        proof {
            lemma_claim_pos(peer_id, glo, ghi, 0);
            match left {
                Some(l) => lemma_decode_segs(l.0@),
                None => (),
            }
            match right {
                Some(h) => lemma_decode_segs(h.0@),
                None => (),
            }
        }
        let mut out: Vec<Segment> = Vec::new();
        let mut i: usize = 0;
        loop
            invariant_except_break
                i <= k,
                k == claim_pos(peer_id, glo, ghi, 0),
                claims(peer_id, glo, ghi, k),
                forall|j: int| 0 <= j < k ==> !claims(peer_id, glo, ghi, j),
                k <= max_seg_len(glo, ghi),
                out@.len() == i,
                forall|j: int| 0 <= j < i ==> out@[j] == lo_seg(peer_id, glo, j),
                glo == lo_s@,
                ghi == hi_s@,
            ensures
                out@ == gen_segs(peer_id, glo, ghi),
            decreases k - i,
        {
            let in_both = i < lo_s.len() && i < hi_s.len();
            let l: Segment = if i < lo_s.len() {
                lo_s[i]
            } else {
                Segment { peer: peer_id, seq_no: 0 }
            };
            let r: Segment = if i < hi_s.len() {
                hi_s[i]
            } else {
                Segment { peer: u32::MAX, seq_no: u32::MAX }
            };
            let nc: u32 = if l.seq_no < u32::MAX {
                l.seq_no + 1
            } else {
                u32::MAX
            };
            let n: Segment = if in_both {
                Segment { peer: l.peer, seq_no: nc }
            } else {
                Segment { peer: peer_id, seq_no: nc }
            };
            proof {
                assert(l == lo_seg(peer_id, glo, i as int));
                assert(r == hi_seg(ghi, i as int));
                assert(n == cand(peer_id, glo, ghi, i as int));
            }
            let room = n.peer < r.peer || (n.peer == r.peer && n.seq_no < r.seq_no);
            let claim = room && (!in_both || l.peer == peer_id);
            proof {
                assert(claim == claims(peer_id, glo, ghi, i as int));
            }
            if claim {
                proof {
                    assert((i as int) == k);
                }
                out.push(n);
                proof {
                    assert(out@ =~= gen_segs(peer_id, glo, ghi));
                }
                break;
            } else {
                proof {
                    assert((i as int) < k);
                }
                out.push(l);
                i = i + 1;
            }
        }
        proof {
            assert(out@ == gen_segs(peer_id, glo, ghi));
            assert(glo == match left {
                Some(l) => l.0@,
                None => default_lo_segs(peer_id),
            });
            assert(ghi == match right {
                Some(h) => h.0@,
                None => default_hi_segs(),
            });
        }
        Self(out)
    }

    fn key_lt(&self, other: &Self) -> (r: bool)
        ensures
            r == lex_lt(self.code(), other.code()),
    {
        let a = &self.0;
        let b = &other.0;
        let ghost ca = self.code();
        let ghost cb = other.code();
        let mut i: usize = 0;
        while i < a.len() && i < b.len() && a[i].peer == b[i].peer && a[i].seq_no == b[i].seq_no
            invariant
                i <= a.len(),
                i <= b.len(),
                forall|j: int| 0 <= j < i ==> a@[j] == b@[j],
            decreases a.len() - i,
        {
            i = i + 1;
        }
        proof {
            assert(forall|j: int| 0 <= j < i ==> ca[j] == cb[j]);
        }
        if i < a.len() && i < b.len() {
            let sa = a[i];
            let sb = b[i];
            proof {
                lemma_seg_val_order(a@[i as int], b@[i as int]);
            }
            if sa.peer < sb.peer || (sa.peer == sb.peer && sa.seq_no < sb.seq_no) {
                proof {
                    lemma_lex_from_diff(ca, cb, i as int);
                }
                true
            } else {
                proof {
                    assert(seg_lt(b@[i as int], a@[i as int]));
                    lemma_lex_from_diff(cb, ca, i as int);
                    lemma_lex_asym(ca, cb);
                }
                false
            }
        } else if a.len() < b.len() {
            proof {
                lemma_lex_from_prefix(ca, cb);
            }
            true
        } else if b.len() < a.len() {
            proof {
                lemma_lex_from_prefix(cb, ca);
                lemma_lex_asym(ca, cb);
            }
            false
        } else {
            proof {
                assert(ca =~= cb);
                lemma_lex_irrefl(ca);
            }
            false
        }
    }

    fn key_eq(&self, other: &Self) -> (r: bool)
        ensures
            r == (self.code() == other.code()),
    {
        let a = &self.0;
        let b = &other.0;
        if a.len() != b.len() {
            proof {
                assert(self.code().len() != other.code().len());
            }
            return false;
        }
        let mut i: usize = 0;
        while i < a.len()
            invariant
                a@ == self.0@,
                b@ == other.0@,
                a.len() == b.len(),
                i <= a.len(),
                forall|j: int| 0 <= j < i ==> a@[j] == b@[j],
            decreases a.len() - i,
        {
            if a[i].peer != b[i].peer || a[i].seq_no != b[i].seq_no {
                proof {
                    lemma_seg_val_order(self.0@[i as int], other.0@[i as int]);
                    assert(self.code()[i as int] != other.code()[i as int]);
                }
                return false;
            }
            i = i + 1;
        }
        proof {
            assert(a@ =~= b@);
            assert(self.code() =~= other.code());
        }
        true
    }

    fn clone_key(&self) -> (r: Self)
        ensures
            r.code() == self.code(),
            r.0@ == self.0@,
    {
        let mut s: Vec<Segment> = Vec::new();
        let mut i: usize = 0;
        while i < self.0.len()
            invariant
                i <= self.0.len(),
                s@ == self.0@.subrange(0, i as int),
            decreases self.0.len() - i,
        {
            s.push(self.0[i]);
            i = i + 1;
        }
        proof {
            assert(s@ =~= self.0@);
        }
        Self(s)
    }
}

/// Pointwise reading of a segment-path code.
pub proof fn lemma_segs_code(s: Seq<Segment>)
    ensures
        segs_code(s).len() == s.len(),
        forall|j: int| 0 <= j < s.len() ==> segs_code(s)[j] == seg_val(s[j]),
{
}

/// Strict order on segment paths: lexicographic on codes.
pub open spec fn segs_lt(a: Seq<Segment>, b: Seq<Segment>) -> bool {
    lex_lt(segs_code(a), segs_code(b))
}

/// Shape of a segment path usable as a right bound: nonempty, with a
/// final counter of at least one.
pub open spec fn wf_segs_hi(s: Seq<Segment>) -> bool {
    s.len() >= 1 && s[s.len() - 1].seq_no >= 1
}

/// No counter in the path has reached the counter limit.
pub open spec fn counters_live(s: Seq<Segment>) -> bool {
    forall|j: int| 0 <= j < s.len() ==> (#[trigger] s[j]).seq_no < u32::MAX
}

/// The generated segment path lies strictly between its bounds.
///
/// Beyond the ordering of the bounds themselves this asks for two side
/// conditions on the depths where one bound outlives the other: where
/// the low path outlives the high one its segments are owned by the
/// requester or by smaller replica ids, and where the high path
/// outlives the low one its segments are owned by the requester or by
/// larger replica ids.  Without them the walk can claim a candidate
/// below the left bound, or copy a default above the right bound, and
/// the result leaves the gap.
pub proof fn lemma_gen_segs_between(p: PeerId, lo: Seq<Segment>, hi: Seq<Segment>)
    requires
        lo.len() >= 1,
        counters_live(lo),
        wf_segs_hi(hi),
        segs_lt(lo, hi),
        forall|j: int| hi.len() <= j < lo.len() ==> (#[trigger] lo[j]).peer <= p,
        forall|j: int| lo.len() <= j < hi.len() ==> (#[trigger] hi[j]).peer >= p,
    ensures
        segs_lt(lo, gen_segs(p, lo, hi)),
        segs_lt(gen_segs(p, lo, hi), hi),
        wf_segs_hi(gen_segs(p, lo, hi)),
{
    let k = claim_pos(p, lo, hi, 0);
    lemma_claim_pos(p, lo, hi, 0);
    let g = gen_segs(p, lo, hi);
    lemma_segs_code(lo);
    lemma_segs_code(hi);
    lemma_segs_code(g);
    assert(g.len() == k + 1);
    assert(forall|j: int| 0 <= j < k ==> g[j] == lo_seg(p, lo, j));
    assert(g[k as int] == cand(p, lo, hi, k));
    assert(claims(p, lo, hi, k));

    // well-formed as a future right bound
    assert(g[g.len() - 1].seq_no >= 1);

    // strictly above the low path
    if k < lo.len() {
        assert(forall|j: int| 0 <= j < k ==> g[j] == lo[j]);
        let c = cand(p, lo, hi, k);
        assert(lo[k as int].seq_no < u32::MAX);
        if k < hi.len() {
            assert(c == Segment { peer: lo[k as int].peer, seq_no: sat_succ(lo[k as int].seq_no) });
            assert(seg_lt(lo[k as int], c));
        } else {
            assert(c == Segment { peer: p, seq_no: sat_succ(lo[k as int].seq_no) });
            assert(lo[k as int].peer <= p);
            assert(seg_lt(lo[k as int], c));
        }
        lemma_seg_val_order(lo[k as int], c);
        lemma_lex_from_diff(segs_code(lo), segs_code(g), k);
    } else {
        assert(forall|j: int| 0 <= j < lo.len() ==> g[j] == lo[j]);
        lemma_lex_from_prefix(segs_code(lo), segs_code(g));
    }

    // strictly below the high path
    let m = if k + 1 <= hi.len() {
        k + 1
    } else {
        hi.len() as int
    };
    if exists|j: int| 0 <= j < m && segs_code(g)[j] != segs_code(hi)[j] {
        lemma_first_diff(segs_code(g), segs_code(hi), m);
        let j0 = choose|j0: int|
            0 <= j0 < m && segs_code(g)[j0] != segs_code(hi)[j0] && (forall|x: int|
                0 <= x < j0 ==> segs_code(g)[x] == segs_code(hi)[x]);
        if j0 == k {
            assert(hi_seg(hi, k) == hi[k as int]);
            assert(seg_lt(g[k as int], hi[k as int]));
            lemma_seg_val_order(g[k as int], hi[k as int]);
            lemma_lex_from_diff(segs_code(g), segs_code(hi), j0);
        } else {
            assert(j0 < k);
            if j0 < lo.len() {
                assert(g[j0] == lo[j0]);
                assert(forall|x: int| 0 <= x < j0 ==> segs_code(lo)[x] == segs_code(hi)[x]) by {
                    assert(forall|x: int|
                        0 <= x < j0 ==> g[x] == lo_seg(p, lo, x) && x < lo.len());
                }
                lemma_lex_characterize(segs_code(lo), segs_code(hi));
                if segs_code(lo).len() < segs_code(hi).len() && (forall|x: int|
                    0 <= x < segs_code(lo).len() ==> segs_code(lo)[x] == segs_code(hi)[x]) {
                    assert(segs_code(lo)[j0] == segs_code(hi)[j0]);
                    assert(false);
                } else {
                    let i = choose|i: int|
                        0 <= i < segs_code(lo).len() && i < segs_code(hi).len() && segs_code(
                            lo,
                        )[i] < segs_code(hi)[i] && (forall|x: int|
                            0 <= x < i ==> segs_code(lo)[x] == segs_code(hi)[x]);
                    if i < j0 {
                        assert(false);
                    } else if i > j0 {
                        assert(segs_code(lo)[j0] == segs_code(hi)[j0]);
                        assert(false);
                    }
                    assert(segs_code(g)[j0] < segs_code(hi)[j0]);
                }
                lemma_lex_from_diff(segs_code(g), segs_code(hi), j0);
            } else {
                assert(g[j0] == Segment { peer: p, seq_no: 0 });
                assert(hi[j0].peer >= p);
                lemma_seg_val_order(g[j0], hi[j0]);
                assert(seg_lt(g[j0], hi[j0]));
                lemma_lex_from_diff(segs_code(g), segs_code(hi), j0);
            }
        }
    } else {
        if k + 1 <= hi.len() {
            assert(segs_code(g)[k] == segs_code(hi)[k]);
            lemma_seg_val_order(g[k as int], hi[k as int]);
            assert(g[k as int] == hi[k as int]);
            assert(hi_seg(hi, k) == hi[k as int]);
            assert(seg_lt(g[k as int], hi[k as int]));
            assert(false);
        } else {
            assert(m == hi.len());
            assert(forall|j: int| 0 <= j < hi.len() ==> segs_code(g)[j] == segs_code(hi)[j]);
            if hi.len() <= lo.len() {
                assert(forall|j: int| 0 <= j < hi.len() ==> segs_code(hi)[j] == segs_code(lo)[j])
                    by {
                    assert(forall|j: int|
                        0 <= j < hi.len() ==> g[j] == lo_seg(p, lo, j) && j < lo.len());
                }
                lemma_lex_characterize(segs_code(lo), segs_code(hi));
                if segs_code(lo).len() < segs_code(hi).len() && (forall|x: int|
                    0 <= x < segs_code(lo).len() ==> segs_code(lo)[x] == segs_code(hi)[x]) {
                    assert(false);
                } else {
                    let i = choose|i: int|
                        0 <= i < segs_code(lo).len() && i < segs_code(hi).len() && segs_code(
                            lo,
                        )[i] < segs_code(hi)[i] && (forall|x: int|
                            0 <= x < i ==> segs_code(lo)[x] == segs_code(hi)[x]);
                    assert(segs_code(hi)[i] == segs_code(lo)[i]);
                    assert(false);
                }
            } else {
                assert(hi.len() - 1 >= lo.len());
                assert(hi.len() - 1 < k);
                assert(g[hi.len() - 1] == Segment { peer: p, seq_no: 0 });
                assert(segs_code(g)[hi.len() - 1] == segs_code(hi)[hi.len() - 1]);
                assert(seg_val(g[hi.len() - 1]) == seg_val(hi[hi.len() - 1]));
                lemma_seg_val_order(g[hi.len() - 1], hi[hi.len() - 1]);
                assert(hi[hi.len() - 1] == Segment { peer: p, seq_no: 0 });
                assert(false);
            }
        }
    }
}

/// The defaulted low path an absent or present left bound denotes.
pub open spec fn segs_lo_of(p: PeerId, left: Option<NonInterleavingIndex>) -> Seq<Segment> {
    match left {
        Some(l) => l.0@,
        None => default_lo_segs(p),
    }
}

/// The defaulted high path an absent or present right bound denotes.
pub open spec fn segs_hi_of(right: Option<NonInterleavingIndex>) -> Seq<Segment> {
    match right {
        Some(h) => h.0@,
        None => default_hi_segs(),
    }
}

/// Ordering invariant for the non-interleaving index: a key minted
/// between two neighbours lies strictly between them in the key order.
///
/// The preconditions exclude the inputs on which the walk itself leaves
/// the gap: counters at the counter limit (a machine limit), a right
/// bound whose first segment sorts below the requester's zero segment
/// when the left bound is absent, and bounds of unequal depth whose
/// tail segments are owned by replicas on the wrong side of the
/// requester (see `lemma_gen_segs_between`).
pub proof fn lemma_non_interleaving_new_between(
    p: PeerId,
    left: Option<NonInterleavingIndex>,
    right: Option<NonInterleavingIndex>,
)
    requires
        left matches Some(l) ==> l.0@.len() >= 1 && counters_live(l.0@),
        right matches Some(h) ==> wf_segs_hi(h.0@),
        left matches Some(l) && right matches Some(h) ==> segs_lt(l.0@, h.0@),
        left is None && (right matches Some(h) ==> !seg_lt(h.0@[0], Segment { peer: p, seq_no: 0 }))
            || left is Some,
        forall|j: int|
            segs_hi_of(right).len() <= j < segs_lo_of(p, left).len() ==> (#[trigger] segs_lo_of(
                p,
                left,
            )[j]).peer <= p,
        forall|j: int|
            segs_lo_of(p, left).len() <= j < segs_hi_of(right).len() ==> (#[trigger] segs_hi_of(
                right,
            )[j]).peer >= p,
    ensures
        left matches Some(l) ==> lex_lt(
            l.code(),
            segs_code(gen_segs(p, segs_lo_of(p, left), segs_hi_of(right))),
        ),
        right matches Some(h) ==> lex_lt(
            segs_code(gen_segs(p, segs_lo_of(p, left), segs_hi_of(right))),
            h.code(),
        ),
        wf_segs_hi(gen_segs(p, segs_lo_of(p, left), segs_hi_of(right))),
        segs_code(gen_segs(p, segs_lo_of(p, left), segs_hi_of(right)))
            == NonInterleavingIndex::gen_code(
            p,
            match left {
                Some(l) => Some(l.code()),
                None => None,
            },
            match right {
                Some(h) => Some(h.code()),
                None => None,
            },
        ),
{
    let lo = segs_lo_of(p, left);
    let hi = segs_hi_of(right);
    lemma_segs_code(lo);
    lemma_segs_code(hi);
    assert(counters_live(lo));
    assert(wf_segs_hi(hi));
    if left is None && right is None {
        lemma_seg_val_order(lo[0], hi[0]);
        lemma_lex_from_diff(segs_code(lo), segs_code(hi), 0);
    } else if left is None {
        let h = right->0;
        lemma_seg_val_order(Segment { peer: p, seq_no: 0 }, h.0@[0]);
        if seg_lt(Segment { peer: p, seq_no: 0 }, h.0@[0]) {
            lemma_lex_from_diff(segs_code(lo), segs_code(hi), 0);
        } else {
            assert(h.0@[0] == Segment { peer: p, seq_no: 0 });
            assert(h.0@.len() >= 2);
            lemma_lex_from_prefix(segs_code(lo), segs_code(hi));
        }
    } else if right is None {
        let l = left->0;
        assert(l.0@[0].seq_no < u32::MAX);
        assert(seg_lt(l.0@[0], max_segment()));
        lemma_seg_val_order(l.0@[0], max_segment());
        lemma_lex_from_diff(segs_code(lo), segs_code(hi), 0);
    }
    assert(segs_lt(lo, hi));
    lemma_gen_segs_between(p, lo, hi);
    match left {
        Some(l) => lemma_decode_segs(l.0@),
        None => (),
    }
    match right {
        Some(h) => lemma_decode_segs(h.0@),
        None => (),
    }
}

impl NonInterleavingIndex {
    /// The printable form of one segment: `owner:counter`, in decimal.
    pub open spec fn rendered_seg(s: Segment) -> Seq<char> {
        dec_digits(s.peer as nat) + seq![':'] + dec_digits(s.seq_no as nat)
    }

    /// The printable form of a segment path: segments dot-separated.
    pub open spec fn rendered_segs(segs: Seq<Segment>) -> Seq<char>
        decreases segs.len(),
    {
        if segs.len() == 0 {
            Seq::empty()
        } else if segs.len() == 1 {
            Self::rendered_seg(segs[0])
        } else {
            Self::rendered_segs(segs.drop_last()) + seq!['.'] + Self::rendered_seg(segs.last())
        }
    }

    /// The printable form of this key.
    pub open spec fn rendered(self) -> Seq<char> {
        Self::rendered_segs(self.0@)
    }

    /// Render this key for debugging, in its documented form.
    pub fn render(&self) -> (s: String)
        ensures
            s@ == self.rendered(),
    {
        let mut s = String::new();
        let mut i: usize = 0;
        while i < self.0.len()
            invariant
                i <= self.0.len(),
                s@ == Self::rendered_segs(self.0@.take(i as int)),
            decreases self.0.len() - i,
        {
            let ghost t = self.0@.take(i as int);
            if i > 0 {
                s.push('.');
            }
            let seg = self.0[i];
            push_decimal(&mut s, seg.peer);
            s.push(':');
            push_decimal(&mut s, seg.seq_no);
            proof {
                assert(self.0@.take(i + 1).drop_last() =~= t);
                assert(self.0@.take(i + 1).last() == self.0@[i as int]);
                if i == 0 {
                    assert(s@ =~= Self::rendered_segs(self.0@.take(1)));
                } else {
                    assert(s@ =~= Self::rendered_segs(self.0@.take(i + 1)));
                }
            }
            i = i + 1;
        }
        proof {
            assert(self.0@.take(self.0@.len() as int) =~= self.0@);
        }
        s
    }
}

/// Depth stability of a run: when a replica inserts again between its
/// own just-minted key and the same right bound, and the right bound
/// still leaves room at that depth, the new key equals the old one with
/// only its final counter grown by one.  A replica's consecutive
/// insertions at one gap therefore stay adjacent at one depth — no key
/// of another replica generated for the same gap can fall between two
/// of them — which is the non-interleaving behaviour of this index.
pub proof fn lemma_run_extension(p: PeerId, lo: Seq<Segment>, hi: Seq<Segment>)
    requires
        seg_lt(
            Segment { peer: p, seq_no: sat_succ(gen_segs(p, lo, hi).last().seq_no) },
            hi_seg(hi, claim_pos(p, lo, hi, 0)),
        ),
    ensures
        gen_segs(p, gen_segs(p, lo, hi), hi) == gen_segs(p, lo, hi).update(
            claim_pos(p, lo, hi, 0),
            Segment { peer: p, seq_no: sat_succ(gen_segs(p, lo, hi).last().seq_no) },
        ),
{
    let k = claim_pos(p, lo, hi, 0);
    lemma_claim_pos(p, lo, hi, 0);
    let g = gen_segs(p, lo, hi);
    assert(g.len() == k + 1);
    assert(g[k as int] == cand(p, lo, hi, k));
    assert(claims(p, lo, hi, k));
    // the claimed segment is owned by the requester
    assert(g[k as int].peer == p);
    // the second walk rejects every depth the first walk rejected
    assert forall|j: int| 0 <= j < k implies !claims(p, g, hi, j) by {
        assert(g[j] == lo_seg(p, lo, j));
        assert(!claims(p, lo, hi, j));
        if j < lo.len() && j < hi.len() {
            assert(cand(p, g, hi, j) == cand(p, lo, hi, j));
        } else if j < hi.len() {
            // the first walk used its default low segment here; the
            // second walk reads the copied default with the same owner
            assert(g[j] == Segment { peer: p, seq_no: 0 });
            assert(cand(p, g, hi, j) == cand(p, lo, hi, j));
        } else {
            assert(cand(p, g, hi, j) == cand(p, lo, hi, j));
        }
    }
    // and claims at the same depth, with the grown counter
    let c2 = Segment { peer: p, seq_no: sat_succ(g[k as int].seq_no) };
    assert(cand(p, g, hi, k) == c2);
    assert(claims(p, g, hi, k));
    lemma_claim_pos(p, g, hi, 0);
    assert(claim_pos(p, g, hi, 0) == k);
    assert(gen_segs(p, g, hi) =~= g.update(k, c2));
}

} // verus!
