//! The naive byte-path index.
//!
//! A key is a byte path plus the replica id that minted it.  Keys order
//! lexicographically on the path, ties broken by replica id; the code of
//! a key is its path (each byte shifted up by one), a terminator, and
//! the shifted replica id, so that a strict path prefix sorts before
//! every extension and equal paths fall through to the replica id.
//!
//! Generation walks the two neighbour paths and stops at the first
//! position that leaves a margin of at least one between the low byte
//! and the high byte; missing low bytes default to `0x01`, missing high
//! bytes to `0xff`, an absent left bound to the path `[0x00]` and an
//! absent right bound to `[0xff]`.

use vstd::prelude::*;
use crate::index::{FractionalIndex, PeerId};
use crate::order::{lex_lt, lemma_lex_from_diff, lemma_lex_from_prefix, lemma_lex_asym,
    lemma_lex_irrefl, lemma_lex_characterize, lemma_first_diff};
use crate::render::{hex_pair, dec_digits, push_hex, push_decimal};

verus! {

/// A byte-path fractional index: `sequence` orders first, `peer_id`
/// breaks ties between identical paths from different replicas.
pub struct NaiveFractionalIndex {
    pub sequence: Vec<u8>,
    pub peer_id: PeerId,
}

/// The byte the walk reads from the low path at depth `i` (`0x01` once
/// the path is exhausted).
pub open spec fn nav_lo(lo: Seq<u8>, i: int) -> u8 {
    if 0 <= i < lo.len() {
        lo[i]
    } else {
        1
    }
}

/// The byte the walk reads from the high path at depth `i` (`0xff` once
/// the path is exhausted).
pub open spec fn nav_hi(hi: Seq<u8>, i: int) -> u8 {
    if 0 <= i < hi.len() {
        hi[i]
    } else {
        255
    }
}

/// Whether depth `i` leaves room for a fresh byte strictly between the
/// two paths.
pub open spec fn margin(lo: Seq<u8>, hi: Seq<u8>, i: int) -> bool {
    nav_hi(hi, i) > nav_lo(lo, i) + 1
}

/// The depth at which the walk starting at `i` stops.
pub open spec fn gen_pos(lo: Seq<u8>, hi: Seq<u8>, i: int) -> int
    decreases lo.len() + hi.len() - i,
{
    if margin(lo, hi, i) {
        i
    } else {
        gen_pos(lo, hi, i + 1)
    }
}

/// The larger of two lengths, as an `int`.
pub open spec fn max_len(lo: Seq<u8>, hi: Seq<u8>) -> int {
    if lo.len() >= hi.len() {
        lo.len() as int
    } else {
        hi.len() as int
    }
}

/// The walk stops at the first margin, and no later than the depth at
/// which both paths are exhausted.
pub proof fn lemma_gen_pos(lo: Seq<u8>, hi: Seq<u8>, i: int)
    requires
        0 <= i,
    ensures
        i <= gen_pos(lo, hi, i),
        margin(lo, hi, gen_pos(lo, hi, i)),
        forall|j: int| i <= j < gen_pos(lo, hi, i) ==> !margin(lo, hi, j),
        gen_pos(lo, hi, i) <= if i >= max_len(lo, hi) {
            i
        } else {
            max_len(lo, hi)
        },
    decreases lo.len() + hi.len() - i,
{
    if margin(lo, hi, i) {
    } else {
        lemma_gen_pos(lo, hi, i + 1);
    }
}

/// The byte path generated between the paths `lo` and `hi`.
pub open spec fn gen_path(lo: Seq<u8>, hi: Seq<u8>) -> Seq<u8> {
    let k = gen_pos(lo, hi, 0);
    Seq::new((k + 1) as nat, |j: int| if j < k {
        nav_lo(lo, j)
    } else {
        (nav_lo(lo, k) + 1) as u8
    })
}

/// The code of a byte path owned by `peer`: each byte shifted up by
/// one, then a terminator, then the shifted replica id.
pub open spec fn path_code(path: Seq<u8>, peer: PeerId) -> Seq<int> {
    path.map(|j: int, b: u8| b as int + 1) + seq![0int, peer as int + 1]
}

/// How the elements of a code relate to the path and peer it encodes.
pub proof fn lemma_path_code_index(path: Seq<u8>, peer: PeerId)
    ensures
        path_code(path, peer).len() == path.len() + 2,
        forall|j: int| 0 <= j < path.len() ==> path_code(path, peer)[j] == path[j] + 1,
        path_code(path, peer)[path.len() as int] == 0,
        path_code(path, peer)[path.len() as int + 1] == peer + 1,
{
    assert(forall|j: int|
        0 <= j < path.len() ==> path_code(path, peer)[j] == path.map(
            |j: int, b: u8| b as int + 1,
        )[j]);
}

/// The byte path a code was built from.
pub open spec fn decode_path(c: Seq<int>) -> Seq<u8> {
    if c.len() >= 2 {
        c.subrange(0, c.len() - 2).map(|j: int, e: int| (e - 1) as u8)
    } else {
        Seq::empty()
    }
}

/// Decoding inverts encoding.
pub proof fn lemma_decode_path(path: Seq<u8>, peer: PeerId)
    ensures
        decode_path(path_code(path, peer)) == path,
{
    assert(decode_path(path_code(path, peer)) =~= path);
}

/// The default low path used for an absent left bound.
pub open spec fn default_lo_path() -> Seq<u8> {
    seq![0u8]
}

/// The default high path used for an absent right bound.
pub open spec fn default_hi_path() -> Seq<u8> {
    seq![255u8]
}

impl FractionalIndex for NaiveFractionalIndex {
    open spec fn code(self) -> Seq<int> {
        path_code(self.sequence@, self.peer_id)
    }

    open spec fn gen_code(peer_id: PeerId, left: Option<Seq<int>>, right: Option<Seq<int>>) -> Seq<
        int,
    > {
        let lo = match left {
            Some(c) => decode_path(c),
            None => default_lo_path(),
        };
        let hi = match right {
            Some(c) => decode_path(c),
            None => default_hi_path(),
        };
        path_code(gen_path(lo, hi), peer_id)
    }

    fn new(peer_id: PeerId, left: Option<&Self>, right: Option<&Self>) -> (r: Self)
        ensures
            r.sequence@ == gen_path(
                match left {
                    Some(l) => l.sequence@,
                    None => default_lo_path(),
                },
                match right {
                    Some(h) => h.sequence@,
                    None => default_hi_path(),
                },
            ),
            r.peer_id == peer_id,
    {
        let default_lo: Vec<u8> = vec![0u8];
        let default_hi: Vec<u8> = vec![255u8];
        let lo: &Vec<u8> = match left {
            Some(l) => &l.sequence,
            None => &default_lo,
        };
        let hi: &Vec<u8> = match right {
            Some(h) => &h.sequence,
            None => &default_hi,
        };
        let ghost glo = lo@;
        let ghost ghi = hi@;
        let ghost k = gen_pos(glo, ghi, 0);
        proof {
            lemma_gen_pos(glo, ghi, 0);
            match left {
                Some(l) => lemma_decode_path(l.sequence@, l.peer_id),
                None => (),
            }
            match right {
                Some(h) => lemma_decode_path(h.sequence@, h.peer_id),
                None => (),
            }
        }
        let mut out: Vec<u8> = Vec::new();
        let mut i: usize = 0;
        loop
            invariant_except_break
                i <= k,
                k == gen_pos(glo, ghi, 0),
                margin(glo, ghi, k),
                forall|j: int| 0 <= j < k ==> !margin(glo, ghi, j),
                k <= max_len(glo, ghi),
                out@.len() == i,
                forall|j: int| 0 <= j < i ==> out@[j] == nav_lo(glo, j),
                glo == lo@,
                ghi == hi@,
            ensures
                out@ == gen_path(glo, ghi),
            decreases k - i,
        {
            let lo_b: u8 = if i < lo.len() {
                lo[i]
            } else {
                1
            };
            let hi_b: u8 = if i < hi.len() {
                hi[i]
            } else {
                255
            };
            proof {
                assert(lo_b == nav_lo(glo, i as int));
                assert(hi_b == nav_hi(ghi, i as int));
            }
            if lo_b < 255 && hi_b > lo_b + 1 {
                proof {
                    assert(margin(glo, ghi, i as int));
                    assert((i as int) == k);
                }
                out.push(lo_b + 1);
                proof {
                    assert(out@ =~= gen_path(glo, ghi));
                }
                break;
            } else {
                proof {
                    assert(!margin(glo, ghi, i as int));
                    assert((i as int) < k);
                }
                out.push(lo_b);
                i = i + 1;
            }
        }
        proof {
            assert(out@ == gen_path(glo, ghi));
            assert(glo == match left {
                Some(l) => l.sequence@,
                None => default_lo_path(),
            });
            assert(ghi == match right {
                Some(h) => h.sequence@,
                None => default_hi_path(),
            });
        }
        Self { sequence: out, peer_id }
    }

    fn key_lt(&self, other: &Self) -> (r: bool)
        ensures
            r == lex_lt(self.code(), other.code()),
    {
        let a = &self.sequence;
        let b = &other.sequence;
        let ghost ca = self.code();
        let ghost cb = other.code();
        proof {
            lemma_path_code_index(a@, self.peer_id);
            lemma_path_code_index(b@, other.peer_id);
        }
        let mut i: usize = 0;
        while i < a.len() && i < b.len() && a[i] == b[i]
            invariant
                i <= a.len(),
                i <= b.len(),
                forall|j: int| 0 <= j < i ==> a@[j] == b@[j],
            decreases a.len() - i,
        {
            i = i + 1;
        }
        proof {
            assert(forall|j: int| 0 <= j < i ==> ca[j] == cb[j]);
        }
        if i < a.len() && i < b.len() {
            if a[i] < b[i] {
                proof {
                    lemma_lex_from_diff(ca, cb, i as int);
                }
                true
            } else {
                proof {
                    lemma_lex_from_diff(cb, ca, i as int);
                    lemma_lex_asym(ca, cb);
                }
                false
            }
        } else if a.len() < b.len() {
            proof {
                assert(i == a.len());
                assert(ca[a@.len() as int] == 0);
                assert(cb[a@.len() as int] == b@[a@.len() as int] + 1);
                lemma_lex_from_diff(ca, cb, a@.len() as int);
            }
            true
        } else if b.len() < a.len() {
            proof {
                assert(i == b.len());
                assert(cb[b@.len() as int] == 0);
                assert(ca[b@.len() as int] == a@[b@.len() as int] + 1);
                lemma_lex_from_diff(cb, ca, b@.len() as int);
                lemma_lex_asym(ca, cb);
            }
            false
        } else {
            proof {
                assert(i == a.len() && i == b.len());
                assert(a@ =~= b@);
                assert(ca[a@.len() as int] == 0 && cb[a@.len() as int] == 0);
            }
            if self.peer_id < other.peer_id {
                proof {
                    lemma_lex_from_diff(ca, cb, a@.len() as int + 1);
                }
                true
            } else if other.peer_id < self.peer_id {
                proof {
                    lemma_lex_from_diff(cb, ca, a@.len() as int + 1);
                    lemma_lex_asym(ca, cb);
                }
                false
            } else {
                proof {
                    assert(ca =~= cb);
                    lemma_lex_irrefl(ca);
                }
                false
            }
        }
    }

    fn key_eq(&self, other: &Self) -> (r: bool)
        ensures
            r == (self.code() == other.code()),
    {
        let a = &self.sequence;
        let b = &other.sequence;
        proof {
            lemma_path_code_index(a@, self.peer_id);
            lemma_path_code_index(b@, other.peer_id);
        }
        if a.len() != b.len() {
            proof {
                assert(self.code().len() != other.code().len());
            }
            return false;
        }
        let mut i: usize = 0;
        while i < a.len()
            invariant
                a@ == self.sequence@,
                b@ == other.sequence@,
                a.len() == b.len(),
                i <= a.len(),
                forall|j: int| 0 <= j < i ==> a@[j] == b@[j],
            decreases a.len() - i,
        {
            if a[i] != b[i] {
                proof {
                    lemma_path_code_index(self.sequence@, self.peer_id);
                    lemma_path_code_index(other.sequence@, other.peer_id);
                    assert(self.code()[i as int] != other.code()[i as int]);
                }
                return false;
            }
            i = i + 1;
        }
        if self.peer_id != other.peer_id {
            proof {
                assert(self.code()[a@.len() as int + 1] != other.code()[a@.len() as int + 1]);
            }
            return false;
        }
        proof {
            assert(a@ =~= b@);
            assert(self.code() =~= other.code());
        }
        true
    }

    fn clone_key(&self) -> (r: Self)
        ensures
            r.code() == self.code(),
            r.sequence@ == self.sequence@,
            r.peer_id == self.peer_id,
    {
        let mut s: Vec<u8> = Vec::new();
        let mut i: usize = 0;
        while i < self.sequence.len()
            invariant
                i <= self.sequence.len(),
                s@ == self.sequence@.subrange(0, i as int),
            decreases self.sequence.len() - i,
        {
            s.push(self.sequence[i]);
            i = i + 1;
        }
        proof {
            assert(s@ =~= self.sequence@);
        }
        Self { sequence: s, peer_id: self.peer_id }
    }
}

/// A byte path as an integer sequence.
pub open spec fn bytes_int(s: Seq<u8>) -> Seq<int> {
    s.map(|j: int, b: u8| b as int)
}

/// Pointwise reading of `bytes_int`.
pub proof fn lemma_bytes_int(s: Seq<u8>)
    ensures
        bytes_int(s).len() == s.len(),
        forall|j: int| 0 <= j < s.len() ==> bytes_int(s)[j] == s[j],
{
}

/// Strict order on byte paths alone: lexicographic, a strict prefix
/// before every extension.
pub open spec fn path_lt(a: Seq<u8>, b: Seq<u8>) -> bool {
    lex_lt(bytes_int(a), bytes_int(b))
}

/// Shape of a path usable as a left bound: nonempty, and every byte
/// leaves room for an increment.
pub open spec fn wf_lo(s: Seq<u8>) -> bool {
    &&& s.len() >= 1
    &&& forall|j: int| 0 <= j < s.len() ==> s[j] <= 254
    &&& forall|j: int| 1 <= j < s.len() ==> s[j] >= 1
}

/// Shape of a path usable as a right bound: nonempty, no zero byte past
/// the first position, and a final byte of at least one — at least two
/// when the path is deeper than one byte.
pub open spec fn wf_hi(s: Seq<u8>) -> bool {
    &&& s.len() >= 1
    &&& forall|j: int| 1 <= j < s.len() ==> s[j] >= 1
    &&& s[s.len() - 1] >= 1
    &&& s.len() >= 2 ==> s[s.len() - 1] >= 2
}

/// The path of an optional left key, or the default for an absent one.
pub open spec fn lo_of(left: Option<NaiveFractionalIndex>) -> Seq<u8> {
    match left {
        Some(l) => l.sequence@,
        None => default_lo_path(),
    }
}

/// The path of an optional right key, or the default for an absent one.
pub open spec fn hi_of(right: Option<NaiveFractionalIndex>) -> Seq<u8> {
    match right {
        Some(h) => h.sequence@,
        None => default_hi_path(),
    }
}

/// The path minted between two optional neighbour keys.
pub open spec fn gen_between(
    left: Option<NaiveFractionalIndex>,
    right: Option<NaiveFractionalIndex>,
) -> Seq<u8> {
    gen_path(lo_of(left), hi_of(right))
}

/// The generated path lies strictly between well-formed bounds, and is
/// itself well-formed in both roles.
pub proof fn lemma_gen_path_between(lo: Seq<u8>, hi: Seq<u8>)
    requires
        wf_lo(lo),
        wf_hi(hi),
        path_lt(lo, hi),
    ensures
        path_lt(lo, gen_path(lo, hi)),
        path_lt(gen_path(lo, hi), hi),
        wf_lo(gen_path(lo, hi)),
        wf_hi(gen_path(lo, hi)),
{
    let k = gen_pos(lo, hi, 0);
    lemma_gen_pos(lo, hi, 0);
    let g = gen_path(lo, hi);
    lemma_bytes_int(lo);
    lemma_bytes_int(hi);
    lemma_bytes_int(g);
    assert(g.len() == k + 1);
    assert(forall|j: int| 0 <= j < k ==> g[j] == nav_lo(lo, j));
    assert(nav_hi(hi, k) > nav_lo(lo, k) + 1);
    assert(nav_lo(lo, k) + 1 <= 254);
    assert(g[k as int] == nav_lo(lo, k) + 1);

    // the result is well-formed in both roles
    assert forall|j: int| 0 <= j < g.len() implies g[j] <= 254 by {
        if j < k {
            assert(g[j] == nav_lo(lo, j));
        }
    }
    assert forall|j: int| 1 <= j < g.len() implies g[j] >= 1 by {
        if j < k {
            assert(g[j] == nav_lo(lo, j));
        }
    }
    assert(g[g.len() - 1] >= 1);
    if g.len() >= 2 {
        assert(k >= 1);
        assert(nav_lo(lo, k) >= 1);
        assert(g[g.len() - 1] >= 2);
    }

    // the result is strictly above the low path
    if k < lo.len() {
        assert(forall|j: int| 0 <= j < k ==> g[j] == lo[j]);
        assert(g[k as int] == lo[k as int] + 1);
        lemma_lex_from_diff(bytes_int(lo), bytes_int(g), k);
    } else {
        assert(forall|j: int| 0 <= j < lo.len() ==> g[j] == lo[j]);
        lemma_lex_from_prefix(bytes_int(lo), bytes_int(g));
    }

    // the result is strictly below the high path
    let m = if k + 1 <= hi.len() {
        k + 1
    } else {
        hi.len() as int
    };
    if exists|j: int| 0 <= j < m && bytes_int(g)[j] != bytes_int(hi)[j] {
        lemma_first_diff(bytes_int(g), bytes_int(hi), m);
        let j0 = choose|j0: int|
            0 <= j0 < m && bytes_int(g)[j0] != bytes_int(hi)[j0] && (forall|x: int|
                0 <= x < j0 ==> bytes_int(g)[x] == bytes_int(hi)[x]);
        if j0 == k {
            assert(hi[k as int] == nav_hi(hi, k));
            assert(g[k as int] < hi[k as int]);
            lemma_lex_from_diff(bytes_int(g), bytes_int(hi), j0);
        } else {
            assert(j0 < k);
            if j0 < lo.len() {
                assert(g[j0] == lo[j0]);
                assert(forall|x: int| 0 <= x < j0 ==> lo[x] == hi[x]) by {
                    assert(forall|x: int| 0 <= x < j0 ==> g[x] == nav_lo(lo, x) && x < lo.len());
                }
                lemma_lex_characterize(bytes_int(lo), bytes_int(hi));
                if bytes_int(lo).len() < bytes_int(hi).len() && (forall|x: int|
                    0 <= x < bytes_int(lo).len() ==> bytes_int(lo)[x] == bytes_int(hi)[x]) {
                    assert(lo[j0] == hi[j0]);
                    assert(false);
                } else {
                    let i = choose|i: int|
                        0 <= i < bytes_int(lo).len() && i < bytes_int(hi).len() && bytes_int(
                            lo,
                        )[i] < bytes_int(hi)[i] && (forall|x: int|
                            0 <= x < i ==> bytes_int(lo)[x] == bytes_int(hi)[x]);
                    if i < j0 {
                        assert(lo[i] == hi[i]);
                        assert(false);
                    } else if i > j0 {
                        assert(lo[j0] == hi[j0]);
                        assert(false);
                    }
                    assert(lo[j0] < hi[j0]);
                }
                lemma_lex_from_diff(bytes_int(g), bytes_int(hi), j0);
            } else {
                assert(g[j0] == 1);
                assert(j0 >= 1);
                assert(hi[j0] >= 1);
                assert(g[j0] < hi[j0]);
                lemma_lex_from_diff(bytes_int(g), bytes_int(hi), j0);
            }
        }
    } else {
        if k + 1 <= hi.len() {
            assert(bytes_int(g)[k] == bytes_int(hi)[k]);
            assert(hi[k as int] == nav_hi(hi, k));
            assert(false);
        } else {
            assert(m == hi.len());
            assert(forall|j: int| 0 <= j < hi.len() ==> g[j] == hi[j]);
            if hi.len() <= lo.len() {
                assert(forall|j: int| 0 <= j < hi.len() ==> hi[j] == lo[j]) by {
                    assert(forall|j: int|
                        0 <= j < hi.len() ==> g[j] == nav_lo(lo, j) && j < lo.len());
                }
                lemma_lex_characterize(bytes_int(lo), bytes_int(hi));
                if bytes_int(lo).len() < bytes_int(hi).len() && (forall|x: int|
                    0 <= x < bytes_int(lo).len() ==> bytes_int(lo)[x] == bytes_int(hi)[x]) {
                    assert(false);
                } else {
                    let i = choose|i: int|
                        0 <= i < bytes_int(lo).len() && i < bytes_int(hi).len() && bytes_int(
                            lo,
                        )[i] < bytes_int(hi)[i] && (forall|x: int|
                            0 <= x < i ==> bytes_int(lo)[x] == bytes_int(hi)[x]);
                    assert(lo[i] < hi[i]);
                    assert(hi[i] == lo[i]);
                    assert(false);
                }
            } else {
                assert(hi.len() - 1 >= lo.len());
                assert(g[hi.len() - 1] == nav_lo(lo, hi.len() - 1));
                assert(hi[hi.len() - 1] == 1);
                assert(hi.len() >= 2);
                assert(false);
            }
        }
    }
}

/// Strictly ordered paths give strictly ordered keys, whatever the two
/// replica ids.
pub proof fn lemma_path_lt_code(a: Seq<u8>, pa: PeerId, b: Seq<u8>, pb: PeerId)
    requires
        path_lt(a, b),
    ensures
        lex_lt(path_code(a, pa), path_code(b, pb)),
{
    lemma_bytes_int(a);
    lemma_bytes_int(b);
    lemma_path_code_index(a, pa);
    lemma_path_code_index(b, pb);
    lemma_lex_characterize(bytes_int(a), bytes_int(b));
    if bytes_int(a).len() < bytes_int(b).len() && (forall|x: int|
        0 <= x < bytes_int(a).len() ==> bytes_int(a)[x] == bytes_int(b)[x]) {
        assert(path_code(a, pa)[a.len() as int] == 0);
        assert(path_code(b, pb)[a.len() as int] == b[a.len() as int] + 1);
        assert(forall|x: int|
            0 <= x < a.len() ==> path_code(a, pa)[x] == path_code(b, pb)[x]);
        lemma_lex_from_diff(path_code(a, pa), path_code(b, pb), a.len() as int);
    } else {
        let i = choose|i: int|
            0 <= i < bytes_int(a).len() && i < bytes_int(b).len() && bytes_int(a)[i] < bytes_int(
                b,
            )[i] && (forall|x: int| 0 <= x < i ==> bytes_int(a)[x] == bytes_int(b)[x]);
        assert(path_code(a, pa)[i] == a[i] + 1);
        assert(path_code(b, pb)[i] == b[i] + 1);
        assert(forall|x: int| 0 <= x < i ==> path_code(a, pa)[x] == path_code(b, pb)[x]);
        lemma_lex_from_diff(path_code(a, pa), path_code(b, pb), i);
    }
}

/// Ordering invariant for the naive index: a key minted between two
/// well-formed neighbours lies strictly between them in the key order,
/// and its path is again well-formed.  When both neighbours are given,
/// their paths must be strictly ordered: two keys that differ only in
/// their replica id — which this strategy mints when two replicas fill
/// the same gap concurrently — admit no path between them, and the walk
/// then leaves the bounds.  Keys this library generates from
/// well-formed bounds always satisfy the well-formedness required here.
pub proof fn lemma_naive_new_between(
    peer: PeerId,
    left: Option<NaiveFractionalIndex>,
    right: Option<NaiveFractionalIndex>,
)
    requires
        left matches Some(l) ==> wf_lo(l.sequence@) && wf_hi(l.sequence@),
        right matches Some(h) ==> wf_lo(h.sequence@) && wf_hi(h.sequence@),
        left matches Some(l) && right matches Some(h) ==> path_lt(l.sequence@, h.sequence@),
    ensures
        left matches Some(l) ==> lex_lt(l.code(), path_code(gen_between(left, right), peer)),
        right matches Some(h) ==> lex_lt(path_code(gen_between(left, right), peer), h.code()),
        wf_lo(gen_between(left, right)),
        wf_hi(gen_between(left, right)),
        path_code(gen_between(left, right), peer) == NaiveFractionalIndex::gen_code(
            peer,
            match left {
                Some(l) => Some(l.code()),
                None => None,
            },
            match right {
                Some(h) => Some(h.code()),
                None => None,
            },
        ),
{
    let lo = lo_of(left);
    let hi = hi_of(right);
    lemma_bytes_int(lo);
    lemma_bytes_int(hi);
    assert(wf_lo(lo));
    assert(wf_hi(hi));
    if left is None && right is None {
        lemma_lex_from_diff(bytes_int(lo), bytes_int(hi), 0);
    } else if left is None {
        let h = right->0;
        if h.sequence@[0] >= 1 {
            lemma_lex_from_diff(bytes_int(lo), bytes_int(hi), 0);
        } else {
            assert(h.sequence@.len() >= 2);
            lemma_lex_from_prefix(bytes_int(lo), bytes_int(hi));
        }
    } else if right is None {
        let l = left->0;
        assert(l.sequence@[0] <= 254);
        lemma_lex_from_diff(bytes_int(lo), bytes_int(hi), 0);
    }
    assert(path_lt(lo, hi));
    lemma_gen_path_between(lo, hi);
    match left {
        Some(l) => {
            lemma_path_lt_code(l.sequence@, l.peer_id, gen_between(left, right), peer);
        },
        None => (),
    }
    match right {
        Some(h) => {
            lemma_path_lt_code(gen_between(left, right), peer, h.sequence@, h.peer_id);
        },
        None => (),
    }
    match left {
        Some(l) => lemma_decode_path(l.sequence@, l.peer_id),
        None => (),
    }
    match right {
        Some(h) => lemma_decode_path(h.sequence@, h.peer_id),
        None => (),
    }
}

impl NaiveFractionalIndex {
    /// The printable form of a byte path: two hex digits per byte,
    /// dot-separated.
    pub open spec fn rendered_path(path: Seq<u8>) -> Seq<char>
        decreases path.len(),
    {
        if path.len() == 0 {
            Seq::empty()
        } else if path.len() == 1 {
            hex_pair(path[0])
        } else {
            Self::rendered_path(path.drop_last()) + seq!['.'] + hex_pair(path.last())
        }
    }

    /// The printable form of this key: the path, `@`, the replica id.
    pub open spec fn rendered(self) -> Seq<char> {
        Self::rendered_path(self.sequence@) + seq!['@'] + dec_digits(self.peer_id as nat)
    }

    /// Render this key for debugging, in its documented form.
    pub fn render(&self) -> (s: String)
        ensures
            s@ == self.rendered(),
    {
        let mut s = String::new();
        let mut i: usize = 0;
        while i < self.sequence.len()
            invariant
                i <= self.sequence.len(),
                s@ == Self::rendered_path(self.sequence@.take(i as int)),
            decreases self.sequence.len() - i,
        {
            let ghost t = self.sequence@.take(i as int);
            if i > 0 {
                s.push('.');
            }
            push_hex(&mut s, self.sequence[i]);
            proof {
                assert(self.sequence@.take(i + 1).drop_last() =~= t);
                assert(self.sequence@.take(i + 1).last() == self.sequence@[i as int]);
                if i == 0 {
                    assert(s@ =~= Self::rendered_path(self.sequence@.take(1)));
                } else {
                    assert(s@ =~= Self::rendered_path(self.sequence@.take(i + 1)));
                }
            }
            i = i + 1;
        }
        proof {
            assert(self.sequence@.take(self.sequence@.len() as int) =~= self.sequence@);
        }
        s.push('@');
        push_decimal(&mut s, self.peer_id);
        proof {
            assert(s@ =~= self.rendered());
        }
        s
    }
}

} // verus!
