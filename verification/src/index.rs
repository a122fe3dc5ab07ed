//! The fractional-index contract.
//!
//! A key type exposes a *code*: the integer sequence that fixes its
//! position in the total order.  Minting a key between two neighbours is
//! a pure function of the requesting replica and the neighbour codes,
//! which `gen_code` captures exactly.

use vstd::prelude::*;
use crate::order::lex_lt;

verus! {

/// Identifier of a replica, unique across the system (assigned externally).
pub type PeerId = u32;

/// Contract of an ordered, generative key type for the sequence container.
pub trait FractionalIndex: Sized {
    /// The integer sequence that determines this key's place in the
    /// total order: keys compare lexicographically on their codes.
    spec fn code(self) -> Seq<int>;

    /// The code of the key that `new` mints for the given replica
    /// between neighbours with the given codes.
    spec fn gen_code(peer_id: PeerId, left: Option<Seq<int>>, right: Option<Seq<int>>) -> Seq<
        int,
    >;

    /// Mint a key strictly between `left` and `right`; an absent
    /// neighbour is an absent bound.  Generation never fails.
    fn new(peer_id: PeerId, left: Option<&Self>, right: Option<&Self>) -> (r: Self)
        ensures
            r.code() == Self::gen_code(
                peer_id,
                match left {
                    Some(l) => Some(l.code()),
                    None => None,
                },
                match right {
                    Some(h) => Some(h.code()),
                    None => None,
                },
            ),
    ;

    /// Strict comparison in the key order.
    fn key_lt(&self, other: &Self) -> (r: bool)
        ensures
            r == lex_lt(self.code(), other.code()),
    ;

    /// Equality in the key order (equal codes).
    fn key_eq(&self, other: &Self) -> (r: bool)
        ensures
            r == (self.code() == other.code()),
    ;

    /// A copy of this key, at the same place in the order.
    fn clone_key(&self) -> (r: Self)
        ensures
            r.code() == self.code(),
    ;
}

} // verus!
