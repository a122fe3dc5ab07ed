//! A replicated, conflict-free sequence (a state-based sequence CRDT).
//!
//! Every element of the sequence is addressed by a fractional index: a
//! totally ordered key minted strictly between its two neighbours at
//! insertion time.  Two key strategies are provided: a naive byte-path
//! allocator ([`NaiveFractionalIndex`]) and a non-interleaving
//! segment-path allocator ([`NonInterleavingIndex`]).  The ordered
//! container [`LSeq`] is generic over the strategy; replicas exchange
//! whole states and merge them with a commutative, idempotent,
//! delete-wins rule.

pub mod order;
pub mod index;
pub mod naive;
pub mod nindex;
pub mod lseq;
pub mod render;
pub mod laws;

pub use index::FractionalIndex;
pub use index::PeerId;
pub use naive::NaiveFractionalIndex;
pub use nindex::NonInterleavingIndex;
pub use nindex::Segment;
pub use lseq::LSeq;
