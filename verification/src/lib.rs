//! An authenticated key-value store built on a compressed binary-radix
//! sparse Merkle tree over fixed-width cryptographic keys.
//!
//! Every mutation yields a new root digest; the tree supports point lookups,
//! Merkle-proof generation and stateless proof verification, and batched
//! mutations executed against a pluggable content-addressed backend.
use vstd::prelude::*;

pub mod bits;
pub mod database;
pub mod hasher;
pub mod laws;
pub mod node;
pub mod tree;
pub mod utils;

pub use crate::bits::Bits;
pub use crate::database::Database;
pub use crate::database::MemoryDB;
pub use crate::hasher::Hasher;
pub use crate::node::Cell;
pub use crate::node::Node;
pub use crate::node::Unit;
pub use crate::tree::Monotree;
pub use crate::tree::verify_proof;

verus! {

/// Size of the fixed-length byte arrays used for keys, leaves and digests.
pub const HASH_LEN: usize = 32;

/// Width type of a bit-range bound inside a `Bits` slice.
pub type BitsLen = u16;

/// A fixed-length byte array: a key, a leaf value, or a node digest.
pub type Hash = [u8; 32];

/// A Merkle proof: one `(right_flag, cut)` frame per traversed node,
/// ordered root to leaf.
pub type Proof = Vec<(bool, Vec<u8>)>;

/// The backend selected by default: the in-memory map.
pub type DefaultDatabase = crate::database::MemoryDB;

/// The hasher selected by default: blake3.
pub type DefaultHasher = crate::hasher::Blake3;

/// An opaque error carrying a short description.
#[derive(Debug)]
pub struct Errors {
    details: String,
}

impl View for Errors {
    type V = Seq<char>;

    closed spec fn view(&self) -> Seq<char> {
        self.details@
    }
}

impl Errors {
    /// Wrap a short description into an error value.
    pub fn new(msg: &str) -> (r: Errors)
        ensures
            r@ == msg@,
    {
        Errors { details: msg.to_string() }
    }

    /// The error's description.
    pub fn message(&self) -> (r: String)
        ensures
            r@ == self@,
    {
        self.details.clone()
    }
}

} // verus!
