//! Hash functions for the tree: any implementor turns arbitrary bytes into
//! a 32-byte digest that depends on those bytes alone.
use vstd::prelude::*;

verus! {

use crate::HASH_LEN;

/// A hasher: a pure function from bytes to a fixed-width digest. The same
/// hasher used to build a tree must be used to verify its proofs.
pub trait Hasher: Sized {
    /// The mathematical digest function this hasher computes.
    spec fn digest_spec(&self, bytes: Seq<u8>) -> Seq<u8>;

    /// A fresh hasher instance.
    fn new() -> Self;

    /// Digest arbitrary bytes into a fixed-width digest.
    fn digest(&self, bytes: &[u8]) -> (r: crate::Hash)
        ensures
            r@ == self.digest_spec(bytes@),
    ;
}

/// The digest that the blake3 hash function assigns to a byte string.
pub uninterp spec fn blake3_of(bytes: Seq<u8>) -> Seq<u8>;

/// The digest that the 256-bit blake2s hash function assigns to a byte
/// string.
pub uninterp spec fn blake2s_of(bytes: Seq<u8>) -> Seq<u8>;

/// The digest that the 256-bit blake2b hash function assigns to a byte
/// string.
pub uninterp spec fn blake2b_of(bytes: Seq<u8>) -> Seq<u8>;

/// The digest that the sha2-256 hash function assigns to a byte string.
pub uninterp spec fn sha2_of(bytes: Seq<u8>) -> Seq<u8>;

/// The digest that the sha3-256 hash function assigns to a byte string.
pub uninterp spec fn sha3_of(bytes: Seq<u8>) -> Seq<u8>;

/// Relies on `blake3::Hasher` (new, update, finalize): a 32-byte digest
/// that is a function of the input bytes alone.
#[verifier::external_body]
fn blake3_digest(bytes: &[u8]) -> (r: crate::Hash)
    ensures
        r@ == blake3_of(bytes@),
{
    let mut hasher = blake3::Hasher::new();
    hasher.update(bytes);
    let hash = hasher.finalize();
    let mut out = [0u8; 32];
    out.copy_from_slice(hash.as_bytes());
    out
}

/// Relies on `blake2_rfc::blake2s::Blake2s` (new, update, finalize) at a
/// 32-byte digest width: a digest that is a function of the input bytes
/// alone.
#[verifier::external_body]
fn blake2s_digest(bytes: &[u8]) -> (r: crate::Hash)
    ensures
        r@ == blake2s_of(bytes@),
{
    let mut hasher = blake2_rfc::blake2s::Blake2s::new(HASH_LEN);
    hasher.update(bytes);
    let hash = hasher.finalize();
    let mut out = [0u8; 32];
    out.copy_from_slice(hash.as_bytes());
    out
}

/// Relies on `blake2_rfc::blake2b::Blake2b` (new, update, finalize) at a
/// 32-byte digest width: a digest that is a function of the input bytes
/// alone.
#[verifier::external_body]
fn blake2b_digest(bytes: &[u8]) -> (r: crate::Hash)
    ensures
        r@ == blake2b_of(bytes@),
{
    let mut hasher = blake2_rfc::blake2b::Blake2b::new(HASH_LEN);
    hasher.update(bytes);
    let hash = hasher.finalize();
    let mut out = [0u8; 32];
    out.copy_from_slice(hash.as_bytes());
    out
}

/// Relies on `sha2::Sha256` through the `sha2::Digest` trait (new, update,
/// finalize): a 32-byte digest that is a function of the input bytes
/// alone.
#[verifier::external_body]
fn sha2_digest(bytes: &[u8]) -> (r: crate::Hash)
    ensures
        r@ == sha2_of(bytes@),
{
    let mut hasher = <sha2::Sha256 as sha2::Digest>::new();
    sha2::Digest::update(&mut hasher, bytes);
    let hash = sha2::Digest::finalize(hasher);
    let mut out = [0u8; 32];
    out.copy_from_slice(hash.as_slice());
    out
}

/// Relies on `sha3::Sha3_256` through the `sha3::Digest` trait (new,
/// update, finalize): a 32-byte digest that is a function of the input
/// bytes alone.
#[verifier::external_body]
fn sha3_digest(bytes: &[u8]) -> (r: crate::Hash)
    ensures
        r@ == sha3_of(bytes@),
{
    let mut hasher = <sha3::Sha3_256 as sha3::Digest>::new();
    sha3::Digest::update(&mut hasher, bytes);
    let hash = sha3::Digest::finalize(hasher);
    let mut out = [0u8; 32];
    out.copy_from_slice(hash.as_slice());
    out
}

/// A hasher using the blake3 hash function.
#[derive(Clone, Debug)]
pub struct Blake3;

impl Hasher for Blake3 {
    open spec fn digest_spec(&self, bytes: Seq<u8>) -> Seq<u8> {
        blake3_of(bytes)
    }

    fn new() -> Self {
        Blake3
    }

    fn digest(&self, bytes: &[u8]) -> (r: crate::Hash) {
        blake3_digest(bytes)
    }
}

/// A hasher using the 256-bit blake2s hash function.
#[derive(Clone, Debug)]
pub struct Blake2s;

impl Hasher for Blake2s {
    open spec fn digest_spec(&self, bytes: Seq<u8>) -> Seq<u8> {
        blake2s_of(bytes)
    }

    fn new() -> Self {
        Blake2s
    }

    fn digest(&self, bytes: &[u8]) -> (r: crate::Hash) {
        blake2s_digest(bytes)
    }
}

/// A hasher using the blake2b hash function cut to a 256-bit digest.
#[derive(Clone, Debug)]
pub struct Blake2b;

impl Hasher for Blake2b {
    open spec fn digest_spec(&self, bytes: Seq<u8>) -> Seq<u8> {
        blake2b_of(bytes)
    }

    fn new() -> Self {
        Blake2b
    }

    fn digest(&self, bytes: &[u8]) -> (r: crate::Hash) {
        blake2b_digest(bytes)
    }
}

/// A hasher using the sha2-256 hash function.
#[derive(Clone, Debug)]
pub struct Sha2;

impl Hasher for Sha2 {
    open spec fn digest_spec(&self, bytes: Seq<u8>) -> Seq<u8> {
        sha2_of(bytes)
    }

    fn new() -> Self {
        Sha2
    }

    fn digest(&self, bytes: &[u8]) -> (r: crate::Hash) {
        sha2_digest(bytes)
    }
}

/// A hasher using the sha3-256 (keccak) hash function.
#[derive(Clone, Debug)]
pub struct Sha3;

impl Hasher for Sha3 {
    open spec fn digest_spec(&self, bytes: Seq<u8>) -> Seq<u8> {
        sha3_of(bytes)
    }

    fn new() -> Self {
        Sha3
    }

    fn digest(&self, bytes: &[u8]) -> (r: crate::Hash) {
        sha3_digest(bytes)
    }
}

} // verus!
