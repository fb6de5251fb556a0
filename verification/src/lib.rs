//! Validation core of a content-addressed, DAG-structured ledger.
//!
//! The crate provides a canonical binary codec, a cryptographic envelope
//! (hashes, fingerprints, keypairs, signatures), the ledger data model
//! (blocks, segments, artifacts), and the admission / fork-resolution engine.

pub mod artifact;
pub mod block;
pub mod codec;
pub mod container;
pub mod hexfmt;
pub mod segment;
pub mod sig;
pub mod store;
pub mod validation;

use vstd::prelude::*;

use crate::codec::{dec_bytes, BinaryComponent, DecodeError};
use crate::sig::{sha256_of, SHA256_WIDTH};

verus! {

/// Directly addresses a component of the DAG: the SHA-256 hash of the
/// component's canonical encoding.
#[derive(Copy, Clone, PartialEq, Eq, PartialOrd, Ord, Hash, Debug)]
pub struct Address(pub crate::sig::Hash);

impl View for Address {
    type V = Seq<u8>;

    open spec fn view(&self) -> Seq<u8> {
        self.0@
    }
}

impl DeepView for Address {
    type V = Seq<u8>;

    open spec fn deep_view(&self) -> Seq<u8> {
        self.0@
    }
}

impl Address {
    /// Creates an address assuming the given hash data.
    pub fn new(hash: crate::sig::Hash) -> (r: Address)
        ensures
            r@ == hash@,
    {
        Address(hash)
    }

    /// Creates an address from raw hash bytes.
    pub fn from_raw(hex: [u8; SHA256_WIDTH]) -> (r: Address)
        ensures
            r@ == hex@,
    {
        Address::new(crate::sig::Hash::new(hex))
    }

    /// The address of the given encoded blob.
    pub fn of_slice(blob: &[u8]) -> (r: Address)
        ensures
            r@ == sha256_of(blob@),
            r@.len() == 32,
    {
        Address(crate::sig::Hash::of_slice(blob))
    }

    /// The address of a component: the hash of its canonical encoding.
    pub fn of_bincomp<T: BinaryComponent>(t: &T) -> (r: Address)
        ensures
            r@ == sha256_of(T::enc_of(t.deep_view())),
    {
        Address::new(crate::sig::get_hash(t))
    }

    /// The underlying hash.
    pub fn into_hash(self) -> (r: crate::sig::Hash)
        ensures
            r@ == self@,
    {
        self.0
    }
}

/// The content address is a pure function of the content bytes: byte-equal
/// blobs always receive the same address.
pub proof fn lemma_address_determinism(b1: Seq<u8>, b2: Seq<u8>)
    requires
        b1 == b2,
    ensures
        sha256_of(b1) == sha256_of(b2),
{
}

impl BinaryComponent for Address {
    /// 32 raw bytes, exactly as the hash it wraps.
    open spec fn enc_of(v: Seq<u8>) -> Seq<u8> {
        v
    }

    open spec fn v_wf(v: Seq<u8>) -> bool {
        v.len() == 32
    }

    open spec fn dec_at(s: Seq<u8>, i: int) -> Option<(Seq<u8>, int)> {
        dec_bytes(s, i, 32)
    }

    proof fn lemma_view_wf(&self) {
    }

    proof fn lemma_dec_sound(s: Seq<u8>, i: int) {
    }

    proof fn lemma_dec_complete(w: Seq<u8>, s: Seq<u8>, i: int) {
    }

    fn encode_onto(&self, out: &mut Vec<u8>) {
        self.0.encode_onto(out);
        assert(out@ =~= old(out)@ + Self::enc_of(self.deep_view()));
    }

    fn decode_from(s: &[u8], i: usize) -> (r: Result<(Self, usize), DecodeError>) {
        match crate::sig::Hash::decode_from(s, i) {
            Ok((h, j)) => Ok((Address(h), j)),
            Err(e) => Err(e),
        }
    }
}

} // verus!
