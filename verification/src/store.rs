//! Decode-aware access to a content-addressed blob store.
//!
//! A [`BlobSource`] is a port: storage backends (a directory tree, a remote
//! content store) implement it outside this crate.  The engine promises
//! nothing about what a store returns; [`NodeSource`] adds the codec layer
//! and is verified for every possible answer.

use vstd::prelude::*;

use crate::block::DagNode;
use crate::codec::{from_slice, to_blob, BinaryComponent, DecodeError};
use crate::sig::sha256_of;
use crate::Address;

verus! {

/// A type that stores and retrieves opaque blobs by address.  Implemented by
/// storage backends outside this crate; nothing is assumed of its behaviour.
pub trait BlobSource {
    /// Returns the blob at the address, if the store holds one.
    fn get(&self, addr: Address) -> (r: Option<Vec<u8>>);

    /// Stores the blob under the given address.
    fn put(&self, addr: Address, blob: Vec<u8>) -> (r: Result<(), ()>);
}

/// Why a node could not be produced from the store.
#[derive(Copy, Clone, PartialEq, Eq, Structural, Debug)]
pub enum NodeGetError {
    /// The store has no blob at that address; the caller may retry after the
    /// data has been fetched.
    NotFound,
    /// The blob at that address does not decode as the requested node type;
    /// permanent for that blob.
    DecodeError(DecodeError),
}

/// Interacts with a [`BlobSource`], converting to and from decoded DAG
/// nodes through the canonical codec.
pub struct NodeSource<S: BlobSource> {
    source: S,
}

impl<S: BlobSource> NodeSource<S> {
    /// Creates a node source over the given backend.
    pub fn new(src: S) -> NodeSource<S> {
        NodeSource { source: src }
    }

    /// Returns the node stored at the given address, if the store holds a
    /// blob there and that blob decodes.  Whatever bytes the store hands
    /// back, a returned node is a well-formed decode of them.
    pub fn get<N: DagNode>(&self, addr: Address) -> (r: Result<N, NodeGetError>)
        ensures
            r matches Ok(n) ==> N::v_wf(n.deep_view()),
    {
        match self.source.get(addr) {
            Some(b) => match from_slice::<N>(b.as_slice()) {
                Ok(n) => {
                    proof {
                        N::lemma_dec_sound(b@, 0);
                    }
                    Ok(n)
                },
                Err(e) => Err(NodeGetError::DecodeError(e)),
            },
            None => Err(NodeGetError::NotFound),
        }
    }

    /// Stores the node under its own content address: the hash of its
    /// canonical encoding.
    pub fn put<N: DagNode>(&self, node: &N) -> (r: Result<(), ()>) {
        let blob = to_blob(node);
        let addr = Address::of_slice(blob.as_slice());
        self.source.put(addr, blob)
    }
}

} // verus!
