//! Checks of the decode-aware store wrapper.

use jiyunet::block::{Block, BlockHeader};
use jiyunet::codec::to_blob;
use jiyunet::sig::{Scheme, Signed};
use jiyunet::store::{BlobSource, NodeGetError, NodeSource};
use jiyunet::Address;

/// A store holding one blob.
struct OneBlobStore {
    addr: Address,
    blob: Vec<u8>,
}

impl BlobSource for OneBlobStore {
    fn get(&self, addr: Address) -> Option<Vec<u8>> {
        if addr == self.addr {
            Some(self.blob.clone())
        } else {
            None
        }
    }

    fn put(&self, _addr: Address, _blob: Vec<u8>) -> Result<(), ()> {
        Ok(())
    }
}

#[test]
fn node_source_round_trip() {
    let kp = Scheme::Ed25519.generate(&[1u8; 32]);
    let header = BlockHeader::new(7, 8, jiyunet::sig::Hash::of_slice(&[1]), vec![]);
    let block = Block::new(Signed::new(kp, header), vec![]);
    let blob = to_blob(&block);
    let addr = Address::of_slice(blob.as_slice());

    let src = NodeSource::new(OneBlobStore { addr, blob });
    let got: Block = src.get(addr).unwrap();
    assert_eq!(got, block);

    let missing = Address::of_slice(b"nothing here");
    assert_eq!(
        src.get::<Block>(missing).unwrap_err(),
        NodeGetError::NotFound
    );

    assert_eq!(src.put(&block), Ok(()));
}

#[test]
fn node_source_reports_decode_failure() {
    let junk = vec![1u8, 2, 3];
    let addr = Address::of_slice(junk.as_slice());
    let src = NodeSource::new(OneBlobStore { addr, blob: junk });
    assert!(matches!(
        src.get::<Block>(addr),
        Err(NodeGetError::DecodeError(_))
    ));
}
