//! Scenario checks of the admission and finality engine.

use jiyunet::artifact::ArtifactData;
use jiyunet::block::{Block, BlockHeader, SignedBlock};
use jiyunet::codec::{from_slice, to_blob};
use jiyunet::segment::{Segment, SegmentContent};
use jiyunet::sig::{Keypair, Scheme, SigVerificationError, Signed};
use jiyunet::validation::{calc_segment_cost, verify_signed_block, ValidationError, ValidationState};
use jiyunet::Address;

fn make_block(
    kp: &Keypair,
    timestamp: i64,
    parents: Vec<Address>,
    contents: Vec<SegmentContent>,
) -> SignedBlock {
    let segments = contents
        .into_iter()
        .map(|c| Signed::new(*kp, Segment::new(timestamp, c)))
        .collect::<Vec<_>>();
    let header = BlockHeader::new(1, timestamp, jiyunet::sig::Hash::of_slice(&[0]), parents);
    Signed::new(*kp, Block::new(Signed::new(*kp, header), segments))
}

fn addr_of(sb: &SignedBlock) -> Address {
    Address::of_slice(to_blob(sb).as_slice())
}

#[test]
fn credit_ledger_scenario() {
    // An identity with balance 2000 posts an artifact-pointer block
    // (cost 50) and is left with 1950; a 3000-byte inline artifact is then
    // rejected for insufficient credits and the balance does not move.
    let base = Address::of_slice(b"genesis");
    let mut state = ValidationState::new(base);
    let kp = Scheme::Ed25519.generate(&[1u8; 32]);
    assert!(state.register_identity(kp.into_pubkey(), 2000));

    let b1 = make_block(
        &kp,
        10,
        vec![base],
        vec![SegmentContent::ArtifactPointer(Address::of_slice(&[7]))],
    );
    assert_eq!(state.add_block(b1), Ok(()));
    let fp = kp.fingerprint();
    assert_eq!(state.find_identity(&fp).unwrap().credits, 1950);

    let big = vec![0u8; 3000];
    let b2 = make_block(
        &kp,
        11,
        vec![base],
        vec![SegmentContent::Artifact(ArtifactData::new(0, big))],
    );
    assert_eq!(state.add_block(b2), Err(ValidationError::InsufficientCredits));
    assert_eq!(state.find_identity(&fp).unwrap().credits, 1950);
}

#[test]
fn heights_follow_the_parent_chain() {
    let base = Address::of_slice(b"genesis");
    let mut state = ValidationState::new(base);
    let kp = Scheme::Ed25519.generate(&[2u8; 32]);
    assert!(state.register_identity(kp.into_pubkey(), 10_000));

    assert_eq!(state.get_relative_block_height(&base), Some(0));

    let b1 = make_block(&kp, 1, vec![base], vec![]);
    let a1 = addr_of(&b1);
    assert_eq!(state.add_block(b1), Ok(()));
    assert_eq!(state.get_relative_block_height(&a1), Some(1));

    let b2 = make_block(&kp, 2, vec![a1], vec![]);
    let a2 = addr_of(&b2);
    assert_eq!(state.add_block(b2), Ok(()));
    assert_eq!(state.get_relative_block_height(&a2), Some(2));

    // A block naming both the base and the deeper block sits one past the
    // deepest parent.
    let b3 = make_block(&kp, 3, vec![base, a2], vec![]);
    let a3 = addr_of(&b3);
    assert_eq!(state.add_block(b3), Ok(()));
    assert_eq!(state.get_relative_block_height(&a3), Some(3));

    let unknown = Address::of_slice(b"nowhere");
    assert_eq!(state.get_relative_block_height(&unknown), None);
}

#[test]
fn fork_resolution_scenario() {
    // B1 and B2 extend the base to depths 1 and 2 and then stall; a
    // competing branch from the base reaches depth 6, crosses the
    // acceptance threshold, becomes the new base, and the losers are
    // pruned.
    let base = Address::of_slice(b"genesis");
    let mut state = ValidationState::new(base);
    let kp = Scheme::Ed25519.generate(&[3u8; 32]);
    assert!(state.register_identity(kp.into_pubkey(), 10_000));

    let b1 = make_block(&kp, 1, vec![base], vec![]);
    let a1 = addr_of(&b1);
    assert_eq!(state.add_block(b1), Ok(()));
    assert_eq!(state.get_relative_block_height(&a1), Some(1));

    let b2 = make_block(&kp, 2, vec![a1], vec![]);
    let a2 = addr_of(&b2);
    assert_eq!(state.add_block(b2), Ok(()));
    assert_eq!(state.get_relative_block_height(&a2), Some(2));

    // The competing branch: six blocks stacked on the base.
    let mut parent = base;
    let mut tip = base;
    for step in 0..6 {
        let c = make_block(&kp, 100 + step, vec![parent], vec![]);
        tip = addr_of(&c);
        assert_eq!(state.add_block(c), Ok(()));
        parent = tip;
    }

    // The sixth block exceeded the threshold: the base advanced to it and
    // every other pending block was pruned.
    assert_eq!(state.get_relative_block_height(&tip), Some(0));
    assert_eq!(state.get_relative_block_height(&a1), None);
    assert_eq!(state.get_relative_block_height(&a2), None);

    // The stalled branch cannot be re-admitted: its parent is gone.
    let b3 = make_block(&kp, 3, vec![a2], vec![]);
    assert!(matches!(
        state.add_block(b3),
        Err(ValidationError::NodeNotFound(_))
    ));
}

#[test]
fn bootstrap_declares_a_new_identity() {
    // An unknown signer is admitted when its first segment declares its
    // fingerprint and its second embeds the matching key; the identity
    // starts from the opening grant and pays the block's cost.
    let base = Address::of_slice(b"genesis");
    let mut state = ValidationState::new(base);
    let kp = Scheme::Ed25519.generate(&[4u8; 32]);
    let vk = kp.into_pubkey();
    let fp = kp.fingerprint();

    let decl = SegmentContent::IdentDecl(fp.into_hash());
    let key_art = SegmentContent::Artifact(ArtifactData::new(0, to_blob(&vk)));
    let b = make_block(&kp, 5, vec![base], vec![decl, key_art]);
    assert_eq!(state.add_block(b), Ok(()));

    // Cost: 1000 for the declaration plus the 33 encoded key bytes.
    let id = state.find_identity(&fp).unwrap();
    assert_eq!(id.key, vk);
    assert_eq!(id.credits, 2000 - 1000 - 33);
}

#[test]
fn unknown_signer_without_bootstrap_is_rejected() {
    let base = Address::of_slice(b"genesis");
    let mut state = ValidationState::new(base);
    let kp = Scheme::Ed25519.generate(&[5u8; 32]);
    let b = make_block(&kp, 5, vec![base], vec![]);
    assert_eq!(
        state.add_block(b),
        Err(ValidationError::SigError(
            SigVerificationError::FingerprintMismatch
        ))
    );
}

#[test]
fn structural_rejections() {
    let base = Address::of_slice(b"genesis");
    let mut state = ValidationState::new(base);
    let kp = Scheme::Ed25519.generate(&[6u8; 32]);
    assert!(state.register_identity(kp.into_pubkey(), 5000));

    // No parents.
    let orphan = make_block(&kp, 1, vec![], vec![]);
    assert_eq!(state.add_block(orphan), Err(ValidationError::MissingParents));

    // A dangling parent.
    let nowhere = Address::of_slice(b"nowhere");
    let dangling = make_block(&kp, 2, vec![nowhere], vec![]);
    assert_eq!(
        state.add_block(dangling),
        Err(ValidationError::NodeNotFound(nowhere))
    );

    // The same block twice.
    let b = make_block(&kp, 3, vec![base], vec![]);
    let again = b.clone();
    assert_eq!(state.add_block(b), Ok(()));
    assert_eq!(state.add_block(again), Err(ValidationError::DuplicateBlock));
}

#[test]
fn corrupted_signature_is_rejected() {
    let base = Address::of_slice(b"genesis");
    let mut state = ValidationState::new(base);
    let kp = Scheme::Ed25519.generate(&[7u8; 32]);
    assert!(state.register_identity(kp.into_pubkey(), 5000));

    let good = make_block(&kp, 1, vec![base], vec![]);
    let mut blob = to_blob(&good);
    // Flip one bit inside the outer signature's signed-hash bytes (after
    // the scheme byte, before the fingerprint).
    blob[5] ^= 0x01;
    let bad: SignedBlock = from_slice(blob.as_slice()).unwrap();
    assert_eq!(
        state.add_block(bad),
        Err(ValidationError::SigError(SigVerificationError::KeyMismatch))
    );
}

#[test]
fn verify_block_and_find_key() {
    let base = Address::of_slice(b"genesis");
    let mut state = ValidationState::new(base);
    let kp = Scheme::Ed25519.generate(&[8u8; 32]);
    assert!(state.register_identity(kp.into_pubkey(), 5000));
    // A fingerprint can be registered only once.
    assert!(!state.register_identity(kp.into_pubkey(), 1));
    assert_eq!(state.find_key(kp.fingerprint()), Some(kp.into_pubkey()));

    let b = make_block(&kp, 1, vec![base], vec![]);
    assert_eq!(state.verify_block(b), Ok(()));

    let b2 = make_block(&kp, 2, vec![base], vec![]);
    assert_eq!(verify_signed_block(&mut state, b2), Ok(()));
}

#[test]
fn segment_cost_formula() {
    let decl = Segment::new(0, SegmentContent::IdentDecl(jiyunet::sig::Hash::of_slice(&[1])));
    assert_eq!(calc_segment_cost(&decl), 1000);
    let ptr = Segment::new(0, SegmentContent::ArtifactPointer(Address::of_slice(&[2])));
    assert_eq!(calc_segment_cost(&ptr), 50);
    let art = Segment::new(0, SegmentContent::Artifact(ArtifactData::new(9, vec![0u8; 123])));
    assert_eq!(calc_segment_cost(&art), 123);
}
