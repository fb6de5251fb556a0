//! Checks of the signing and verification layer.

use jiyunet::codec::{from_slice, to_blob};
use jiyunet::segment::Segment;
use jiyunet::segment::SegmentContent::IdentDecl;
use jiyunet::sig::{verify, verify_signed, Scheme, SigVerificationError, Signed};

#[test]
fn sign_and_verify_round_trip() {
    // Generate a keypair from a fixed seed, sign a hash, verify with the
    // matching public key; verification under another key must fail with a
    // key mismatch.
    let seed = [0x5au8; 32];
    let kp = Scheme::Ed25519.generate(&seed);
    let h = jiyunet::sig::Hash::of_slice(&[0x41, 0x42]);
    let sig = kp.sign(h);
    let vk = kp.into_pubkey();
    assert_eq!(verify(sig, vk, &h.into_array()), Ok(()));

    let other = Scheme::Ed25519.generate(&[0x11u8; 32]);
    let wrong_vk = other.into_pubkey();
    assert_eq!(
        verify(sig, wrong_vk, &h.into_array()),
        Err(SigVerificationError::KeyMismatch)
    );
}

#[test]
fn keypair_is_deterministic_in_the_seed() {
    let a = Scheme::Ed25519.generate(&[3u8; 48]);
    let b = Scheme::Ed25519.generate(&[3u8; 48]);
    assert_eq!(a, b);
    assert_eq!(a.fingerprint(), b.fingerprint());
}

#[test]
fn verify_signed_accepts_the_signer() {
    let kp = Scheme::Ed25519.generate(&[1u8; 32]);
    let seg = Segment::new(44, IdentDecl(jiyunet::sig::Hash::of_slice(&[9])));
    let signed = Signed::new(kp, seg);
    assert_eq!(verify_signed(&signed, kp.into_pubkey()), Ok(()));
}

#[test]
fn verify_signed_rejects_a_substituted_key() {
    let kp = Scheme::Ed25519.generate(&[1u8; 32]);
    let other = Scheme::Ed25519.generate(&[2u8; 32]);
    let seg = Segment::new(44, IdentDecl(jiyunet::sig::Hash::of_slice(&[9])));
    let signed = Signed::new(kp, seg);
    // The embedded fingerprint no longer matches the key offered.
    assert_eq!(
        verify_signed(&signed, other.into_pubkey()),
        Err(SigVerificationError::FingerprintMismatch)
    );
}

#[test]
fn tampered_body_never_verifies_as_the_original() {
    // Flipping any single byte of a signed blob's body either breaks
    // decoding, changes the decoded value (and hence its content address),
    // or breaks signature verification.
    let kp = Scheme::Ed25519.generate(&[8u8; 32]);
    let seg = Segment::new(1000, IdentDecl(jiyunet::sig::Hash::of_slice(&[1, 2])));
    let signed = Signed::new(kp, seg);
    let blob = to_blob(&signed);
    let original_addr = jiyunet::Address::of_slice(blob.as_slice());
    // The body starts after the 97-byte signature encoding.
    for k in 97..blob.len() {
        let mut tampered = blob.clone();
        tampered[k] ^= 0x01;
        match from_slice::<Signed<Segment>>(tampered.as_slice()) {
            Err(_) => {},
            Ok(decoded) => {
                assert_ne!(decoded, signed);
                assert_ne!(
                    jiyunet::Address::of_slice(tampered.as_slice()),
                    original_addr
                );
                assert!(verify_signed(&decoded, kp.into_pubkey()).is_err());
            },
        }
    }
}
