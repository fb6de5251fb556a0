//! Round-trip checks for the canonical codec over the ledger data model.

use jiyunet::artifact::ArtifactData;
use jiyunet::block::{Block, BlockHeader};
use jiyunet::codec::{from_slice, read_text, to_blob, write_text, BinaryComponent, Blob, PrefixWidth};
use jiyunet::segment::Segment;
use jiyunet::segment::SegmentContent::{Artifact, ArtifactPointer, IdentDecl};
use jiyunet::sig::{Scheme, Signed};
use jiyunet::Address;

fn round_trip<T: BinaryComponent>(t: &T) -> T {
    let blob = to_blob(t);
    from_slice::<T>(blob.as_slice()).unwrap()
}

#[test]
fn ck_blockheader_between_blob() {
    let header = BlockHeader::new(
        42,
        1337,
        jiyunet::sig::Hash::of_slice(&[1, 2, 3]),
        vec![],
    );
    assert_eq!(header, round_trip(&header));
}

#[test]
fn ck_block_between_blob() {
    let kp = Scheme::Ed25519.generate(&[7u8; 32]);
    let header = BlockHeader::new(
        42,
        1337,
        jiyunet::sig::Hash::of_slice(&[1, 2, 3]),
        vec![],
    );
    let block = Block::new(Signed::new(kp, header), vec![]);
    assert_eq!(block, round_trip(&block));
}

#[test]
fn comp_ck_segment_between_blob_1() {
    let seg = Segment::new(123456789, IdentDecl(jiyunet::sig::Hash::of_slice(&[1, 2, 3, 4])));
    assert_eq!(seg, round_trip(&seg));
}

#[test]
fn comp_ck_segment_between_blob_2() {
    let seg = Segment::new(19101004, Artifact(ArtifactData::new(42, vec![65, 66, 67, 68])));
    assert_eq!(seg, round_trip(&seg));
}

#[test]
fn comp_ck_segment_between_blob_3() {
    let seg = Segment::new(80, ArtifactPointer(Address::of_slice(&[1, 3, 3, 7])));
    assert_eq!(seg, round_trip(&seg));
}

#[test]
fn segment_ck_segment_between_blob_1() {
    let seg = Segment::new(123456789, IdentDecl(jiyunet::sig::Hash::of_slice(&[1, 2, 3, 4])));
    assert_eq!(seg, round_trip(&seg));
}

#[test]
fn segment_ck_segment_between_blob_2() {
    let seg = Segment::new(19101004, Artifact(ArtifactData::new(42, vec![65, 66, 67, 68])));
    assert_eq!(seg, round_trip(&seg));
}

#[test]
fn segment_ck_segment_between_blob_3() {
    let seg = Segment::new(80, ArtifactPointer(Address::of_slice(&[1, 3, 3, 7])));
    assert_eq!(seg, round_trip(&seg));
}

#[test]
fn signed_segment_round_trip() {
    let kp = Scheme::Ed25519.generate(&[9u8; 32]);
    let seg = Segment::new(5, Artifact(ArtifactData::new(7, vec![1, 2, 3])));
    let signed = Signed::new(kp, seg);
    assert_eq!(signed, round_trip(&signed));
}

#[test]
fn container_round_trip() {
    let cont = jiyunet::container::ArtifactContainer::new(
        3,
        99,
        ArtifactPointer(Address::of_slice(&[9])),
    );
    assert_eq!(cont, round_trip(&cont));
}

#[test]
fn known_layout_block_header() {
    // u32 version, i64 timestamp, 32-byte merkle root, u64 parent count.
    let header = BlockHeader::new(1, 2, jiyunet::sig::Hash::new([0xabu8; 32]), vec![]);
    let blob = to_blob(&header);
    assert_eq!(blob.len(), 4 + 8 + 32 + 8);
    assert_eq!(&blob[0..4], &[0, 0, 0, 1]);
    assert_eq!(&blob[4..12], &[0, 0, 0, 0, 0, 0, 0, 2]);
    assert_eq!(&blob[12..44], &[0xabu8; 32]);
    assert_eq!(&blob[44..52], &[0, 0, 0, 0, 0, 0, 0, 0]);
}

#[test]
fn truncated_input_is_rejected() {
    let seg = Segment::new(80, ArtifactPointer(Address::of_slice(&[1, 3, 3, 7])));
    let blob = to_blob(&seg);
    let cut = &blob[0..blob.len() - 1];
    assert!(from_slice::<Segment>(cut).is_err());
}

#[test]
fn unknown_tag_is_rejected() {
    let seg = Segment::new(80, ArtifactPointer(Address::of_slice(&[1, 3, 3, 7])));
    let mut blob = to_blob(&seg);
    // The tag byte of the segment content sits just after the timestamp.
    blob[8] = 0x07;
    assert!(from_slice::<Segment>(blob.as_slice()).is_err());
}

#[test]
fn blob_prefix_widths() {
    for width in [PrefixWidth::W8, PrefixWidth::W16, PrefixWidth::W32] {
        let b = Blob::new(width, vec![10, 20, 30]).unwrap();
        let mut out = Vec::new();
        b.encode_onto(&mut out);
        let expected_prefix = match width {
            PrefixWidth::W8 => 1,
            PrefixWidth::W16 => 2,
            PrefixWidth::W32 => 4,
        };
        assert_eq!(out.len(), expected_prefix + 3);
        let (back, end) = Blob::decode_from(out.as_slice(), 0, width).unwrap();
        assert_eq!(end, out.len());
        assert_eq!(back, b);
    }
    // A payload too long for the chosen width is refused.
    assert!(Blob::new(PrefixWidth::W8, vec![0u8; 300]).is_err());
}

#[test]
fn optional_values_round_trip() {
    let some: Option<Segment> = Some(Segment::new(
        4,
        IdentDecl(jiyunet::sig::Hash::of_slice(&[1])),
    ));
    assert_eq!(some, round_trip(&some));
    let nothing: Option<Segment> = None;
    assert_eq!(nothing, round_trip(&nothing));
}

#[test]
fn text_round_trip_and_utf8_rejection() {
    let mut out = Vec::new();
    write_text(&mut out, "jiyunet \u{8a18}\u{9332}");
    let (s, end) = read_text(out.as_slice(), 0).unwrap();
    assert_eq!(s, "jiyunet \u{8a18}\u{9332}");
    assert_eq!(end, out.len());

    // A length prefix followed by bytes that are not UTF-8 must be refused.
    let bad: Vec<u8> = vec![0, 0, 0, 0, 0, 0, 0, 2, 0xff, 0xfe];
    assert!(read_text(bad.as_slice(), 0).is_err());
}

#[test]
fn negative_timestamp_round_trip() {
    let seg = Segment::new(-123456789, IdentDecl(jiyunet::sig::Hash::of_slice(&[5])));
    assert_eq!(seg, round_trip(&seg));
}
