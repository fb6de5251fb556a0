//! Segments: the timestamped payload units carried inside a block.

use vstd::prelude::*;

use crate::artifact::{enc_artifact_data, ArtifactData, ArtifactDataV};
use crate::codec::{
    dec_bytes, dec_i64, dec_u8, enc_i64, enc_u8, lemma_concat_split, lemma_dec_enc_i64,
    lemma_enc_dec_i64, read_i64, read_u8, write_i64, write_u8, BinaryComponent, DecodeError,
};
use crate::Address;

verus! {

/// Any kind of data that can be stored in a segment.
///
/// * `IdentDecl` declares an identity on the network.
/// * `Artifact` carries an on-chain payload inline.
/// * `ArtifactPointer` points to an artifact container stored off-chain.
#[derive(Clone, PartialEq, Eq, Debug)]
pub enum SegmentContent {
    IdentDecl(crate::sig::Hash),
    Artifact(ArtifactData),
    ArtifactPointer(Address),
}

/// Model of a [`SegmentContent`].
pub ghost enum SegmentContentV {
    IdentDecl(Seq<u8>),
    Artifact(ArtifactDataV),
    ArtifactPointer(Seq<u8>),
}

impl DeepView for SegmentContent {
    type V = SegmentContentV;

    open spec fn deep_view(&self) -> SegmentContentV {
        match self {
            SegmentContent::IdentDecl(h) => SegmentContentV::IdentDecl(h.deep_view()),
            SegmentContent::Artifact(ad) => SegmentContentV::Artifact(ad.deep_view()),
            SegmentContent::ArtifactPointer(a) => SegmentContentV::ArtifactPointer(a.deep_view()),
        }
    }
}

impl SegmentContent {
    /// A deep copy of this content.
    pub fn dup(&self) -> (r: SegmentContent)
        ensures
            r.deep_view() == self.deep_view(),
    {
        match self {
            SegmentContent::IdentDecl(h) => SegmentContent::IdentDecl(*h),
            SegmentContent::Artifact(ad) => SegmentContent::Artifact(ad.dup()),
            SegmentContent::ArtifactPointer(a) => SegmentContent::ArtifactPointer(*a),
        }
    }
}

/// Canonical encoding of segment content: one tag byte, then the variant
/// payload.  Tags: `0x00` identity declaration, `0x01` inline artifact,
/// `0x02` artifact pointer; any other tag is a decode error.
pub open spec fn enc_segment_content(v: SegmentContentV) -> Seq<u8> {
    match v {
        SegmentContentV::IdentDecl(h) => seq![0x00u8] + h,
        SegmentContentV::Artifact(ad) => seq![0x01u8] + enc_artifact_data(ad),
        SegmentContentV::ArtifactPointer(a) => seq![0x02u8] + a,
    }
}

impl BinaryComponent for SegmentContent {
    open spec fn enc_of(v: SegmentContentV) -> Seq<u8> {
        enc_segment_content(v)
    }

    open spec fn v_wf(v: SegmentContentV) -> bool {
        match v {
            SegmentContentV::IdentDecl(h) => h.len() == 32,
            SegmentContentV::Artifact(ad) => <ArtifactData as BinaryComponent>::v_wf(ad),
            SegmentContentV::ArtifactPointer(a) => a.len() == 32,
        }
    }

    open spec fn dec_at(s: Seq<u8>, i: int) -> Option<(SegmentContentV, int)> {
        match dec_u8(s, i) {
            Some((tag, j)) => if tag == 0x00 {
                match dec_bytes(s, j, 32) {
                    Some((h, e)) => Some((SegmentContentV::IdentDecl(h), e)),
                    None => None,
                }
            } else if tag == 0x01 {
                match <ArtifactData as BinaryComponent>::dec_at(s, j) {
                    Some((ad, e)) => Some((SegmentContentV::Artifact(ad), e)),
                    None => None,
                }
            } else if tag == 0x02 {
                match dec_bytes(s, j, 32) {
                    Some((a, e)) => Some((SegmentContentV::ArtifactPointer(a), e)),
                    None => None,
                }
            } else {
                None
            },
            None => None,
        }
    }

    proof fn lemma_view_wf(&self) {
        match self {
            SegmentContent::IdentDecl(h) => {},
            SegmentContent::Artifact(ad) => {
                ad.lemma_view_wf();
            },
            SegmentContent::ArtifactPointer(a) => {},
        }
    }

    proof fn lemma_dec_sound(s: Seq<u8>, i: int) {
        match dec_u8(s, i) {
            Some((tag, j)) => {
                if tag == 0x01 {
                    <ArtifactData as BinaryComponent>::lemma_dec_sound(s, j);
                    match <ArtifactData as BinaryComponent>::dec_at(s, j) {
                        Some((ad, e)) => {
                            assert(Self::enc_of(SegmentContentV::Artifact(ad)) =~= s.subrange(
                                i,
                                e,
                            )) by {
                                assert(enc_artifact_data(ad) == s.subrange(j, e));
                            }
                        },
                        None => {},
                    }
                } else {
                    match Self::dec_at(s, i) {
                        Some((w, e)) => {
                            assert(Self::enc_of(w) =~= s.subrange(i, e));
                        },
                        None => {},
                    }
                }
            },
            None => {},
        }
    }

    proof fn lemma_dec_complete(w: SegmentContentV, s: Seq<u8>, i: int) {
        match w {
            SegmentContentV::IdentDecl(h) => {
                lemma_concat_split(s, i, seq![0x00u8], h);
                assert(s[i] == seq![0x00u8][0]);
                assert(dec_bytes(s, i + 1, 32) == Some::<(Seq<u8>, int)>((h, i + 33)));
            },
            SegmentContentV::Artifact(ad) => {
                lemma_concat_split(s, i, seq![0x01u8], enc_artifact_data(ad));
                assert(s[i] == seq![0x01u8][0]);
                <ArtifactData as BinaryComponent>::lemma_dec_complete(ad, s, i + 1);
            },
            SegmentContentV::ArtifactPointer(a) => {
                lemma_concat_split(s, i, seq![0x02u8], a);
                assert(s[i] == seq![0x02u8][0]);
                assert(dec_bytes(s, i + 1, 32) == Some::<(Seq<u8>, int)>((a, i + 33)));
            },
        }
    }

    fn encode_onto(&self, out: &mut Vec<u8>) {
        match self {
            SegmentContent::IdentDecl(h) => {
                write_u8(out, 0x00);
                h.encode_onto(out);
            },
            SegmentContent::Artifact(ad) => {
                write_u8(out, 0x01);
                ad.encode_onto(out);
            },
            SegmentContent::ArtifactPointer(a) => {
                write_u8(out, 0x02);
                a.encode_onto(out);
            },
        }
        assert(out@ =~= old(out)@ + Self::enc_of(self.deep_view()));
    }

    fn decode_from(s: &[u8], i: usize) -> (r: Result<(Self, usize), DecodeError>) {
        match read_u8(s, i) {
            Ok((tag, j)) => {
                if tag == 0x00 {
                    match crate::sig::Hash::decode_from(s, j) {
                        Ok((h, e)) => Ok((SegmentContent::IdentDecl(h), e)),
                        Err(e) => Err(e),
                    }
                } else if tag == 0x01 {
                    match ArtifactData::decode_from(s, j) {
                        Ok((ad, e)) => Ok((SegmentContent::Artifact(ad), e)),
                        Err(e) => Err(e),
                    }
                } else if tag == 0x02 {
                    match Address::decode_from(s, j) {
                        Ok((a, e)) => Ok((SegmentContent::ArtifactPointer(a), e)),
                        Err(e) => Err(e),
                    }
                } else {
                    Err(DecodeError)
                }
            },
            Err(e) => Err(e),
        }
    }
}

/// A timestamped unit of payload.  Segments live inside blocks, wrapped in a
/// `Signed<Segment>`.
#[derive(Clone, PartialEq, Eq, Debug)]
pub struct Segment {
    /// Millisecond UNIX time.
    pub timestamp: i64,
    /// The payload.
    pub content: SegmentContent,
}

/// Model of a [`Segment`].
pub ghost struct SegmentV {
    pub timestamp: i64,
    pub content: SegmentContentV,
}

impl DeepView for Segment {
    type V = SegmentV;

    open spec fn deep_view(&self) -> SegmentV {
        SegmentV { timestamp: self.timestamp, content: self.content.deep_view() }
    }
}

impl Segment {
    /// Creates a segment.
    pub fn new(timestamp: i64, content: SegmentContent) -> (r: Segment)
        ensures
            r.deep_view() == (SegmentV { timestamp, content: content.deep_view() }),
    {
        Segment { timestamp, content }
    }

    /// The segment's payload.
    pub fn content(&self) -> (r: SegmentContent)
        ensures
            r.deep_view() == self.deep_view().content,
    {
        self.content.dup()
    }
}

/// Canonical encoding of a segment model: the timestamp, then the content.
pub open spec fn enc_segment(v: SegmentV) -> Seq<u8> {
    enc_i64(v.timestamp) + enc_segment_content(v.content)
}

impl BinaryComponent for Segment {
    open spec fn enc_of(v: SegmentV) -> Seq<u8> {
        enc_segment(v)
    }

    open spec fn v_wf(v: SegmentV) -> bool {
        <SegmentContent as BinaryComponent>::v_wf(v.content)
    }

    open spec fn dec_at(s: Seq<u8>, i: int) -> Option<(SegmentV, int)> {
        match dec_i64(s, i) {
            Some((ts, j)) => match <SegmentContent as BinaryComponent>::dec_at(s, j) {
                Some((c, e)) => Some((SegmentV { timestamp: ts, content: c }, e)),
                None => None,
            },
            None => None,
        }
    }

    proof fn lemma_view_wf(&self) {
        self.content.lemma_view_wf();
    }

    proof fn lemma_dec_sound(s: Seq<u8>, i: int) {
        lemma_enc_dec_i64(s, i);
        match dec_i64(s, i) {
            Some((ts, j)) => {
                <SegmentContent as BinaryComponent>::lemma_dec_sound(s, j);
                match <SegmentContent as BinaryComponent>::dec_at(s, j) {
                    Some((c, e)) => {
                        assert(Self::enc_of(SegmentV { timestamp: ts, content: c }) =~= s.subrange(
                            i,
                            e,
                        )) by {
                            assert(enc_i64(ts) == s.subrange(i, j));
                            assert(enc_segment_content(c) == s.subrange(j, e));
                        }
                    },
                    None => {},
                }
            },
            None => {},
        }
    }

    proof fn lemma_dec_complete(w: SegmentV, s: Seq<u8>, i: int) {
        let a = enc_i64(w.timestamp);
        let b = enc_segment_content(w.content);
        lemma_concat_split(s, i, a, b);
        lemma_dec_enc_i64(w.timestamp, s, i);
        <SegmentContent as BinaryComponent>::lemma_dec_complete(w.content, s, i + 8);
    }

    fn encode_onto(&self, out: &mut Vec<u8>) {
        write_i64(out, self.timestamp);
        self.content.encode_onto(out);
        assert(out@ =~= old(out)@ + Self::enc_of(self.deep_view()));
    }

    fn decode_from(s: &[u8], i: usize) -> (r: Result<(Self, usize), DecodeError>) {
        match read_i64(s, i) {
            Ok((ts, j)) => match SegmentContent::decode_from(s, j) {
                Ok((c, e)) => Ok((Segment { timestamp: ts, content: c }, e)),
                Err(e) => Err(e),
            },
            Err(e) => Err(e),
        }
    }
}

} // verus!
