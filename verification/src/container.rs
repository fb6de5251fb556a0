//! Off-chain artifact containers.

use vstd::prelude::*;

use crate::codec::{
    dec_i64, dec_u32, enc_i64, enc_u32, lemma_concat_split, lemma_dec_enc_i64, lemma_dec_enc_u32,
    lemma_enc_dec_i64, lemma_enc_dec_u32, read_i64, read_u32, write_i64, write_u32,
    BinaryComponent, DecodeError,
};
use crate::block::DagNode;
use crate::segment::{enc_segment_content, SegmentContent, SegmentContentV};
use crate::sig::{Signed, SignedV};

verus! {

/// A signed off-chain container: how containers travel and are stored.
pub type SignedArtifactContainer = Signed<ArtifactContainer>;

/// The off-chain artifact wrapper.  A container carries segment content of
/// its own, so a container's content may itself be an artifact pointer,
/// chaining containers indefinitely.
#[derive(Clone, PartialEq, Eq, Debug)]
pub struct ArtifactContainer {
    /// Version identifier.
    pub version: u32,
    /// Millisecond UNIX time.
    pub timestamp: i64,
    /// The carried content.
    pub content: SegmentContent,
}

/// Model of an [`ArtifactContainer`].
pub ghost struct ArtifactContainerV {
    pub version: u32,
    pub timestamp: i64,
    pub content: SegmentContentV,
}

impl DeepView for ArtifactContainer {
    type V = ArtifactContainerV;

    open spec fn deep_view(&self) -> ArtifactContainerV {
        ArtifactContainerV {
            version: self.version,
            timestamp: self.timestamp,
            content: self.content.deep_view(),
        }
    }
}

impl ArtifactContainer {
    /// Creates a container.
    pub fn new(version: u32, timestamp: i64, content: SegmentContent) -> (r: ArtifactContainer)
        ensures
            r.deep_view() == (ArtifactContainerV {
                version,
                timestamp,
                content: content.deep_view(),
            }),
    {
        ArtifactContainer { version, timestamp, content }
    }
}

/// Canonical encoding of a container model: version, timestamp, content.
pub open spec fn enc_artifact_container(v: ArtifactContainerV) -> Seq<u8> {
    enc_u32(v.version) + enc_i64(v.timestamp) + enc_segment_content(v.content)
}

impl BinaryComponent for ArtifactContainer {
    open spec fn enc_of(v: ArtifactContainerV) -> Seq<u8> {
        enc_artifact_container(v)
    }

    open spec fn v_wf(v: ArtifactContainerV) -> bool {
        <SegmentContent as BinaryComponent>::v_wf(v.content)
    }

    open spec fn dec_at(s: Seq<u8>, i: int) -> Option<(ArtifactContainerV, int)> {
        match dec_u32(s, i) {
            Some((ver, j)) => match dec_i64(s, j) {
                Some((ts, j2)) => match <SegmentContent as BinaryComponent>::dec_at(s, j2) {
                    Some((c, e)) => Some(
                        (ArtifactContainerV { version: ver, timestamp: ts, content: c }, e),
                    ),
                    None => None,
                },
                None => None,
            },
            None => None,
        }
    }

    proof fn lemma_view_wf(&self) {
        self.content.lemma_view_wf();
    }

    proof fn lemma_dec_sound(s: Seq<u8>, i: int) {
        lemma_enc_dec_u32(s, i);
        match dec_u32(s, i) {
            Some((ver, j)) => {
                lemma_enc_dec_i64(s, j);
                match dec_i64(s, j) {
                    Some((ts, j2)) => {
                        <SegmentContent as BinaryComponent>::lemma_dec_sound(s, j2);
                        match <SegmentContent as BinaryComponent>::dec_at(s, j2) {
                            Some((c, e)) => {
                                let w = ArtifactContainerV {
                                    version: ver,
                                    timestamp: ts,
                                    content: c,
                                };
                                assert(Self::enc_of(w) =~= s.subrange(i, e)) by {
                                    assert(enc_u32(ver) == s.subrange(i, j));
                                    assert(enc_i64(ts) == s.subrange(j, j2));
                                    assert(enc_segment_content(c) == s.subrange(j2, e));
                                }
                            },
                            None => {},
                        }
                    },
                    None => {},
                }
            },
            None => {},
        }
    }

    proof fn lemma_dec_complete(w: ArtifactContainerV, s: Seq<u8>, i: int) {
        let a = enc_u32(w.version);
        let b = enc_i64(w.timestamp);
        let c = enc_segment_content(w.content);
        assert(Self::enc_of(w) =~= (a + b) + c);
        lemma_concat_split(s, i, a + b, c);
        lemma_concat_split(s, i, a, b);
        lemma_dec_enc_u32(w.version, s, i);
        lemma_dec_enc_i64(w.timestamp, s, i + 4);
        <SegmentContent as BinaryComponent>::lemma_dec_complete(w.content, s, i + 12);
    }

    fn encode_onto(&self, out: &mut Vec<u8>) {
        write_u32(out, self.version);
        write_i64(out, self.timestamp);
        self.content.encode_onto(out);
        assert(out@ =~= old(out)@ + Self::enc_of(self.deep_view()));
    }

    fn decode_from(s: &[u8], i: usize) -> (r: Result<(Self, usize), DecodeError>) {
        match read_u32(s, i) {
            Ok((ver, j)) => match read_i64(s, j) {
                Ok((ts, j2)) => match SegmentContent::decode_from(s, j2) {
                    Ok((c, e)) => Ok(
                        (ArtifactContainer { version: ver, timestamp: ts, content: c }, e),
                    ),
                    Err(e) => Err(e),
                },
                Err(e) => Err(e),
            },
            Err(e) => Err(e),
        }
    }
}

impl DagNode for Signed<ArtifactContainer> {
    open spec fn spec_version(&self) -> u32 {
        self.deep_view().body.version
    }

    open spec fn spec_timestamp(&self) -> i64 {
        self.deep_view().body.timestamp
    }

    fn version(&self) -> (r: u32) {
        self.body().version
    }

    fn timestamp(&self) -> (r: i64) {
        self.body().timestamp
    }
}

} // verus!
