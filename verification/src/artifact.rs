//! Inline artifact payloads.

use vstd::prelude::*;

use crate::codec::{
    copy_bytes, dec_bytes, dec_u16, dec_u64, enc_u16, enc_u64, lemma_bytes_deep_view,
    lemma_concat_split, lemma_dec_enc_u16, lemma_dec_enc_u64, lemma_enc_dec_u16,
    lemma_enc_dec_u64, read_bytes, read_u16, read_u64, write_bytes, write_u16, write_u64,
    BinaryComponent, DecodeError,
};

verus! {

/// Inline payload carried on-chain.  The 16-bit code names the namespace and
/// subtype (`0xXXXY`: `X` namespace, `Y` subtype); the body's format is a
/// concern of higher layers, which is why it is opaque bytes here.
#[derive(Clone, PartialEq, Eq, Debug)]
pub struct ArtifactData {
    /// Artifact namespace/subtype code.
    pub spec_code: u16,
    /// Opaque payload bytes.
    pub body: Vec<u8>,
}

/// Model of an [`ArtifactData`].
pub ghost struct ArtifactDataV {
    pub spec_code: u16,
    pub body: Seq<u8>,
}

impl DeepView for ArtifactData {
    type V = ArtifactDataV;

    open spec fn deep_view(&self) -> ArtifactDataV {
        ArtifactDataV { spec_code: self.spec_code, body: self.body.deep_view() }
    }
}

impl ArtifactData {
    /// Creates an artifact payload.
    pub fn new(spec_code: u16, body: Vec<u8>) -> (r: ArtifactData)
        ensures
            r.deep_view() == (ArtifactDataV { spec_code, body: body@ }),
    {
        proof {
            lemma_bytes_deep_view(&body);
        }
        ArtifactData { spec_code, body }
    }

    /// A deep copy of this payload.
    pub fn dup(&self) -> (r: ArtifactData)
        ensures
            r.deep_view() == self.deep_view(),
    {
        proof {
            lemma_bytes_deep_view(&self.body);
        }
        ArtifactData::new(self.spec_code, copy_bytes(self.body.as_slice()))
    }
}

/// Canonical encoding of an artifact model: the 16-bit code, then the body
/// behind a 64-bit length prefix.  The 64-bit width is fixed here as a
/// protocol constant.
pub open spec fn enc_artifact_data(v: ArtifactDataV) -> Seq<u8> {
    enc_u16(v.spec_code) + enc_u64(v.body.len() as u64) + v.body
}

impl BinaryComponent for ArtifactData {
    open spec fn enc_of(v: ArtifactDataV) -> Seq<u8> {
        enc_artifact_data(v)
    }

    open spec fn v_wf(v: ArtifactDataV) -> bool {
        v.body.len() <= u64::MAX
    }

    open spec fn dec_at(s: Seq<u8>, i: int) -> Option<(ArtifactDataV, int)> {
        match dec_u16(s, i) {
            Some((code, j)) => match dec_u64(s, j) {
                Some((n, j2)) => match dec_bytes(s, j2, n as int) {
                    Some((b, e)) => Some((ArtifactDataV { spec_code: code, body: b }, e)),
                    None => None,
                },
                None => None,
            },
            None => None,
        }
    }

    proof fn lemma_view_wf(&self) {
        vstd::std_specs::vec::axiom_spec_len(&self.body);
        assert(self.body.deep_view().len() == self.body@.len());
    }

    proof fn lemma_dec_sound(s: Seq<u8>, i: int) {
        crate::codec::lemma_enc_dec_u16(s, i);
        match dec_u16(s, i) {
            Some((code, j)) => {
                crate::codec::lemma_enc_dec_u64(s, j);
                match dec_u64(s, j) {
                    Some((n, j2)) => match dec_bytes(s, j2, n as int) {
                        Some((b, e)) => {
                            assert(Self::enc_of(ArtifactDataV { spec_code: code, body: b })
                                =~= s.subrange(i, e)) by {
                                assert(enc_u16(code) == s.subrange(i, j));
                                assert(enc_u64(n) == s.subrange(j, j2));
                                assert(b == s.subrange(j2, e));
                                assert(b.len() == n);
                            }
                        },
                        None => {},
                    },
                    None => {},
                }
            },
            None => {},
        }
    }

    proof fn lemma_dec_complete(w: ArtifactDataV, s: Seq<u8>, i: int) {
        let a = enc_u16(w.spec_code);
        let b = enc_u64(w.body.len() as u64);
        let c = w.body;
        assert(Self::enc_of(w) =~= (a + b) + c);
        lemma_concat_split(s, i, a + b, c);
        lemma_concat_split(s, i, a, b);
        lemma_dec_enc_u16(w.spec_code, s, i);
        lemma_dec_enc_u64(w.body.len() as u64, s, i + 2);
        assert(dec_bytes(s, i + 10, c.len() as int) == Some::<(Seq<u8>, int)>(
            (c, i + 10 + c.len()),
        ));
    }

    fn encode_onto(&self, out: &mut Vec<u8>) {
        write_u16(out, self.spec_code);
        write_u64(out, self.body.len() as u64);
        write_bytes(out, self.body.as_slice());
        proof {
            lemma_bytes_deep_view(&self.body);
            assert(out@ =~= old(out)@ + Self::enc_of(self.deep_view()));
        }
    }

    fn decode_from(s: &[u8], i: usize) -> (r: Result<(Self, usize), DecodeError>) {
        match read_u16(s, i) {
            Ok((code, j)) => match read_u64(s, j) {
                Ok((n, j2)) => {
                    let m = s.len();
                    if n <= m as u64 {
                        match read_bytes(s, j2, n as usize) {
                            Ok((b, e)) => {
                                proof {
                                    lemma_bytes_deep_view(&b);
                                }
                                Ok((ArtifactData { spec_code: code, body: b }, e))
                            },
                            Err(e) => Err(e),
                        }
                    } else {
                        proof {
                            assert(j2 + n > s@.len());
                            assert(dec_bytes(s@, j2 as int, n as int) is None);
                        }
                        Err(DecodeError)
                    }
                },
                Err(e) => Err(e),
            },
            Err(e) => Err(e),
        }
    }
}

} // verus!
