//! Blocks: the DAG nodes, made of a signed header and signed segments.

use vstd::prelude::*;

use crate::codec::{
    dec_bytes, dec_i64, dec_u32, enc_i64, enc_u32, lemma_concat_split, lemma_dec_enc_i64,
    lemma_dec_enc_u32, lemma_enc_dec_i64, lemma_enc_dec_u32, read_i64, read_u32, write_i64,
    write_u32, BinaryComponent, DecodeError,
};
use crate::segment::{Segment, SegmentV};
use crate::sig::{Signed, SignedV};
use crate::Address;

verus! {

/// A signed block: the unit actually exchanged on the network.
pub type SignedBlock = Signed<Block>;

/// A standalone node of the DAG.
pub trait DagNode: BinaryComponent {
    /// The node's version identifier, at the specification level.
    spec fn spec_version(&self) -> u32;

    /// The node's millisecond UNIX timestamp, at the specification level.
    spec fn spec_timestamp(&self) -> i64;

    /// Version identifier.
    fn version(&self) -> (r: u32)
        ensures
            r == self.spec_version(),
    ;

    /// Millisecond UNIX time.
    fn timestamp(&self) -> (r: i64)
        ensures
            r == self.spec_timestamp(),
    ;
}

/// Block header: the lightweight piece passed around for coordinating
/// validation.  Signed, it commits to the segments through their merkle root
/// and to the block's position through its parent addresses.
#[derive(Clone, PartialEq, Eq, Debug)]
pub struct BlockHeader {
    /// Version identifier.
    pub version: u32,
    /// Millisecond UNIX time.
    pub timestamp: i64,
    /// The merkle root of the segments in the block.
    pub merkle_root: crate::sig::Hash,
    /// The addresses of the immediate parent blocks.
    pub parents: Vec<Address>,
}

/// Model of a [`BlockHeader`].
pub ghost struct BlockHeaderV {
    pub version: u32,
    pub timestamp: i64,
    pub merkle_root: Seq<u8>,
    pub parents: Seq<Seq<u8>>,
}

impl DeepView for BlockHeader {
    type V = BlockHeaderV;

    open spec fn deep_view(&self) -> BlockHeaderV {
        BlockHeaderV {
            version: self.version,
            timestamp: self.timestamp,
            merkle_root: self.merkle_root.deep_view(),
            parents: self.parents.deep_view(),
        }
    }
}

impl BlockHeader {
    /// Creates a header.
    pub fn new(version: u32, timestamp: i64, merkle_root: crate::sig::Hash, parents: Vec<Address>)
        -> (r: BlockHeader)
        ensures
            r.deep_view() == (BlockHeaderV {
                version,
                timestamp,
                merkle_root: merkle_root@,
                parents: parents.deep_view(),
            }),
    {
        BlockHeader { version, timestamp, merkle_root, parents }
    }

    /// A copy of the parent addresses.
    pub fn parents(&self) -> (r: Vec<Address>)
        ensures
            r.deep_view() == self.deep_view().parents,
            r@ == self.parents@,
    {
        let n = self.parents.len();
        let mut out: Vec<Address> = Vec::new();
        let mut k: usize = 0;
        while k < n
            invariant
                k <= n,
                n == self.parents@.len(),
                out@ == self.parents@.subrange(0, k as int),
            decreases n - k,
        {
            out.push(self.parents[k]);
            assert(out@ =~= self.parents@.subrange(0, k + 1 as int));
            k = k + 1;
        }
        assert(self.parents@.subrange(0, n as int) =~= self.parents@);
        assert(out.deep_view() =~= self.deep_view().parents);
        out
    }
}

/// Canonical encoding of a header model: version, timestamp, merkle root,
/// then the parent addresses behind a 64-bit count.
pub open spec fn enc_block_header(v: BlockHeaderV) -> Seq<u8> {
    enc_u32(v.version) + enc_i64(v.timestamp) + v.merkle_root + <Vec<Address> as BinaryComponent>::enc_of(
        v.parents,
    )
}

impl BinaryComponent for BlockHeader {
    open spec fn enc_of(v: BlockHeaderV) -> Seq<u8> {
        enc_block_header(v)
    }

    open spec fn v_wf(v: BlockHeaderV) -> bool {
        v.merkle_root.len() == 32 && <Vec<Address> as BinaryComponent>::v_wf(v.parents)
    }

    open spec fn dec_at(s: Seq<u8>, i: int) -> Option<(BlockHeaderV, int)> {
        match dec_u32(s, i) {
            Some((ver, j)) => match dec_i64(s, j) {
                Some((ts, j2)) => match dec_bytes(s, j2, 32) {
                    Some((mr, j3)) => match <Vec<Address> as BinaryComponent>::dec_at(s, j3) {
                        Some((ps, e)) => Some(
                            (
                                BlockHeaderV {
                                    version: ver,
                                    timestamp: ts,
                                    merkle_root: mr,
                                    parents: ps,
                                },
                                e,
                            ),
                        ),
                        None => None,
                    },
                    None => None,
                },
                None => None,
            },
            None => None,
        }
    }

    proof fn lemma_view_wf(&self) {
        self.parents.lemma_view_wf();
    }

    proof fn lemma_dec_sound(s: Seq<u8>, i: int) {
        lemma_enc_dec_u32(s, i);
        match dec_u32(s, i) {
            Some((ver, j)) => {
                lemma_enc_dec_i64(s, j);
                match dec_i64(s, j) {
                    Some((ts, j2)) => match dec_bytes(s, j2, 32) {
                        Some((mr, j3)) => {
                            <Vec<Address> as BinaryComponent>::lemma_dec_sound(s, j3);
                            match <Vec<Address> as BinaryComponent>::dec_at(s, j3) {
                                Some((ps, e)) => {
                                    let w = BlockHeaderV {
                                        version: ver,
                                        timestamp: ts,
                                        merkle_root: mr,
                                        parents: ps,
                                    };
                                    assert(Self::enc_of(w) =~= s.subrange(i, e)) by {
                                        assert(enc_u32(ver) == s.subrange(i, j));
                                        assert(enc_i64(ts) == s.subrange(j, j2));
                                        assert(mr == s.subrange(j2, j3));
                                        assert(<Vec<Address> as BinaryComponent>::enc_of(ps)
                                            == s.subrange(j3, e));
                                    }
                                },
                                None => {},
                            }
                        },
                        None => {},
                    },
                    None => {},
                }
            },
            None => {},
        }
    }

    proof fn lemma_dec_complete(w: BlockHeaderV, s: Seq<u8>, i: int) {
        let a = enc_u32(w.version);
        let b = enc_i64(w.timestamp);
        let c = w.merkle_root;
        let d = <Vec<Address> as BinaryComponent>::enc_of(w.parents);
        assert(Self::enc_of(w) =~= ((a + b) + c) + d);
        lemma_concat_split(s, i, (a + b) + c, d);
        lemma_concat_split(s, i, a + b, c);
        lemma_concat_split(s, i, a, b);
        lemma_dec_enc_u32(w.version, s, i);
        lemma_dec_enc_i64(w.timestamp, s, i + 4);
        assert(dec_bytes(s, i + 12, 32) == Some::<(Seq<u8>, int)>((c, i + 44)));
        <Vec<Address> as BinaryComponent>::lemma_dec_complete(w.parents, s, i + 44);
    }

    fn encode_onto(&self, out: &mut Vec<u8>) {
        write_u32(out, self.version);
        write_i64(out, self.timestamp);
        self.merkle_root.encode_onto(out);
        self.parents.encode_onto(out);
        assert(out@ =~= old(out)@ + Self::enc_of(self.deep_view()));
    }

    fn decode_from(s: &[u8], i: usize) -> (r: Result<(Self, usize), DecodeError>) {
        match read_u32(s, i) {
            Ok((ver, j)) => match read_i64(s, j) {
                Ok((ts, j2)) => match crate::sig::Hash::decode_from(s, j2) {
                    Ok((mr, j3)) => match Vec::<Address>::decode_from(s, j3) {
                        Ok((ps, e)) => Ok(
                            (
                                BlockHeader {
                                    version: ver,
                                    timestamp: ts,
                                    merkle_root: mr,
                                    parents: ps,
                                },
                                e,
                            ),
                        ),
                        Err(e) => Err(e),
                    },
                    Err(e) => Err(e),
                },
                Err(e) => Err(e),
            },
            Err(e) => Err(e),
        }
    }
}

/// Main type of node on the DAG: a signed header and the signed segments the
/// header commits to.
#[derive(Clone, PartialEq, Eq, Debug)]
pub struct Block(pub Signed<BlockHeader>, pub Vec<Signed<Segment>>);

/// Model of a [`Block`].
pub ghost struct BlockV {
    pub header: SignedV<BlockHeaderV>,
    pub segments: Seq<SignedV<SegmentV>>,
}

impl DeepView for Block {
    type V = BlockV;

    open spec fn deep_view(&self) -> BlockV {
        BlockV { header: self.0.deep_view(), segments: self.1.deep_view() }
    }
}

impl Block {
    /// Creates a block from its signed header and signed segments.
    pub fn new(header: Signed<BlockHeader>, segments: Vec<Signed<Segment>>) -> (r: Block)
        ensures
            r.deep_view() == (BlockV {
                header: header.deep_view(),
                segments: segments.deep_view(),
            }),
    {
        Block(header, segments)
    }

    /// The signed header.
    pub fn get_header(&self) -> (r: &Signed<BlockHeader>)
        ensures
            r.deep_view() == self.deep_view().header,
    {
        &self.0
    }

    /// The signed segments.
    pub fn get_segments(&self) -> (r: &Vec<Signed<Segment>>)
        ensures
            r.deep_view() == self.deep_view().segments,
    {
        &self.1
    }
}

impl BinaryComponent for Block {
    /// The signed header's encoding, then the signed segments behind a
    /// 64-bit count.
    open spec fn enc_of(v: BlockV) -> Seq<u8> {
        <Signed<BlockHeader> as BinaryComponent>::enc_of(v.header) + <Vec<
            Signed<Segment>,
        > as BinaryComponent>::enc_of(v.segments)
    }

    open spec fn v_wf(v: BlockV) -> bool {
        <Signed<BlockHeader> as BinaryComponent>::v_wf(v.header) && <Vec<
            Signed<Segment>,
        > as BinaryComponent>::v_wf(v.segments)
    }

    open spec fn dec_at(s: Seq<u8>, i: int) -> Option<(BlockV, int)> {
        match <Signed<BlockHeader> as BinaryComponent>::dec_at(s, i) {
            Some((h, j)) => match <Vec<Signed<Segment>> as BinaryComponent>::dec_at(s, j) {
                Some((segs, e)) => Some((BlockV { header: h, segments: segs }, e)),
                None => None,
            },
            None => None,
        }
    }

    proof fn lemma_view_wf(&self) {
        self.0.lemma_view_wf();
        self.1.lemma_view_wf();
    }

    proof fn lemma_dec_sound(s: Seq<u8>, i: int) {
        <Signed<BlockHeader> as BinaryComponent>::lemma_dec_sound(s, i);
        match <Signed<BlockHeader> as BinaryComponent>::dec_at(s, i) {
            Some((h, j)) => {
                <Vec<Signed<Segment>> as BinaryComponent>::lemma_dec_sound(s, j);
                match <Vec<Signed<Segment>> as BinaryComponent>::dec_at(s, j) {
                    Some((segs, e)) => {
                        assert(Self::enc_of(BlockV { header: h, segments: segs }) =~= s.subrange(
                            i,
                            e,
                        )) by {
                            assert(<Signed<BlockHeader> as BinaryComponent>::enc_of(h)
                                == s.subrange(i, j));
                            assert(<Vec<Signed<Segment>> as BinaryComponent>::enc_of(segs)
                                == s.subrange(j, e));
                        }
                    },
                    None => {},
                }
            },
            None => {},
        }
    }

    proof fn lemma_dec_complete(w: BlockV, s: Seq<u8>, i: int) {
        let a = <Signed<BlockHeader> as BinaryComponent>::enc_of(w.header);
        let b = <Vec<Signed<Segment>> as BinaryComponent>::enc_of(w.segments);
        lemma_concat_split(s, i, a, b);
        <Signed<BlockHeader> as BinaryComponent>::lemma_dec_complete(w.header, s, i);
        <Vec<Signed<Segment>> as BinaryComponent>::lemma_dec_complete(
            w.segments,
            s,
            i + a.len() as int,
        );
    }

    fn encode_onto(&self, out: &mut Vec<u8>) {
        self.0.encode_onto(out);
        self.1.encode_onto(out);
        assert(out@ =~= old(out)@ + Self::enc_of(self.deep_view()));
    }

    fn decode_from(s: &[u8], i: usize) -> (r: Result<(Self, usize), DecodeError>) {
        match Signed::<BlockHeader>::decode_from(s, i) {
            Ok((h, j)) => match Vec::<Signed<Segment>>::decode_from(s, j) {
                Ok((segs, e)) => Ok((Block(h, segs), e)),
                Err(e) => Err(e),
            },
            Err(e) => Err(e),
        }
    }
}

impl DagNode for Block {
    open spec fn spec_version(&self) -> u32 {
        self.deep_view().header.body.version
    }

    open spec fn spec_timestamp(&self) -> i64 {
        self.deep_view().header.body.timestamp
    }

    fn version(&self) -> (r: u32) {
        self.0.body().version
    }

    fn timestamp(&self) -> (r: i64) {
        self.0.body().timestamp
    }
}

} // verus!
