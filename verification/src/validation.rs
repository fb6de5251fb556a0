//! The validation engine: identity credit ledger, pending-block pool, fork
//! depth computation, admission and finality.
//!
//! A candidate signed block is checked structurally (parents present, no
//! duplicate), cryptographically (signature against the signer's known key,
//! or against the key embedded in a bootstrap block), and economically (total
//! segment cost against the signer's credit balance), then admitted into the
//! pending pool.  After each admission the engine re-evaluates finality:
//! once a pending block's depth exceeds [`ACCEPTANCE_THRESHOLD`], the base
//! advances to it and the rest of the pool is pruned.

use vstd::prelude::*;

use crate::block::{Block, BlockV};
use crate::codec::BinaryComponent;
use crate::segment::{Segment, SegmentContentV, SegmentV, SegmentContent};
use crate::sig::{
    arr_eq, ed25519_verifies, sha256_of, verify_signed, Fingerprint, SigVerificationError, Signed,
    SignedV, ValidationKey,
};
use crate::Address;

verus! {

/// Cost of a segment, in credit units.
pub type SegmentCost = u64;

/// Fixed premium charged for declaring an identity.
pub const IDENT_COST: u64 = 1000;

/// Fixed fee charged for an off-chain artifact pointer.
pub const ARTIFACT_PTR_COST: u64 = 50;

/// A pending block whose depth exceeds this threshold becomes the new base.
pub const ACCEPTANCE_THRESHOLD: u32 = 5;

/// Opening credit balance granted to an identity that bootstraps itself
/// with an identity-declaration block.  A consensus parameter: it covers the
/// declaration premium and a small embedded-key artifact.
pub const NEW_IDENT_CREDITS: u64 = 2000;

/// Why a block was rejected.
#[derive(Copy, Clone, PartialEq, Eq, Debug)]
pub enum ValidationError {
    /// Data at the given address failed to decode.
    DecodeError(Address),
    /// A referenced node (a parent) is not locally available; the caller may
    /// retry once it has been fetched.
    NodeNotFound(Address),
    /// Something is too large to be allowed (a depth beyond what the engine
    /// can count).
    ComponentTooLarge(crate::sig::Hash),
    /// The signer's credit balance does not cover the block's total cost.
    InsufficientCredits,
    /// The block's signature did not verify.
    SigError(SigVerificationError),
    /// The block names no parents; only the genesis base may do that.
    MissingParents,
    /// A block with this content address is already known.
    DuplicateBlock,
}

// ---------------------------------------------------------------------------
// Segment and block cost
// ---------------------------------------------------------------------------

/// Cost of a segment model: a fixed premium for an identity declaration, a
/// fixed fee for an artifact pointer, and the exact byte length of the inline
/// body for an artifact.
pub open spec fn spec_segment_cost(v: SegmentV) -> int {
    match v.content {
        SegmentContentV::IdentDecl(_) => IDENT_COST as int,
        SegmentContentV::Artifact(ad) => ad.body.len() as int,
        SegmentContentV::ArtifactPointer(_) => ARTIFACT_PTR_COST as int,
    }
}

/// Total cost of a block: the sum of its segments' costs.
pub open spec fn spec_block_cost(segs: Seq<SignedV<SegmentV>>) -> int
    decreases segs.len(),
{
    if segs.len() == 0 {
        0
    } else {
        spec_segment_cost(segs[0].body) + spec_block_cost(segs.drop_first())
    }
}

/// Appending one segment adds its cost.
pub proof fn lemma_block_cost_snoc(segs: Seq<SignedV<SegmentV>>, e: SignedV<SegmentV>)
    ensures
        spec_block_cost(segs.push(e)) == spec_block_cost(segs) + spec_segment_cost(e.body),
    decreases segs.len(),
{
    if segs.len() == 0 {
        assert(segs.push(e)[0] == e);
        assert(segs.push(e).drop_first() =~= Seq::<SignedV<SegmentV>>::empty());
        assert(spec_block_cost(Seq::<SignedV<SegmentV>>::empty()) == 0);
        assert(spec_block_cost(segs.push(e)) == spec_segment_cost(e.body) + 0);
    } else {
        assert(segs.push(e)[0] == segs[0]);
        assert(segs.push(e).drop_first() =~= segs.drop_first().push(e));
        lemma_block_cost_snoc(segs.drop_first(), e);
    }
}

/// Every cost is non-negative, and bounded when each segment body is.
pub proof fn lemma_block_cost_bounds(segs: Seq<SignedV<SegmentV>>)
    requires
        forall|k: int| 0 <= k < segs.len() ==> spec_segment_cost(#[trigger] segs[k].body)
            <= u64::MAX,
    ensures
        0 <= spec_block_cost(segs) <= segs.len() * (u64::MAX as int),
    decreases segs.len(),
{
    if segs.len() == 0 {
    } else {
        assert(spec_segment_cost(segs[0].body) >= 0);
        assert(forall|k: int| 0 <= k < segs.drop_first().len() ==> spec_segment_cost(
            #[trigger] segs.drop_first()[k].body,
        ) <= u64::MAX);
        lemma_block_cost_bounds(segs.drop_first());
        let c = u64::MAX as int;
        let n = segs.len() as int;
        assert(n * c == c + (n - 1) * c) by (nonlinear_arith)
            requires
                n >= 1,
        ;
        assert(segs.drop_first().len() == n - 1);
    }
}

/// The cost of one segment.
pub fn calc_segment_cost(seg: &Segment) -> (r: SegmentCost)
    ensures
        r == spec_segment_cost(seg.deep_view()),
{
    match &seg.content {
        SegmentContent::IdentDecl(_) => IDENT_COST,
        SegmentContent::Artifact(ad) => {
            proof {
                crate::codec::lemma_bytes_deep_view(&ad.body);
            }
            ad.body.len() as u64
        },
        SegmentContent::ArtifactPointer(_) => ARTIFACT_PTR_COST,
    }
}

/// The total cost of a block's segments.  The sum is computed in 128 bits,
/// which cannot overflow for any representable segment list.
pub fn calc_block_cost(segs: &Vec<Signed<Segment>>) -> (r: u128)
    ensures
        r == spec_block_cost(segs.deep_view()),
{
    proof {
        segs.lemma_view_wf();
        vstd::std_specs::vec::axiom_spec_len(segs);
        assert forall|k: int| 0 <= k < segs.deep_view().len() implies spec_segment_cost(
            #[trigger] segs.deep_view()[k].body,
        ) <= u64::MAX by {
            assert(<Vec<Signed<Segment>> as BinaryComponent>::v_wf(segs.deep_view()));
            assert(<Signed<Segment> as BinaryComponent>::v_wf(segs.deep_view()[k]));
        }
    }
    let n = segs.len();
    let mut total: u128 = 0;
    let mut k: usize = 0;
    while k < n
        invariant
            k <= n,
            n == segs.deep_view().len(),
            n <= usize::MAX,
            forall|t: int| 0 <= t < segs.deep_view().len() ==> spec_segment_cost(
                #[trigger] segs.deep_view()[t].body,
            ) <= u64::MAX,
            total == spec_block_cost(segs.deep_view().subrange(0, k as int)),
        decreases n - k,
    {
        let c = calc_segment_cost(segs[k].body());
        proof {
            let prefix = segs.deep_view().subrange(0, k as int);
            lemma_block_cost_bounds(prefix);
            assert(prefix.len() * (u64::MAX as int) <= (n as int) * (u64::MAX as int))
                by (nonlinear_arith)
                requires
                    prefix.len() <= n,
            ;
            assert((n as int) * (u64::MAX as int) < u128::MAX) by (nonlinear_arith)
                requires
                    n <= usize::MAX,
            ;
            lemma_block_cost_snoc(prefix, segs.deep_view()[k as int]);
            assert(prefix.push(segs.deep_view()[k as int]) =~= segs.deep_view().subrange(
                0,
                k + 1 as int,
            ));
            assert(segs.deep_view()[k as int].body == segs@[k as int].deep_view().body);
        }
        total = total + (c as u128);
        k = k + 1;
    }
    proof {
        assert(segs.deep_view().subrange(0, n as int) =~= segs.deep_view());
    }
    total
}

// ---------------------------------------------------------------------------
// Lexicographic order on addresses (the finality tie-break)
// ---------------------------------------------------------------------------

/// Strict lexicographic order on equal-length byte strings: some position
/// holds a smaller byte while everything before it agrees.
pub open spec fn lex_lt(a: Seq<u8>, b: Seq<u8>) -> bool {
    exists|i: int|
        0 <= i < a.len() && i < b.len() && a[i] < b[i] && (forall|j: int| 0 <= j < i ==> a[j] == b[j])
}

/// Equal-length byte strings are totally ordered by [`lex_lt`].
pub proof fn lemma_lex_total(a: Seq<u8>, b: Seq<u8>)
    requires
        a.len() == b.len(),
        a != b,
    ensures
        lex_lt(a, b) || lex_lt(b, a),
    decreases a.len(),
{
    if a.len() == 0 {
        assert(a =~= b);
    } else if a[0] != b[0] {
        if a[0] < b[0] {
            assert(0 <= 0 < a.len() && 0 < b.len() && a[0] < b[0] && (forall|j: int|
                0 <= j < 0 ==> a[j] == b[j]));
        } else {
            assert(0 <= 0 < b.len() && 0 < a.len() && b[0] < a[0] && (forall|j: int|
                0 <= j < 0 ==> b[j] == a[j]));
        }
    } else {
        let a2 = a.drop_first();
        let b2 = b.drop_first();
        assert(a2 != b2) by {
            if a2 == b2 {
                assert forall|j: int| 0 <= j < a.len() implies a[j] == b[j] by {
                    if j > 0 {
                        assert(a2[j - 1] == b2[j - 1]);
                    }
                }
                assert(a =~= b);
            }
        }
        lemma_lex_total(a2, b2);
        if lex_lt(a2, b2) {
            let i = choose|i: int|
                0 <= i < a2.len() && i < b2.len() && a2[i] < b2[i] && (forall|j: int|
                    0 <= j < i ==> a2[j] == b2[j]);
            assert(a[i + 1] < b[i + 1] && (forall|j: int| 0 <= j < i + 1 ==> a[j] == b[j])) by {
                assert forall|j: int| 0 <= j < i + 1 implies a[j] == b[j] by {
                    if j > 0 {
                        assert(a2[j - 1] == b2[j - 1]);
                    }
                }
                assert(a2[i] == a[i + 1]);
                assert(b2[i] == b[i + 1]);
            }
            assert(lex_lt(a, b));
        } else {
            let i = choose|i: int|
                0 <= i < b2.len() && i < a2.len() && b2[i] < a2[i] && (forall|j: int|
                    0 <= j < i ==> b2[j] == a2[j]);
            assert(b[i + 1] < a[i + 1] && (forall|j: int| 0 <= j < i + 1 ==> b[j] == a[j])) by {
                assert forall|j: int| 0 <= j < i + 1 implies b[j] == a[j] by {
                    if j > 0 {
                        assert(b2[j - 1] == a2[j - 1]);
                    }
                }
                assert(b2[i] == b[i + 1]);
                assert(a2[i] == a[i + 1]);
            }
            assert(lex_lt(b, a));
        }
    }
}

/// [`lex_lt`] is transitive.
pub proof fn lemma_lex_trans(a: Seq<u8>, b: Seq<u8>, c: Seq<u8>)
    requires
        lex_lt(a, b),
        lex_lt(b, c),
    ensures
        lex_lt(a, c),
{
    let i = choose|i: int|
        0 <= i < a.len() && i < b.len() && a[i] < b[i] && (forall|j: int| 0 <= j < i ==> a[j] == b[j]);
    let k = choose|k: int|
        0 <= k < b.len() && k < c.len() && b[k] < c[k] && (forall|j: int| 0 <= j < k ==> b[j] == c[j]);
    if i < k {
        assert(a[i] < b[i] && b[i] == c[i]);
        assert(forall|j: int| 0 <= j < i ==> a[j] == b[j] && b[j] == c[j]);
        assert(lex_lt(a, c));
    } else if k < i {
        assert(a[k] == b[k] && b[k] < c[k]);
        assert(forall|j: int| 0 <= j < k ==> a[j] == b[j] && b[j] == c[j]);
        assert(lex_lt(a, c));
    } else {
        assert(a[i] < b[i] && b[i] < c[i]);
        assert(forall|j: int| 0 <= j < i ==> a[j] == b[j] && b[j] == c[j]);
        assert(lex_lt(a, c));
    }
}

/// [`lex_lt`] is irreflexive.
pub proof fn lemma_lex_irrefl(a: Seq<u8>)
    ensures
        !lex_lt(a, a),
{
}

/// Whether `x`'s bytes are lexicographically before `y`'s.
pub fn addr_lex_lt(x: &Address, y: &Address) -> (r: bool)
    requires
        x@.len() == y@.len(),
    ensures
        r == lex_lt(x@, y@),
{
    let xa = x.0.0;
    let ya = y.0.0;
    let mut k: usize = 0;
    while k < 32
        invariant
            k <= 32,
            xa@ == x@,
            ya@ == y@,
            forall|j: int| 0 <= j < k ==> xa@[j] == ya@[j],
        decreases 32 - k,
    {
        if xa[k] < ya[k] {
            proof {
                let ki = k as int;
                assert(0 <= ki < x@.len() && ki < y@.len() && x@[ki] < y@[ki] && (forall|j: int|
                    0 <= j < ki ==> x@[j] == y@[j]));
            }
            return true;
        }
        if xa[k] > ya[k] {
            proof {
                let ki = k as int;
                assert forall|i: int|
                    !(0 <= i < x@.len() && i < y@.len() && x@[i] < y@[i] && (forall|j: int|
                        0 <= j < i ==> x@[j] == y@[j])) by {
                    if 0 <= i < x@.len() && i < y@.len() && x@[i] < y@[i] {
                        if i < ki {
                        } else {
                            assert(!(x@[ki] == y@[ki]));
                        }
                    }
                }
            }
            return false;
        }
        k = k + 1;
    }
    proof {
        assert forall|i: int|
            !(0 <= i < x@.len() && i < y@.len() && x@[i] < y@[i] && (forall|j: int|
                0 <= j < i ==> x@[j] == y@[j])) by {
            if 0 <= i < x@.len() {
                assert(x@[i] == y@[i]);
            }
        }
    }
    false
}

// ---------------------------------------------------------------------------
// The identity credit ledger
// ---------------------------------------------------------------------------

/// An identity's validation state: its public key and credit balance.
#[derive(Copy, Clone, PartialEq, Eq, Debug)]
pub struct IdentData {
    /// The key that the identity's signatures verify against.
    pub key: ValidationKey,
    /// Spendable credit balance.
    pub credits: u64,
}

/// Index of the first ledger entry carrying the given fingerprint bytes, or
/// `-1` when there is none.
pub open spec fn find_fp_idx(s: Seq<(Fingerprint, IdentData)>, fp: Seq<u8>) -> int
    decreases s.len(),
{
    if s.len() == 0 {
        -1
    } else if s[0].0@ == fp {
        0
    } else {
        let r = find_fp_idx(s.drop_first(), fp);
        if r == -1 {
            -1
        } else {
            r + 1
        }
    }
}

/// Characterization of [`find_fp_idx`]: it is the first matching index.
pub proof fn lemma_find_fp_props(s: Seq<(Fingerprint, IdentData)>, fp: Seq<u8>)
    ensures
        find_fp_idx(s, fp) == -1 ==> forall|j: int| 0 <= j < s.len() ==> (#[trigger] s[j]).0@ != fp,
        find_fp_idx(s, fp) != -1 ==> 0 <= find_fp_idx(s, fp) < s.len() && s[find_fp_idx(s, fp)].0@
            == fp && (forall|j: int| 0 <= j < find_fp_idx(s, fp) ==> (#[trigger] s[j]).0@ != fp),
    decreases s.len(),
{
    if s.len() == 0 {
    } else if s[0].0@ == fp {
    } else {
        lemma_find_fp_props(s.drop_first(), fp);
        let r = find_fp_idx(s.drop_first(), fp);
        if r == -1 {
            assert forall|j: int| 0 <= j < s.len() implies (#[trigger] s[j]).0@ != fp by {
                if j > 0 {
                    assert(s.drop_first()[j - 1] == s[j]);
                }
            }
        } else {
            assert(s.drop_first()[r] == s[r + 1]);
            assert forall|j: int| 0 <= j < r + 1 implies (#[trigger] s[j]).0@ != fp by {
                if j > 0 {
                    assert(s.drop_first()[j - 1] == s[j]);
                }
            }
        }
    }
}

/// Only the fingerprints decide [`find_fp_idx`], not the attached data.
pub proof fn lemma_find_fp_same_keys(
    s1: Seq<(Fingerprint, IdentData)>,
    s2: Seq<(Fingerprint, IdentData)>,
    fp: Seq<u8>,
)
    requires
        s1.len() == s2.len(),
        forall|k: int| 0 <= k < s1.len() ==> (#[trigger] s1[k]).0 == s2[k].0,
    ensures
        find_fp_idx(s1, fp) == find_fp_idx(s2, fp),
    decreases s1.len(),
{
    if s1.len() == 0 {
    } else {
        assert(forall|k: int| 0 <= k < s1.drop_first().len() ==> (#[trigger] s1.drop_first()[k])
            == s1[k + 1] && s2.drop_first()[k] == s2[k + 1]);
        lemma_find_fp_same_keys(s1.drop_first(), s2.drop_first(), fp);
    }
}

/// Appending an entry leaves earlier lookups alone and serves new ones.
pub proof fn lemma_find_fp_push(
    s: Seq<(Fingerprint, IdentData)>,
    p: (Fingerprint, IdentData),
    fp: Seq<u8>,
)
    ensures
        find_fp_idx(s, fp) != -1 ==> find_fp_idx(s.push(p), fp) == find_fp_idx(s, fp),
        find_fp_idx(s, fp) == -1 && p.0@ == fp ==> find_fp_idx(s.push(p), fp) == s.len(),
        find_fp_idx(s, fp) == -1 && p.0@ != fp ==> find_fp_idx(s.push(p), fp) == -1,
    decreases s.len(),
{
    let s2 = s.push(p);
    if s.len() == 0 {
        assert(s2[0] == p);
        assert(s2.drop_first() =~= Seq::<(Fingerprint, IdentData)>::empty());
        assert(find_fp_idx(Seq::<(Fingerprint, IdentData)>::empty(), fp) == -1);
        assert(find_fp_idx(s2.drop_first(), fp) == -1);
        if p.0@ == fp {
            assert(find_fp_idx(s2, fp) == 0);
        } else {
            assert(find_fp_idx(s2, fp) == -1);
        }
        assert(find_fp_idx(s, fp) == -1);
    } else {
        assert(s2[0] == s[0]);
        assert(s2.drop_first() =~= s.drop_first().push(p));
        lemma_find_fp_push(s.drop_first(), p, fp);
        lemma_find_fp_props(s.drop_first(), fp);
        let r = find_fp_idx(s.drop_first(), fp);
        let r2 = find_fp_idx(s2.drop_first(), fp);
        assert(r2 == find_fp_idx(s.drop_first().push(p), fp));
        if s[0].0@ == fp {
            assert(find_fp_idx(s, fp) == 0);
            assert(find_fp_idx(s2, fp) == 0);
        } else if r != -1 {
            assert(r2 == r);
            assert(find_fp_idx(s, fp) == r + 1);
            assert(find_fp_idx(s2, fp) == r2 + 1);
        } else if p.0@ == fp {
            assert(r2 == s.drop_first().len());
            assert(find_fp_idx(s2, fp) == r2 + 1);
            assert(find_fp_idx(s, fp) == -1);
            assert(s.drop_first().len() + 1 == s.len());
            assert(find_fp_idx(s.push(p), fp) == s.len());
        } else {
            assert(r2 == -1);
            assert(find_fp_idx(s2, fp) == -1);
            assert(find_fp_idx(s, fp) == -1);
        }
    }
}

/// The mutable ledger of known identities.
pub struct BlockchainState {
    idents: Vec<(Fingerprint, IdentData)>,
}

impl BlockchainState {
    /// The ledger as a sequence of fingerprint-keyed entries.
    pub closed spec fn idents_seq(&self) -> Seq<(Fingerprint, IdentData)> {
        self.idents@
    }

    /// The identity registered under the given fingerprint bytes, if any.
    pub open spec fn spec_find(&self, fp: Seq<u8>) -> Option<IdentData> {
        let k = find_fp_idx(self.idents_seq(), fp);
        if k >= 0 {
            Some(self.idents_seq()[k].1)
        } else {
            None
        }
    }

    /// Every ledger entry is keyed by the fingerprint of its own key.
    pub open spec fn keys_wf(&self) -> bool {
        forall|k: int| 0 <= k < self.idents_seq().len() ==> (#[trigger] self.idents_seq()[k]).0@
            == sha256_of(self.idents_seq()[k].1.key.raw_bytes())
    }

    /// An empty ledger.
    pub fn new() -> (r: BlockchainState)
        ensures
            r.idents_seq().len() == 0,
            r.keys_wf(),
    {
        BlockchainState { idents: Vec::new() }
    }

    /// The identity data registered under `fp`, if any.
    pub fn find_identity(&self, fp: &Fingerprint) -> (r: Option<IdentData>)
        ensures
            r == self.spec_find(fp@),
    {
        match self.find_index(fp) {
            Some(k) => Some(self.idents[k].1),
            None => None,
        }
    }

    /// The vector index of the entry for `fp`, if any.
    fn find_index(&self, fp: &Fingerprint) -> (r: Option<usize>)
        ensures
            match r {
                Some(k) => find_fp_idx(self.idents_seq(), fp@) == k && k < self.idents_seq().len()
                    && self.idents_seq()[k as int].0@ == fp@,
                None => find_fp_idx(self.idents_seq(), fp@) == -1,
            },
    {
        proof {
            lemma_find_fp_props(self.idents@, fp@);
        }
        let n = self.idents.len();
        let mut k: usize = 0;
        while k < n
            invariant
                k <= n,
                n == self.idents@.len(),
                forall|j: int| 0 <= j < k ==> (#[trigger] self.idents@[j]).0@ != fp@,
            decreases n - k,
        {
            let fa = self.idents[k].0.into_array();
            let qa = fp.into_array();
            if arr_eq(fa.as_slice(), qa.as_slice()) {
                proof {
                    lemma_find_fp_props(self.idents@, fp@);
                    let f = find_fp_idx(self.idents@, fp@);
                    if f == -1 {
                        assert(self.idents@[k as int].0@ != fp@);
                        assert(false);
                    } else if f < k {
                        assert(self.idents@[f].0@ != fp@);
                        assert(false);
                    } else if f > k {
                        assert(self.idents@[k as int].0@ != fp@);
                        assert(false);
                    }
                }
                return Some(k);
            }
            k = k + 1;
        }
        proof {
            lemma_find_fp_props(self.idents@, fp@);
            let f = find_fp_idx(self.idents@, fp@);
            if f != -1 {
                assert(self.idents@[f].0@ != fp@);
                assert(false);
            }
        }
        None
    }

    /// Registers a fresh identity with the given key and opening balance.
    /// Fails, changing nothing, when the key's fingerprint is already taken.
    pub fn register_identity(&mut self, key: ValidationKey, credits: u64) -> (r: bool)
        ensures
            old(self).spec_find(sha256_of(key.raw_bytes())) is Some ==> r == false
                && final(self).idents_seq() == old(self).idents_seq(),
            old(self).spec_find(sha256_of(key.raw_bytes())) is None ==> r == true
                && final(self).spec_find(sha256_of(key.raw_bytes())) == Some(
                (IdentData { key, credits }),
            ) && final(self).idents_seq().len() == old(self).idents_seq().len() + 1,
            forall|fp2: Seq<u8>| fp2 != sha256_of(key.raw_bytes()) ==> final(self).spec_find(fp2)
                == old(self).spec_find(fp2),
            old(self).keys_wf() ==> final(self).keys_wf(),
    {
        let fp = key.fingerprint();
        match self.find_index(&fp) {
            Some(_) => false,
            None => {
                let ghost s0 = self.idents@;
                let entry = (fp, IdentData { key, credits });
                self.idents.push(entry);
                proof {
                    assert(self.idents@ == s0.push(entry));
                    lemma_find_fp_push(s0, entry, fp@);
                    assert(self.idents@[s0.len() as int] == entry);
                    assert forall|fp2: Seq<u8>| fp2 != sha256_of(key.raw_bytes()) implies self
                        .spec_find(fp2) == old(self).spec_find(fp2) by {
                        lemma_find_fp_push(s0, entry, fp2);
                        lemma_find_fp_props(s0, fp2);
                        if find_fp_idx(s0, fp2) != -1 {
                            assert(self.idents@[find_fp_idx(s0, fp2)] == s0[find_fp_idx(s0, fp2)]);
                        }
                    }
                    assert forall|k: int| 0 <= k < self.idents@.len() && old(self).keys_wf()
                        implies (#[trigger] self.idents@[k]).0@ == sha256_of(
                        self.idents@[k].1.key.raw_bytes(),
                    ) by {
                        if k < s0.len() {
                            assert(self.idents@[k] == s0[k]);
                        }
                    }
                }
                true
            },
        }
    }

    /// Debits an existing identity's balance.
    fn debit(&mut self, fp: &Fingerprint, amount: u64)
        requires
            old(self).spec_find(fp@) is Some,
            amount <= old(self).spec_find(fp@)->Some_0.credits,
        ensures
            final(self).spec_find(fp@) == Some(
                (IdentData {
                    key: old(self).spec_find(fp@)->Some_0.key,
                    credits: (old(self).spec_find(fp@)->Some_0.credits - amount) as u64,
                }),
            ),
            forall|fp2: Seq<u8>| fp2 != fp@ ==> final(self).spec_find(fp2) == old(self).spec_find(
                fp2,
            ),
            final(self).idents_seq().len() == old(self).idents_seq().len(),
            old(self).keys_wf() ==> final(self).keys_wf(),
    {
        proof {
            lemma_find_fp_props(self.idents@, fp@);
        }
        match self.find_index(fp) {
            Some(k) => {
                let ghost s0 = self.idents@;
                let old_entry = self.idents[k];
                let new_entry = (
                    old_entry.0,
                    IdentData { key: old_entry.1.key, credits: old_entry.1.credits - amount },
                );
                self.idents.set(k, new_entry);
                proof {
                    assert(self.idents@ == s0.update(k as int, new_entry));
                    assert(forall|j: int| 0 <= j < s0.len() ==> (#[trigger] self.idents@[j]).0
                        == s0[j].0);
                    assert forall|fp2: Seq<u8>| true implies find_fp_idx(self.idents@, fp2)
                        == find_fp_idx(s0, fp2) by {
                        lemma_find_fp_same_keys(self.idents@, s0, fp2);
                    }
                    assert forall|fp2: Seq<u8>| fp2 != fp@ implies self.spec_find(fp2) == old(self).spec_find(fp2) by {
                        lemma_find_fp_props(s0, fp2);
                        if find_fp_idx(s0, fp2) >= 0 {
                            assert(find_fp_idx(s0, fp2) != k as int) by {
                                if find_fp_idx(s0, fp2) == k as int {
                                    assert(s0[k as int].0@ == fp2);
                                    assert(s0[k as int].0@ == fp@);
                                }
                            }
                            assert(self.idents@[find_fp_idx(s0, fp2)] == s0[find_fp_idx(s0, fp2)]);
                        }
                    }
                }
            },
            None => {
                proof {
                    assert(false);
                }
            },
        }
    }
}

// ---------------------------------------------------------------------------
// The pending pool
// ---------------------------------------------------------------------------

/// A block admitted into the pending pool: its content address, the block
/// itself, and its depth relative to the current base.
pub struct PendingEntry {
    /// The block's content address: the hash of its full encoded bytes.
    pub addr: Address,
    /// The signed block.
    pub block: Signed<Block>,
    /// Depth relative to the base.
    pub height: u32,
}

/// Index of the first pending entry with the given address bytes, or `-1`.
pub open spec fn pending_idx(p: Seq<PendingEntry>, a: Seq<u8>) -> int
    decreases p.len(),
{
    if p.len() == 0 {
        -1
    } else if p[0].addr@ == a {
        0
    } else {
        let r = pending_idx(p.drop_first(), a);
        if r == -1 {
            -1
        } else {
            r + 1
        }
    }
}

/// Characterization of [`pending_idx`]: it is the first matching index.
pub proof fn lemma_pending_idx_props(p: Seq<PendingEntry>, a: Seq<u8>)
    ensures
        pending_idx(p, a) == -1 ==> forall|j: int| 0 <= j < p.len() ==> (#[trigger] p[j]).addr@
            != a,
        pending_idx(p, a) != -1 ==> 0 <= pending_idx(p, a) < p.len() && p[pending_idx(p, a)].addr@
            == a && (forall|j: int| 0 <= j < pending_idx(p, a) ==> (#[trigger] p[j]).addr@ != a),
    decreases p.len(),
{
    if p.len() == 0 {
    } else if p[0].addr@ == a {
    } else {
        lemma_pending_idx_props(p.drop_first(), a);
        let r = pending_idx(p.drop_first(), a);
        if r == -1 {
            assert forall|j: int| 0 <= j < p.len() implies (#[trigger] p[j]).addr@ != a by {
                if j > 0 {
                    assert(p.drop_first()[j - 1] == p[j]);
                }
            }
        } else {
            assert(p.drop_first()[r] == p[r + 1]);
            assert forall|j: int| 0 <= j < r + 1 implies (#[trigger] p[j]).addr@ != a by {
                if j > 0 {
                    assert(p.drop_first()[j - 1] == p[j]);
                }
            }
        }
    }
}

/// Appending an entry leaves earlier lookups alone and serves new ones.
pub proof fn lemma_pending_idx_push(p: Seq<PendingEntry>, e: PendingEntry, a: Seq<u8>)
    ensures
        pending_idx(p, a) != -1 ==> pending_idx(p.push(e), a) == pending_idx(p, a),
        pending_idx(p, a) == -1 && e.addr@ == a ==> pending_idx(p.push(e), a) == p.len(),
        pending_idx(p, a) == -1 && e.addr@ != a ==> pending_idx(p.push(e), a) == -1,
    decreases p.len(),
{
    let p2 = p.push(e);
    if p.len() == 0 {
        assert(p2[0] == e);
        assert(p2.drop_first() =~= Seq::<PendingEntry>::empty());
        assert(pending_idx(Seq::<PendingEntry>::empty(), a) == -1);
        assert(pending_idx(p2.drop_first(), a) == -1);
        if e.addr@ == a {
            assert(pending_idx(p2, a) == 0);
        } else {
            assert(pending_idx(p2, a) == -1);
        }
        assert(pending_idx(p, a) == -1);
    } else {
        assert(p2[0] == p[0]);
        assert(p2.drop_first() =~= p.drop_first().push(e));
        lemma_pending_idx_push(p.drop_first(), e, a);
        lemma_pending_idx_props(p.drop_first(), a);
        let r = pending_idx(p.drop_first(), a);
        let r2 = pending_idx(p2.drop_first(), a);
        assert(r2 == pending_idx(p.drop_first().push(e), a));
        if p[0].addr@ == a {
            assert(pending_idx(p, a) == 0);
            assert(pending_idx(p2, a) == 0);
        } else if r != -1 {
            assert(r2 == r);
            assert(pending_idx(p, a) == r + 1);
            assert(pending_idx(p2, a) == r2 + 1);
        } else if e.addr@ == a {
            assert(r2 == p.drop_first().len());
            assert(pending_idx(p2, a) == r2 + 1);
            assert(pending_idx(p, a) == -1);
            assert(p.drop_first().len() + 1 == p.len());
            assert(pending_idx(p.push(e), a) == p.len());
        } else {
            assert(r2 == -1);
            assert(pending_idx(p2, a) == -1);
            assert(pending_idx(p, a) == -1);
        }
    }
}

// ---------------------------------------------------------------------------
// Views of a signed block
// ---------------------------------------------------------------------------

/// The parent addresses named by a signed block's header.
pub open spec fn signed_block_parents(b: SignedV<BlockV>) -> Seq<Seq<u8>> {
    b.body.header.body.parents
}

/// The fingerprint bytes of a signed block's signer.
pub open spec fn signed_block_fp(b: SignedV<BlockV>) -> Seq<u8> {
    b.signature.fingerprint_bytes()
}

/// The content address bytes of a signed block: the hash of its full
/// canonical encoding, signature included.
pub open spec fn signed_block_addr(b: SignedV<BlockV>) -> Seq<u8> {
    sha256_of(<Signed<Block> as BinaryComponent>::enc_of(b))
}

/// The total segment cost of a signed block.
pub open spec fn signed_block_cost(b: SignedV<BlockV>) -> int {
    spec_block_cost(b.body.segments)
}

// ---------------------------------------------------------------------------
// Depth in the DAG
// ---------------------------------------------------------------------------

/// Whether a parent address refers to the base or a pending block.
pub open spec fn parent_present(p: Seq<PendingEntry>, base: Seq<u8>, pa: Seq<u8>) -> bool {
    pa == base || pending_idx(p, pa) >= 0
}

/// The depth of a single parent: zero for the base, the stored depth for a
/// pending block, `-1` when absent.
pub open spec fn parent_height(p: Seq<PendingEntry>, base: Seq<u8>, pa: Seq<u8>) -> int {
    if pa == base {
        0
    } else {
        let k = pending_idx(p, pa);
        if k >= 0 {
            p[k].height as int
        } else {
            -1
        }
    }
}

/// The greatest parent depth; `-1` for an empty parent list.
pub open spec fn max_parent_height(p: Seq<PendingEntry>, base: Seq<u8>, pars: Seq<Seq<u8>>) -> int
    decreases pars.len(),
{
    if pars.len() == 0 {
        -1
    } else {
        let h0 = parent_height(p, base, pars[0]);
        let hr = max_parent_height(p, base, pars.drop_first());
        if h0 >= hr {
            h0
        } else {
            hr
        }
    }
}

/// Appending one parent folds its depth into the maximum.
pub proof fn lemma_max_parent_snoc(
    p: Seq<PendingEntry>,
    base: Seq<u8>,
    pars: Seq<Seq<u8>>,
    pa: Seq<u8>,
)
    ensures
        max_parent_height(p, base, pars.push(pa)) == (if parent_height(p, base, pa)
            >= max_parent_height(p, base, pars) {
            parent_height(p, base, pa)
        } else {
            max_parent_height(p, base, pars)
        }),
    decreases pars.len(),
{
    if pars.len() == 0 {
        assert(pars.push(pa)[0] == pa);
        assert(pars.push(pa).drop_first() =~= Seq::<Seq<u8>>::empty());
        assert(max_parent_height(p, base, Seq::<Seq<u8>>::empty()) == -1);
        assert(max_parent_height(p, base, pars.push(pa).drop_first()) == -1);
        assert(max_parent_height(p, base, pars) == -1);
    } else {
        assert(pars.push(pa)[0] == pars[0]);
        assert(pars.push(pa).drop_first() =~= pars.drop_first().push(pa));
        lemma_max_parent_snoc(p, base, pars.drop_first(), pa);
        assert(max_parent_height(p, base, pars.push(pa).drop_first()) == max_parent_height(
            p,
            base,
            pars.drop_first().push(pa),
        ));
    }
}

/// Appending a pending entry does not change the depth of parents that are
/// already present.
pub proof fn lemma_max_parent_push_entry(
    p: Seq<PendingEntry>,
    base: Seq<u8>,
    pars: Seq<Seq<u8>>,
    e: PendingEntry,
)
    requires
        forall|t: int| 0 <= t < pars.len() ==> parent_present(p, base, #[trigger] pars[t]),
    ensures
        max_parent_height(p.push(e), base, pars) == max_parent_height(p, base, pars),
        forall|t: int| 0 <= t < pars.len() ==> parent_present(p.push(e), base, #[trigger] pars[t]),
    decreases pars.len(),
{
    if pars.len() == 0 {
    } else {
        assert(parent_present(p, base, pars[0]));
        lemma_pending_idx_push(p, e, pars[0]);
        lemma_pending_idx_props(p, pars[0]);
        if pars[0] != base {
            let k = pending_idx(p, pars[0]);
            assert(k >= 0);
            assert(pending_idx(p.push(e), pars[0]) == k);
            assert(p.push(e)[k] == p[k]);
        }
        assert(parent_height(p.push(e), base, pars[0]) == parent_height(p, base, pars[0]));
        assert(forall|t: int| 0 <= t < pars.drop_first().len() ==> parent_present(
            p,
            base,
            #[trigger] pars.drop_first()[t],
        ));
        lemma_max_parent_push_entry(p, base, pars.drop_first(), e);
        assert forall|t: int| 0 <= t < pars.len() implies parent_present(
            p.push(e),
            base,
            #[trigger] pars[t],
        ) by {
            if t > 0 {
                assert(pars.drop_first()[t - 1] == pars[t]);
            }
        }
    }
}

// ---------------------------------------------------------------------------
// Well-formedness of the engine state
// ---------------------------------------------------------------------------

/// Well-formedness of one pending entry within the pool: its address is the
/// hash of its block's bytes, its parents all stand earlier in the pool (or
/// are the base), and its stored depth obeys the height law.
pub open spec fn wf_entry(p: Seq<PendingEntry>, base: Seq<u8>, k: int) -> bool {
    let e = p[k];
    let pars = signed_block_parents(e.block.deep_view());
    &&& e.addr@ == signed_block_addr(e.block.deep_view())
    &&& pars.len() > 0
    &&& forall|t: int| 0 <= t < pars.len() ==> #[trigger] pars[t] == base || (0 <= pending_idx(
        p,
        pars[t],
    ) < k)
    &&& e.height as int == 1 + max_parent_height(p, base, pars)
}

/// Well-formedness of the whole pool: distinct addresses, none equal to the
/// base, and every entry well formed.
pub open spec fn pool_wf(p: Seq<PendingEntry>, base: Seq<u8>) -> bool {
    &&& base.len() == 32
    &&& forall|k1: int, k2: int| 0 <= k1 < k2 < p.len() ==> (#[trigger] p[k1]).addr@ != (
    #[trigger] p[k2]).addr@
    &&& forall|k: int| 0 <= k < p.len() ==> (#[trigger] p[k]).addr@ != base
    &&& forall|k: int| 0 <= k < p.len() ==> #[trigger] wf_entry(p, base, k)
}

// ---------------------------------------------------------------------------
// The engine state
// ---------------------------------------------------------------------------

/// The mutable ledger state of one node: the finalized base, the pool of
/// unconfirmed blocks, and the identity credit ledger.  Mutated only through
/// admission; queries never change it.
pub struct ValidationState {
    base_addr: Address,
    base_block: Option<Signed<Block>>,
    pending: Vec<PendingEntry>,
    data_state: BlockchainState,
}

impl ValidationState {
    /// The current base address bytes.
    pub closed spec fn spec_base_addr(&self) -> Seq<u8> {
        self.base_addr@
    }

    /// The current base block, where one is held.
    pub closed spec fn spec_base_block(&self) -> Option<Signed<Block>> {
        self.base_block
    }

    /// The pending pool.
    pub closed spec fn pending_seq(&self) -> Seq<PendingEntry> {
        self.pending@
    }

    /// The identity ledger.
    pub closed spec fn idents_seq(&self) -> Seq<(Fingerprint, IdentData)> {
        self.data_state.idents_seq()
    }

    /// The identity registered under the given fingerprint bytes, if any.
    pub open spec fn spec_find(&self, fp: Seq<u8>) -> Option<IdentData> {
        let k = find_fp_idx(self.idents_seq(), fp);
        if k >= 0 {
            Some(self.idents_seq()[k].1)
        } else {
            None
        }
    }

    /// The depth of an address relative to the base: zero for the base
    /// itself, the stored depth for a pending block, nothing otherwise.
    pub open spec fn spec_height(&self, a: Seq<u8>) -> Option<u32> {
        if a == self.spec_base_addr() {
            Some(0u32)
        } else {
            let k = pending_idx(self.pending_seq(), a);
            if k >= 0 {
                Some(self.pending_seq()[k].height)
            } else {
                None
            }
        }
    }

    /// Engine invariant: the pool is well formed and the ledger keys match
    /// their fingerprints.
    pub open spec fn wf(&self) -> bool {
        &&& pool_wf(self.pending_seq(), self.spec_base_addr())
        &&& (forall|k: int| 0 <= k < self.idents_seq().len() ==> (#[trigger] self.idents_seq()[k]).0@
            == sha256_of(self.idents_seq()[k].1.key.raw_bytes()))
    }

    /// A fresh state over the given finalized base, with an empty pool and an
    /// empty ledger.
    pub fn new(base_addr: Address) -> (r: ValidationState)
        ensures
            r.wf(),
            r.spec_base_addr() == base_addr@,
            r.spec_base_block() is None,
            r.pending_seq().len() == 0,
            r.idents_seq().len() == 0,
    {
        ValidationState {
            base_addr,
            base_block: None,
            pending: Vec::new(),
            data_state: BlockchainState::new(),
        }
    }

    /// Registers an identity out of band (genesis provisioning).  Fails,
    /// changing nothing, when the key's fingerprint is already registered.
    pub fn register_identity(&mut self, key: ValidationKey, credits: u64) -> (r: bool)
        requires
            old(self).wf(),
        ensures
            final(self).wf(),
            final(self).spec_base_addr() == old(self).spec_base_addr(),
            final(self).spec_base_block() == old(self).spec_base_block(),
            final(self).pending_seq() == old(self).pending_seq(),
            old(self).spec_find(sha256_of(key.raw_bytes())) is Some ==> r == false
                && final(self).idents_seq() == old(self).idents_seq(),
            old(self).spec_find(sha256_of(key.raw_bytes())) is None ==> r == true
                && final(self).spec_find(sha256_of(key.raw_bytes())) == Some(
                (IdentData { key, credits }),
            ),
            forall|fp2: Seq<u8>| fp2 != sha256_of(key.raw_bytes()) ==> final(self).spec_find(fp2)
                == old(self).spec_find(fp2),
    {
        let r = self.data_state.register_identity(key, credits);
        proof {
            assert forall|fp2: Seq<u8>| fp2 != sha256_of(key.raw_bytes()) implies self.spec_find(
                fp2,
            ) == old(self).spec_find(fp2) by {
                assert(self.data_state.spec_find(fp2) == old(self).data_state.spec_find(fp2));
            }
        }
        r
    }

    /// The identity data registered under `fp`, if any.
    pub fn find_identity(&self, fp: &Fingerprint) -> (r: Option<IdentData>)
        ensures
            r == self.spec_find(fp@),
    {
        self.data_state.find_identity(fp)
    }

    /// The validation key registered under `fp`, if any.
    pub fn find_key(&self, fp: Fingerprint) -> (r: Option<ValidationKey>)
        ensures
            match r {
                Some(k) => self.spec_find(fp@) is Some && self.spec_find(fp@)->Some_0.key == k,
                None => self.spec_find(fp@) is None,
            },
    {
        match self.data_state.find_identity(&fp) {
            Some(id) => Some(id.key),
            None => None,
        }
    }

    /// The vector index of the pending entry with the given address, if any.
    fn find_pending(&self, addr: &Address) -> (r: Option<usize>)
        ensures
            match r {
                Some(k) => pending_idx(self.pending_seq(), addr@) == k && k
                    < self.pending_seq().len() && self.pending_seq()[k as int].addr@ == addr@,
                None => pending_idx(self.pending_seq(), addr@) == -1,
            },
    {
        let n = self.pending.len();
        let mut k: usize = 0;
        while k < n
            invariant
                k <= n,
                n == self.pending@.len(),
                forall|j: int| 0 <= j < k ==> (#[trigger] self.pending@[j]).addr@ != addr@,
            decreases n - k,
        {
            let ea = self.pending[k].addr.0.0;
            let qa = addr.0.0;
            if arr_eq(ea.as_slice(), qa.as_slice()) {
                proof {
                    lemma_pending_idx_props(self.pending@, addr@);
                    let f = pending_idx(self.pending@, addr@);
                    if f == -1 {
                        assert(self.pending@[k as int].addr@ != addr@);
                        assert(false);
                    } else if f < k {
                        assert(self.pending@[f].addr@ != addr@);
                        assert(false);
                    } else if f > k {
                        assert(self.pending@[k as int].addr@ != addr@);
                        assert(false);
                    }
                }
                return Some(k);
            }
            k = k + 1;
        }
        proof {
            lemma_pending_idx_props(self.pending@, addr@);
            let f = pending_idx(self.pending@, addr@);
            if f != -1 {
                assert(self.pending@[f].addr@ != addr@);
                assert(false);
            }
        }
        None
    }

    /// The depth of `addr` measured from the base: `Some(0)` for the base
    /// itself, the stored depth for a pending block, `None` for anything
    /// else.
    pub fn get_relative_block_height(&self, addr: &Address) -> (r: Option<u32>)
        ensures
            r == self.spec_height(addr@),
    {
        let ba = self.base_addr.0.0;
        let qa = addr.0.0;
        if arr_eq(qa.as_slice(), ba.as_slice()) {
            Some(0)
        } else {
            match self.find_pending(addr) {
                Some(k) => Some(self.pending[k].height),
                None => None,
            }
        }
    }
}

/// Whether the bytes of two addresses are equal.
fn addr_eq(x: &Address, y: &Address) -> (r: bool)
    ensures
        r == (x@ == y@),
{
    let xa = x.0.0;
    let ya = y.0.0;
    arr_eq(xa.as_slice(), ya.as_slice())
}

/// A winner of the finality race in `p`: a deepest entry, first by address
/// among the deepest.
pub open spec fn is_winner(p: Seq<PendingEntry>, k: int) -> bool {
    &&& 0 <= k < p.len()
    &&& forall|j: int| 0 <= j < p.len() ==> (#[trigger] p[j]).height <= p[k].height
    &&& forall|j: int| 0 <= j < p.len() && (#[trigger] p[j]).height == p[k].height && j != k
        ==> lex_lt(p[k].addr@, p[j].addr@)
}

impl ValidationState {
    /// Checks that every parent address names the base or a pending block.
    fn check_parents(&self, parents: &Vec<Address>) -> (r: Result<(), ValidationError>)
        ensures
            r is Ok <==> (forall|t: int| 0 <= t < parents.deep_view().len() ==> parent_present(
                self.pending_seq(),
                self.spec_base_addr(),
                #[trigger] parents.deep_view()[t],
            )),
            r matches Err(e) ==> e matches ValidationError::NodeNotFound(x) && (exists|t: int|
                0 <= t < parents.deep_view().len() && #[trigger] parents.deep_view()[t] == x@
                    && !parent_present(self.pending_seq(), self.spec_base_addr(), x@)),
    {
        let n = parents.len();
        let mut t: usize = 0;
        while t < n
            invariant
                t <= n,
                n == parents@.len(),
                forall|j: int| 0 <= j < t ==> parent_present(
                    self.pending_seq(),
                    self.spec_base_addr(),
                    #[trigger] parents.deep_view()[j],
                ),
            decreases n - t,
        {
            let pa = parents[t];
            proof {
                assert(parents.deep_view()[t as int] == parents@[t as int]@);
            }
            if !addr_eq(&pa, &self.base_addr) {
                match self.find_pending(&pa) {
                    Some(_) => {},
                    None => {
                        return Err(ValidationError::NodeNotFound(pa));
                    },
                }
            }
            t = t + 1;
        }
        Ok(())
    }

    /// The depth of one present parent.
    fn parent_height_exec(&self, pa: &Address) -> (r: u32)
        requires
            parent_present(self.pending_seq(), self.spec_base_addr(), pa@),
        ensures
            r as int == parent_height(self.pending_seq(), self.spec_base_addr(), pa@),
    {
        if addr_eq(pa, &self.base_addr) {
            0
        } else {
            match self.find_pending(pa) {
                Some(k) => self.pending[k].height,
                None => {
                    proof {
                        assert(false);
                    }
                    0
                },
            }
        }
    }

    /// One more than the greatest parent depth, or nothing when that cannot
    /// be counted in 32 bits.
    fn compute_height(&self, parents: &Vec<Address>) -> (r: Option<u32>)
        requires
            parents.deep_view().len() > 0,
            forall|t: int| 0 <= t < parents.deep_view().len() ==> parent_present(
                self.pending_seq(),
                self.spec_base_addr(),
                #[trigger] parents.deep_view()[t],
            ),
        ensures
            match r {
                Some(h) => h as int == 1 + max_parent_height(
                    self.pending_seq(),
                    self.spec_base_addr(),
                    parents.deep_view(),
                ),
                None => 1 + max_parent_height(
                    self.pending_seq(),
                    self.spec_base_addr(),
                    parents.deep_view(),
                ) > u32::MAX,
            },
    {
        let ghost p = self.pending_seq();
        let ghost base = self.spec_base_addr();
        let ghost dv = parents.deep_view();
        let n = parents.len();
        proof {
            assert(dv[0] == parents@[0]@);
            assert(dv.subrange(0, 1) =~= seq![dv[0]]);
            assert(seq![dv[0]].drop_first() =~= Seq::<Seq<u8>>::empty());
            assert(max_parent_height(p, base, Seq::<Seq<u8>>::empty()) == -1);
            assert(max_parent_height(p, base, seq![dv[0]].drop_first()) == -1);
            assert(seq![dv[0]][0] == dv[0]);
        }
        let mut best: u32 = self.parent_height_exec(&parents[0]);
        proof {
            assert(parent_height(p, base, dv[0]) >= 0);
            assert(max_parent_height(p, base, dv.subrange(0, 1)) == parent_height(p, base, dv[0]));
        }
        let mut t: usize = 1;
        while t < n
            invariant
                1 <= t <= n,
                n == parents@.len(),
                n == dv.len(),
                p == self.pending_seq(),
                base == self.spec_base_addr(),
                dv == parents.deep_view(),
                forall|j: int| 0 <= j < dv.len() ==> parent_present(p, base, #[trigger] dv[j]),
                best as int == max_parent_height(p, base, dv.subrange(0, t as int)),
            decreases n - t,
        {
            proof {
                assert(dv[t as int] == parents@[t as int]@);
            }
            let ph = self.parent_height_exec(&parents[t]);
            proof {
                lemma_max_parent_snoc(p, base, dv.subrange(0, t as int), dv[t as int]);
                assert(dv.subrange(0, t as int).push(dv[t as int]) =~= dv.subrange(0, t + 1 as int));
            }
            if ph > best {
                best = ph;
            }
            t = t + 1;
        }
        proof {
            assert(dv.subrange(0, n as int) =~= dv);
        }
        if best == u32::MAX {
            None
        } else {
            Some(best + 1)
        }
    }

    /// Re-evaluates finality: when some pending block's depth exceeds
    /// [`ACCEPTANCE_THRESHOLD`], the deepest block (first by address among
    /// equally deep ones) becomes the new base and the whole pool is pruned.
    /// Ancestors of the new base are final history; the rest are orphaned.
    /// Credit debits of orphaned blocks are not refunded.
    fn reevaluate_finality(&mut self)
        requires
            old(self).wf(),
        ensures
            final(self).wf(),
            final(self).idents_seq() == old(self).idents_seq(),
            (forall|j: int| 0 <= j < old(self).pending_seq().len() ==> (#[trigger] old(self).pending_seq()[j]).height <= ACCEPTANCE_THRESHOLD) ==> final(self).pending_seq()
                == old(self).pending_seq() && final(self).spec_base_addr() == old(self).spec_base_addr() && final(self).spec_base_block() == old(self).spec_base_block(),
            (exists|j: int| 0 <= j < old(self).pending_seq().len() && (#[trigger] old(self).pending_seq()[j]).height > ACCEPTANCE_THRESHOLD) ==> (exists|k: int|
                #[trigger] is_winner(old(self).pending_seq(), k) && final(self).spec_base_addr()
                    == old(self).pending_seq()[k].addr@ && final(self).spec_base_block() == Some(
                    old(self).pending_seq()[k].block,
                ) && final(self).pending_seq().len() == 0),
    {
        let n = self.pending.len();
        if n == 0 {
            return ;
        }
        let mut best_k: usize = 0;
        let mut t: usize = 1;
        while t < n
            invariant
                best_k < t <= n,
                n == self.pending@.len(),
                *self == *old(self),
                old(self).wf(),
                forall|j: int| 0 <= j < t ==> (#[trigger] self.pending@[j]).height
                    <= self.pending@[best_k as int].height,
                forall|j: int| 0 <= j < t && (#[trigger] self.pending@[j]).height
                    == self.pending@[best_k as int].height && j != best_k ==> lex_lt(
                    self.pending@[best_k as int].addr@,
                    self.pending@[j].addr@,
                ),
            decreases n - t,
        {
            let hb = self.pending[best_k].height;
            let ht = self.pending[t].height;
            let better = ht > hb || (ht == hb && addr_lex_lt(
                &self.pending[t].addr,
                &self.pending[best_k].addr,
            ));
            if better {
                proof {
                    let p = self.pending@;
                    let ti = t as int;
                    let bi = best_k as int;
                    assert forall|j: int|
                        0 <= j < ti + 1 && (#[trigger] p[j]).height == p[ti].height && j != ti
                            implies lex_lt(p[ti].addr@, p[j].addr@) by {
                        if j < ti {
                            assert(p[j].height <= p[bi].height);
                            if p[ti].height > p[bi].height {
                                assert(false);
                            } else {
                                assert(p[ti].height == p[bi].height);
                                assert(lex_lt(p[ti].addr@, p[bi].addr@));
                                if j != bi {
                                    assert(lex_lt(p[bi].addr@, p[j].addr@));
                                    lemma_lex_trans(p[ti].addr@, p[bi].addr@, p[j].addr@);
                                }
                            }
                        }
                    }
                }
                best_k = t;
            } else {
                proof {
                    let p = self.pending@;
                    let ti = t as int;
                    let bi = best_k as int;
                    if p[ti].height == p[bi].height {
                        assert(p[bi].addr@ != p[ti].addr@) by {
                            assert(pool_wf(p, self.spec_base_addr()));
                        }
                        assert(p[bi].addr@.len() == 32 && p[ti].addr@.len() == 32);
                        lemma_lex_total(p[bi].addr@, p[ti].addr@);
                        assert(lex_lt(p[bi].addr@, p[ti].addr@));
                    }
                }
            }
            t = t + 1;
        }
        let wh = self.pending[best_k].height;
        if wh > ACCEPTANCE_THRESHOLD {
            proof {
                assert(is_winner(self.pending@, best_k as int));
            }
            let winner = self.pending.remove(best_k);
            self.base_addr = winner.addr;
            self.base_block = Some(winner.block);
            self.pending.clear();
            proof {
                assert(old(self).pending_seq()[best_k as int].addr == winner.addr);
                assert(self.spec_base_addr().len() == 32) by {
                    assert(winner.addr@ == winner.addr.0.0@);
                }
                assert(pool_wf(self.pending@, self.spec_base_addr())) by {
                    assert(self.pending@.len() == 0);
                }
                assert(self.idents_seq() == old(self).idents_seq());
                assert(self.wf());
            }
        } else {
            proof {
                assert forall|j: int| 0 <= j < self.pending@.len() implies (
                #[trigger] self.pending@[j]).height <= ACCEPTANCE_THRESHOLD by {
                    assert(self.pending@[j].height <= self.pending@[best_k as int].height);
                }
            }
        }
    }
}

// ---------------------------------------------------------------------------
// Bootstrap of new identities
// ---------------------------------------------------------------------------

/// The bootstrap rule for a block whose signer is unknown to the ledger: the
/// block's first segment must declare exactly the signer's fingerprint, and
/// its second segment must be an inline artifact whose body is precisely the
/// canonical encoding of a validation key with that same fingerprint.  The
/// signature is then checked against that embedded key.
pub open spec fn bootstrap_ok(b: SignedV<BlockV>) -> bool {
    let segs = b.body.segments;
    &&& segs.len() >= 2
    &&& segs[0].body.content matches SegmentContentV::IdentDecl(h) && h == signed_block_fp(b)
    &&& segs[1].body.content matches SegmentContentV::Artifact(ad) && (<ValidationKey as BinaryComponent>::dec_at(
        ad.body,
        0,
    ) matches Some((kv, e)) && e == ad.body.len() && sha256_of(kv->Ed25519_0) == signed_block_fp(
        b,
    ))
}

/// The raw bytes of the key embedded in a bootstrap block.
pub open spec fn bootstrap_key_raw(b: SignedV<BlockV>) -> Seq<u8> {
    let ad = b.body.segments[1].body.content->Artifact_0;
    <ValidationKey as BinaryComponent>::dec_at(ad.body, 0)->Some_0.0->Ed25519_0
}

/// Extracts and checks the embedded bootstrap key of a block whose signer is
/// not in the ledger.
fn extract_bootstrap_key(sb: &Signed<Block>, fp: &Fingerprint) -> (r: Option<ValidationKey>)
    requires
        fp@ == signed_block_fp(sb.deep_view()),
    ensures
        match r {
            Some(vk) => bootstrap_ok(sb.deep_view()) && vk is Ed25519 && vk.raw_bytes()
                == bootstrap_key_raw(sb.deep_view()),
            None => !bootstrap_ok(sb.deep_view()),
        },
{
    let ghost b = sb.deep_view();
    let segs = sb.body().get_segments();
    proof {
        vstd::std_specs::vec::axiom_spec_len(segs);
    }
    if segs.len() < 2 {
        return None;
    }
    let seg0 = segs[0].body();
    proof {
        assert(segs.deep_view()[0] == segs@[0].deep_view());
    }
    match &seg0.content {
        SegmentContent::IdentDecl(h) => {
            let ha = h.0;
            let fa = fp.0.0;
            if !arr_eq(ha.as_slice(), fa.as_slice()) {
                return None;
            }
        },
        _ => {
            return None;
        },
    }
    let seg1 = segs[1].body();
    proof {
        assert(segs.deep_view()[1] == segs@[1].deep_view());
    }
    match &seg1.content {
        SegmentContent::Artifact(ad) => {
            proof {
                crate::codec::lemma_bytes_deep_view(&ad.body);
            }
            match ValidationKey::decode_from(ad.body.as_slice(), 0) {
                Ok((vk, e)) => {
                    if e != ad.body.len() {
                        return None;
                    }
                    let vfp = vk.fingerprint();
                    let va = vfp.0.0;
                    let fa = fp.0.0;
                    if !arr_eq(va.as_slice(), fa.as_slice()) {
                        return None;
                    }
                    proof {
                        assert(vk.deep_view()->Ed25519_0 == vk.raw_bytes());
                    }
                    Some(vk)
                },
                Err(_) => None,
            }
        },
        _ => None,
    }
}

impl ValidationState {
    /// Whether a block with these bytes is already known (the base or a
    /// pending block).
    pub open spec fn admission_dup(&self, b: SignedV<BlockV>) -> bool {
        let a = signed_block_addr(b);
        a == self.spec_base_addr() || pending_idx(self.pending_seq(), a) >= 0
    }

    /// Whether the block's signer can be resolved to key material: either a
    /// ledger identity under the signature's fingerprint, or a valid
    /// bootstrap block.
    pub open spec fn admission_signer_ok(&self, b: SignedV<BlockV>) -> bool {
        self.spec_find(signed_block_fp(b)) is Some || bootstrap_ok(b)
    }

    /// The raw key bytes the block's signature is checked against.
    pub open spec fn admission_key_raw(&self, b: SignedV<BlockV>) -> Seq<u8> {
        if self.spec_find(signed_block_fp(b)) is Some {
            self.spec_find(signed_block_fp(b))->Some_0.key.raw_bytes()
        } else {
            bootstrap_key_raw(b)
        }
    }

    /// Whether the block's signature verifies over the hash of its body's
    /// canonical encoding, under the resolved key.
    pub open spec fn admission_sig_ok(&self, b: SignedV<BlockV>) -> bool {
        ed25519_verifies(
            sha256_of(<Block as BinaryComponent>::enc_of(b.body)),
            self.admission_key_raw(b),
            b.signature.sig_bytes(),
        )
    }

    /// Whether every named parent is the base or a pending block.
    pub open spec fn admission_parents_ok(&self, b: SignedV<BlockV>) -> bool {
        forall|t: int| 0 <= t < signed_block_parents(b).len() ==> parent_present(
            self.pending_seq(),
            self.spec_base_addr(),
            #[trigger] signed_block_parents(b)[t],
        )
    }

    /// Whether the block's depth can be counted in 32 bits.
    pub open spec fn admission_height_ok(&self, b: SignedV<BlockV>) -> bool {
        1 + max_parent_height(
            self.pending_seq(),
            self.spec_base_addr(),
            signed_block_parents(b),
        ) <= u32::MAX
    }

    /// The signer's spendable balance: the ledger balance for a known
    /// identity, the opening grant for a bootstrap.
    pub open spec fn admission_balance(&self, b: SignedV<BlockV>) -> int {
        if self.spec_find(signed_block_fp(b)) is Some {
            self.spec_find(signed_block_fp(b))->Some_0.credits as int
        } else {
            NEW_IDENT_CREDITS as int
        }
    }

    /// Whether the block passes every admission check.
    pub open spec fn admission_ok(&self, b: SignedV<BlockV>) -> bool {
        &&& !self.admission_dup(b)
        &&& self.admission_signer_ok(b)
        &&& self.admission_sig_ok(b)
        &&& signed_block_parents(b).len() > 0
        &&& self.admission_parents_ok(b)
        &&& self.admission_height_ok(b)
        &&& signed_block_cost(b) <= self.admission_balance(b)
    }
}

/// The pending entry that admission of a block appends: its content address,
/// the block itself, and a depth one past its deepest parent.
pub open spec fn admit_entry(
    b: SignedV<BlockV>,
    sb: Signed<Block>,
    p0: Seq<PendingEntry>,
    base0: Seq<u8>,
    e: PendingEntry,
) -> bool {
    &&& e.addr@ == signed_block_addr(b)
    &&& e.block == sb
    &&& e.height as int == 1 + max_parent_height(p0, base0, signed_block_parents(b))
}

impl ValidationState {
    /// Admits a candidate signed block, or rejects it with the reason.
    ///
    /// The checks run in order: duplicate suppression; signer resolution
    /// (ledger lookup by the signature's fingerprint, else the bootstrap
    /// rule); cryptographic verification; structural parent checks; depth
    /// computation; and the credit check.  On admission the block joins the
    /// pending pool at depth one past its deepest parent, the signer is
    /// debited the block's total segment cost (a bootstrap signer is first
    /// registered with the opening grant), and finality is re-evaluated.
    pub fn add_block(&mut self, sb: Signed<Block>) -> (r: Result<(), ValidationError>)
        requires
            old(self).wf(),
        ensures
            final(self).wf(),
            ({
                let b = sb.deep_view();
                let pars = signed_block_parents(b);
                let fp = signed_block_fp(b);
                let o = *old(self);
                let cost = signed_block_cost(b);
                &&& (r is Err ==> final(self).pending_seq() == o.pending_seq() && final(self).spec_base_addr() == o.spec_base_addr() && final(self).spec_base_block()
                    == o.spec_base_block() && final(self).idents_seq() == o.idents_seq())
                &&& (r == Err::<(), ValidationError>(ValidationError::DuplicateBlock)
                    <==> o.admission_dup(b))
                &&& (r == Err::<(), ValidationError>(
                    ValidationError::SigError(SigVerificationError::FingerprintMismatch),
                ) <==> !o.admission_dup(b) && !o.admission_signer_ok(b))
                &&& (r == Err::<(), ValidationError>(
                    ValidationError::SigError(SigVerificationError::KeyMismatch),
                ) <==> !o.admission_dup(b) && o.admission_signer_ok(b) && !o.admission_sig_ok(b))
                &&& (r == Err::<(), ValidationError>(ValidationError::MissingParents) <==> !o.admission_dup(
                    b,
                ) && o.admission_signer_ok(b) && o.admission_sig_ok(b) && pars.len() == 0)
                &&& (r matches Err(ValidationError::NodeNotFound(x)) ==> (exists|t: int|
                    0 <= t < pars.len() && #[trigger] pars[t] == x@ && !parent_present(
                        o.pending_seq(),
                        o.spec_base_addr(),
                        x@,
                    )))
                &&& ((r matches Err(ValidationError::NodeNotFound(x))) <==> !o.admission_dup(b)
                    && o.admission_signer_ok(b) && o.admission_sig_ok(b) && pars.len() > 0
                    && !o.admission_parents_ok(b))
                &&& ((r matches Err(ValidationError::ComponentTooLarge(x))) <==> !o.admission_dup(
                    b,
                ) && o.admission_signer_ok(b) && o.admission_sig_ok(b) && pars.len() > 0
                    && o.admission_parents_ok(b) && !o.admission_height_ok(b))
                &&& (r == Err::<(), ValidationError>(ValidationError::InsufficientCredits)
                    <==> !o.admission_dup(b) && o.admission_signer_ok(b) && o.admission_sig_ok(b)
                    && pars.len() > 0 && o.admission_parents_ok(b) && o.admission_height_ok(b)
                    && cost > o.admission_balance(b))
                &&& (r is Ok <==> o.admission_ok(b))
                &&& (r is Ok ==> (final(self).spec_find(fp) matches Some(id) && id.credits as int
                    == o.admission_balance(b) - cost && id.key.raw_bytes() == o.admission_key_raw(
                    b,
                ) && (forall|fp2: Seq<u8>| fp2 != fp ==> final(self).spec_find(fp2)
                    == o.spec_find(fp2))))
                &&& (r is Ok ==> (exists|e: PendingEntry|
                    #[trigger] admit_entry(b, sb, o.pending_seq(), o.spec_base_addr(), e) && ({
                        let p1 = o.pending_seq().push(e);
                        ||| ((forall|j: int| 0 <= j < p1.len() ==> (#[trigger] p1[j]).height
                            <= ACCEPTANCE_THRESHOLD) && final(self).pending_seq() == p1 && final(self).spec_base_addr() == o.spec_base_addr() && final(self).spec_base_block()
                            == o.spec_base_block())
                        ||| ((exists|j: int| 0 <= j < p1.len() && (#[trigger] p1[j]).height
                            > ACCEPTANCE_THRESHOLD) && (exists|k: int|
                            #[trigger] is_winner(p1, k) && final(self).spec_base_addr()
                                == p1[k].addr@ && final(self).spec_base_block() == Some(p1[k].block)
                                && final(self).pending_seq().len() == 0))
                    })))
            }),
    {
        let ghost b = sb.deep_view();
        let ghost o = *old(self);

        // Duplicate suppression: the block's own content address must be new.
        let addr_val = Address::of_bincomp(&sb);
        if addr_eq(&addr_val, &self.base_addr) {
            return Err(ValidationError::DuplicateBlock);
        }
        match self.find_pending(&addr_val) {
            Some(_) => {
                return Err(ValidationError::DuplicateBlock);
            },
            None => {},
        }

        // Resolve the signer: ledger identity, or the bootstrap rule.
        let fp = sb.sig().into_fingerprint();
        let found = self.data_state.find_identity(&fp);
        let (key, is_new) = match found {
            Some(id) => {
                proof {
                    lemma_find_fp_props(self.idents_seq(), fp@);
                    assert(sha256_of(id.key.raw_bytes()) == fp@);
                }
                (id.key, false)
            },
            None => {
                match extract_bootstrap_key(&sb, &fp) {
                    Some(vk) => (vk, true),
                    None => {
                        return Err(
                            ValidationError::SigError(SigVerificationError::FingerprintMismatch),
                        );
                    },
                }
            },
        };

        // Cryptographic verification against the resolved key.
        match verify_signed(&sb, key) {
            Ok(_) => {},
            Err(e) => {
                proof {
                    assert(sha256_of(key.raw_bytes()) == fp@);
                    assert(e == SigVerificationError::KeyMismatch);
                }
                return Err(ValidationError::SigError(e));
            },
        }

        // Structural parent checks.
        let parents = sb.body().get_header().body().parents();
        proof {
            assert(parents.deep_view() == signed_block_parents(b));
        }
        if parents.len() == 0 {
            proof {
                vstd::std_specs::vec::axiom_spec_len(&parents);
            }
            return Err(ValidationError::MissingParents);
        }
        match self.check_parents(&parents) {
            Ok(_) => {},
            Err(e) => {
                return Err(e);
            },
        }

        // Depth of the new block.
        proof {
            vstd::std_specs::vec::axiom_spec_len(&parents);
        }
        let h = match self.compute_height(&parents) {
            Some(h) => h,
            None => {
                return Err(ValidationError::ComponentTooLarge(addr_val.into_hash()));
            },
        };

        // The credit check.
        let segs_ref = sb.body().get_segments();
        let cost = calc_block_cost(segs_ref);
        proof {
            assert(segs_ref.deep_view() == b.body.segments);
        }
        let balance: u64 = if is_new {
            NEW_IDENT_CREDITS
        } else {
            match &found {
                Some(id) => id.credits,
                None => 0,
            }
        };
        if cost > balance as u128 {
            return Err(ValidationError::InsufficientCredits);
        }

        // Commit: register a bootstrap signer, debit, admit, re-evaluate.
        let ghost ds0 = self.data_state;
        if is_new {
            let ok = self.data_state.register_identity(key, NEW_IDENT_CREDITS);
            proof {
                assert(ok);
            }
        }
        let ghost ds1 = self.data_state;
        self.data_state.debit(&fp, cost as u64);
        proof {
            assert(fp@ == signed_block_fp(b));
            assert(cost as u64 as int == signed_block_cost(b));
            assert(self.spec_find(fp@) is Some);
            if is_new {
                assert(o.spec_find(fp@) is None);
                assert(self.spec_find(fp@)->Some_0.credits as int == NEW_IDENT_CREDITS
                    - signed_block_cost(b));
            } else {
                assert(o.spec_find(fp@) is Some);
                assert(balance == o.spec_find(fp@)->Some_0.credits);
                assert(self.spec_find(fp@)->Some_0.credits as int == balance - signed_block_cost(
                    b,
                ));
            }
            assert(self.spec_find(fp@)->Some_0.credits as int == o.admission_balance(b)
                - signed_block_cost(b));
            assert(self.spec_find(fp@)->Some_0.key.raw_bytes() == o.admission_key_raw(b));
            assert forall|fp2: Seq<u8>| fp2 != fp@ implies self.spec_find(fp2) == o.spec_find(
                fp2,
            ) by {
                assert(self.data_state.spec_find(fp2) == ds1.spec_find(fp2));
                assert(ds1.spec_find(fp2) == ds0.spec_find(fp2));
                assert(o.spec_find(fp2) == ds0.spec_find(fp2));
            }
        }
        let ghost p0 = self.pending@;
        let entry = PendingEntry { addr: addr_val, block: sb, height: h };
        proof {
            assert(p0 == o.pending_seq());
            assert(self.base_addr@ == o.spec_base_addr());
        }
        self.pending.push(entry);
        proof {
            let base0 = o.spec_base_addr();
            let p1 = p0.push(entry);
            assert(self.pending@ == p1);
            let pars = signed_block_parents(b);
            lemma_pending_idx_props(p0, entry.addr@);
            // Uniqueness and base-distinctness carry over to the new pool.
            assert forall|k1: int, k2: int| 0 <= k1 < k2 < p1.len() implies (
            #[trigger] p1[k1]).addr@ != (#[trigger] p1[k2]).addr@ by {
                if k2 < p0.len() {
                    assert(p1[k1] == p0[k1] && p1[k2] == p0[k2]);
                } else {
                    assert(p1[k1] == p0[k1] && p1[k2] == entry);
                    assert(p0[k1].addr@ != entry.addr@);
                }
            }
            assert forall|k: int| 0 <= k < p1.len() implies (#[trigger] p1[k]).addr@ != base0 by {
                if k < p0.len() {
                    assert(p1[k] == p0[k]);
                }
            }
            // Old entries stay well formed: their parents' positions and
            // depths are untouched by the append.
            assert forall|k: int| 0 <= k < p0.len() implies #[trigger] wf_entry(p1, base0, k) by {
                assert(wf_entry(p0, base0, k));
                let e0 = p0[k];
                let pk = signed_block_parents(e0.block.deep_view());
                assert(p1[k] == p0[k]);
                assert forall|t: int| 0 <= t < pk.len() implies parent_present(
                    p0,
                    base0,
                    #[trigger] pk[t],
                ) by {
                    assert(pk[t] == base0 || 0 <= pending_idx(p0, pk[t]) < k);
                }
                lemma_max_parent_push_entry(p0, base0, pk, entry);
                assert forall|t: int| 0 <= t < pk.len() implies #[trigger] pk[t] == base0 || (0
                    <= pending_idx(p1, pk[t]) < k) by {
                    if pk[t] != base0 {
                        lemma_pending_idx_push(p0, entry, pk[t]);
                    }
                }
            }
            // The new entry is well formed: its parents all stand in the old
            // pool (or are the base), below the new index.
            assert(wf_entry(p1, base0, p0.len() as int)) by {
                assert(p1[p0.len() as int] == entry);
                assert forall|t: int| 0 <= t < pars.len() implies #[trigger] pars[t] == base0 || (0
                    <= pending_idx(p1, pars[t]) < p0.len()) by {
                    if pars[t] != base0 {
                        assert(parent_present(p0, base0, pars[t]));
                        lemma_pending_idx_props(p0, pars[t]);
                        lemma_pending_idx_push(p0, entry, pars[t]);
                    }
                }
                lemma_max_parent_push_entry(p0, base0, pars, entry);
            }
            assert(pool_wf(p1, base0));
            assert(self.wf());
            assert(admit_entry(b, sb, o.pending_seq(), o.spec_base_addr(), entry));
        }
        let ghost mid = *self;
        self.reevaluate_finality();
        proof {
            let p1 = o.pending_seq().push(entry);
            assert(mid.pending_seq() == p1);
            assert(mid.spec_base_addr() == o.spec_base_addr());
            assert(mid.spec_base_block() == o.spec_base_block());
            assert(admit_entry(b, sb, o.pending_seq(), o.spec_base_addr(), entry) && ({
                let p1b = o.pending_seq().push(entry);
                ||| ((forall|j: int| 0 <= j < p1b.len() ==> (#[trigger] p1b[j]).height
                    <= ACCEPTANCE_THRESHOLD) && self.pending_seq() == p1b && self.spec_base_addr()
                    == o.spec_base_addr() && self.spec_base_block() == o.spec_base_block())
                ||| ((exists|j: int| 0 <= j < p1b.len() && (#[trigger] p1b[j]).height
                    > ACCEPTANCE_THRESHOLD) && (exists|k: int|
                    #[trigger] is_winner(p1b, k) && self.spec_base_addr() == p1b[k].addr@
                        && self.spec_base_block() == Some(p1b[k].block)
                        && self.pending_seq().len() == 0))
            })) by {
                if forall|j: int| 0 <= j < p1.len() ==> (#[trigger] p1[j]).height
                    <= ACCEPTANCE_THRESHOLD {
                    assert(self.pending_seq() == p1);
                    assert(self.spec_base_addr() == o.spec_base_addr());
                    assert(self.spec_base_block() == o.spec_base_block());
                } else {
                    assert(exists|j: int| 0 <= j < p1.len() && (#[trigger] p1[j]).height
                        > ACCEPTANCE_THRESHOLD);
                    let k = choose|k: int|
                        #[trigger] is_winner(mid.pending_seq(), k) && self.spec_base_addr()
                            == mid.pending_seq()[k].addr@ && self.spec_base_block() == Some(
                            mid.pending_seq()[k].block,
                        ) && self.pending_seq().len() == 0;
                    assert(is_winner(p1, k) && self.spec_base_addr() == p1[k].addr@
                        && self.spec_base_block() == Some(p1[k].block) && self.pending_seq().len()
                        == 0);
                }
            }
            assert(self.idents_seq() == mid.idents_seq());
            let fpv = signed_block_fp(b);
            let pars = signed_block_parents(b);
            let cost_s = signed_block_cost(b);
            assert(!o.admission_dup(b));
            assert(o.admission_signer_ok(b));
            assert(o.admission_sig_ok(b));
            assert(pars.len() > 0);
            assert(o.admission_parents_ok(b));
            assert(o.admission_height_ok(b));
            assert(cost_s <= o.admission_balance(b));
            assert(o.admission_ok(b));
            assert(fp@ == fpv);
            assert(self.spec_find(fpv) is Some);
            assert(self.spec_find(fpv)->Some_0.credits as int == o.admission_balance(b) - cost_s);
            assert(self.spec_find(fpv)->Some_0.key.raw_bytes() == o.admission_key_raw(b));
            assert(forall|fp2: Seq<u8>| fp2 != fpv ==> self.spec_find(fp2) == o.spec_find(fp2));
            assert(admit_entry(sb.deep_view(), sb, o.pending_seq(), o.spec_base_addr(), entry));
            assert(admit_entry(
                sb.deep_view(),
                sb,
                old(self).pending_seq(),
                old(self).spec_base_addr(),
                entry,
            ));
            assert((exists|e: PendingEntry|
                #[trigger] admit_entry(sb.deep_view(), sb, o.pending_seq(), o.spec_base_addr(), e)
                    && ({
                    let p1 = o.pending_seq().push(e);
                    ||| ((forall|j: int| 0 <= j < p1.len() ==> (#[trigger] p1[j]).height
                        <= ACCEPTANCE_THRESHOLD) && self.pending_seq() == p1
                        && self.spec_base_addr() == o.spec_base_addr() && self.spec_base_block()
                        == o.spec_base_block())
                    ||| ((exists|j: int| 0 <= j < p1.len() && (#[trigger] p1[j]).height
                        > ACCEPTANCE_THRESHOLD) && (exists|k: int|
                        #[trigger] is_winner(p1, k) && self.spec_base_addr() == p1[k].addr@
                            && self.spec_base_block() == Some(p1[k].block)
                            && self.pending_seq().len() == 0))
                })));
        }
        Ok(())
    }

    /// Verifies and admits a candidate block: the method-form entry point
    /// over [`Self::add_block`].
    pub fn verify_block(&mut self, block: Signed<Block>) -> (r: Result<(), ValidationError>)
        requires
            old(self).wf(),
        ensures
            final(self).wf(),
            r is Ok <==> old(self).admission_ok(block.deep_view()),
            r is Err ==> final(self).pending_seq() == old(self).pending_seq()
                && final(self).spec_base_addr() == old(self).spec_base_addr()
                && final(self).idents_seq() == old(self).idents_seq(),
            r is Ok ==> (final(self).spec_find(signed_block_fp(block.deep_view())) matches Some(id)
                && id.credits as int == old(self).admission_balance(block.deep_view())
                - signed_block_cost(block.deep_view())),
    {
        self.add_block(block)
    }
}

/// Verifies a candidate signed block against the engine state and admits it
/// on success; the free-function entry point over the admission engine.
pub fn verify_signed_block(state: &mut ValidationState, block: crate::block::SignedBlock) -> (r:
    Result<(), ValidationError>)
    requires
        old(state).wf(),
    ensures
        final(state).wf(),
        r is Ok <==> old(state).admission_ok(block.deep_view()),
        r is Err ==> final(state).pending_seq() == old(state).pending_seq()
            && final(state).spec_base_addr() == old(state).spec_base_addr()
            && final(state).idents_seq() == old(state).idents_seq(),
        r is Ok ==> (final(state).spec_find(signed_block_fp(block.deep_view())) matches Some(id)
            && id.credits as int == old(state).admission_balance(block.deep_view())
            - signed_block_cost(block.deep_view())),
{
    state.add_block(block)
}

/// Height law: the base sits at depth zero, and every pending block's depth
/// is exactly one more than the greatest depth among its parents, each of
/// which is present.
pub proof fn lemma_height_law(st: &ValidationState, k: int)
    requires
        st.wf(),
        0 <= k < st.pending_seq().len(),
    ensures
        st.spec_height(st.spec_base_addr()) == Some(0u32),
        ({
            let e = st.pending_seq()[k];
            let pars = signed_block_parents(e.block.deep_view());
            &&& pars.len() > 0
            &&& forall|t: int| 0 <= t < pars.len() ==> parent_present(
                st.pending_seq(),
                st.spec_base_addr(),
                #[trigger] pars[t],
            )
            &&& e.height as int == 1 + max_parent_height(
                st.pending_seq(),
                st.spec_base_addr(),
                pars,
            )
        }),
{
    assert(wf_entry(st.pending_seq(), st.spec_base_addr(), k));
}

} // verus!
