//! Cryptographic envelope: hashes, fingerprints, keypairs, signatures, and
//! the generic signed wrapper.
//!
//! The envelope is algorithm-agnostic through the [`Scheme`] tag; only
//! Ed25519 is defined today.  The primitives themselves come from the
//! `crypto` crate; each call sits behind one trusted wrapper whose contract
//! names its result, and everything above the wrappers is verified.

use vstd::prelude::*;

use crypto::digest::Digest;

use crate::codec::{
    dec_bytes, dec_u8, read_arr32, read_arr64, read_u8, to_blob, write_bytes, write_u8,
    BinaryComponent, DecodeError,
};

verus! {

/// Width in bytes of a SHA-256 digest.
pub const SHA256_WIDTH: usize = 32;

// ---------------------------------------------------------------------------
// Named results of the outside cryptographic calls.
// ---------------------------------------------------------------------------

/// The SHA-256 digest of a byte sequence.
pub uninterp spec fn sha256_of(data: Seq<u8>) -> Seq<u8>;

/// The Ed25519 keypair derived from a seed: 64 private-key bytes followed by
/// 32 public-key bytes.
pub uninterp spec fn ed25519_keypair_of(seed: Seq<u8>) -> Seq<u8>;

/// The Ed25519 signature of a message under a 64-byte private key.
pub uninterp spec fn ed25519_sig_of(msg: Seq<u8>, kpriv: Seq<u8>) -> Seq<u8>;

/// Whether Ed25519 accepts `sig` as a signature of `msg` under `kpub`.
pub uninterp spec fn ed25519_verifies(msg: Seq<u8>, kpub: Seq<u8>, sig: Seq<u8>) -> bool;

/// Relies on `crypto::sha2::Sha256` (through `crypto::digest::Digest`): the
/// digest is 32 bytes and depends on the input bytes alone.
#[verifier::external_body]
fn sha256(data: &[u8]) -> (r: [u8; 32])
    ensures
        r@ == sha256_of(data@),
{
    let mut hasher = crypto::sha2::Sha256::new();
    hasher.input(data);
    let mut out = [0u8; 32];
    hasher.result(&mut out);
    out
}

/// Relies on `crypto::ed25519::keypair`: the private (64 bytes) and public
/// (32 bytes) keys are a function of the seed alone.
#[verifier::external_body]
fn ed25519_generate(seed: &[u8]) -> (r: ([u8; 64], [u8; 32]))
    ensures
        r.0@ == ed25519_keypair_of(seed@).subrange(0, 64),
        r.1@ == ed25519_keypair_of(seed@).subrange(64, 96),
{
    crypto::ed25519::keypair(seed)
}

/// Relies on `crypto::ed25519::signature`: the 64-byte signature is a
/// function of the message and the 64-byte private key alone.
#[verifier::external_body]
fn ed25519_sign(msg: &[u8], kpriv: &[u8; 64]) -> (r: [u8; 64])
    ensures
        r@ == ed25519_sig_of(msg@, kpriv@),
{
    crypto::ed25519::signature(msg, kpriv)
}

/// Relies on `crypto::ed25519::verify`: acceptance is a function of the
/// message, the 32-byte public key, and the 64-byte signature alone.
#[verifier::external_body]
fn ed25519_check(msg: &[u8], kpub: &[u8; 32], sig: &[u8; 64]) -> (r: bool)
    ensures
        r == ed25519_verifies(msg@, kpub@, sig@),
{
    crypto::ed25519::verify(msg, kpub, sig)
}

// ---------------------------------------------------------------------------
// Hash
// ---------------------------------------------------------------------------

/// A SHA-256 hash.
#[derive(Copy, Clone, PartialEq, Eq, PartialOrd, Ord, Hash, Debug)]
pub struct Hash(pub [u8; SHA256_WIDTH]);

impl View for Hash {
    type V = Seq<u8>;

    open spec fn view(&self) -> Seq<u8> {
        self.0@
    }
}

impl DeepView for Hash {
    type V = Seq<u8>;

    open spec fn deep_view(&self) -> Seq<u8> {
        self.0@
    }
}

impl Hash {
    /// Creates a hash with the given contents.
    pub fn new(hex: [u8; SHA256_WIDTH]) -> (r: Hash)
        ensures
            r@ == hex@,
    {
        Hash(hex)
    }

    /// The SHA-256 digest of the given bytes.
    pub fn of_slice(data: &[u8]) -> (r: Hash)
        ensures
            r@ == sha256_of(data@),
            r@.len() == 32,
    {
        Hash::new(sha256(data))
    }

    /// Converts into the raw byte array form.
    pub fn into_array(self) -> (r: [u8; SHA256_WIDTH])
        ensures
            r@ == self@,
    {
        self.0
    }

    /// Converts this hash into a `Fingerprint`.
    pub fn into_fingerprint(self) -> (r: Fingerprint)
        ensures
            r@ == self@,
    {
        Fingerprint(self)
    }
}

impl BinaryComponent for Hash {
    /// 32 raw bytes, no prefix.
    open spec fn enc_of(v: Seq<u8>) -> Seq<u8> {
        v
    }

    open spec fn v_wf(v: Seq<u8>) -> bool {
        v.len() == 32
    }

    open spec fn dec_at(s: Seq<u8>, i: int) -> Option<(Seq<u8>, int)> {
        dec_bytes(s, i, 32)
    }

    proof fn lemma_view_wf(&self) {
    }

    proof fn lemma_dec_sound(s: Seq<u8>, i: int) {
    }

    proof fn lemma_dec_complete(w: Seq<u8>, s: Seq<u8>, i: int) {
    }

    fn encode_onto(&self, out: &mut Vec<u8>) {
        let arr = self.0;
        write_bytes(out, arr.as_slice());
        assert(out@ =~= old(out)@ + Self::enc_of(self.deep_view()));
    }

    fn decode_from(s: &[u8], i: usize) -> (r: Result<(Self, usize), DecodeError>) {
        match read_arr32(s, i) {
            Ok((arr, j)) => Ok((Hash(arr), j)),
            Err(e) => Err(e),
        }
    }
}

// ---------------------------------------------------------------------------
// Fingerprint
// ---------------------------------------------------------------------------

/// The SHA-256 hash of the raw bytes of a public key; identifies an identity
/// independently of its signatures.
#[derive(Copy, Clone, PartialEq, Eq, PartialOrd, Ord, Hash, Debug)]
pub struct Fingerprint(pub Hash);

impl View for Fingerprint {
    type V = Seq<u8>;

    open spec fn view(&self) -> Seq<u8> {
        self.0@
    }
}

impl DeepView for Fingerprint {
    type V = Seq<u8>;

    open spec fn deep_view(&self) -> Seq<u8> {
        self.0@
    }
}

impl Fingerprint {
    /// Wraps an already-computed hash as a fingerprint.
    pub fn new(hash: Hash) -> (r: Fingerprint)
        ensures
            r@ == hash@,
    {
        Fingerprint(hash)
    }

    /// The underlying hash.
    pub fn into_hash(self) -> (r: Hash)
        ensures
            r@ == self@,
    {
        self.0
    }

    /// The raw byte array form.
    pub fn into_array(self) -> (r: [u8; SHA256_WIDTH])
        ensures
            r@ == self@,
    {
        self.0.into_array()
    }
}

impl BinaryComponent for Fingerprint {
    /// 32 raw bytes, exactly as the hash it wraps.
    open spec fn enc_of(v: Seq<u8>) -> Seq<u8> {
        v
    }

    open spec fn v_wf(v: Seq<u8>) -> bool {
        v.len() == 32
    }

    open spec fn dec_at(s: Seq<u8>, i: int) -> Option<(Seq<u8>, int)> {
        dec_bytes(s, i, 32)
    }

    proof fn lemma_view_wf(&self) {
    }

    proof fn lemma_dec_sound(s: Seq<u8>, i: int) {
    }

    proof fn lemma_dec_complete(w: Seq<u8>, s: Seq<u8>, i: int) {
    }

    fn encode_onto(&self, out: &mut Vec<u8>) {
        self.0.encode_onto(out);
        assert(out@ =~= old(out)@ + Self::enc_of(self.deep_view()));
    }

    fn decode_from(s: &[u8], i: usize) -> (r: Result<(Self, usize), DecodeError>) {
        match Hash::decode_from(s, i) {
            Ok((h, j)) => Ok((Fingerprint(h), j)),
            Err(e) => Err(e),
        }
    }
}

// ---------------------------------------------------------------------------
// Constant-time byte comparison
// ---------------------------------------------------------------------------

/// Compares two byte strings without short-circuiting on the first mismatch,
/// so that signature and key comparisons leak no timing information about
/// where the strings differ.
pub fn arr_eq(a: &[u8], b: &[u8]) -> (r: bool)
    ensures
        r == (a@ == b@),
{
    if a.len() != b.len() {
        proof {
            assert(a@ != b@);
        }
        return false;
    }
    let n = a.len();
    let mut diff: u8 = 0;
    let mut k: usize = 0;
    proof {
        assert(a@.subrange(0, 0) =~= b@.subrange(0, 0));
    }
    while k < n
        invariant
            k <= n,
            n == a@.len() == b@.len(),
            (diff == 0) <==> (a@.subrange(0, k as int) == b@.subrange(0, k as int)),
        decreases n - k,
    {
        let x = a[k];
        let y = b[k];
        let d2 = diff | (x ^ y);
        proof {
            assert((d2 == 0) <==> (diff == 0 && x == y)) by (bit_vector)
                requires
                    d2 == diff | (x ^ y),
            ;
            if d2 == 0 {
                assert(a@.subrange(0, k + 1 as int) =~= b@.subrange(0, k + 1 as int)) by {
                    assert(forall|t: int|
                        0 <= t < k ==> a@.subrange(0, k as int)[t] == b@.subrange(0, k as int)[t]);
                }
            } else {
                if diff == 0 {
                    let ghost ki = k as int;
                    assert(a@.subrange(0, k + 1 as int)[ki] != b@.subrange(0, k + 1 as int)[ki]);
                } else {
                    assert(a@.subrange(0, k + 1 as int) != b@.subrange(0, k + 1 as int)) by {
                        if a@.subrange(0, k + 1 as int) == b@.subrange(0, k + 1 as int) {
                            assert(a@.subrange(0, k as int) =~= b@.subrange(0, k as int)) by {
                                assert forall|t: int| 0 <= t < k implies a@.subrange(0, k as int)[t]
                                    == b@.subrange(0, k as int)[t] by {
                                    assert(a@.subrange(0, k + 1 as int)[t] == b@.subrange(
                                        0,
                                        k + 1 as int,
                                    )[t]);
                                }
                            }
                        }
                    }
                }
            }
        }
        diff = d2;
        k = k + 1;
    }
    proof {
        assert(a@.subrange(0, n as int) =~= a@);
        assert(b@.subrange(0, n as int) =~= b@);
    }
    diff == 0
}

// ---------------------------------------------------------------------------
// Hash of a component
// ---------------------------------------------------------------------------

/// The hash of a component's canonical encoding; the basis of its address.
pub fn get_hash<T: BinaryComponent>(t: &T) -> (r: Hash)
    ensures
        r@ == sha256_of(T::enc_of(t.deep_view())),
{
    let blob = to_blob(t);
    Hash::of_slice(blob.as_slice())
}

// ---------------------------------------------------------------------------
// Scheme
// ---------------------------------------------------------------------------

/// A signature algorithm tag.  Only Ed25519 is defined today; new algorithms
/// get new tags without touching call sites.
#[derive(Copy, Clone, PartialEq, Eq, Structural, Hash, Debug)]
pub enum Scheme {
    Ed25519,
}

impl Scheme {
    /// The specifier byte written on the wire for this scheme.
    pub open spec fn specifier(self) -> u8 {
        match self {
            Scheme::Ed25519 => 0x00,
        }
    }

    /// Derives a keypair for this scheme from caller-supplied entropy.
    pub fn generate(self, seed: &[u8]) -> (r: Keypair)
        ensures
            r is Ed25519,
            r.privkey_bytes() == ed25519_keypair_of(seed@).subrange(0, 64),
            r.pubkey_bytes() == ed25519_keypair_of(seed@).subrange(64, 96),
    {
        match self {
            Scheme::Ed25519 => {
                let (kpriv, kpub) = ed25519_generate(seed);
                Keypair::Ed25519(kpriv, kpub)
            },
        }
    }

    /// The scheme for a specifier byte; unknown specifiers yield `None`.
    pub fn from_specifier(s: u8) -> (r: Option<Scheme>)
        ensures
            s == 0x00 ==> r == Some(Scheme::Ed25519),
            s != 0x00 ==> r is None,
    {
        match s {
            0x00 => Some(Scheme::Ed25519),
            _ => None,
        }
    }

    /// The specifier byte of this scheme.
    pub fn to_specifier(&self) -> (r: u8)
        ensures
            r == self.specifier(),
    {
        match *self {
            Scheme::Ed25519 => 0x00,
        }
    }
}

// ---------------------------------------------------------------------------
// Keypair
// ---------------------------------------------------------------------------

/// A private and public key pair under some scheme.
/// Ed25519 carries `(private key, public key)`.
#[derive(Copy, Clone, PartialEq, Eq, Debug)]
pub enum Keypair {
    Ed25519([u8; 64], [u8; 32]),
}

impl Keypair {
    /// The raw private-key bytes.
    pub open spec fn privkey_bytes(self) -> Seq<u8> {
        match self {
            Keypair::Ed25519(kpriv, _) => kpriv@,
        }
    }

    /// The raw public-key bytes.
    pub open spec fn pubkey_bytes(self) -> Seq<u8> {
        match self {
            Keypair::Ed25519(_, kpub) => kpub@,
        }
    }

    /// The fingerprint bytes of the public key: the SHA-256 of its raw bytes.
    pub open spec fn fingerprint_bytes(self) -> Seq<u8> {
        sha256_of(self.pubkey_bytes())
    }

    /// Signs the given hash, tagging the signature with the fingerprint of
    /// this keypair's public key.
    pub fn sign(&self, hash: Hash) -> (r: Signature)
        ensures
            r is Ed25519,
            r.sig_bytes() == ed25519_sig_of(hash@, self.privkey_bytes()),
            r.fingerprint_bytes() == self.fingerprint_bytes(),
    {
        match self {
            Keypair::Ed25519(kpriv, kpub) => {
                let arr = hash.into_array();
                let q = ed25519_sign(arr.as_slice(), kpriv);
                Signature::Ed25519(q, Fingerprint::new(Hash::of_slice(kpub.as_slice())))
            },
        }
    }

    /// The fingerprint of this keypair's public key.
    pub fn fingerprint(&self) -> (r: Fingerprint)
        ensures
            r@ == self.fingerprint_bytes(),
    {
        match self {
            Keypair::Ed25519(_, kpub) => Fingerprint::new(Hash::of_slice(kpub.as_slice())),
        }
    }

    /// Converts this keypair into just the validation (public) key.
    pub fn into_pubkey(self) -> (r: ValidationKey)
        ensures
            r is Ed25519,
            r.raw_bytes() == self.pubkey_bytes(),
    {
        match self {
            Keypair::Ed25519(_, kpub) => ValidationKey::Ed25519(kpub),
        }
    }
}

// ---------------------------------------------------------------------------
// ValidationKey
// ---------------------------------------------------------------------------

/// The public half of a keypair, used to verify `Signed<T>` structures.
#[derive(Copy, Clone, PartialEq, Eq, Hash, Debug)]
pub enum ValidationKey {
    Ed25519([u8; 32]),
}

/// Model of a [`ValidationKey`]: the scheme and the raw public-key bytes.
pub ghost enum ValidationKeyV {
    Ed25519(Seq<u8>),
}

impl DeepView for ValidationKey {
    type V = ValidationKeyV;

    open spec fn deep_view(&self) -> ValidationKeyV {
        match self {
            ValidationKey::Ed25519(k) => ValidationKeyV::Ed25519(k@),
        }
    }
}

impl ValidationKey {
    /// The raw public-key bytes.
    pub open spec fn raw_bytes(self) -> Seq<u8> {
        match self {
            ValidationKey::Ed25519(k) => k@,
        }
    }

    /// The fingerprint bytes of this key: the SHA-256 of its raw bytes.
    pub open spec fn fingerprint_bytes(self) -> Seq<u8> {
        sha256_of(self.raw_bytes())
    }

    /// The fingerprint identifying this key's identity.
    pub fn fingerprint(&self) -> (r: Fingerprint)
        ensures
            r@ == self.fingerprint_bytes(),
    {
        match self {
            ValidationKey::Ed25519(k) => Fingerprint::new(Hash::of_slice(k.as_slice())),
        }
    }
}

/// Canonical encoding of a validation-key model: one scheme byte, then the
/// raw key bytes.
pub open spec fn enc_validation_key(v: ValidationKeyV) -> Seq<u8> {
    match v {
        ValidationKeyV::Ed25519(k) => seq![0x00u8] + k,
    }
}

impl BinaryComponent for ValidationKey {
    open spec fn enc_of(v: ValidationKeyV) -> Seq<u8> {
        enc_validation_key(v)
    }

    open spec fn v_wf(v: ValidationKeyV) -> bool {
        v->Ed25519_0.len() == 32
    }

    open spec fn dec_at(s: Seq<u8>, i: int) -> Option<(ValidationKeyV, int)> {
        match dec_u8(s, i) {
            Some((tag, j)) => if tag == 0x00 {
                match dec_bytes(s, j, 32) {
                    Some((k, e)) => Some((ValidationKeyV::Ed25519(k), e)),
                    None => None,
                }
            } else {
                None
            },
            None => None,
        }
    }

    proof fn lemma_view_wf(&self) {
    }

    proof fn lemma_dec_sound(s: Seq<u8>, i: int) {
        match Self::dec_at(s, i) {
            Some((w, j)) => {
                assert(Self::enc_of(w) =~= s.subrange(i, j));
            },
            None => {},
        }
    }

    proof fn lemma_dec_complete(w: ValidationKeyV, s: Seq<u8>, i: int) {
        let k = w->Ed25519_0;
        crate::codec::lemma_concat_split(s, i, seq![0x00u8], k);
        assert(s[i] == seq![0x00u8][0]);
        assert(dec_bytes(s, i + 1, 32) == Some::<(Seq<u8>, int)>((k, i + 33)));
    }

    fn encode_onto(&self, out: &mut Vec<u8>) {
        match self {
            ValidationKey::Ed25519(k) => {
                write_u8(out, 0x00);
                write_bytes(out, k.as_slice());
                assert(out@ =~= old(out)@ + Self::enc_of(self.deep_view()));
            },
        }
    }

    fn decode_from(s: &[u8], i: usize) -> (r: Result<(Self, usize), DecodeError>) {
        match read_u8(s, i) {
            Ok((tag, j)) => {
                if tag == 0x00 {
                    match read_arr32(s, j) {
                        Ok((k, e)) => Ok((ValidationKey::Ed25519(k), e)),
                        Err(e) => Err(e),
                    }
                } else {
                    Err(DecodeError)
                }
            },
            Err(e) => Err(e),
        }
    }
}

// ---------------------------------------------------------------------------
// Signature
// ---------------------------------------------------------------------------

/// The signature over some hash, together with the fingerprint of the
/// keypair that produced it.
#[derive(Copy, Clone, PartialEq, Eq, Debug)]
pub enum Signature {
    Ed25519([u8; 64], Fingerprint),
}

/// Model of a [`Signature`]: the signature bytes and the signer fingerprint.
pub ghost enum SignatureV {
    Ed25519(Seq<u8>, Seq<u8>),
}

impl SignatureV {
    /// The raw signature bytes.
    pub open spec fn sig_bytes(self) -> Seq<u8> {
        self->Ed25519_0
    }

    /// The signer's fingerprint bytes.
    pub open spec fn fingerprint_bytes(self) -> Seq<u8> {
        self->Ed25519_1
    }
}

impl DeepView for Signature {
    type V = SignatureV;

    open spec fn deep_view(&self) -> SignatureV {
        match self {
            Signature::Ed25519(sd, fp) => SignatureV::Ed25519(sd@, fp@),
        }
    }
}

impl Signature {
    /// The raw signature bytes.
    pub open spec fn sig_bytes(self) -> Seq<u8> {
        match self {
            Signature::Ed25519(sd, _) => sd@,
        }
    }

    /// The signer's fingerprint bytes.
    pub open spec fn fingerprint_bytes(self) -> Seq<u8> {
        match self {
            Signature::Ed25519(_, fp) => fp@,
        }
    }

    /// The signature scheme used for this signature.
    pub fn scheme(&self) -> (r: Scheme)
        ensures
            r == Scheme::Ed25519,
    {
        match self {
            Signature::Ed25519(_, _) => Scheme::Ed25519,
        }
    }

    /// Extracts the fingerprint of the public key behind the signature.
    pub fn into_fingerprint(self) -> (r: Fingerprint)
        ensures
            r@ == self.fingerprint_bytes(),
    {
        match self {
            Signature::Ed25519(_, f) => f,
        }
    }
}

/// Canonical encoding of a signature model: one scheme byte, 64 signature
/// bytes, then the 32 fingerprint bytes.
pub open spec fn enc_signature(v: SignatureV) -> Seq<u8> {
    match v {
        SignatureV::Ed25519(sd, fp) => seq![0x00u8] + sd + fp,
    }
}

impl BinaryComponent for Signature {
    open spec fn enc_of(v: SignatureV) -> Seq<u8> {
        enc_signature(v)
    }

    open spec fn v_wf(v: SignatureV) -> bool {
        v.sig_bytes().len() == 64 && v.fingerprint_bytes().len() == 32
    }

    open spec fn dec_at(s: Seq<u8>, i: int) -> Option<(SignatureV, int)> {
        match dec_u8(s, i) {
            Some((tag, j)) => if tag == 0x00 {
                match dec_bytes(s, j, 64) {
                    Some((sd, j2)) => match dec_bytes(s, j2, 32) {
                        Some((fp, e)) => Some((SignatureV::Ed25519(sd, fp), e)),
                        None => None,
                    },
                    None => None,
                }
            } else {
                None
            },
            None => None,
        }
    }

    proof fn lemma_view_wf(&self) {
    }

    proof fn lemma_dec_sound(s: Seq<u8>, i: int) {
        match Self::dec_at(s, i) {
            Some((w, j)) => {
                assert(Self::enc_of(w) =~= s.subrange(i, j));
            },
            None => {},
        }
    }

    proof fn lemma_dec_complete(w: SignatureV, s: Seq<u8>, i: int) {
        let sd = w.sig_bytes();
        let fp = w.fingerprint_bytes();
        assert(Self::enc_of(w) =~= (seq![0x00u8] + sd) + fp);
        crate::codec::lemma_concat_split(s, i, seq![0x00u8] + sd, fp);
        crate::codec::lemma_concat_split(s, i, seq![0x00u8], sd);
        assert(s[i] == (seq![0x00u8] + sd)[0]);
        assert(dec_bytes(s, i + 1, 64) == Some::<(Seq<u8>, int)>((sd, i + 65)));
        assert(dec_bytes(s, i + 65, 32) == Some::<(Seq<u8>, int)>((fp, i + 97)));
    }

    fn encode_onto(&self, out: &mut Vec<u8>) {
        match self {
            Signature::Ed25519(sd, fp) => {
                write_u8(out, 0x00);
                write_bytes(out, sd.as_slice());
                fp.encode_onto(out);
                assert(out@ =~= old(out)@ + Self::enc_of(self.deep_view()));
            },
        }
    }

    fn decode_from(s: &[u8], i: usize) -> (r: Result<(Self, usize), DecodeError>) {
        match read_u8(s, i) {
            Ok((tag, j)) => {
                if tag == 0x00 {
                    match read_arr64(s, j) {
                        Ok((sd, j2)) => match read_arr32(s, j2) {
                            Ok((fp, e)) => Ok(
                                (Signature::Ed25519(sd, Fingerprint::new(Hash::new(fp))), e),
                            ),
                            Err(e) => Err(e),
                        },
                        Err(e) => Err(e),
                    }
                } else {
                    Err(DecodeError)
                }
            },
            Err(e) => Err(e),
        }
    }
}

// ---------------------------------------------------------------------------
// Signed<T>
// ---------------------------------------------------------------------------

/// Envelope pairing a signature with the body it signs.  The signature is
/// produced over the SHA-256 hash of the body's canonical encoding.
#[derive(Clone, PartialEq, Eq, Debug)]
pub struct Signed<T: BinaryComponent> {
    signature: Signature,
    body: T,
}

/// Model of a [`Signed`] envelope.
pub ghost struct SignedV<B> {
    pub signature: SignatureV,
    pub body: B,
}

impl<T: BinaryComponent> DeepView for Signed<T> {
    type V = SignedV<<T as DeepView>::V>;

    closed spec fn deep_view(&self) -> SignedV<<T as DeepView>::V> {
        SignedV { signature: self.signature.deep_view(), body: self.body.deep_view() }
    }
}

impl<T: BinaryComponent> Signed<T> {
    /// Signs `body` with `kp`: the signature is over the hash of the body's
    /// canonical encoding, and carries the signer's fingerprint.
    pub fn new(kp: Keypair, body: T) -> (r: Signed<T>)
        ensures
            r.deep_view().body == body.deep_view(),
            r.deep_view().signature == SignatureV::Ed25519(
                ed25519_sig_of(sha256_of(T::enc_of(body.deep_view())), kp.privkey_bytes()),
                kp.fingerprint_bytes(),
            ),
    {
        let h = get_hash(&body);
        Signed { signature: kp.sign(h), body }
    }

    /// Unwraps the contained body.
    pub fn extract(self) -> (r: T)
        ensures
            r.deep_view() == self.deep_view().body,
    {
        self.body
    }

    /// A reference to the contained body.
    pub fn body(&self) -> (r: &T)
        ensures
            r.deep_view() == self.deep_view().body,
    {
        &self.body
    }

    /// A copy of the signature data.
    pub fn sig(&self) -> (r: Signature)
        ensures
            r.deep_view() == self.deep_view().signature,
    {
        self.signature
    }
}

impl<T: BinaryComponent> BinaryComponent for Signed<T> {
    /// The signature's encoding immediately followed by the body's.
    open spec fn enc_of(v: SignedV<<T as DeepView>::V>) -> Seq<u8> {
        enc_signature(v.signature) + T::enc_of(v.body)
    }

    open spec fn v_wf(v: SignedV<<T as DeepView>::V>) -> bool {
        <Signature as BinaryComponent>::v_wf(v.signature) && T::v_wf(v.body)
    }

    open spec fn dec_at(s: Seq<u8>, i: int) -> Option<(SignedV<<T as DeepView>::V>, int)> {
        match <Signature as BinaryComponent>::dec_at(s, i) {
            Some((sv, j)) => match T::dec_at(s, j) {
                Some((bv, e)) => Some((SignedV { signature: sv, body: bv }, e)),
                None => None,
            },
            None => None,
        }
    }

    proof fn lemma_view_wf(&self) {
        self.signature.lemma_view_wf();
        self.body.lemma_view_wf();
    }

    proof fn lemma_dec_sound(s: Seq<u8>, i: int) {
        <Signature as BinaryComponent>::lemma_dec_sound(s, i);
        match <Signature as BinaryComponent>::dec_at(s, i) {
            Some((sv, j)) => {
                T::lemma_dec_sound(s, j);
                match T::dec_at(s, j) {
                    Some((bv, e)) => {
                        assert(Self::enc_of(SignedV { signature: sv, body: bv }) =~= s.subrange(
                            i,
                            e,
                        )) by {
                            assert(enc_signature(sv) == s.subrange(i, j));
                            assert(T::enc_of(bv) == s.subrange(j, e));
                        }
                    },
                    None => {},
                }
            },
            None => {},
        }
    }

    proof fn lemma_dec_complete(w: SignedV<<T as DeepView>::V>, s: Seq<u8>, i: int) {
        let a = enc_signature(w.signature);
        let b = T::enc_of(w.body);
        crate::codec::lemma_concat_split(s, i, a, b);
        <Signature as BinaryComponent>::lemma_dec_complete(w.signature, s, i);
        T::lemma_dec_complete(w.body, s, i + a.len() as int);
    }

    fn encode_onto(&self, out: &mut Vec<u8>) {
        self.signature.encode_onto(out);
        self.body.encode_onto(out);
        assert(out@ =~= old(out)@ + Self::enc_of(self.deep_view()));
    }

    fn decode_from(s: &[u8], i: usize) -> (r: Result<(Self, usize), DecodeError>) {
        match Signature::decode_from(s, i) {
            Ok((sv, j)) => match T::decode_from(s, j) {
                Ok((bv, e)) => Ok((Signed { signature: sv, body: bv }, e)),
                Err(e) => Err(e),
            },
            Err(e) => Err(e),
        }
    }
}

// ---------------------------------------------------------------------------
// Verification
// ---------------------------------------------------------------------------

/// Why a signature failed to verify.
#[derive(Copy, Clone, PartialEq, Eq, Structural, Hash, Debug)]
pub enum SigVerificationError {
    /// The signature's embedded fingerprint is not the fingerprint of the
    /// validation key it was checked against.
    FingerprintMismatch,
    /// The signature's scheme does not match the key's scheme.
    SignatureSchemeMismatch,
    /// The cryptographic check itself rejected the signature.
    KeyMismatch,
}

/// Verifies that a signature, a validation key, and the signed data match.
/// With Ed25519 as the only scheme, a scheme mismatch cannot arise.
pub fn verify(sig: Signature, vk: ValidationKey, data: &[u8]) -> (r: Result<
    (),
    SigVerificationError,
>)
    ensures
        r is Ok <==> ed25519_verifies(data@, vk.raw_bytes(), sig.sig_bytes()),
        r is Err ==> r->Err_0 == SigVerificationError::KeyMismatch,
{
    match (sig, vk) {
        (Signature::Ed25519(sd, _), ValidationKey::Ed25519(kd)) => {
            if ed25519_check(data, &kd, &sd) {
                Ok(())
            } else {
                Err(SigVerificationError::KeyMismatch)
            }
        },
    }
}

/// Verifies a `Signed<T>` against a validation key: first that the
/// signature's embedded fingerprint is the key's fingerprint, then that the
/// signature cryptographically verifies over the hash of the body's
/// canonical encoding.
pub fn verify_signed<T: BinaryComponent>(st: &Signed<T>, vk: ValidationKey) -> (r: Result<
    (),
    SigVerificationError,
>)
    ensures
        r is Ok <==> st.deep_view().signature.fingerprint_bytes() == vk.fingerprint_bytes()
            && ed25519_verifies(
            sha256_of(T::enc_of(st.deep_view().body)),
            vk.raw_bytes(),
            st.deep_view().signature.sig_bytes(),
        ),
        r == Err::<(), SigVerificationError>(SigVerificationError::FingerprintMismatch) <==> st
            .deep_view().signature.fingerprint_bytes() != vk.fingerprint_bytes(),
        r == Err::<(), SigVerificationError>(SigVerificationError::KeyMismatch) <==> st
            .deep_view().signature.fingerprint_bytes() == vk.fingerprint_bytes()
            && !ed25519_verifies(
            sha256_of(T::enc_of(st.deep_view().body)),
            vk.raw_bytes(),
            st.deep_view().signature.sig_bytes(),
        ),
{
    let sfp = st.sig().into_fingerprint().into_array();
    let kfp = vk.fingerprint().into_array();
    if !arr_eq(sfp.as_slice(), kfp.as_slice()) {
        Err(SigVerificationError::FingerprintMismatch)
    } else {
        let h = get_hash(&st.body);
        let harr = h.into_array();
        verify(st.sig(), vk, harr.as_slice())
    }
}

} // verus!
