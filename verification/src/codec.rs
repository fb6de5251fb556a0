//! Canonical binary codec.
//!
//! Every on-wire structure of the ledger is encoded by hand so that the byte
//! representation is exactly pinned down: content addresses and signatures are
//! computed over these bytes, and any nondeterminism would break consensus.
//!
//! All multi-byte integers are big-endian.  Variable-length sequences carry an
//! unsigned 64-bit element count.  Reading past the end of the input or an
//! unrecognized tag byte yields the single uniform [`DecodeError`].

use vstd::prelude::*;

verus! {

/// Uniform decoding failure: malformed bytes, truncated input, or an
/// unrecognized tag.  The codec does not distinguish error subkinds.
#[derive(Copy, Clone, PartialEq, Eq, Structural, Debug)]
pub struct DecodeError;

// ---------------------------------------------------------------------------
// Specification-level encoders for the primitive shapes.
// ---------------------------------------------------------------------------

/// Canonical encoding of a `u8`: one byte.
pub open spec fn enc_u8(x: u8) -> Seq<u8> {
    seq![x]
}

/// Canonical encoding of a `u16`: two bytes, big-endian.
pub open spec fn enc_u16(x: u16) -> Seq<u8> {
    seq![(x >> 8) as u8, x as u8]
}

/// Canonical encoding of a `u32`: four bytes, big-endian.
pub open spec fn enc_u32(x: u32) -> Seq<u8> {
    seq![(x >> 24) as u8, (x >> 16) as u8, (x >> 8) as u8, x as u8]
}

/// Canonical encoding of a `u64`: eight bytes, big-endian.
pub open spec fn enc_u64(x: u64) -> Seq<u8> {
    seq![
        (x >> 56) as u8,
        (x >> 48) as u8,
        (x >> 40) as u8,
        (x >> 32) as u8,
        (x >> 24) as u8,
        (x >> 16) as u8,
        (x >> 8) as u8,
        x as u8,
    ]
}

/// Two's-complement image of an `i64` in a `u64`.
pub open spec fn i64_to_u64(x: i64) -> u64 {
    if x >= 0 {
        x as u64
    } else {
        (x + 0x1_0000_0000_0000_0000) as u64
    }
}

/// Inverse of [`i64_to_u64`].
pub open spec fn u64_to_i64(y: u64) -> i64 {
    if y < 0x8000_0000_0000_0000 {
        y as i64
    } else {
        (y - 0x1_0000_0000_0000_0000) as i64
    }
}

/// Canonical encoding of an `i64`: its two's-complement bits, big-endian.
pub open spec fn enc_i64(x: i64) -> Seq<u8> {
    enc_u64(i64_to_u64(x))
}

// ---------------------------------------------------------------------------
// Specification-level decoders.  Each returns the decoded value and the
// position just past the consumed bytes, or `None` on malformed input.
// ---------------------------------------------------------------------------

/// Specification decoder for a `u8`.
pub open spec fn dec_u8(s: Seq<u8>, i: int) -> Option<(u8, int)> {
    if 0 <= i && i + 1 <= s.len() {
        Some((s[i], i + 1))
    } else {
        None
    }
}

/// Specification decoder for a big-endian `u16`.
pub open spec fn dec_u16(s: Seq<u8>, i: int) -> Option<(u16, int)> {
    if 0 <= i && i + 2 <= s.len() {
        Some((((s[i] as u16) << 8) | (s[i + 1] as u16), i + 2))
    } else {
        None
    }
}

/// Specification decoder for a big-endian `u32`.
pub open spec fn dec_u32(s: Seq<u8>, i: int) -> Option<(u32, int)> {
    if 0 <= i && i + 4 <= s.len() {
        Some(
            (((s[i] as u32) << 24) | ((s[i + 1] as u32) << 16) | ((s[i + 2] as u32) << 8) | (s[i
                + 3] as u32), i + 4),
        )
    } else {
        None
    }
}

/// Specification decoder for a big-endian `u64`.
pub open spec fn dec_u64(s: Seq<u8>, i: int) -> Option<(u64, int)> {
    if 0 <= i && i + 8 <= s.len() {
        Some(
            (((s[i] as u64) << 56) | ((s[i + 1] as u64) << 48) | ((s[i + 2] as u64) << 40) | ((s[i
                + 3] as u64) << 32) | ((s[i + 4] as u64) << 24) | ((s[i + 5] as u64) << 16) | ((s[i
                + 6] as u64) << 8) | (s[i + 7] as u64), i + 8),
        )
    } else {
        None
    }
}

/// Specification decoder for a big-endian `i64`.
pub open spec fn dec_i64(s: Seq<u8>, i: int) -> Option<(i64, int)> {
    match dec_u64(s, i) {
        Some((y, j)) => Some((u64_to_i64(y), j)),
        None => None,
    }
}

/// Specification decoder for `n` raw bytes.
pub open spec fn dec_bytes(s: Seq<u8>, i: int, n: int) -> Option<(Seq<u8>, int)> {
    if 0 <= i && 0 <= n && i + n <= s.len() {
        Some((s.subrange(i, i + n), i + n))
    } else {
        None
    }
}

// ---------------------------------------------------------------------------
// Round-trip facts for the primitive shapes.
// ---------------------------------------------------------------------------

/// Reassembling the two big-endian bytes of a `u16` restores it.
pub proof fn lemma_u16_reassemble(x: u16)
    ensures
        ((((x >> 8) as u8) as u16) << 8) | (((x as u8) as u16)) == x,
{
    assert(((((x >> 8) as u8) as u16) << 8) | (((x as u8) as u16)) == x) by (bit_vector);
}

/// Reassembling the four big-endian bytes of a `u32` restores it.
pub proof fn lemma_u32_reassemble(x: u32)
    ensures
        ((((x >> 24) as u8) as u32) << 24) | ((((x >> 16) as u8) as u32) << 16) | ((((x
            >> 8) as u8) as u32) << 8) | (((x as u8) as u32)) == x,
{
    assert(((((x >> 24) as u8) as u32) << 24) | ((((x >> 16) as u8) as u32) << 16) | ((((x
        >> 8) as u8) as u32) << 8) | (((x as u8) as u32)) == x) by (bit_vector);
}

/// Reassembling the eight big-endian bytes of a `u64` restores it.
pub proof fn lemma_u64_reassemble(x: u64)
    ensures
        ((((x >> 56) as u8) as u64) << 56) | ((((x >> 48) as u8) as u64) << 48) | ((((x
            >> 40) as u8) as u64) << 40) | ((((x >> 32) as u8) as u64) << 32) | ((((x
            >> 24) as u8) as u64) << 24) | ((((x >> 16) as u8) as u64) << 16) | ((((x
            >> 8) as u8) as u64) << 8) | (((x as u8) as u64)) == x,
{
    assert(((((x >> 56) as u8) as u64) << 56) | ((((x >> 48) as u8) as u64) << 48) | ((((x
        >> 40) as u8) as u64) << 40) | ((((x >> 32) as u8) as u64) << 32) | ((((x
        >> 24) as u8) as u64) << 24) | ((((x >> 16) as u8) as u64) << 16) | ((((x
        >> 8) as u8) as u64) << 8) | (((x as u8) as u64)) == x) by (bit_vector);
}

/// The two's-complement image round-trips.
pub proof fn lemma_i64_round(x: i64)
    ensures
        u64_to_i64(i64_to_u64(x)) == x,
{
}

/// Decoding at the start of an encoded `u16` yields the encoded value.
pub proof fn lemma_dec_enc_u16(x: u16, s: Seq<u8>, i: int)
    requires
        0 <= i,
        i + 2 <= s.len(),
        s.subrange(i, i + 2) == enc_u16(x),
    ensures
        dec_u16(s, i) == Some((x, i + 2)),
{
    assert(s[i] == enc_u16(x)[0]);
    assert(s[i + 1] == enc_u16(x)[1]);
    lemma_u16_reassemble(x);
}

/// Decoding at the start of an encoded `u32` yields the encoded value.
pub proof fn lemma_dec_enc_u32(x: u32, s: Seq<u8>, i: int)
    requires
        0 <= i,
        i + 4 <= s.len(),
        s.subrange(i, i + 4) == enc_u32(x),
    ensures
        dec_u32(s, i) == Some((x, i + 4)),
{
    assert(s[i] == enc_u32(x)[0]);
    assert(s[i + 1] == enc_u32(x)[1]);
    assert(s[i + 2] == enc_u32(x)[2]);
    assert(s[i + 3] == enc_u32(x)[3]);
    lemma_u32_reassemble(x);
}

/// Decoding at the start of an encoded `u64` yields the encoded value.
pub proof fn lemma_dec_enc_u64(x: u64, s: Seq<u8>, i: int)
    requires
        0 <= i,
        i + 8 <= s.len(),
        s.subrange(i, i + 8) == enc_u64(x),
    ensures
        dec_u64(s, i) == Some((x, i + 8)),
{
    assert forall|k: int| 0 <= k < 8 implies s[i + k] == enc_u64(x)[k] by {
        assert(s.subrange(i, i + 8)[k] == s[i + k]);
    }
    lemma_u64_reassemble(x);
}

/// Decoding at the start of an encoded `i64` yields the encoded value.
pub proof fn lemma_dec_enc_i64(x: i64, s: Seq<u8>, i: int)
    requires
        0 <= i,
        i + 8 <= s.len(),
        s.subrange(i, i + 8) == enc_i64(x),
    ensures
        dec_i64(s, i) == Some((x, i + 8)),
{
    lemma_dec_enc_u64(i64_to_u64(x), s, i);
    lemma_i64_round(x);
}

/// A decoded `u16` re-encodes to the two bytes it was read from.
pub proof fn lemma_enc_dec_u16(s: Seq<u8>, i: int)
    ensures
        dec_u16(s, i) matches Some((v, j)) ==> j == i + 2 && enc_u16(v) == s.subrange(i, j),
{
    if dec_u16(s, i) is Some {
        let b0 = s[i];
        let b1 = s[i + 1];
        let v = ((b0 as u16) << 8) | (b1 as u16);
        assert((v >> 8) as u8 == b0 && v as u8 == b1) by (bit_vector)
            requires
                v == ((b0 as u16) << 8) | (b1 as u16),
        ;
        assert(enc_u16(v) =~= s.subrange(i, i + 2));
    }
}

/// A decoded `u32` re-encodes to the four bytes it was read from.
pub proof fn lemma_enc_dec_u32(s: Seq<u8>, i: int)
    ensures
        dec_u32(s, i) matches Some((v, j)) ==> j == i + 4 && enc_u32(v) == s.subrange(i, j),
{
    if dec_u32(s, i) is Some {
        let b0 = s[i];
        let b1 = s[i + 1];
        let b2 = s[i + 2];
        let b3 = s[i + 3];
        let v = ((b0 as u32) << 24) | ((b1 as u32) << 16) | ((b2 as u32) << 8) | (b3 as u32);
        assert((v >> 24) as u8 == b0 && (v >> 16) as u8 == b1 && (v >> 8) as u8 == b2 && v as u8
            == b3) by (bit_vector)
            requires
                v == ((b0 as u32) << 24) | ((b1 as u32) << 16) | ((b2 as u32) << 8) | (b3 as u32),
        ;
        assert(enc_u32(v) =~= s.subrange(i, i + 4));
    }
}

/// A decoded `u64` re-encodes to the eight bytes it was read from.
pub proof fn lemma_enc_dec_u64(s: Seq<u8>, i: int)
    ensures
        dec_u64(s, i) matches Some((v, j)) ==> j == i + 8 && enc_u64(v) == s.subrange(i, j),
{
    if dec_u64(s, i) is Some {
        let b0 = s[i];
        let b1 = s[i + 1];
        let b2 = s[i + 2];
        let b3 = s[i + 3];
        let b4 = s[i + 4];
        let b5 = s[i + 5];
        let b6 = s[i + 6];
        let b7 = s[i + 7];
        let v = ((b0 as u64) << 56) | ((b1 as u64) << 48) | ((b2 as u64) << 40) | ((b3 as u64)
            << 32) | ((b4 as u64) << 24) | ((b5 as u64) << 16) | ((b6 as u64) << 8) | (b7 as u64);
        assert((v >> 56) as u8 == b0 && (v >> 48) as u8 == b1 && (v >> 40) as u8 == b2 && (v
            >> 32) as u8 == b3 && (v >> 24) as u8 == b4 && (v >> 16) as u8 == b5 && (v >> 8) as u8
            == b6 && v as u8 == b7) by (bit_vector)
            requires
                v == ((b0 as u64) << 56) | ((b1 as u64) << 48) | ((b2 as u64) << 40) | ((b3 as u64)
                    << 32) | ((b4 as u64) << 24) | ((b5 as u64) << 16) | ((b6 as u64) << 8) | (
                b7 as u64),
        ;
        assert(enc_u64(v) =~= s.subrange(i, i + 8));
    }
}

/// A decoded `i64` re-encodes to the eight bytes it was read from.
pub proof fn lemma_enc_dec_i64(s: Seq<u8>, i: int)
    ensures
        dec_i64(s, i) matches Some((v, j)) ==> j == i + 8 && enc_i64(v) == s.subrange(i, j),
{
    lemma_enc_dec_u64(s, i);
    if dec_u64(s, i) is Some {
        let y = dec_u64(s, i)->Some_0.0;
        assert(i64_to_u64(u64_to_i64(y)) == y);
    }
}

// ---------------------------------------------------------------------------
// Executable writers.  Each appends the canonical encoding to `out`.
// ---------------------------------------------------------------------------

/// Appends one byte.
pub fn write_u8(out: &mut Vec<u8>, x: u8)
    ensures
        final(out)@ == old(out)@ + enc_u8(x),
{
    out.push(x);
    assert(out@ =~= old(out)@ + enc_u8(x));
}

/// Appends a big-endian `u16`.
pub fn write_u16(out: &mut Vec<u8>, x: u16)
    ensures
        final(out)@ == old(out)@ + enc_u16(x),
{
    out.push((x >> 8) as u8);
    out.push(#[verifier::truncate] (x as u8));
    assert(out@ =~= old(out)@ + enc_u16(x));
}

/// Appends a big-endian `u32`.
pub fn write_u32(out: &mut Vec<u8>, x: u32)
    ensures
        final(out)@ == old(out)@ + enc_u32(x),
{
    out.push(#[verifier::truncate] ((x >> 24) as u8));
    out.push(#[verifier::truncate] ((x >> 16) as u8));
    out.push(#[verifier::truncate] ((x >> 8) as u8));
    out.push(#[verifier::truncate] (x as u8));
    assert(out@ =~= old(out)@ + enc_u32(x));
}

/// Appends a big-endian `u64`.
pub fn write_u64(out: &mut Vec<u8>, x: u64)
    ensures
        final(out)@ == old(out)@ + enc_u64(x),
{
    out.push(#[verifier::truncate] ((x >> 56) as u8));
    out.push(#[verifier::truncate] ((x >> 48) as u8));
    out.push(#[verifier::truncate] ((x >> 40) as u8));
    out.push(#[verifier::truncate] ((x >> 32) as u8));
    out.push(#[verifier::truncate] ((x >> 24) as u8));
    out.push(#[verifier::truncate] ((x >> 16) as u8));
    out.push(#[verifier::truncate] ((x >> 8) as u8));
    out.push(#[verifier::truncate] (x as u8));
    assert(out@ =~= old(out)@ + enc_u64(x));
}

/// Appends a big-endian `i64` (two's complement).
pub fn write_i64(out: &mut Vec<u8>, x: i64)
    ensures
        final(out)@ == old(out)@ + enc_i64(x),
{
    let y: u64 = if x >= 0 {
        x as u64
    } else {
        ((x as i128) + 0x1_0000_0000_0000_0000i128) as u64
    };
    assert(y == i64_to_u64(x));
    write_u64(out, y);
}

/// Appends raw bytes with no length prefix.
pub fn write_bytes(out: &mut Vec<u8>, data: &[u8])
    ensures
        final(out)@ == old(out)@ + data@,
{
    let n = data.len();
    let mut k: usize = 0;
    while k < n
        invariant
            n == data@.len(),
            k <= n,
            out@ == old(out)@ + data@.subrange(0, k as int),
        decreases n - k,
    {
        out.push(data[k]);
        assert(out@ =~= old(out)@ + data@.subrange(0, k + 1 as int));
        k = k + 1;
    }
    assert(data@.subrange(0, n as int) =~= data@);
}

// ---------------------------------------------------------------------------
// Executable readers.  Each mirrors its specification decoder exactly.
// ---------------------------------------------------------------------------

/// Reads one byte.
pub fn read_u8(s: &[u8], i: usize) -> (r: Result<(u8, usize), DecodeError>)
    ensures
        match r {
            Ok((v, j)) => dec_u8(s@, i as int) == Some((v, j as int)) && j <= s@.len(),
            Err(_) => dec_u8(s@, i as int) is None,
        },
{
    if i < s.len() {
        Ok((s[i], i + 1))
    } else {
        Err(DecodeError)
    }
}

/// Reads a big-endian `u16`.
pub fn read_u16(s: &[u8], i: usize) -> (r: Result<(u16, usize), DecodeError>)
    ensures
        match r {
            Ok((v, j)) => dec_u16(s@, i as int) == Some((v, j as int)) && j <= s@.len(),
            Err(_) => dec_u16(s@, i as int) is None,
        },
{
    if i < s.len() && s.len() - i >= 2 {
        let v = ((s[i] as u16) << 8) | (s[i + 1] as u16);
        Ok((v, i + 2))
    } else {
        Err(DecodeError)
    }
}

/// Reads a big-endian `u32`.
pub fn read_u32(s: &[u8], i: usize) -> (r: Result<(u32, usize), DecodeError>)
    ensures
        match r {
            Ok((v, j)) => dec_u32(s@, i as int) == Some((v, j as int)) && j <= s@.len(),
            Err(_) => dec_u32(s@, i as int) is None,
        },
{
    if i < s.len() && s.len() - i >= 4 {
        let v = ((s[i] as u32) << 24) | ((s[i + 1] as u32) << 16) | ((s[i + 2] as u32) << 8) | (s[i
            + 3] as u32);
        Ok((v, i + 4))
    } else {
        Err(DecodeError)
    }
}

/// Reads a big-endian `u64`.
pub fn read_u64(s: &[u8], i: usize) -> (r: Result<(u64, usize), DecodeError>)
    ensures
        match r {
            Ok((v, j)) => dec_u64(s@, i as int) == Some((v, j as int)) && j <= s@.len(),
            Err(_) => dec_u64(s@, i as int) is None,
        },
{
    if i < s.len() && s.len() - i >= 8 {
        let v = ((s[i] as u64) << 56) | ((s[i + 1] as u64) << 48) | ((s[i + 2] as u64) << 40) | ((
        s[i + 3] as u64) << 32) | ((s[i + 4] as u64) << 24) | ((s[i + 5] as u64) << 16) | ((s[i
            + 6] as u64) << 8) | (s[i + 7] as u64);
        Ok((v, i + 8))
    } else {
        Err(DecodeError)
    }
}

/// Reads a big-endian `i64` (two's complement).
pub fn read_i64(s: &[u8], i: usize) -> (r: Result<(i64, usize), DecodeError>)
    ensures
        match r {
            Ok((v, j)) => dec_i64(s@, i as int) == Some((v, j as int)) && j <= s@.len(),
            Err(_) => dec_i64(s@, i as int) is None,
        },
{
    match read_u64(s, i) {
        Ok((y, j)) => {
            let v: i64 = if y < 0x8000_0000_0000_0000 {
                y as i64
            } else {
                ((y as i128) - 0x1_0000_0000_0000_0000i128) as i64
            };
            assert(v == u64_to_i64(y));
            Ok((v, j))
        },
        Err(e) => Err(e),
    }
}

/// Reads `n` raw bytes into a fresh vector.
pub fn read_bytes(s: &[u8], i: usize, n: usize) -> (r: Result<(Vec<u8>, usize), DecodeError>)
    ensures
        match r {
            Ok((v, j)) => dec_bytes(s@, i as int, n as int) == Some((v@, j as int)) && j <= s@.len(),
            Err(_) => dec_bytes(s@, i as int, n as int) is None,
        },
{
    let m = s.len();
    if i <= m && m - i >= n {
        let mut v: Vec<u8> = Vec::new();
        let mut k: usize = 0;
        while k < n
            invariant
                k <= n,
                i + n <= m,
                m == s@.len(),
                v@ == s@.subrange(i as int, i + k as int),
            decreases n - k,
        {
            v.push(s[i + k]);
            assert(v@ =~= s@.subrange(i as int, i + (k + 1) as int));
            k = k + 1;
        }
        Ok((v, i + n))
    } else {
        Err(DecodeError)
    }
}

/// Reads exactly 32 raw bytes into a fixed array.
pub fn read_arr32(s: &[u8], i: usize) -> (r: Result<([u8; 32], usize), DecodeError>)
    ensures
        match r {
            Ok((v, j)) => dec_bytes(s@, i as int, 32) == Some((v@, j as int)) && j <= s@.len(),
            Err(_) => dec_bytes(s@, i as int, 32) is None,
        },
{
    let m = s.len();
    if i <= m && m - i >= 32 {
        let mut v: [u8; 32] = [0u8; 32];
        let mut k: usize = 0;
        while k < 32
            invariant
                k <= 32,
                i + 32 <= m,
                m == s@.len(),
                forall|t: int| 0 <= t < k ==> v@[t] == s@[i + t],
            decreases 32 - k,
        {
            v[k] = s[i + k];
            k = k + 1;
        }
        assert(v@ =~= s@.subrange(i as int, i + 32 as int));
        Ok((v, i + 32))
    } else {
        Err(DecodeError)
    }
}

/// Reads exactly 64 raw bytes into a fixed array.
pub fn read_arr64(s: &[u8], i: usize) -> (r: Result<([u8; 64], usize), DecodeError>)
    ensures
        match r {
            Ok((v, j)) => dec_bytes(s@, i as int, 64) == Some((v@, j as int)) && j <= s@.len(),
            Err(_) => dec_bytes(s@, i as int, 64) is None,
        },
{
    let m = s.len();
    if i <= m && m - i >= 64 {
        let mut v: [u8; 64] = [0u8; 64];
        let mut k: usize = 0;
        while k < 64
            invariant
                k <= 64,
                i + 64 <= m,
                m == s@.len(),
                forall|t: int| 0 <= t < k ==> v@[t] == s@[i + t],
            decreases 64 - k,
        {
            v[k] = s[i + k];
            k = k + 1;
        }
        assert(v@ =~= s@.subrange(i as int, i + 64 as int));
        Ok((v, i + 64))
    } else {
        Err(DecodeError)
    }
}

// ---------------------------------------------------------------------------
// The component trait: one canonical encoding per type.
// ---------------------------------------------------------------------------

/// A structure with a canonical byte representation.
///
/// The contract is stated over each type's deep view (its mathematical model):
/// `enc_of` gives the canonical bytes of a model value, `dec_at` is the
/// specification decoder, and the two lemmas pin down that decoding is exactly
/// the inverse of encoding.  `encode_onto` and `decode_from` are the
/// executable halves, each proved against the specification.
pub trait BinaryComponent: DeepView + Sized + Clone {
    /// Canonical encoding of a model value.
    spec fn enc_of(v: Self::V) -> Seq<u8>;

    /// The model values that an actual value of the type can present.
    spec fn v_wf(v: Self::V) -> bool;

    /// Specification decoder: the decoded model value and the position just
    /// past the consumed bytes, or `None` on malformed input.
    spec fn dec_at(s: Seq<u8>, i: int) -> Option<(Self::V, int)>;

    /// Every value's model is well formed.
    proof fn lemma_view_wf(&self)
        ensures
            Self::v_wf(self.deep_view()),
    ;

    /// Soundness: whatever decodes is well formed and re-encodes to exactly
    /// the consumed bytes.
    proof fn lemma_dec_sound(s: Seq<u8>, i: int)
        ensures
            Self::dec_at(s, i) matches Some((w, j)) ==> 0 <= i <= j <= s.len() && Self::v_wf(w)
                && Self::enc_of(w) == s.subrange(i, j),
    ;

    /// Completeness: a canonical encoding present in the input decodes to its
    /// own value, whatever follows it.
    proof fn lemma_dec_complete(w: Self::V, s: Seq<u8>, i: int)
        requires
            Self::v_wf(w),
            0 <= i,
            i + Self::enc_of(w).len() <= s.len(),
            s.subrange(i, i + Self::enc_of(w).len() as int) == Self::enc_of(w),
        ensures
            Self::dec_at(s, i) == Some::<(Self::V, int)>((w, i + Self::enc_of(w).len() as int)),
    ;

    /// Appends the canonical encoding of `self` to `out`.  Never fails.
    fn encode_onto(&self, out: &mut Vec<u8>)
        ensures
            final(out)@ == old(out)@ + Self::enc_of(self.deep_view()),
    ;

    /// Decodes one value starting at position `i` of `s`.
    fn decode_from(s: &[u8], i: usize) -> (r: Result<(Self, usize), DecodeError>)
        requires
            i <= s@.len(),
        ensures
            match r {
                Ok((v, j)) => Self::dec_at(s@, i as int) == Some::<(Self::V, int)>(
                    (v.deep_view(), j as int),
                ) && i <= j <= s@.len(),
                Err(_) => Self::dec_at(s@, i as int) is None,
            },
    ;
}

/// Encodes a component into a fresh byte vector.  Encoding never fails.
pub fn to_blob<T: BinaryComponent>(t: &T) -> (r: Vec<u8>)
    ensures
        r@ == T::enc_of(t.deep_view()),
{
    let mut out: Vec<u8> = Vec::new();
    t.encode_onto(&mut out);
    assert(out@ =~= T::enc_of(t.deep_view()));
    out
}

/// Decodes a component from the start of a slice; trailing bytes are ignored.
pub fn from_slice<T: BinaryComponent>(s: &[u8]) -> (r: Result<T, DecodeError>)
    ensures
        match r {
            Ok(v) => T::dec_at(s@, 0) is Some && T::dec_at(s@, 0)->Some_0.0 == v.deep_view(),
            Err(_) => T::dec_at(s@, 0) is None,
        },
{
    match T::decode_from(s, 0) {
        Ok((v, _)) => Ok(v),
        Err(e) => Err(e),
    }
}

/// Round trip: decoding a canonical encoding, with any trailing bytes, yields
/// exactly the encoded value and consumes exactly its encoding.
pub proof fn lemma_round_trip<T: BinaryComponent>(w: T::V, rest: Seq<u8>)
    requires
        T::v_wf(w),
    ensures
        T::dec_at(T::enc_of(w) + rest, 0) == Some::<(T::V, int)>((w, T::enc_of(w).len() as int)),
{
    let s = T::enc_of(w) + rest;
    assert(s.subrange(0, T::enc_of(w).len() as int) =~= T::enc_of(w));
    T::lemma_dec_complete(w, s, 0);
}

/// Canonical encodings are injective: well-formed values with equal
/// encodings are equal.  Content addresses are computed over these bytes, so
/// distinct values can only share an address through a hash collision.
pub proof fn lemma_enc_injective<T: BinaryComponent>(v1: T::V, v2: T::V)
    requires
        T::v_wf(v1),
        T::v_wf(v2),
        T::enc_of(v1) == T::enc_of(v2),
    ensures
        v1 == v2,
{
    lemma_round_trip::<T>(v1, Seq::empty());
    lemma_round_trip::<T>(v2, Seq::empty());
    assert(T::enc_of(v1) + Seq::<u8>::empty() =~= T::enc_of(v2) + Seq::<u8>::empty());
}

/// Tamper evidence: a byte string of the same length as a value's canonical
/// encoding that differs from it anywhere never decodes to that value.
pub proof fn lemma_tamper_evident<T: BinaryComponent>(w: T::V, s: Seq<u8>)
    requires
        s.len() == T::enc_of(w).len(),
        s != T::enc_of(w),
    ensures
        T::dec_at(s, 0) matches Some((u, j)) ==> u != w,
{
    T::lemma_dec_sound(s, 0);
    if T::dec_at(s, 0) is Some {
        let u = T::dec_at(s, 0)->Some_0.0;
        let j = T::dec_at(s, 0)->Some_0.1;
        if u == w {
            assert(T::enc_of(w) == s.subrange(0, j));
            assert(j == s.len());
            assert(s.subrange(0, s.len() as int) =~= s);
            assert(false);
        }
    }
}

/// Copies a byte slice into a fresh vector.
pub fn copy_bytes(v: &[u8]) -> (r: Vec<u8>)
    ensures
        r@ == v@,
{
    let n = v.len();
    let mut out: Vec<u8> = Vec::new();
    let mut k: usize = 0;
    while k < n
        invariant
            k <= n,
            n == v@.len(),
            out@ == v@.subrange(0, k as int),
        decreases n - k,
    {
        out.push(v[k]);
        assert(out@ =~= v@.subrange(0, k + 1 as int));
        k = k + 1;
    }
    assert(v@.subrange(0, n as int) =~= v@);
    out
}

/// The deep view of a byte vector is its view.
pub proof fn lemma_bytes_deep_view(v: &Vec<u8>)
    ensures
        v.deep_view() == v@,
{
    assert(v.deep_view() =~= v@);
}

/// Splits a subrange known to hold the concatenation of two byte strings.
pub proof fn lemma_concat_split(s: Seq<u8>, i: int, a: Seq<u8>, b: Seq<u8>)
    requires
        0 <= i,
        i + a.len() + b.len() <= s.len(),
        s.subrange(i, i + a.len() + b.len()) == a + b,
    ensures
        s.subrange(i, i + a.len() as int) == a,
        s.subrange(i + a.len() as int, i + a.len() + b.len()) == b,
{
    assert(s.subrange(i, i + a.len() as int) =~= a) by {
        assert forall|t: int| 0 <= t < a.len() implies s.subrange(i, i + a.len() as int)[t]
            == a[t] by {
            assert(s.subrange(i, i + a.len() + b.len())[t] == (a + b)[t]);
        }
    }
    assert(s.subrange(i + a.len() as int, i + a.len() + b.len()) =~= b) by {
        assert forall|t: int| 0 <= t < b.len() implies s.subrange(
            i + a.len() as int,
            i + a.len() + b.len(),
        )[t] == b[t] by {
            assert(s.subrange(i + a.len() as int, i + a.len() + b.len())[t] == s[i + a.len() + t]);
            assert(s.subrange(i, i + a.len() + b.len())[a.len() + t] == s[i + a.len() + t]);
            assert((a + b)[a.len() + t] == b[t]);
        }
    }
}

// ---------------------------------------------------------------------------
// Lists: an unsigned 64-bit element count followed by the elements in order.
// ---------------------------------------------------------------------------

/// Concatenated canonical encodings of a sequence of model values.
pub open spec fn enc_list<T: BinaryComponent>(v: Seq<<T as DeepView>::V>) -> Seq<u8>
    decreases v.len(),
{
    if v.len() == 0 {
        Seq::empty()
    } else {
        T::enc_of(v[0]) + enc_list::<T>(v.drop_first())
    }
}

/// Specification decoder for exactly `n` consecutive elements.
pub open spec fn dec_list<T: BinaryComponent>(s: Seq<u8>, i: int, n: nat) -> Option<
    (Seq<<T as DeepView>::V>, int),
>
    decreases n,
{
    if n == 0 {
        Some((Seq::empty(), i))
    } else {
        match T::dec_at(s, i) {
            Some((w, j)) => match dec_list::<T>(s, j, (n - 1) as nat) {
                Some((ws, k)) => Some((seq![w] + ws, k)),
                None => None,
            },
            None => None,
        }
    }
}

/// Appending one element extends the concatenated encoding at the end.
pub proof fn lemma_enc_list_snoc<T: BinaryComponent>(v: Seq<<T as DeepView>::V>, w: <T as DeepView>::V)
    ensures
        enc_list::<T>(v.push(w)) == enc_list::<T>(v) + T::enc_of(w),
    decreases v.len(),
{
    if v.len() == 0 {
        assert(v.push(w)[0] == w);
        assert(v.push(w).drop_first() =~= Seq::<<T as DeepView>::V>::empty());
        assert(enc_list::<T>(Seq::<<T as DeepView>::V>::empty()) =~= Seq::<u8>::empty());
        assert(enc_list::<T>(v) =~= Seq::<u8>::empty());
        assert(enc_list::<T>(v.push(w)) =~= enc_list::<T>(v) + T::enc_of(w));
    } else {
        assert(v.push(w)[0] == v[0]);
        assert(v.push(w).drop_first() =~= v.drop_first().push(w));
        lemma_enc_list_snoc::<T>(v.drop_first(), w);
        assert(enc_list::<T>(v.push(w)) =~= enc_list::<T>(v) + T::enc_of(w));
    }
}

/// Soundness of the list decoder.
pub proof fn lemma_dec_list_sound<T: BinaryComponent>(s: Seq<u8>, i: int, n: nat)
    requires
        0 <= i <= s.len(),
    ensures
        dec_list::<T>(s, i, n) matches Some((ws, k)) ==> i <= k <= s.len() && ws.len() == n && (
        forall|t: int| 0 <= t < n ==> T::v_wf(#[trigger] ws[t])) && enc_list::<T>(ws)
            == s.subrange(i, k),
    decreases n,
{
    if n == 0 {
        if dec_list::<T>(s, i, n) is Some {
            assert(enc_list::<T>(Seq::<<T as DeepView>::V>::empty()) =~= s.subrange(i, i));
        }
    } else {
        T::lemma_dec_sound(s, i);
        match T::dec_at(s, i) {
            Some((w, j)) => {
                lemma_dec_list_sound::<T>(s, j, (n - 1) as nat);
                match dec_list::<T>(s, j, (n - 1) as nat) {
                    Some((ws, k)) => {
                        let full = seq![w] + ws;
                        assert(full[0] == w);
                        assert(full.drop_first() =~= ws);
                        assert(enc_list::<T>(full) == T::enc_of(w) + enc_list::<T>(ws));
                        assert(T::enc_of(w) + enc_list::<T>(ws) =~= s.subrange(i, k)) by {
                            assert(T::enc_of(w) == s.subrange(i, j));
                            assert(enc_list::<T>(ws) == s.subrange(j, k));
                        }
                    },
                    None => {},
                }
            },
            None => {},
        }
    }
}

/// Completeness of the list decoder.
pub proof fn lemma_dec_list_complete<T: BinaryComponent>(
    ws: Seq<<T as DeepView>::V>,
    s: Seq<u8>,
    i: int,
)
    requires
        forall|t: int| 0 <= t < ws.len() ==> T::v_wf(#[trigger] ws[t]),
        0 <= i,
        i + enc_list::<T>(ws).len() <= s.len(),
        s.subrange(i, i + enc_list::<T>(ws).len() as int) == enc_list::<T>(ws),
    ensures
        dec_list::<T>(s, i, ws.len()) == Some::<(Seq<<T as DeepView>::V>, int)>(
            (ws, i + enc_list::<T>(ws).len() as int),
        ),
    decreases ws.len(),
{
    if ws.len() == 0 {
    } else {
        let w = ws[0];
        let tail = ws.drop_first();
        let e0 = T::enc_of(w);
        let etail = enc_list::<T>(tail);
        assert(enc_list::<T>(ws) == e0 + etail);
        assert(s.subrange(i, i + e0.len() as int) =~= e0) by {
            assert forall|t: int| 0 <= t < e0.len() implies s.subrange(i, i + e0.len() as int)[t]
                == e0[t] by {
                assert(s.subrange(i, i + enc_list::<T>(ws).len() as int)[t] == (e0 + etail)[t]);
            }
        }
        T::lemma_dec_complete(w, s, i);
        let j = i + e0.len() as int;
        assert(s.subrange(j, j + etail.len() as int) =~= etail) by {
            assert forall|t: int| 0 <= t < etail.len() implies s.subrange(
                j,
                j + etail.len() as int,
            )[t] == etail[t] by {
                assert(s.subrange(i, i + enc_list::<T>(ws).len() as int)[e0.len() + t] == (e0
                    + etail)[e0.len() + t]);
            }
        }
        lemma_dec_list_complete::<T>(tail, s, j);
        assert(seq![w] + tail =~= ws);
    }
}

impl<T: BinaryComponent> BinaryComponent for Vec<T> {
    /// A 64-bit element count, then the elements in order.
    open spec fn enc_of(v: Seq<<T as DeepView>::V>) -> Seq<u8> {
        enc_u64(v.len() as u64) + enc_list::<T>(v)
    }

    open spec fn v_wf(v: Seq<<T as DeepView>::V>) -> bool {
        v.len() <= u64::MAX && forall|t: int| 0 <= t < v.len() ==> T::v_wf(#[trigger] v[t])
    }

    open spec fn dec_at(s: Seq<u8>, i: int) -> Option<(Seq<<T as DeepView>::V>, int)> {
        match dec_u64(s, i) {
            Some((n, j)) => dec_list::<T>(s, j, n as nat),
            None => None,
        }
    }

    proof fn lemma_view_wf(&self) {
        vstd::std_specs::vec::axiom_spec_len(self);
        assert(self.deep_view().len() <= u64::MAX);
        assert forall|t: int| 0 <= t < self.deep_view().len() implies T::v_wf(
            #[trigger] self.deep_view()[t],
        ) by {
            self@[t].lemma_view_wf();
        }
    }

    proof fn lemma_dec_sound(s: Seq<u8>, i: int) {
        lemma_enc_dec_u64(s, i);
        match dec_u64(s, i) {
            Some((n, j)) => {
                lemma_dec_list_sound::<T>(s, j, n as nat);
                match dec_list::<T>(s, j, n as nat) {
                    Some((ws, k)) => {
                        assert(Self::enc_of(ws) =~= s.subrange(i, k)) by {
                            assert(enc_u64(n) == s.subrange(i, j));
                            assert(enc_list::<T>(ws) == s.subrange(j, k));
                            assert(ws.len() as u64 == n);
                        }
                    },
                    None => {},
                }
            },
            None => {},
        }
    }

    proof fn lemma_dec_complete(w: Seq<<T as DeepView>::V>, s: Seq<u8>, i: int) {
        let ehead = enc_u64(w.len() as u64);
        let etail = enc_list::<T>(w);
        assert(Self::enc_of(w) == ehead + etail);
        assert(s.subrange(i, i + 8) =~= ehead) by {
            assert forall|t: int| 0 <= t < 8 implies s.subrange(i, i + 8)[t] == ehead[t] by {
                assert(s.subrange(i, i + Self::enc_of(w).len() as int)[t] == (ehead + etail)[t]);
            }
        }
        lemma_dec_enc_u64(w.len() as u64, s, i);
        let j = i + 8;
        assert(s.subrange(j, j + etail.len() as int) =~= etail) by {
            assert forall|t: int| 0 <= t < etail.len() implies s.subrange(
                j,
                j + etail.len() as int,
            )[t] == etail[t] by {
                assert(s.subrange(i, i + Self::enc_of(w).len() as int)[8 + t] == (ehead + etail)[8
                    + t]);
            }
        }
        lemma_dec_list_complete::<T>(w, s, j);
    }

    fn encode_onto(&self, out: &mut Vec<u8>) {
        let n = self.len();
        write_u64(out, n as u64);
        let ghost base = out@;
        let mut k: usize = 0;
        while k < n
            invariant
                k <= n,
                n == self@.len(),
                base == old(out)@ + enc_u64(n as u64),
                out@ == base + enc_list::<T>(self.deep_view().subrange(0, k as int)),
            decreases n - k,
        {
            let ghost prefix = self.deep_view().subrange(0, k as int);
            self[k].encode_onto(out);
            proof {
                assert(self.deep_view()[k as int] == self@[k as int].deep_view());
                lemma_enc_list_snoc::<T>(prefix, self.deep_view()[k as int]);
                assert(prefix.push(self.deep_view()[k as int]) =~= self.deep_view().subrange(
                    0,
                    k + 1 as int,
                ));
            }
            k = k + 1;
        }
        proof {
            assert(self.deep_view().subrange(0, n as int) =~= self.deep_view());
        }
    }

    fn decode_from(s: &[u8], i: usize) -> (r: Result<(Self, usize), DecodeError>) {
        match read_u64(s, i) {
            Ok((n, first)) => {
                let mut j: usize = first;
                let mut acc: Vec<T> = Vec::new();
                let mut k: u64 = 0;
                let ghost list_start = j as int;
                loop
                    invariant
                        k <= n,
                        i <= list_start <= j <= s@.len(),
                        dec_u64(s@, i as int) == Some::<(u64, int)>((n, list_start)),
                        acc.deep_view().len() == k,
                        dec_list::<T>(s@, list_start, n as nat) == (match dec_list::<T>(
                            s@,
                            j as int,
                            (n - k) as nat,
                        ) {
                            Some((ws, e)) => Some((acc.deep_view() + ws, e)),
                            None => None::<(Seq<<T as DeepView>::V>, int)>,
                        }),
                    ensures
                        i <= j <= s@.len(),
                        dec_list::<T>(s@, list_start, n as nat) == Some::<(
                            Seq<<T as DeepView>::V>,
                            int,
                        )>((acc.deep_view(), j as int)),
                    decreases n - k,
                {
                    if k == n {
                        proof {
                            assert(acc.deep_view() + Seq::<<T as DeepView>::V>::empty()
                                =~= acc.deep_view());
                        }
                        break ;
                    }
                    match T::decode_from(s, j) {
                        Ok((v, j2)) => {
                            let ghost old_acc = acc.deep_view();
                            let ghost rest = dec_list::<T>(s@, j2 as int, (n - k - 1) as nat);
                            acc.push(v);
                            proof {
                                assert(acc.deep_view() =~= old_acc.push(v.deep_view()));
                                if rest is Some {
                                    let ws2 = rest->Some_0.0;
                                    assert(old_acc + (seq![v.deep_view()] + ws2) =~= old_acc.push(
                                        v.deep_view(),
                                    ) + ws2);
                                }
                            }
                            j = j2;
                            k = k + 1;
                        },
                        Err(e) => {
                            proof {
                                assert(dec_list::<T>(s@, j as int, (n - k) as nat) is None);
                            }
                            return Err(e);
                        },
                    }
                }
                Ok((acc, j))
            },
            Err(e) => Err(e),
        }
    }
}

// ---------------------------------------------------------------------------
// Optional values: one tag byte, then the value when present.
// ---------------------------------------------------------------------------

impl<T: BinaryComponent> BinaryComponent for Option<T> {
    /// `0x00` for absent; `0x01` followed by the value's encoding when
    /// present.  Any other tag byte is a decode error.
    open spec fn enc_of(v: Option<<T as DeepView>::V>) -> Seq<u8> {
        match v {
            None => seq![0x00u8],
            Some(w) => seq![0x01u8] + T::enc_of(w),
        }
    }

    open spec fn v_wf(v: Option<<T as DeepView>::V>) -> bool {
        match v {
            None => true,
            Some(w) => T::v_wf(w),
        }
    }

    open spec fn dec_at(s: Seq<u8>, i: int) -> Option<(Option<<T as DeepView>::V>, int)> {
        match dec_u8(s, i) {
            Some((tag, j)) => if tag == 0x00 {
                Some((None, j))
            } else if tag == 0x01 {
                match T::dec_at(s, j) {
                    Some((w, e)) => Some((Some(w), e)),
                    None => None,
                }
            } else {
                None
            },
            None => None,
        }
    }

    proof fn lemma_view_wf(&self) {
        match self {
            None => {},
            Some(t) => {
                t.lemma_view_wf();
            },
        }
    }

    proof fn lemma_dec_sound(s: Seq<u8>, i: int) {
        match dec_u8(s, i) {
            Some((tag, j)) => {
                if tag == 0x00 {
                    assert(Self::enc_of(None) =~= s.subrange(i, j));
                } else if tag == 0x01 {
                    T::lemma_dec_sound(s, j);
                    match T::dec_at(s, j) {
                        Some((w, e)) => {
                            assert(Self::enc_of(Some(w)) =~= s.subrange(i, e)) by {
                                assert(T::enc_of(w) == s.subrange(j, e));
                            }
                        },
                        None => {},
                    }
                }
            },
            None => {},
        }
    }

    proof fn lemma_dec_complete(w: Option<<T as DeepView>::V>, s: Seq<u8>, i: int) {
        match w {
            None => {
                assert(Self::enc_of(w) == seq![0x00u8]);
                assert(s.subrange(i, i + 1)[0] == s[i]);
                assert(s[i] == 0x00u8);
            },
            Some(inner) => {
                assert(Self::enc_of(w) == seq![0x01u8] + T::enc_of(inner));
                lemma_concat_split(s, i, seq![0x01u8], T::enc_of(inner));
                assert(s.subrange(i, i + 1)[0] == s[i]);
                assert(s[i] == seq![0x01u8][0]);
                T::lemma_dec_complete(inner, s, i + 1);
            },
        }
    }

    fn encode_onto(&self, out: &mut Vec<u8>) {
        match self {
            None => {
                write_u8(out, 0x00);
            },
            Some(t) => {
                write_u8(out, 0x01);
                t.encode_onto(out);
            },
        }
        assert(out@ =~= old(out)@ + Self::enc_of(self.deep_view()));
    }

    fn decode_from(s: &[u8], i: usize) -> (r: Result<(Self, usize), DecodeError>) {
        match read_u8(s, i) {
            Ok((tag, j)) => {
                if tag == 0x00 {
                    Ok((None, j))
                } else if tag == 0x01 {
                    match T::decode_from(s, j) {
                        Ok((t, e)) => Ok((Some(t), e)),
                        Err(e) => Err(e),
                    }
                } else {
                    Err(DecodeError)
                }
            },
            Err(e) => Err(e),
        }
    }
}

// ---------------------------------------------------------------------------
// Text: an unsigned 64-bit byte length, then UTF-8 bytes.
// ---------------------------------------------------------------------------

/// Relies on `String::from_utf8` (std): it succeeds exactly on valid UTF-8
/// input and yields the characters those bytes encode.
#[verifier::external_body]
fn string_from_utf8(v: Vec<u8>) -> (r: Result<String, DecodeError>)
    ensures
        r matches Ok(s) ==> vstd::utf8::valid_utf8(v@) && s@ == vstd::utf8::decode_utf8(v@),
        r is Err ==> !vstd::utf8::valid_utf8(v@),
{
    match String::from_utf8(v) {
        Ok(s) => Ok(s),
        Err(_) => Err(DecodeError),
    }
}

/// Canonical encoding of text: the UTF-8 byte length in 64 bits, then the
/// UTF-8 bytes.
pub open spec fn enc_text(v: Seq<char>) -> Seq<u8> {
    enc_u64(vstd::utf8::encode_utf8(v).len() as u64) + vstd::utf8::encode_utf8(v)
}

/// Specification decoder for text; invalid UTF-8 is a decode failure.
pub open spec fn dec_text(s: Seq<u8>, i: int) -> Option<(Seq<char>, int)> {
    match dec_u64(s, i) {
        Some((n, j)) => match dec_bytes(s, j, n as int) {
            Some((b, e)) => if vstd::utf8::valid_utf8(b) {
                Some((vstd::utf8::decode_utf8(b), e))
            } else {
                None
            },
            None => None,
        },
        None => None,
    }
}

/// Appends the canonical encoding of a string.
pub fn write_text(out: &mut Vec<u8>, s: &str)
    ensures
        final(out)@ == old(out)@ + enc_text(s@),
{
    let b = s.as_bytes();
    write_u64(out, b.len() as u64);
    write_bytes(out, b);
    assert(out@ =~= old(out)@ + enc_text(s@));
}

/// Decodes one string starting at position `i` of `s`.
pub fn read_text(s: &[u8], i: usize) -> (r: Result<(String, usize), DecodeError>)
    ensures
        match r {
            Ok((v, j)) => dec_text(s@, i as int) == Some((v@, j as int)) && j <= s@.len(),
            Err(_) => dec_text(s@, i as int) is None,
        },
{
    match read_u64(s, i) {
        Ok((n, j)) => {
            let m = s.len();
            if n <= m as u64 {
                match read_bytes(s, j, n as usize) {
                    Ok((b, e)) => match string_from_utf8(b) {
                        Ok(v) => Ok((v, e)),
                        Err(er) => Err(er),
                    },
                    Err(e) => Err(e),
                }
            } else {
                proof {
                    assert(j + n > s@.len());
                    assert(dec_bytes(s@, j as int, n as int) is None);
                }
                Err(DecodeError)
            }
        },
        Err(e) => Err(e),
    }
}

/// A decoded string is representable and re-encodes to the consumed bytes.
pub proof fn lemma_dec_text_sound(s: Seq<u8>, i: int)
    ensures
        dec_text(s, i) matches Some((v, e)) ==> 0 <= i <= e <= s.len()
            && vstd::utf8::encode_utf8(v).len() <= u64::MAX && enc_text(v) == s.subrange(i, e),
{
    lemma_enc_dec_u64(s, i);
    match dec_u64(s, i) {
        Some((n, j)) => match dec_bytes(s, j, n as int) {
            Some((b, e)) => {
                if vstd::utf8::valid_utf8(b) {
                    vstd::utf8::decode_utf8_encode_utf8(b);
                    let v = vstd::utf8::decode_utf8(b);
                    assert(vstd::utf8::encode_utf8(v) == b);
                    assert(enc_text(v) =~= s.subrange(i, e)) by {
                        assert(enc_u64(n) == s.subrange(i, j));
                        assert(b == s.subrange(j, e));
                        assert(b.len() == n);
                    }
                }
            },
            None => {},
        },
        None => {},
    }
}

/// A canonical text encoding present in the input decodes to its characters.
pub proof fn lemma_dec_enc_text(v: Seq<char>, s: Seq<u8>, i: int)
    requires
        vstd::utf8::encode_utf8(v).len() <= u64::MAX,
        0 <= i,
        i + enc_text(v).len() <= s.len(),
        s.subrange(i, i + enc_text(v).len() as int) == enc_text(v),
    ensures
        dec_text(s, i) == Some::<(Seq<char>, int)>((v, i + enc_text(v).len() as int)),
{
    let b = vstd::utf8::encode_utf8(v);
    assert(enc_text(v) == enc_u64(b.len() as u64) + b);
    lemma_concat_split(s, i, enc_u64(b.len() as u64), b);
    lemma_dec_enc_u64(b.len() as u64, s, i);
    assert(dec_bytes(s, i + 8, b.len() as int) == Some::<(Seq<u8>, int)>(
        (b, i + 8 + b.len() as int),
    ));
    vstd::utf8::encode_utf8_valid_utf8(v);
    vstd::utf8::encode_utf8_decode_utf8(v);
}

/// Round trip for text: decoding a canonical encoding, with any trailing
/// bytes, recovers exactly the encoded characters.
pub proof fn lemma_text_round_trip(v: Seq<char>, rest: Seq<u8>)
    requires
        vstd::utf8::encode_utf8(v).len() <= u64::MAX,
    ensures
        dec_text(enc_text(v) + rest, 0) == Some::<(Seq<char>, int)>(
            (v, enc_text(v).len() as int),
        ),
{
    let s = enc_text(v) + rest;
    assert(s.subrange(0, enc_text(v).len() as int) =~= enc_text(v));
    lemma_dec_enc_text(v, s, 0);
}

// ---------------------------------------------------------------------------
// Length-prefixed opaque blobs
// ---------------------------------------------------------------------------

/// Width of the length prefix in front of an opaque blob.
#[derive(Copy, Clone, PartialEq, Eq, Structural, Debug)]
pub enum PrefixWidth {
    W8,
    W16,
    W32,
}

/// The largest body length a prefix width can carry.
pub open spec fn prefix_max(w: PrefixWidth) -> int {
    match w {
        PrefixWidth::W8 => u8::MAX as int,
        PrefixWidth::W16 => u16::MAX as int,
        PrefixWidth::W32 => u32::MAX as int,
    }
}

/// Canonical encoding of a blob: its length in the chosen width, then the
/// raw bytes.
pub open spec fn enc_blob(w: PrefixWidth, data: Seq<u8>) -> Seq<u8> {
    match w {
        PrefixWidth::W8 => enc_u8(data.len() as u8) + data,
        PrefixWidth::W16 => enc_u16(data.len() as u16) + data,
        PrefixWidth::W32 => enc_u32(data.len() as u32) + data,
    }
}

/// Specification decoder for a blob with the given prefix width.
pub open spec fn dec_blob(s: Seq<u8>, i: int, w: PrefixWidth) -> Option<(Seq<u8>, int)> {
    match w {
        PrefixWidth::W8 => match dec_u8(s, i) {
            Some((n, j)) => dec_bytes(s, j, n as int),
            None => None,
        },
        PrefixWidth::W16 => match dec_u16(s, i) {
            Some((n, j)) => dec_bytes(s, j, n as int),
            None => None,
        },
        PrefixWidth::W32 => match dec_u32(s, i) {
            Some((n, j)) => dec_bytes(s, j, n as int),
            None => None,
        },
    }
}

/// An opaque byte payload carried behind a length prefix of a chosen width,
/// selected at the call site.
#[derive(Clone, PartialEq, Eq, Debug)]
pub struct Blob {
    /// The width of the length prefix.
    pub width: PrefixWidth,
    /// The payload bytes.
    pub data: Vec<u8>,
}

impl Blob {
    /// Wraps a payload behind the given prefix width; fails when the payload
    /// is longer than the width can carry.
    pub fn new(width: PrefixWidth, data: Vec<u8>) -> (r: Result<Blob, DecodeError>)
        ensures
            data@.len() <= prefix_max(width) ==> (r matches Ok(b) && b.width == width && b.data@
                == data@),
            data@.len() > prefix_max(width) ==> r is Err,
    {
        let fits = match width {
            PrefixWidth::W8 => data.len() <= u8::MAX as usize,
            PrefixWidth::W16 => data.len() <= u16::MAX as usize,
            PrefixWidth::W32 => data.len() <= u32::MAX as usize,
        };
        if fits {
            Ok(Blob { width, data })
        } else {
            Err(DecodeError)
        }
    }

    /// Appends the canonical encoding: the length, then the bytes.
    pub fn encode_onto(&self, out: &mut Vec<u8>)
        requires
            self.data@.len() <= prefix_max(self.width),
        ensures
            final(out)@ == old(out)@ + enc_blob(self.width, self.data@),
    {
        match self.width {
            PrefixWidth::W8 => write_u8(out, self.data.len() as u8),
            PrefixWidth::W16 => write_u16(out, self.data.len() as u16),
            PrefixWidth::W32 => write_u32(out, self.data.len() as u32),
        }
        write_bytes(out, self.data.as_slice());
        assert(out@ =~= old(out)@ + enc_blob(self.width, self.data@));
    }

    /// Decodes a blob of the given prefix width, rejecting truncated input.
    pub fn decode_from(s: &[u8], i: usize, width: PrefixWidth) -> (r: Result<
        (Blob, usize),
        DecodeError,
    >)
        requires
            i <= s@.len(),
        ensures
            match r {
                Ok((b, j)) => dec_blob(s@, i as int, width) == Some((b.data@, j as int)) && b.width
                    == width && j <= s@.len(),
                Err(_) => dec_blob(s@, i as int, width) is None,
            },
    {
        let pr: Result<(usize, usize), DecodeError> = match width {
            PrefixWidth::W8 => match read_u8(s, i) {
                Ok((n, j)) => Ok((n as usize, j)),
                Err(e) => Err(e),
            },
            PrefixWidth::W16 => match read_u16(s, i) {
                Ok((n, j)) => Ok((n as usize, j)),
                Err(e) => Err(e),
            },
            PrefixWidth::W32 => match read_u32(s, i) {
                Ok((n, j)) => Ok((n as usize, j)),
                Err(e) => Err(e),
            },
        };
        match pr {
            Ok((n, j)) => match read_bytes(s, j, n) {
                Ok((data, e)) => Ok((Blob { width, data }, e)),
                Err(e) => Err(e),
            },
            Err(e) => Err(e),
        }
    }
}

/// Round trip for blobs: decoding an encoding, with any trailing bytes,
/// recovers exactly the payload.
pub proof fn lemma_blob_round_trip(w: PrefixWidth, data: Seq<u8>, rest: Seq<u8>)
    requires
        data.len() <= prefix_max(w),
    ensures
        dec_blob(enc_blob(w, data) + rest, 0, w) == Some::<(Seq<u8>, int)>(
            (data, enc_blob(w, data).len() as int),
        ),
{
    let s = enc_blob(w, data) + rest;
    assert(s.subrange(0, enc_blob(w, data).len() as int) =~= enc_blob(w, data));
    match w {
        PrefixWidth::W8 => {
            assert(enc_blob(w, data) == enc_u8(data.len() as u8) + data);
            lemma_concat_split(s, 0, enc_u8(data.len() as u8), data);
            assert(s.subrange(0, 1)[0] == s[0]);
            assert(s[0] == enc_u8(data.len() as u8)[0]);
            assert(dec_bytes(s, 1, data.len() as int) == Some::<(Seq<u8>, int)>(
                (data, 1 + data.len() as int),
            ));
        },
        PrefixWidth::W16 => {
            assert(enc_blob(w, data) == enc_u16(data.len() as u16) + data);
            lemma_concat_split(s, 0, enc_u16(data.len() as u16), data);
            lemma_dec_enc_u16(data.len() as u16, s, 0);
            assert(dec_bytes(s, 2, data.len() as int) == Some::<(Seq<u8>, int)>(
                (data, 2 + data.len() as int),
            ));
        },
        PrefixWidth::W32 => {
            assert(enc_blob(w, data) == enc_u32(data.len() as u32) + data);
            lemma_concat_split(s, 0, enc_u32(data.len() as u32), data);
            lemma_dec_enc_u32(data.len() as u32, s, 0);
            assert(dec_bytes(s, 4, data.len() as int) == Some::<(Seq<u8>, int)>(
                (data, 4 + data.len() as int),
            ));
        },
    }
}

} // verus!
