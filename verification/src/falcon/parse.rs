//! Falcon-512 public-key / signature decoding and `HashToPoint`.
//!
//! Formats (Falcon-512):
//! - public key: `[0x09] ‖ 896 bytes` — `h`, 512 coefficients packed 14 bits
//!   each, most-significant bit first.
//! - signature: `[0x39] ‖ nonce[40] ‖ compressed(s2)` — `s2` in Falcon's
//!   sign / low-7 / unary-high code, MSB-first, zero-padded.
use crate::falcon::falcon_ring::{fpoly_mul_coeff, FPoly, FALCON_N, FALCON_Q};
use crate::xof::{shake256_byte, shake_absorbed, ShakeState};
use vstd::arithmetic::power2::*;
use vstd::prelude::*;

verus! {

/// Length of a Falcon-512 nonce.
pub const NONCE_LEN: usize = 40;

/// Header byte of a Falcon-512 public key.
pub const PK_HEADER: u8 = 0x09;

/// Header byte of a compressed Falcon-512 signature.
pub const SIG_HEADER: u8 = 0x39;

/// `1 + 512 · 14 / 8`.
pub const PK_LEN: usize = 897;

/// Errors from decoding Falcon byte blobs.
#[derive(Debug, Clone, Copy, PartialEq, Eq, Structural)]
pub enum ParseError {
    /// Wrong length for the claimed object.
    BadLength,
    /// Unexpected format/header byte.
    BadHeader,
    /// A packed public-key coefficient was `>= q`.
    CoeffOutOfRange,
    /// The compressed signature stream is malformed (bad terminator,
    /// negative zero, overlong unary part, or truncated).
    BadCompression,
    /// Padding bits after the encoded data were not all zero.
    NonZeroPadding,
    /// The hash stream yielded too few acceptable words for `HashToPoint`
    /// within its reading limit.
    HashExhausted,
}

/// A fully decoded Falcon-512 signature instance, ready for relation encoding.
#[derive(Debug, Clone, Copy)]
pub struct FalconSig {
    /// Public-key polynomial `h`.
    pub h: FPoly,
    /// Hashed message point `c = HashToPoint(nonce ‖ message)`.
    pub c: FPoly,
    /// Recovered short polynomial `s1 = c - s2·h`.
    pub s1: FPoly,
    /// Signature short polynomial `s2`.
    pub s2: FPoly,
    /// The 40-byte nonce.
    pub nonce: [u8; NONCE_LEN],
}

// ---------------------------------------------------------------------------
// The bit stream model
// ---------------------------------------------------------------------------

/// Bit `p` of `data`, most-significant bit of each byte first.
pub open spec fn bit_at(data: Seq<u8>, p: int) -> u32 {
    ((data[p / 8] >> ((7 - p % 8) as u8)) & 1u8) as u32
}

/// The `n` bits starting at `p`, read MSB-first as an integer.
pub open spec fn bits_at(data: Seq<u8>, p: int, n: nat) -> int
    decreases n,
{
    if n == 0 {
        0
    } else {
        2 * bits_at(data, p, (n - 1) as nat) + bit_at(data, p + n - 1)
    }
}

/// Every bit from `p` to the end of `data` is zero.
pub open spec fn rest_zero(data: Seq<u8>, p: int) -> bool {
    forall|i: int| p <= i < 8 * data.len() ==> #[trigger] bit_at(data, i) == 0
}

/// A bit is 0 or 1.
pub proof fn lemma_bit_at_le_one(data: Seq<u8>, p: int)
    requires
        0 <= p < 8 * data.len(),
    ensures
        bit_at(data, p) <= 1,
{
    let x = data[p / 8];
    let s = (7 - p % 8) as u8;
    assert(((x >> s) & 1u8) <= 1u8) by (bit_vector);
}

/// `n` bits hold a value below `2^n`.
pub proof fn lemma_bits_at_bound(data: Seq<u8>, p: int, n: nat)
    requires
        0 <= p,
        p + n <= 8 * data.len(),
    ensures
        0 <= bits_at(data, p, n) < pow2(n),
    decreases n,
{
    if n > 0 {
        lemma_bits_at_bound(data, p, (n - 1) as nat);
        lemma_bit_at_le_one(data, p + n - 1);
        lemma_pow2_unfold(n);
    } else {
        lemma2_to64();
    }
}

/// A reader of bits, most-significant bit first, from a byte slice.
pub struct BitReader<'a> {
    data: &'a [u8],
    byte: usize,
    bit: usize,
}

impl<'a> BitReader<'a> {
    /// The bytes being read.
    pub closed spec fn data(&self) -> Seq<u8> {
        self.data@
    }

    /// The index of the next bit.
    pub closed spec fn pos(&self) -> int {
        8 * self.byte + self.bit
    }

    /// The position never runs past the end of the stream.
    pub closed spec fn wf(&self) -> bool {
        &&& self.bit < 8
        &&& self.byte <= self.data@.len()
        &&& self.byte == self.data@.len() ==> self.bit == 0
    }

    /// A reader at the first bit of `data`.
    pub fn new(data: &'a [u8]) -> (r: Self)
        ensures
            r.data() == data@,
            r.pos() == 0,
            r.wf(),
    {
        BitReader { data, byte: 0, bit: 0 }
    }

    /// Next bit, or `None` if the stream is exhausted.
    pub fn bit(&mut self) -> (b: Option<u32>)
        requires
            old(self).wf(),
        ensures
            final(self).wf(),
            final(self).data() == old(self).data(),
            old(self).pos() < 8 * old(self).data().len() ==> b == Some(bit_at(old(self).data(), old(self).pos()))
                && final(self).pos() == old(self).pos() + 1,
            old(self).pos() >= 8 * old(self).data().len() ==> b is None && final(self).pos() == old(
            self).pos(),
    {
        if self.byte >= self.data.len() {
            return None;
        }
        let shift = 7 - self.bit;
        let v = ((self.data[self.byte] >> (shift as u8)) & 1) as u32;
        assert(v == bit_at(self.data@, 8 * self.byte + self.bit));
        if self.bit == 7 {
            self.bit = 0;
            self.byte += 1;
        } else {
            self.bit += 1;
        }
        Some(v)
    }

    /// Read `n` bits as an integer (MSB-first), or `None` if fewer remain.
    pub fn bits(&mut self, n: u32) -> (v: Option<u32>)
        requires
            old(self).wf(),
            n <= 16,
        ensures
            final(self).wf(),
            final(self).data() == old(self).data(),
            old(self).pos() + n <= 8 * old(self).data().len() ==> v == Some(
                bits_at(old(self).data(), old(self).pos(), n as nat) as u32,
            ) && final(self).pos() == old(self).pos() + n,
            old(self).pos() + n > 8 * old(self).data().len() ==> v is None,
    {
        let ghost p0 = self.pos();
        let mut v = 0u32;
        let mut i: u32 = 0;
        while i < n
            invariant
                self.wf(),
                self.data() == old(self).data(),
                p0 == old(self).pos(),
                i <= n <= 16,
                self.pos() == p0 + i,
                v as int == bits_at(self.data(), p0, i as nat),
            decreases n - i,
        {
            let b = match self.bit() {
                Some(b) => b,
                None => {
                    return None;
                },
            };
            proof {
                lemma_bit_at_le_one(self.data(), p0 + i);
                lemma_bits_at_bound(self.data(), p0, i as nat);
                lemma2_to64();
                if i < 16 {
                    lemma_pow2_strictly_increases(i as nat, 16);
                }
                assert((v << 1u32) | b == 2 * v + b) by (bit_vector)
                    requires
                        v < 0x1_0000,
                        b <= 1,
                ;
            }
            v = (v << 1) | b;
            i = i + 1;
        }
        Some(v)
    }

    /// True if every remaining bit is zero (consumes the stream up to the
    /// first one bit, or to its end).
    pub fn rest_is_zero(&mut self) -> (z: bool)
        requires
            old(self).wf(),
        ensures
            final(self).wf(),
            final(self).data() == old(self).data(),
            z == rest_zero(old(self).data(), old(self).pos()),
    {
        let ghost p0 = self.pos();
        loop
            invariant
                self.wf(),
                self.data() == old(self).data(),
                p0 == old(self).pos(),
                p0 <= self.pos(),
                forall|i: int| p0 <= i < self.pos() ==> #[trigger] bit_at(self.data(), i) == 0,
            decreases 8 * self.data().len() - self.pos(),
        {
            let ghost p = self.pos();
            match self.bit() {
                Some(b) => {
                    if b != 0 {
                        assert(bit_at(self.data(), p) != 0);
                        return false;
                    }
                },
                None => {
                    return true;
                },
            }
        }
    }
}


// ---------------------------------------------------------------------------
// The formats
// ---------------------------------------------------------------------------

/// Public-key coefficient `i`: the `i`-th 14-bit word after the header byte.
pub open spec fn pk_word(bytes: Seq<u8>, i: int) -> int {
    bits_at(bytes.subrange(1, bytes.len() as int), 14 * i, 14)
}

/// The unary "high" part of a compressed coefficient starting at bit `p`,
/// with `h` zeros counted so far: `(h, position after the terminating one)`,
/// or `None` if the stream ends first or more than 2047 zeros occur.
pub open spec fn unary_from(data: Seq<u8>, p: int, h: nat) -> Option<(nat, int)>
    decreases 2048 - h,
{
    if h > 2047 || p < 0 || p >= 8 * data.len() {
        None
    } else if bit_at(data, p) == 1 {
        Some((h, p + 1))
    } else if h + 1 > 2047 {
        None
    } else {
        unary_from(data, p + 1, h + 1)
    }
}

/// One compressed coefficient at bit `p`: sign bit, 7 low bits, unary high
/// part. Returns the value and the next position; "negative zero" is
/// rejected.
pub open spec fn decode_coeff(data: Seq<u8>, p: int) -> Option<(int, int)> {
    if p < 0 || p + 8 > 8 * data.len() {
        None
    } else {
        let sign = bit_at(data, p);
        let low = bits_at(data, p + 1, 7);
        match unary_from(data, p + 8, 0) {
            None => None,
            Some((h, p2)) => {
                let mag = h * 128 + low;
                if sign == 1 && mag == 0 {
                    None
                } else {
                    Some((if sign == 1 { -mag } else { mag }, p2))
                }
            },
        }
    }
}

/// The first `k` compressed coefficients from bit `p`, and the position
/// after them.
pub open spec fn decode_coeffs(data: Seq<u8>, p: int, k: nat) -> Option<(Seq<int>, int)>
    decreases k,
{
    if k == 0 {
        Some((Seq::empty(), p))
    } else {
        match decode_coeffs(data, p, (k - 1) as nat) {
            None => None,
            Some((vs, p1)) => match decode_coeff(data, p1) {
                None => None,
                Some((v, p2)) => Some((vs.push(v), p2)),
            },
        }
    }
}

/// Decoding of a detached Falcon-512 signature: `(nonce, s2)` or the error.
pub open spec fn signature_spec(bytes: Seq<u8>) -> Result<(Seq<u8>, Seq<int>), ParseError> {
    if bytes.len() < 1 + NONCE_LEN {
        Err(ParseError::BadLength)
    } else if bytes[0] != SIG_HEADER {
        Err(ParseError::BadHeader)
    } else {
        let payload = bytes.subrange(1 + NONCE_LEN, bytes.len() as int);
        match decode_coeffs(payload, 0, FALCON_N as nat) {
            None => Err(ParseError::BadCompression),
            Some((vs, p)) => if rest_zero(payload, p) {
                Ok((bytes.subrange(1, 1 + NONCE_LEN), vs))
            } else {
                Err(ParseError::NonZeroPadding)
            },
        }
    }
}

/// Decode a Falcon-512 public key into the polynomial `h`.
pub fn decode_public_key(bytes: &[u8]) -> (res: Result<FPoly, ParseError>)
    ensures
        bytes.len() != PK_LEN ==> res == Err::<FPoly, ParseError>(ParseError::BadLength),
        bytes.len() == PK_LEN && bytes[0] != PK_HEADER ==> res == Err::<FPoly, ParseError>(
            ParseError::BadHeader,
        ),
        bytes.len() == PK_LEN && bytes[0] == PK_HEADER ==> (
        if exists|i: int| 0 <= i < FALCON_N && #[trigger] pk_word(bytes@, i) >= FALCON_Q {
            res == Err::<FPoly, ParseError>(ParseError::CoeffOutOfRange)
        } else {
            res matches Ok(h) && h.wf() && forall|i: int|
                0 <= i < FALCON_N ==> #[trigger] h.c[i] as int == pk_word(bytes@, i)
        }),
{
    if bytes.len() != PK_LEN {
        return Err(ParseError::BadLength);
    }
    if bytes[0] != PK_HEADER {
        return Err(ParseError::BadHeader);
    }
    let (_, body) = bytes.split_at(1);
    let mut r = BitReader::new(body);
    let mut h = [0u32; FALCON_N];
    for idx in 0..FALCON_N
        invariant
            bytes.len() == PK_LEN,
            bytes[0] == PK_HEADER,
            r.wf(),
            r.data() == body@,
            body@ == bytes@.subrange(1, bytes.len() as int),
            body@.len() == 896,
            r.pos() == 14 * idx,
            forall|i: int| 0 <= i < idx ==> #[trigger] h[i] as int == pk_word(bytes@, i),
            forall|i: int| 0 <= i < idx ==> #[trigger] pk_word(bytes@, i) < FALCON_Q,
            forall|i: int| 0 <= i < FALCON_N ==> #[trigger] h[i] < FALCON_Q,
    {
        proof {
            lemma_bits_at_bound(body@, 14 * idx, 14);
            lemma2_to64();
        }
        let w = match r.bits(14) {
            Some(w) => w,
            None => {
                return Err(ParseError::BadLength);
            },
        };
        if w >= FALCON_Q {
            assert(pk_word(bytes@, idx as int) >= FALCON_Q);
            return Err(ParseError::CoeffOutOfRange);
        }
        h[idx] = w;
    }
    // 896 bytes hold exactly 512 · 14 bits, so no padding bits remain.
    assert(rest_zero(body@, 7168int));
    assert(forall|i: int| 0 <= i < FALCON_N ==> #[trigger] pk_word(bytes@, i) < FALCON_Q);
    if !r.rest_is_zero() {
        return Err(ParseError::NonZeroPadding);
    }
    Ok(FPoly::from_residues(h))
}

/// Once the stream fails to decode, decoding more coefficients fails too.
proof fn lemma_decode_coeffs_none(data: Seq<u8>, p: int, k: nat, m: nat)
    requires
        k <= m,
        decode_coeffs(data, p, k) is None,
    ensures
        decode_coeffs(data, p, m) is None,
    decreases m - k,
{
    if k < m {
        lemma_decode_coeffs_none(data, p, k + 1, m);
    }
}

/// Read one compressed coefficient: sign bit, 7 low bits, unary high part.
fn read_coeff(r: &mut BitReader) -> (v: Option<i32>)
    requires
        old(r).wf(),
    ensures
        final(r).wf(),
        final(r).data() == old(r).data(),
        match decode_coeff(old(r).data(), old(r).pos()) {
            Some((c, p2)) => v is Some && v->0 == c && final(r).pos() == p2,
            None => v is None,
        },
{
    let ghost data = r.data();
    let ghost p = r.pos();
    let sign = match r.bit() {
        Some(b) => b,
        None => {
            return None;
        },
    };
    let low = match r.bits(7) {
        Some(l) => l,
        None => {
            return None;
        },
    };
    proof {
        lemma_bit_at_le_one(data, p);
        lemma_bits_at_bound(data, p + 1, 7);
        lemma2_to64();
    }
    let mut high: i32 = 0;
    loop
        invariant_except_break
            r.pos() == p + 8 + high,
            unary_from(data, p + 8, 0) == unary_from(data, p + 8 + high, high as nat),
        invariant
            r.wf(),
            r.data() == data,
            data == old(r).data(),
            p == old(r).pos(),
            sign == bit_at(data, p),
            low == bits_at(data, p + 1, 7),
            0 <= high <= 2047,
            p + 8 <= 8 * data.len(),
        ensures
            unary_from(data, p + 8, 0) == Some(((high as nat), r.pos())),
        decreases 2047 - high,
    {
        let b = match r.bit() {
            Some(b) => b,
            None => {
                return None;
            },
        };
        if b == 1 {
            break;
        }
        proof {
            lemma_bit_at_le_one(data, p + 8 + high);
        }
        if high == 2047 {
            return None;
        }
        high += 1;
    }
    proof {
        assert((high << 7i32) | (low as i32) == high * 128 + low) by (bit_vector)
            requires
                0 <= high <= 2047,
                low < 128,
        ;
    }
    let mag = (high << 7) | (low as i32);
    if sign == 1 && mag == 0 {
        return None;
    }
    Some(
        if sign == 1 {
            -mag
        } else {
            mag
        },
    )
}

/// Decode a Falcon-512 detached signature into `(nonce, s2)`.
pub fn decode_signature(bytes: &[u8]) -> (res: Result<([u8; NONCE_LEN], FPoly), ParseError>)
    ensures
        match (res, signature_spec(bytes@)) {
            (Ok((nonce, s2)), Ok((n, vs))) => nonce@ == n && s2.wf() && forall|i: int|
                0 <= i < FALCON_N ==> #[trigger] s2.c[i] as int == vs[i] % (FALCON_Q as int),
            (Err(e), Err(e2)) => e == e2,
            _ => false,
        },
{
    if bytes.len() < 1 + NONCE_LEN {
        return Err(ParseError::BadLength);
    }
    if bytes[0] != SIG_HEADER {
        return Err(ParseError::BadHeader);
    }
    let mut nonce = [0u8; NONCE_LEN];
    for i in 0..NONCE_LEN
        invariant
            bytes.len() >= 1 + NONCE_LEN,
            forall|j: int| 0 <= j < i ==> #[trigger] nonce[j] == bytes[j + 1],
    {
        nonce[i] = bytes[1 + i];
    }
    assert(nonce@ =~= bytes@.subrange(1, 1 + NONCE_LEN));
    let (_, payload) = bytes.split_at(1 + NONCE_LEN);
    let ghost data = payload@;
    let mut r = BitReader::new(payload);
    let mut s2 = [0i32; FALCON_N];
    let mut k: usize = 0;
    while k < FALCON_N
        invariant
            bytes.len() >= 1 + NONCE_LEN,
            bytes[0] == SIG_HEADER,
            r.wf(),
            r.data() == data,
            data == bytes@.subrange(1 + NONCE_LEN, bytes.len() as int),
            k <= FALCON_N,
            decode_coeffs(data, 0, k as nat) matches Some((vs, p)) && p == r.pos() && vs.len() == k
                && forall|i: int| 0 <= i < k ==> #[trigger] s2[i] as int == vs[i],
        decreases FALCON_N - k,
    {
        match read_coeff(&mut r) {
            Some(v) => {
                s2[k] = v;
            },
            None => {
                proof {
                    lemma_decode_coeffs_none(data, 0, (k + 1) as nat, FALCON_N as nat);
                }
                return Err(ParseError::BadCompression);
            },
        }
        k += 1;
    }
    if !r.rest_is_zero() {
        return Err(ParseError::NonZeroPadding);
    }
    Ok((nonce, FPoly::from_i32(&s2)))
}

// ---------------------------------------------------------------------------
// HashToPoint
// ---------------------------------------------------------------------------

/// Words at or above this bound are rejected: `5·q = 2^16 − (2^16 mod q)`.
pub const ACCEPT_BOUND: u32 = 61445;

/// How many 16-bit words of the hash stream `HashToPoint` reads at most.
pub const MAX_HASH_WORDS: usize = 65536;

/// Word `j` of the hash stream: bytes `2j`, `2j+1`, big-endian.
pub open spec fn xof_word(input: Seq<u8>, j: int) -> int {
    shake256_byte(input, (2 * j) as nat) * 256 + shake256_byte(input, (2 * j + 1) as nat)
}

/// The residues `w mod q` of the accepted words among the first `m` words
/// of the hash stream of `input`, in stream order.
pub open spec fn accepted_words(input: Seq<u8>, m: nat) -> Seq<int>
    decreases m,
{
    if m == 0 {
        Seq::empty()
    } else {
        let prev = accepted_words(input, (m - 1) as nat);
        let w = xof_word(input, m - 1);
        if w < ACCEPT_BOUND {
            prev.push(w % (FALCON_Q as int))
        } else {
            prev
        }
    }
}

/// Reading more words only appends accepted values.
pub proof fn lemma_accepted_prefix(input: Seq<u8>, m1: nat, m2: nat)
    requires
        m1 <= m2,
    ensures
        accepted_words(input, m1).len() <= accepted_words(input, m2).len(),
        forall|i: int|
            0 <= i < accepted_words(input, m1).len() ==> #[trigger] accepted_words(input, m2)[i]
                == accepted_words(input, m1)[i],
    decreases m2 - m1,
{
    if m1 < m2 {
        lemma_accepted_prefix(input, m1, (m2 - 1) as nat);
    }
}

/// Falcon `HashToPoint`: `c = SHAKE256(nonce ‖ message)` reject-sampled into
/// `R_f`: the first 512 accepted words, each reduced mod `q`. `None` when the
/// first [`MAX_HASH_WORDS`] words of the stream hold fewer than 512 accepted
/// ones.
pub fn hash_to_point(nonce: &[u8; NONCE_LEN], message: &[u8]) -> (res: Option<FPoly>)
    ensures
        ({
            let acc = accepted_words(nonce@ + message@, MAX_HASH_WORDS as nat);
            match res {
                Some(c) => acc.len() >= FALCON_N && c.wf() && forall|i: int|
                    0 <= i < FALCON_N ==> #[trigger] c.c[i] as int == acc[i],
                None => acc.len() < FALCON_N,
            }
        }),
{
    let mut shake = ShakeState::new();
    shake.update(nonce);
    shake.update(message);
    let ghost input = nonce@ + message@;
    assert(shake_absorbed(shake) == input);
    let mut words: usize = 1024;
    loop
        invariant
            shake_absorbed(shake) == input,
            input == nonce@ + message@,
            1024 <= words <= MAX_HASH_WORDS,
        decreases MAX_HASH_WORDS - words,
    {
        let bytes = shake.squeeze(2 * words);
        let mut c = [0u32; FALCON_N];
        let mut i: usize = 0;
        let mut j: usize = 0;
        while j < words && i < FALCON_N
            invariant
                bytes@.len() == 2 * words,
                forall|t: int|
                    0 <= t < 2 * words ==> #[trigger] bytes@[t] == shake256_byte(input, t as nat),
                words <= MAX_HASH_WORDS,
                j <= words,
                i <= FALCON_N,
                accepted_words(input, j as nat).len() == i,
                forall|t: int| 0 <= t < i ==> #[trigger] c[t] as int == accepted_words(input, j as nat)[t],
                forall|t: int| 0 <= t < FALCON_N ==> #[trigger] c[t] < FALCON_Q,
            decreases words - j,
        {
            let w = (bytes[2 * j] as u32) * 256 + (bytes[2 * j + 1] as u32);
            assert(w == xof_word(input, j as int));
            if w < ACCEPT_BOUND {
                c[i] = w % FALCON_Q;
                i += 1;
            }
            j += 1;
        }
        if i == FALCON_N {
            proof {
                lemma_accepted_prefix(input, j as nat, MAX_HASH_WORDS as nat);
                assert forall|t: int| 0 <= t < FALCON_N implies #[trigger] c[t] as int
                    == accepted_words(input, MAX_HASH_WORDS as nat)[t] by {
                    assert(accepted_words(input, MAX_HASH_WORDS as nat)[t] == accepted_words(
                        input,
                        j as nat,
                    )[t]);
                }
            }
            return Some(FPoly::from_residues(c));
        }
        if words == MAX_HASH_WORDS {
            return None;
        }
        words = if words <= MAX_HASH_WORDS / 2 {
            words * 2
        } else {
            MAX_HASH_WORDS
        };
    }
}

/// The public-key polynomial's coefficients, or the decoding error.
pub open spec fn public_key_spec(bytes: Seq<u8>) -> Result<Seq<int>, ParseError> {
    if bytes.len() != PK_LEN {
        Err(ParseError::BadLength)
    } else if bytes[0] != PK_HEADER {
        Err(ParseError::BadHeader)
    } else if exists|i: int| 0 <= i < FALCON_N && #[trigger] pk_word(bytes, i) >= FALCON_Q {
        Err(ParseError::CoeffOutOfRange)
    } else {
        Ok(Seq::new(FALCON_N as nat, |i: int| pk_word(bytes, i)))
    }
}

/// Decode a complete Falcon-512 verification instance and recover `s1`.
///
/// This does *not* itself check the norm bound or the verification equation;
/// `s1` is recovered exactly as Falcon verification would: `s1 = c - s2·h
/// (mod q)`.
pub fn decode_instance(public_key: &[u8], signature: &[u8], message: &[u8]) -> (res: Result<
    FalconSig,
    ParseError,
>)
    ensures
        match (public_key_spec(public_key@), signature_spec(signature@)) {
            (Err(e), _) => res == Err::<FalconSig, ParseError>(e),
            (Ok(_), Err(e)) => res == Err::<FalconSig, ParseError>(e),
            (Ok(hw), Ok((n, vs))) => {
                let acc = accepted_words(n + message@, MAX_HASH_WORDS as nat);
                if acc.len() < FALCON_N {
                    res == Err::<FalconSig, ParseError>(ParseError::HashExhausted)
                } else {
                    res matches Ok(f) && f.nonce@ == n && f.h.wf() && f.c.wf() && f.s1.wf()
                        && f.s2.wf() && forall|i: int|
                        0 <= i < FALCON_N ==> {
                            &&& #[trigger] f.h.c[i] as int == hw[i]
                            &&& f.s2.c[i] as int == vs[i] % (FALCON_Q as int)
                            &&& f.c.c[i] as int == acc[i]
                            &&& f.s1.c[i] as int == (f.c.c[i] - fpoly_mul_coeff(f.s2, f.h, i)) % (
                            FALCON_Q as int)
                        }
                }
            },
        },
{
    let h = match decode_public_key(public_key) {
        Ok(h) => h,
        Err(e) => {
            return Err(e);
        },
    };
    assert(public_key_spec(public_key@) matches Ok(hw) && forall|i: int|
        0 <= i < FALCON_N ==> #[trigger] hw[i] == h.c[i]);
    let (nonce, s2) = match decode_signature(signature) {
        Ok(x) => x,
        Err(e) => {
            return Err(e);
        },
    };
    let c = match hash_to_point(&nonce, message) {
        Some(c) => c,
        None => {
            return Err(ParseError::HashExhausted);
        },
    };
    let s1 = c.sub(&s2.mul(&h));
    Ok(FalconSig { h, c, s1, s2, nonce })
}

} // verus!
