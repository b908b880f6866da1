//! Compact wire encoding: a bit stream (the least significant bit of each
//! byte goes out first), length prefixes, Golomb–Rice codes, zigzag and
//! centered residues, and the packed form of ring elements.
use vstd::arithmetic::power2::{lemma2_to64, lemma_pow2_adds, lemma_pow2_pos, lemma_pow2_strictly_increases, pow2};
use vstd::prelude::*;

verus! {

/// Why a wire stream could not be decoded.
#[derive(Clone, Debug)]
pub enum WireError {
    /// The stream ended early.
    Truncated,
    /// A field holds an impossible value.
    BadShape(&'static str),
}

// ---------------------------------------------------------------------------
// The bit-stream model
// ---------------------------------------------------------------------------

/// Bit `i` (least significant first) of a byte.
pub open spec fn byte_bit(b: u8, i: u8) -> bool {
    (b >> i) & 1u8 == 1u8
}

/// The bits of a byte string, least significant bit of each byte first.
pub open spec fn stream_bits(bytes: Seq<u8>) -> Seq<bool> {
    Seq::new((8 * bytes.len()) as nat, |p: int| byte_bit(bytes[p / 8], (p % 8) as u8))
}

/// Bit `i` of a 64-bit value.
pub open spec fn val_bit(v: u64, i: u64) -> bool {
    (v >> i) & 1u64 == 1u64
}

/// The low `n` bits of `v`, least significant first.
pub open spec fn low_bits(v: u64, n: nat) -> Seq<bool> {
    Seq::new(n, |i: int| val_bit(v, i as u64))
}

/// `Σ_{i < n} s[i] · 2^i`.
pub open spec fn bits_value(s: Seq<bool>, n: nat) -> nat
    decreases n,
{
    if n == 0 {
        0
    } else {
        bits_value(s, (n - 1) as nat) + if s[n - 1] {
            pow2((n - 1) as nat)
        } else {
            0
        }
    }
}

/// `n` copies of `b`.
pub open spec fn repeat_bit(b: bool, n: nat) -> Seq<bool> {
    Seq::new(n, |i: int| b)
}

/// A value of `n` bits is below `2^n`.
pub proof fn lemma_bits_value_bound(s: Seq<bool>, n: nat)
    ensures
        bits_value(s, n) < pow2(n),
    decreases n,
{
    lemma_pow2_pos(n);
    if n > 0 {
        lemma_bits_value_bound(s, (n - 1) as nat);
        lemma_pow2_adds((n - 1) as nat, 1);
        lemma2_to64();
    }
}

/// The value of a prefix only depends on that prefix.
pub proof fn lemma_bits_value_prefix(s: Seq<bool>, t: Seq<bool>, n: nat)
    requires
        n <= s.len(),
        n <= t.len(),
        forall|i: int| 0 <= i < n ==> s[i] == t[i],
    ensures
        bits_value(s, n) == bits_value(t, n),
    decreases n,
{
    if n > 0 {
        lemma_bits_value_prefix(s, t, (n - 1) as nat);
    }
}

/// Bit `i` of `v` is the parity of `v / 2^i`.
proof fn lemma_val_bit_div(v: u64, i: u64)
    requires
        i < 64,
    ensures
        val_bit(v, i) == ((v as nat / pow2(i as nat)) % 2 == 1),
{
    vstd::bits::lemma_u64_shr_is_div(v, i);
    let s = v >> i;
    assert((s & 1u64 == 1u64) == (s % 2 == 1)) by (bit_vector);
}

/// The low `n` bits of `v` are worth `v mod 2^n`.
pub proof fn lemma_low_bits_value(v: u64, n: nat)
    requires
        n <= 64,
    ensures
        bits_value(low_bits(v, n), n) == v as nat % pow2(n),
    decreases n,
{
    lemma_pow2_pos(n);
    if n == 0 {
        lemma2_to64();
    } else {
        let m = (n - 1) as nat;
        lemma_bits_value_prefix(low_bits(v, n), low_bits(v, m), m);
        lemma_low_bits_value(v, m);
        lemma_val_bit_div(v, m as u64);
        lemma_pow2_pos(m);
        lemma_pow2_adds(m, 1);
        lemma2_to64();
        vstd::arithmetic::div_mod::lemma_mod_breakdown(v as int, pow2(m) as int, 2);
        assert(pow2(m) * 2 == pow2(n));
        let d = (v as nat / pow2(m)) % 2;
        assert(d == 0 || d == 1);
        assert(pow2(m) * ((v as int / pow2(m) as int) % 2) == if val_bit(v, m as u64) {
            pow2(m) as int
        } else {
            0
        });
    }
}

// ---------------------------------------------------------------------------
// Byte-level bit manipulation
// ---------------------------------------------------------------------------

/// Setting bit `j` of a byte whose bits from `j` on are clear.
proof fn lemma_set_bit(b: u8, j: u8, i: u8)
    requires
        j < 8,
        i < 8,
        b >> j == 0,
    ensures
        byte_bit(b | (1u8 << j), i) == (i == j || byte_bit(b, i)),
        j < 7 ==> (b | (1u8 << j)) >> ((j + 1) as u8) == 0,
        byte_bit(b, i) ==> i < j,
{
    assert(byte_bit(b | (1u8 << j), i) == (i == j || byte_bit(b, i))) by (bit_vector)
        requires
            j < 8,
            i < 8,
            b >> j == 0,
    ;
    assert(j < 7 ==> (b | (1u8 << j)) >> ((j + 1) as u8) == 0) by (bit_vector)
        requires
            j < 8,
            b >> j == 0,
    ;
    assert(byte_bit(b, i) ==> i < j) by (bit_vector)
        requires
            j < 8,
            i < 8,
            b >> j == 0,
    ;
}

/// Clear bits from `j` on are clear from `j + 1` on.
proof fn lemma_clear_from(b: u8, j: u8)
    requires
        j < 7,
        b >> j == 0,
    ensures
        b >> ((j + 1) as u8) == 0,
{
    assert(b >> ((j + 1) as u8) == 0) by (bit_vector)
        requires
            j < 7,
            b >> j == 0,
    ;
}

/// Bits of the bytes `0` and `1`, and their clear high parts.
proof fn lemma_small_bytes(i: u8)
    requires
        i < 8,
    ensures
        !byte_bit(0u8, i),
        byte_bit(1u8, i) == (i == 0),
        (1u8 >> 1u8) == 0,
        (0u8 >> 1u8) == 0,
{
    assert(!byte_bit(0u8, i)) by (bit_vector);
    assert(byte_bit(1u8, i) == (i == 0)) by (bit_vector)
        requires
            i < 8,
    ;
    assert((1u8 >> 1u8) == 0) by (bit_vector);
    assert((0u8 >> 1u8) == 0) by (bit_vector);
}

// ---------------------------------------------------------------------------
// Writer
// ---------------------------------------------------------------------------

/// An append-only bit stream.
pub struct BitWriter {
    buf: Vec<u8>,
    nbits: usize,
}

impl BitWriter {
    /// The bits written so far.
    pub closed spec fn bits(&self) -> Seq<bool> {
        Seq::new(self.nbits as nat, |p: int| byte_bit(self.buf@[p / 8], (p % 8) as u8))
    }

    /// Internal consistency: one byte per started group of eight bits, and
    /// the unwritten bits of the last byte clear.
    pub closed spec fn wf(&self) -> bool {
        &&& self.buf@.len() == (self.nbits + 7) / 8
        &&& self.nbits % 8 != 0 ==> self.buf@[self.buf@.len() - 1] >> ((self.nbits % 8) as u8) == 0
    }

    /// An empty stream.
    pub fn new() -> (w: Self)
        ensures
            w.wf(),
            w.bits() == Seq::<bool>::empty(),
    {
        let w = BitWriter { buf: Vec::new(), nbits: 0 };
        assert(w.bits() =~= Seq::<bool>::empty());
        w
    }

    /// Append one bit.
    pub fn write_bit(&mut self, b: bool)
        requires
            old(self).wf(),
            old(self).bits().len() < usize::MAX,
        ensures
            final(self).wf(),
            final(self).bits() == old(self).bits().push(b),
    {
        let ghost old_bits = self.bits();
        let j = self.nbits % 8;
        if j == 0 {
            self.buf.push(if b {
                1u8
            } else {
                0u8
            });
            proof {
                assert forall|i: u8| i < 8 implies !byte_bit(0u8, i) && byte_bit(1u8, i) == (i == 0) by {
                    lemma_small_bytes(i);
                }
                lemma_small_bytes(0);
            }
        } else if !b {
            proof {
                if j < 7 {
                    lemma_clear_from(self.buf@[self.buf@.len() - 1], j as u8);
                }
            }
        } else {
            let last = self.buf.len() - 1;
            let old_byte = self.buf[last];
            proof {
                assert forall|i: u8| i < 8 implies byte_bit(old_byte | (1u8 << (j as u8)), i) == (i == j as u8
                    || byte_bit(old_byte, i)) by {
                    lemma_set_bit(old_byte, j as u8, i);
                }
                lemma_set_bit(old_byte, j as u8, 0);
            }
            self.buf.set(last, old_byte | (1u8 << (j as u8)));
            assert(self.buf@[self.buf@.len() - 1] == old_byte | (1u8 << (j as u8)));
        }
        self.nbits = self.nbits + 1;
        proof {
            assert(self.buf@.len() == (self.nbits + 7) / 8);
            assert forall|p: int| 0 <= p < old_bits.len() + 1 implies self.bits()[p] == old_bits.push(b)[p] by {
                if j != 0 && p / 8 == (self.nbits - 1) / 8 {
                    let old_byte = old(self).buf@[p / 8];
                    assert(old_byte == old(self).buf@[old(self).buf@.len() - 1]);
                    lemma_set_bit(old_byte, j as u8, (p % 8) as u8);
                }
            }
            assert(self.bits() =~= old_bits.push(b));
        }
    }

    /// Append the low `nbits` bits of `value`, least significant first.
    pub fn write_bits(&mut self, value: u64, nbits: u32)
        requires
            old(self).wf(),
            nbits <= 64,
            old(self).bits().len() + nbits <= usize::MAX,
        ensures
            final(self).wf(),
            final(self).bits() == old(self).bits() + low_bits(value, nbits as nat),
    {
        let ghost start = self.bits();
        for i in 0..nbits
            invariant
                self.wf(),
                nbits <= 64,
                start.len() + nbits <= usize::MAX,
                self.bits() == start + low_bits(value, i as nat),
        {
            let bit = (value >> (i as u64)) & 1u64 == 1u64;
            self.write_bit(bit);
            assert(self.bits() =~= start + low_bits(value, (i + 1) as nat));
        }
    }

    /// Finish the stream: the bytes written, the last one padded with zero
    /// bits.
    pub fn finish(self) -> (bytes: Vec<u8>)
        requires
            self.wf(),
        ensures
            stream_bits(bytes@) == self.bits() + repeat_bit(false, (8 * bytes@.len() - self.bits().len()) as nat),
            bytes@.len() == (self.bits().len() + 7) / 8,
    {
        let ghost bits = self.bits();
        let ghost n = self.nbits as int;
        proof {
            let len = self.buf@.len() as int;
            assert forall|p: int| 0 <= p < 8 * len implies stream_bits(self.buf@)[p] == (bits + repeat_bit(
                false,
                (8 * len - n) as nat,
            ))[p] by {
                if p >= n {
                    let byte = self.buf@[len - 1];
                    assert(p / 8 == len - 1);
                    lemma_set_bit(byte, (n % 8) as u8, (p % 8) as u8);
                }
            }
            assert(stream_bits(self.buf@) =~= bits + repeat_bit(false, (8 * len - n) as nat));
        }
        self.buf
    }
}

// ---------------------------------------------------------------------------
// Reader
// ---------------------------------------------------------------------------

/// A cursor over a bit stream.
pub struct BitReader<'a> {
    buf: &'a [u8],
    byte_pos: usize,
    bit_pos: u8,
}

/// `s[from..from + n]` are all set.
pub open spec fn all_ones(s: Seq<bool>, from: int, n: nat) -> bool {
    forall|i: int| from <= i < from + n ==> #[trigger] s[i]
}

/// The largest unary run a Golomb–Rice code may hold.
pub const GR_MAX_UNARY: u64 = 0x100_0000_0000;

impl<'a> BitReader<'a> {
    /// The whole stream.
    pub closed spec fn stream(&self) -> Seq<bool> {
        stream_bits(self.buf@)
    }

    /// The position of the next bit.
    pub closed spec fn position(&self) -> int {
        8 * self.byte_pos + self.bit_pos
    }

    /// The cursor lies inside the stream.
    pub closed spec fn wf(&self) -> bool {
        &&& self.bit_pos < 8
        &&& self.byte_pos <= self.buf@.len()
        &&& self.byte_pos == self.buf@.len() ==> self.bit_pos == 0
    }

    /// A cursor at the start of `buf`.
    pub fn new(buf: &'a [u8]) -> (r: Self)
        ensures
            r.wf(),
            r.stream() == stream_bits(buf@),
            r.position() == 0,
    {
        BitReader { buf, byte_pos: 0, bit_pos: 0 }
    }

    /// Whether `n` more bits remain.
    fn has_bits(&self, n: u64) -> (ok: bool)
        requires
            self.wf(),
        ensures
            ok == (self.position() + n <= self.stream().len()),
    {
        let rest_bytes = (self.buf.len() - self.byte_pos) as u128;
        rest_bytes * 8 >= (self.bit_pos as u128) + (n as u128)
    }

    /// Read one bit that is known to exist.
    fn next_bit(&mut self) -> (b: bool)
        requires
            old(self).wf(),
            old(self).position() < old(self).stream().len(),
        ensures
            final(self).wf(),
            final(self).stream() == old(self).stream(),
            final(self).position() == old(self).position() + 1,
            b == old(self).stream()[old(self).position()],
    {
        let ghost p = self.position();
        let b = (self.buf[self.byte_pos] >> self.bit_pos) & 1u8 == 1u8;
        assert(p / 8 == self.byte_pos && p % 8 == self.bit_pos);
        if self.bit_pos == 7 {
            self.bit_pos = 0;
            self.byte_pos = self.byte_pos + 1;
        } else {
            self.bit_pos = self.bit_pos + 1;
        }
        b
    }

    /// Read `nbits` bits as a value, least significant first.
    pub fn read_bits(&mut self, nbits: u32) -> (res: Result<u64, WireError>)
        requires
            old(self).wf(),
            nbits <= 64,
        ensures
            final(self).wf(),
            final(self).stream() == old(self).stream(),
            ({
                let s = old(self).stream();
                let p = old(self).position();
                if p + nbits <= s.len() {
                    &&& res == Ok::<u64, WireError>(bits_value(s.subrange(p, p + nbits), nbits as nat) as u64)
                    &&& final(self).position() == p + nbits
                } else {
                    &&& res == Err::<u64, WireError>(WireError::Truncated)
                    &&& final(self).position() == p
                }
            }),
    {
        if !self.has_bits(nbits as u64) {
            return Err(WireError::Truncated);
        }
        let ghost s = self.stream();
        let ghost p = self.position();
        let mut out: u64 = 0;
        for i in 0..nbits
            invariant
                self.wf(),
                self.stream() == s,
                nbits <= 64,
                0 <= p,
                p + nbits <= s.len(),
                self.position() == p + i,
                out == bits_value(s.subrange(p, p + nbits), i as nat),
        {
            let b = self.next_bit();
            proof {
                lemma_bits_value_bound(s.subrange(p, p + nbits), i as nat);
                vstd::bits::lemma_u64_pow2_no_overflow(i as nat);
                vstd::bits::lemma_u64_shl_is_mul(1u64, i as u64);
                lemma_pow2_pos(i as nat);
                lemma_pow2_adds(i as nat, 1);
                lemma2_to64();
                vstd::arithmetic::power2::lemma2_to64_rest();
                if i + 1 < 64 {
                    vstd::bits::lemma_u64_pow2_no_overflow((i + 1) as nat);
                }
            }
            let ghost sub = s.subrange(p, p + nbits);
            assert(sub[i as int] == b);
            assert(bits_value(sub, (i + 1) as nat) == bits_value(sub, i as nat) + if b {
                pow2(i as nat)
            } else {
                0
            });
            if b {
                assert((1u64 << (i as u64)) == pow2(i as nat));
                out = out + (1u64 << (i as u64));
            }
        }
        Ok(out)
    }
}

// ---------------------------------------------------------------------------
// Length prefixes and Golomb–Rice codes
// ---------------------------------------------------------------------------

/// The number of significant bits of `x` (0 for 0).
pub open spec fn bit_len(x: nat) -> nat
    decreases x,
{
    if x == 0 {
        0
    } else {
        1 + bit_len(x / 2)
    }
}

/// `x` has `bit_len(x)` significant bits: `2^(e-1) ≤ x < 2^e`.
pub proof fn lemma_bit_len(x: nat)
    ensures
        x < pow2(bit_len(x)),
        x > 0 ==> pow2((bit_len(x) - 1) as nat) <= x,
        x <= u64::MAX ==> bit_len(x) <= 64,
    decreases x,
{
    lemma2_to64();
    if x > 0 {
        lemma_bit_len(x / 2);
        lemma_pow2_adds(bit_len(x / 2), 1);
        if x / 2 > 0 {
            lemma_pow2_adds((bit_len(x / 2) - 1) as nat, 1);
        }
        if x <= u64::MAX && bit_len(x) > 64 {
            lemma_pow2_strictly_increases(64, (bit_len(x) - 1) as nat);
            vstd::arithmetic::power2::lemma2_to64_rest();
        }
        if x <= u64::MAX && bit_len(x) == 65 {
            vstd::arithmetic::power2::lemma2_to64_rest();
        }
    }
}

/// Width of the bit-length field of a length prefix: 7 bits, so every bit
/// length `0..=64` of a `u64` fits.
pub const LEN_FIELD_BITS: u32 = 7;

/// The length-prefix code of `len`: its bit length `e` in 7 bits, then its
/// low `e` bits.
pub open spec fn len_code(len: u64) -> Seq<bool> {
    let e = bit_len(len as nat);
    low_bits(e as u64, 7) + low_bits(len, e)
}

/// The Golomb–Rice code of `value` with parameter `k`: `value >> k` set
/// bits, a clear bit, then the low `k` bits of `value`.
pub open spec fn gr_code(value: u64, k: u32) -> Seq<bool> {
    repeat_bit(true, (value >> (k as u64)) as nat).push(false) + low_bits(value, k as nat)
}

/// The bit length of `x`.
fn bit_length(x: u64) -> (e: u32)
    ensures
        e == bit_len(x as nat),
        e <= 64,
{
    let mut y = x;
    let mut e: u32 = 0;
    proof {
        lemma_bit_len(x as nat);
    }
    while y > 0
        invariant
            bit_len(x as nat) == e + bit_len(y as nat),
            bit_len(x as nat) <= 64,
        decreases y,
    {
        y = y / 2;
        e = e + 1;
    }
    e
}

impl BitWriter {
    /// Append the length-prefix code of `len`.
    pub fn write_len(&mut self, len: u64)
        requires
            old(self).wf(),
            old(self).bits().len() + 71 <= usize::MAX,
        ensures
            final(self).wf(),
            final(self).bits() == old(self).bits() + len_code(len),
    {
        let ghost start = self.bits();
        let bits = bit_length(len);
        self.write_bits(bits as u64, LEN_FIELD_BITS);
        if bits > 0 {
            self.write_bits(len, bits);
        } else {
            assert(low_bits(len, 0) =~= Seq::<bool>::empty());
        }
        assert(self.bits() =~= start + len_code(len));
    }

    /// Append the Golomb–Rice code of `value` with parameter `k`.
    pub fn write_gr(&mut self, value: u64, k: u32)
        requires
            old(self).wf(),
            k < 64,
            old(self).bits().len() + (value >> (k as u64)) + 1 + k <= usize::MAX,
        ensures
            final(self).wf(),
            final(self).bits() == old(self).bits() + gr_code(value, k),
    {
        let ghost start = self.bits();
        let q = value >> (k as u64);
        let mut c: u64 = 0;
        while c < q
            invariant
                self.wf(),
                c <= q,
                q == value >> (k as u64),
                start.len() + q + 1 + k <= usize::MAX,
                self.bits() == start + repeat_bit(true, c as nat),
            decreases q - c,
        {
            self.write_bit(true);
            c = c + 1;
            assert(self.bits() =~= start + repeat_bit(true, c as nat));
        }
        self.write_bit(false);
        self.write_bits(value, k);
        assert(self.bits() =~= start + gr_code(value, k));
    }
}

/// The number of set bits from `p` on before the first clear bit, looking at
/// most `n` bits ahead and not past the end of `s`.
pub open spec fn ones_run(s: Seq<bool>, p: int, n: nat) -> nat
    decreases n,
{
    if n == 0 || p < 0 || p >= s.len() || !s[p] {
        0
    } else {
        1 + ones_run(s, p + 1, (n - 1) as nat)
    }
}

/// What reading a length prefix at `p` gives, and where the cursor ends.
pub open spec fn read_len_spec(s: Seq<bool>, p: int) -> (Result<u64, WireError>, int) {
    if p + 7 > s.len() {
        (Err(WireError::Truncated), p)
    } else {
        let e = bits_value(s.subrange(p, p + 7), 7);
        if e == 0 {
            (Ok(0u64), p + 7)
        } else if e > 64 {
            (Err(WireError::BadShape("length-prefix bits > 64")), p + 7)
        } else if p + 7 + e > s.len() {
            (Err(WireError::Truncated), p + 7)
        } else {
            (Ok(bits_value(s.subrange(p + 7, p + 7 + e), e) as u64), p + 7 + e)
        }
    }
}

/// What reading a Golomb–Rice code with parameter `k` at `p` gives, and
/// where the cursor ends.
pub open spec fn read_gr_spec(s: Seq<bool>, p: int, k: u32) -> (Result<u64, WireError>, int) {
    let t = ones_run(s, p, (GR_MAX_UNARY + 1) as nat);
    if t > GR_MAX_UNARY {
        (Err(WireError::BadShape("GR unary unreasonably long")), p + t)
    } else if p + t >= s.len() {
        (Err(WireError::Truncated), p + t)
    } else {
        let q = p + t + 1;
        if k == 0 {
            (Ok(t as u64), q)
        } else if q + k > s.len() {
            (Err(WireError::Truncated), q)
        } else {
            (Ok(((t as u64) << (k as u64)) | (bits_value(s.subrange(q, q + k), k as nat) as u64)), q + k)
        }
    }
}

impl<'a> BitReader<'a> {
    /// Read a length prefix.
    pub fn read_len(&mut self) -> (res: Result<u64, WireError>)
        requires
            old(self).wf(),
        ensures
            final(self).wf(),
            final(self).stream() == old(self).stream(),
            (res, final(self).position()) == read_len_spec(old(self).stream(), old(self).position()),
    {
        let ghost s = self.stream();
        let ghost p = self.position();
        let bits = match self.read_bits(LEN_FIELD_BITS) {
            Ok(b) => b,
            Err(e) => {
                return Err(e);
            },
        };
        proof {
            lemma_bits_value_bound(s.subrange(p, p + 7), 7);
            lemma2_to64();
        }
        if bits == 0 {
            Ok(0)
        } else if bits > 64 {
            Err(WireError::BadShape("length-prefix bits > 64"))
        } else {
            self.read_bits(bits as u32)
        }
    }

    /// Read a Golomb–Rice code with parameter `k`.
    pub fn read_gr(&mut self, k: u32) -> (res: Result<u64, WireError>)
        requires
            old(self).wf(),
            k < 64,
        ensures
            final(self).wf(),
            final(self).stream() == old(self).stream(),
            (res, final(self).position()) == read_gr_spec(old(self).stream(), old(self).position(), k),
    {
        let ghost s = self.stream();
        let ghost p = self.position();
        let ghost big: nat = (GR_MAX_UNARY + 1) as nat;
        let mut q: u64 = 0;
        proof {
            lemma2_to64();
        }
        loop
            invariant_except_break
                self.position() == p + q,
            invariant
                self.wf(),
                self.stream() == s,
                s == old(self).stream(),
                p == old(self).position(),
                k < 64,
                0 <= p,
                big == GR_MAX_UNARY + 1,
                q <= GR_MAX_UNARY,
                ones_run(s, p, big) == q + ones_run(s, p + q, (big - q) as nat),
            ensures
                self.position() == p + q + 1,
                p + q < s.len(),
                ones_run(s, p, big) == q,
            decreases GR_MAX_UNARY - q,
        {
            let b = match self.read_bits(1) {
                Ok(b) => b,
                Err(e) => {
                    return Err(e);
                },
            };
            proof {
                lemma2_to64();
            }
            assert(s.subrange(p + q, p + q + 1)[0] == s[p + q]);
            assert(bits_value(s.subrange(p + q, p + q + 1), 1) == bits_value(s.subrange(p + q, p + q + 1), 0) + if s[p + q] {
                pow2(0)
            } else {
                0
            });
            if b == 0 {
                assert(ones_run(s, p + q, (big - q) as nat) == 0);
                break;
            }
            assert(ones_run(s, p + q, (big - q) as nat) == 1 + ones_run(s, p + q + 1, (big - q - 1) as nat));
            q = q + 1;
            if q > GR_MAX_UNARY {
                return Err(WireError::BadShape("GR unary unreasonably long"));
            }
        }
        let r = if k > 0 {
            match self.read_bits(k) {
                Ok(r) => r,
                Err(e) => {
                    return Err(e);
                },
            }
        } else {
            0
        };
        proof {
            if k == 0 {
                assert((q << 0u64) | 0u64 == q) by (bit_vector);
            }
        }
        Ok((q << (k as u64)) | r)
    }
}

// ---------------------------------------------------------------------------
// Round trips
// ---------------------------------------------------------------------------

/// Reading `n` bits where the low `n` bits of `v` were written gives back
/// `v mod 2^n`.
pub proof fn law_bits_roundtrip(prefix: Seq<bool>, v: u64, n: nat, rest: Seq<bool>)
    requires
        n <= 64,
    ensures
        ({
            let s = prefix + low_bits(v, n) + rest;
            let p = prefix.len() as int;
            &&& p + n <= s.len()
            &&& bits_value(s.subrange(p, p + n), n) == v as nat % pow2(n)
        }),
{
    let s = prefix + low_bits(v, n) + rest;
    let p = prefix.len() as int;
    lemma_bits_value_prefix(s.subrange(p, p + n), low_bits(v, n), n);
    lemma_low_bits_value(v, n);
}

/// A length prefix reads back as the length it encodes, for every `u64`.
pub proof fn law_len_roundtrip(prefix: Seq<bool>, len: u64, rest: Seq<bool>)
    ensures
        read_len_spec(prefix + len_code(len) + rest, prefix.len() as int) == (
            Ok::<u64, WireError>(len),
            (prefix.len() + len_code(len).len()) as int,
        ),
{
    let e = bit_len(len as nat);
    let s = prefix + len_code(len) + rest;
    let p = prefix.len() as int;
    lemma_bit_len(len as nat);
    lemma2_to64();
    vstd::arithmetic::power2::lemma2_to64_rest();
    assert(s =~= prefix + low_bits(e as u64, 7) + (low_bits(len, e) + rest));
    law_bits_roundtrip(prefix, e as u64, 7, low_bits(len, e) + rest);
    vstd::arithmetic::div_mod::lemma_small_mod(e, 128);
    if e > 0 {
        assert(s =~= (prefix + low_bits(e as u64, 7)) + low_bits(len, e) + rest);
        law_bits_roundtrip(prefix + low_bits(e as u64, 7), len, e, rest);
        vstd::arithmetic::div_mod::lemma_small_mod(len as nat, pow2(e));
    } else {
        assert(len == 0);
    }
}

/// `ones_run` over `t` set bits followed by a clear bit.
proof fn lemma_ones_run(s: Seq<bool>, p: int, t: nat, n: nat)
    requires
        0 <= p,
        t < n,
        p + t < s.len(),
        all_ones(s, p, t),
        !s[p + t],
    ensures
        ones_run(s, p, n) == t,
    decreases t,
{
    if t > 0 {
        assert(s[p]);
        lemma_ones_run(s, p + 1, (t - 1) as nat, (n - 1) as nat);
    }
}

/// A Golomb–Rice code reads back as the value it encodes (when its unary
/// part is within the reader's limit).
pub proof fn law_gr_roundtrip(prefix: Seq<bool>, value: u64, k: u32, rest: Seq<bool>)
    requires
        k < 64,
        value >> (k as u64) <= GR_MAX_UNARY,
    ensures
        read_gr_spec(prefix + gr_code(value, k) + rest, prefix.len() as int, k) == (
            Ok::<u64, WireError>(value),
            (prefix.len() + gr_code(value, k).len()) as int,
        ),
{
    let q = value >> (k as u64);
    let s = prefix + gr_code(value, k) + rest;
    let p = prefix.len() as int;
    lemma2_to64();
    assert(all_ones(s, p, q as nat));
    assert(s[p + q] == false);
    lemma_ones_run(s, p, q as nat, (GR_MAX_UNARY + 1) as nat);
    let head = prefix + repeat_bit(true, q as nat).push(false);
    assert(s =~= head + low_bits(value, k as nat) + rest);
    law_bits_roundtrip(head, value, k as nat, rest);
    if k > 0 {
        let r = value as nat % pow2(k as nat);
        vstd::bits::lemma_u64_low_bits_mask_is_mod(value, k as nat);
        vstd::bits::lemma_u64_pow2_no_overflow(k as nat);
        vstd::bits::lemma_u64_shl_is_mul(1u64, k as u64);
        assert(vstd::bits::low_bits_mask(k as nat) == pow2(k as nat) - 1);
        let mask: u64 = ((1u64 << (k as u64)) - 1) as u64;
        assert(value & mask == r);
        assert(((value >> (k as u64)) << (k as u64)) | (value & mask) == value) by (bit_vector)
            requires
                k < 64,
                mask == ((1u64 << (k as u64)) - 1) as u64,
        ;
    } else {
        assert((value >> 0u64) == value) by (bit_vector);
    }
}

// ---------------------------------------------------------------------------
// Zigzag and centered residues
// ---------------------------------------------------------------------------

/// Zigzag: `0, -1, 1, -2, 2, …` ↦ `0, 1, 2, 3, 4, …`.
pub open spec fn zigzag_spec(x: int) -> int {
    if x >= 0 {
        2 * x
    } else {
        -2 * x - 1
    }
}

/// Inverse zigzag: even `u` ↦ `u/2`, odd `u` ↦ `−(u+1)/2`.
pub open spec fn unzigzag_spec(u: int) -> int {
    if u % 2 == 0 {
        u / 2
    } else {
        -(u / 2) - 1
    }
}

/// Zigzag-encode a signed value.
pub fn zigzag_encode(x: i64) -> (u: u64)
    ensures
        u == zigzag_spec(x as int),
{
    if x >= 0 {
        (x as u64) * 2
    } else {
        ((-(x + 1)) as u64) * 2 + 1
    }
}

/// Inverse of [`zigzag_encode`].
pub fn zigzag_decode(u: u64) -> (x: i64)
    ensures
        x == unzigzag_spec(u as int),
{
    if u % 2 == 0 {
        (u / 2) as i64
    } else {
        -((u / 2) as i64) - 1
    }
}

/// Zigzag decoding undoes zigzag encoding.
pub proof fn law_zigzag_roundtrip(x: int)
    ensures
        unzigzag_spec(zigzag_spec(x)) == x,
{
}

/// The canonical residue `x mod q` of a signed value.
pub fn encode_signed_modq(x: i128, q: u64) -> (u: u64)
    requires
        q > 0,
    ensures
        u == (x as int) % (q as int),
        u < q,
{
    let qq = q as u128;
    if x >= 0 {
        ((x as u128) % qq) as u64
    } else {
        let m = ((-(x + 1)) as u128 + 1) % qq;
        proof {
            let a = -(x as int);
            assert(m == a % (q as int));
            vstd::arithmetic::div_mod::lemma_fundamental_div_mod(a, q as int);
            let t = a / (q as int);
            let d = q as int;
            assert((-t) * d == -(d * t)) by (nonlinear_arith);
            assert((-t - 1) * d == -(d * t) - d) by (nonlinear_arith);
            if m == 0 {
                vstd::arithmetic::div_mod::lemma_fundamental_div_mod_converse(x as int, q as int, -(a / (q as int)), 0);
            } else {
                vstd::arithmetic::div_mod::lemma_fundamental_div_mod_converse(
                    x as int,
                    q as int,
                    -(a / (q as int)) - 1,
                    q - m,
                );
            }
        }
        if m == 0 {
            0
        } else {
            (qq - m) as u64
        }
    }
}

/// The centered representative of a residue: `u` if `u ≤ q/2`, else
/// `u − q`.
pub fn decode_signed_modq(u: u64, q: u64) -> (x: i128)
    ensures
        x == if u <= q / 2 {
            u as int
        } else {
            u - q
        },
{
    if u <= q / 2 {
        u as i128
    } else {
        (u as i128) - (q as i128)
    }
}

/// Centered decoding undoes residue encoding on `(−⌈q/2⌉, ⌊q/2⌋]`.
pub proof fn law_signed_modq_roundtrip(x: int, q: int)
    requires
        q > 0,
        q / 2 - q < x <= q / 2,
    ensures
        (if x % q <= q / 2 {
            x % q
        } else {
            x % q - q
        }) == x,
{
    vstd::arithmetic::div_mod::lemma_fundamental_div_mod(x, q);
    if x >= 0 {
        vstd::arithmetic::div_mod::lemma_small_mod(x as nat, q as nat);
    } else {
        vstd::arithmetic::div_mod::lemma_fundamental_div_mod_converse(x, q, -1, x + q);
    }
}

} // verus!
