//! Fiat-Shamir transcript backing the LaBRADOR protocol.
//!
//! Every prover message is *absorbed* into the transcript before any
//! verifier challenge derived from it is *squeezed* out. The transcript is a
//! SHAKE256 absorb/squeeze machine: each absorb and each squeeze appends a
//! labelled, length-prefixed record to the absorbed byte string, so the
//! state is exactly the sequence of records, and every challenge is a prefix
//! of the SHAKE256 stream of that sequence.
use crate::xof::{shake256_byte, shake_absorbed, ShakeState};
use vstd::prelude::*;

verus! {

/// `transcript-domain:`
pub const DOMAIN_TAG: [u8; 18] = [
    116u8, 114, 97, 110, 115, 99, 114, 105, 112, 116, 45, 100, 111, 109, 97, 105, 110, 58,
];

/// `a:`
pub const ABSORB_TAG: [u8; 2] = [97u8, 58];

/// `c:`
pub const CHALLENGE_TAG: [u8; 2] = [99u8, 58];

/// `chal-out:`
pub const CHALLENGE_OUT_TAG: [u8; 9] = [99u8, 104, 97, 108, 45, 111, 117, 116, 58];

/// `cm:`
pub const ARRAY_TAG: [u8; 3] = [99u8, 109, 58];

/// `chal-array-out:`
pub const ARRAY_OUT_TAG: [u8; 15] = [
    99u8, 104, 97, 108, 45, 97, 114, 114, 97, 121, 45, 111, 117, 116, 58,
];

// ---------------------------------------------------------------------------
// Little-endian encodings
// ---------------------------------------------------------------------------

/// The eight little-endian bytes of `x`.
pub open spec fn le64(x: u64) -> Seq<u8> {
    Seq::new(8, |i: int| ((x >> (8 * i) as u64) & 0xff) as u8)
}

/// The little-endian value of the first `n` bytes of `b`.
pub open spec fn le_value(b: Seq<u8>, n: nat) -> int
    decreases n,
{
    if n == 0 {
        0
    } else {
        le_value(b, (n - 1) as nat) + b[n - 1] * vstd::arithmetic::power2::pow2(8 * (n - 1) as nat)
    }
}

/// `x.to_le_bytes()`.
pub fn u64_le_bytes(x: u64) -> (b: [u8; 8])
    ensures
        b@ == le64(x),
{
    let mut b = [0u8; 8];
    for i in 0..8usize
        invariant
            forall|j: int| 0 <= j < i ==> #[trigger] b[j] == ((x >> (8 * j) as u64) & 0xff) as u8,
    {
        b[i] = ((x >> (8 * i) as u64) & 0xff) as u8;
    }
    assert(b@ =~= le64(x));
    b
}

/// `u64::from_le_bytes` of the first eight bytes of `b`.
pub fn u64_from_le(b: &[u8]) -> (x: u64)
    requires
        b@.len() >= 8,
    ensures
        x == le_value(b@, 8),
{
    let x = u64_from_le_at(b, 0);
    assert(le_value(b@.subrange(0, 8), 8) == le_value(b@, 8)) by {
        lemma_le_value_prefix(b@.subrange(0, 8), b@, 8);
    }
    x
}

/// `le_value` only reads the first `n` bytes.
proof fn lemma_le_value_prefix(a: Seq<u8>, b: Seq<u8>, n: nat)
    requires
        a.len() >= n,
        b.len() >= n,
        forall|i: int| 0 <= i < n ==> a[i] == b[i],
    ensures
        le_value(a, n) == le_value(b, n),
    decreases n,
{
    if n > 0 {
        lemma_le_value_prefix(a, b, (n - 1) as nat);
    }
}

/// The little-endian `u64` stored at bytes `off..off+8` of `b`.
pub(crate) fn u64_from_le_at(b: &[u8], off: usize) -> (x: u64)
    requires
        off + 8 <= b@.len(),
    ensures
        x == le_value(b@.subrange(off as int, off + 8), 8),
{
    let ghost w = b@.subrange(off as int, off + 8);
    let mut x: u64 = 0;
    let mut scale: u64 = 1;
    proof {
        vstd::arithmetic::power2::lemma2_to64();
    }
    for i in 0..8usize
        invariant
            off + 8 <= b@.len(),
            off + 8 <= b.len(),
            w == b@.subrange(off as int, off + 8),
            x == le_value(w, i as nat),
            i < 8 ==> scale == vstd::arithmetic::power2::pow2(8 * i as nat),
            i < 8 ==> x < scale,
            i < 8 ==> scale <= 0x0100_0000_0000_0000,
    {
        proof {
            vstd::arithmetic::power2::lemma2_to64();
            vstd::arithmetic::power2::lemma_pow2_adds(8 * i as nat, 8);
            assert(w[i as int] == b@[off + i]);
            assert(w[i as int] < 256);
            assert(x + w[i as int] * scale < scale * 256) by (nonlinear_arith)
                requires
                    x < scale,
                    w[i as int] < 256,
            ;
            assert(scale * 256 <= 0x1_0000_0000_0000_0000) by (nonlinear_arith)
                requires
                    scale <= 0x0100_0000_0000_0000,
            ;
            assert(w[i as int] * scale <= 255 * scale) by (nonlinear_arith)
                requires
                    w[i as int] < 256,
            ;
            if i < 7 {
                assert(scale * 256 <= 0x0100_0000_0000_0000) by {
                    if i < 6 {
                        vstd::arithmetic::power2::lemma_pow2_strictly_increases(
                            8 * (i + 1) as nat,
                            56,
                        );
                    }
                    vstd::arithmetic::power2::lemma2_to64_rest();
                }
            }
        }
        x = x + (b[off + i] as u64) * scale;
        if i < 7 {
            scale = scale * 256;
        } else {
            proof {
                assert(x < 0x1_0000_0000_0000_0000);
            }
            scale = 0;
        }
        proof {
            if i < 7 {
                assert(scale == vstd::arithmetic::power2::pow2(8 * (i + 1) as nat));
            }
        }
    }
    x
}

// ---------------------------------------------------------------------------
// The transcript, as the records it has absorbed
// ---------------------------------------------------------------------------

/// The record that starts a transcript for `domain`.
pub open spec fn domain_record(domain: Seq<u8>) -> Seq<u8> {
    DOMAIN_TAG@ + le64(domain.len() as u64) + domain
}

/// The record absorbed for `bytes` under `label`.
pub open spec fn absorb_record(label: Seq<u8>, bytes: Seq<u8>) -> Seq<u8> {
    ABSORB_TAG@ + le64(label.len() as u64) + label + le64(bytes.len() as u64) + bytes
}

/// The hash input of an `n`-byte challenge under `label` from state `st`.
pub open spec fn challenge_input(st: Seq<u8>, label: Seq<u8>, n: nat) -> Seq<u8> {
    st + CHALLENGE_TAG@ + le64(label.len() as u64) + label + le64(n as u64)
}

/// The `n` challenge bytes under `label` from state `st`.
pub open spec fn challenge_out(st: Seq<u8>, label: Seq<u8>, n: nat) -> Seq<u8> {
    Seq::new(n, |i: int| shake256_byte(challenge_input(st, label, n), i as nat))
}

/// The state after squeezing an `n`-byte challenge under `label`.
pub open spec fn challenge_next(st: Seq<u8>, label: Seq<u8>, n: nat) -> Seq<u8> {
    challenge_input(st, label, n) + CHALLENGE_OUT_TAG@ + challenge_out(st, label, n)
}

/// `u64::MAX − (u64::MAX mod bound)`: the rejection threshold for `bound`.
pub open spec fn below_cap(bound: u64) -> int {
    u64::MAX - (u64::MAX % bound) as int
}

/// Rejection sampling of a value below `bound` from state `st`, after
/// `tries` rejected attempts: the value (or `None` once more than 1000
/// attempts were rejected) and the state afterwards.
pub open spec fn below_spec(st: Seq<u8>, label: Seq<u8>, bound: u64, tries: nat) -> (Option<u64>, Seq<u8>)
    decreases 1001 - tries,
{
    let v = le_value(challenge_out(st, label, 8), 8);
    let st2 = challenge_next(st, label, 8);
    if v < below_cap(bound) {
        (Some((v % (bound as int)) as u64), st2)
    } else if tries + 1 > 1000 || tries >= 1001 {
        (None, st2)
    } else {
        below_spec(st2, label, bound, tries + 1)
    }
}

/// `derive_below` from state `st`: `Some(0)` without touching the state for
/// `bound = 1`, rejection sampling otherwise.
pub open spec fn derive_below_spec(st: Seq<u8>, label: Seq<u8>, bound: u64) -> (Option<u64>, Seq<u8>) {
    if bound == 1 {
        (Some(0), st)
    } else {
        below_spec(st, label, bound, 0)
    }
}

/// The hash input of a field-element array of `n` values below `q`.
pub open spec fn array_input(st: Seq<u8>, label: Seq<u8>, n: u64, q: u64) -> Seq<u8> {
    st + ARRAY_TAG@ + le64(label.len() as u64) + label + le64(n) + le64(q)
}

/// The accepted words (reduced mod `q`) among the first `m` 8-byte words of
/// the stream of `input`.
pub open spec fn accepted_u64(input: Seq<u8>, q: u64, m: nat) -> Seq<u64>
    decreases m,
{
    if m == 0 {
        Seq::empty()
    } else {
        let prev = accepted_u64(input, q, (m - 1) as nat);
        let w = le_value(
            Seq::new(8, |i: int| shake256_byte(input, (8 * (m - 1) + i) as nat)),
            8,
        );
        if w < below_cap(q) {
            prev.push((w % (q as int)) as u64)
        } else {
            prev
        }
    }
}

/// Reading more words only appends accepted values.
pub proof fn lemma_accepted_u64_prefix(input: Seq<u8>, q: u64, m1: nat, m2: nat)
    requires
        m1 <= m2,
    ensures
        accepted_u64(input, q, m1).len() <= accepted_u64(input, q, m2).len(),
        forall|i: int|
            0 <= i < accepted_u64(input, q, m1).len() ==> #[trigger] accepted_u64(input, q, m2)[i]
                == accepted_u64(input, q, m1)[i],
    decreases m2 - m1,
{
    if m1 < m2 {
        lemma_accepted_u64_prefix(input, q, m1, (m2 - 1) as nat);
    }
}

/// How many words `derive_field_array` reads at most for `n` values.
pub open spec fn array_guard(n: nat) -> nat {
    1_000_000 + 4 * n
}

/// Fiat-Shamir transcript over SHAKE256.
pub struct Transcript {
    hasher: ShakeState,
}

impl Transcript {
    /// The byte string absorbed so far.
    pub closed spec fn absorbed(&self) -> Seq<u8> {
        shake_absorbed(self.hasher)
    }

    /// A fresh transcript tagged with `domain`.
    pub fn new(domain: &[u8]) -> (t: Self)
        ensures
            t.absorbed() == domain_record(domain@),
    {
        let mut hasher = ShakeState::new();
        hasher.update(&DOMAIN_TAG);
        hasher.update(&u64_le_bytes(domain.len() as u64));
        hasher.update(domain);
        let t = Transcript { hasher };
        assert(t.absorbed() =~= domain_record(domain@));
        t
    }

    /// A copy of the transcript at its current state (`Clone`).
    pub fn fork(&self) -> (t: Self)
        ensures
            t.absorbed() == self.absorbed(),
    {
        Transcript { hasher: self.hasher.duplicate() }
    }

    /// Absorb `bytes` under `label`.
    pub fn absorb(&mut self, label: &[u8], bytes: &[u8])
        ensures
            final(self).absorbed() == old(self).absorbed() + absorb_record(label@, bytes@),
    {
        self.hasher.update(&ABSORB_TAG);
        self.hasher.update(&u64_le_bytes(label.len() as u64));
        self.hasher.update(label);
        self.hasher.update(&u64_le_bytes(bytes.len() as u64));
        self.hasher.update(bytes);
        assert(self.absorbed() =~= old(self).absorbed() + absorb_record(label@, bytes@));
    }

    /// Squeeze `n` deterministic bytes for challenge `label`; the squeeze is
    /// then absorbed so that later challenges chain.
    pub fn challenge_bytes(&mut self, label: &[u8], n: usize) -> (out: Vec<u8>)
        ensures
            out@ == challenge_out(old(self).absorbed(), label@, n as nat),
            final(self).absorbed() == challenge_next(old(self).absorbed(), label@, n as nat),
    {
        self.hasher.update(&CHALLENGE_TAG);
        self.hasher.update(&u64_le_bytes(label.len() as u64));
        self.hasher.update(label);
        self.hasher.update(&u64_le_bytes(n as u64));
        assert(self.absorbed() =~= challenge_input(old(self).absorbed(), label@, n as nat));
        let buf = self.hasher.squeeze(n);
        assert(buf@ =~= challenge_out(old(self).absorbed(), label@, n as nat));
        self.hasher.update(&CHALLENGE_OUT_TAG);
        self.hasher.update(&buf);
        assert(self.absorbed() =~= challenge_next(old(self).absorbed(), label@, n as nat));
        buf
    }

    /// Derive a `u64` challenge: the little-endian value of an 8-byte
    /// challenge.
    pub fn derive_u64(&mut self, label: &[u8]) -> (v: u64)
        ensures
            v == le_value(challenge_out(old(self).absorbed(), label@, 8), 8),
            final(self).absorbed() == challenge_next(old(self).absorbed(), label@, 8),
    {
        let b = self.challenge_bytes(label, 8);
        u64_from_le(&b)
    }

    /// Derive a uniform `u64` in `[0, bound)` by rejection sampling; `None`
    /// if more than 1000 attempts are rejected.
    pub fn derive_below(&mut self, label: &[u8], bound: u64) -> (res: Option<u64>)
        requires
            bound > 0,
        ensures
            (res, final(self).absorbed()) == derive_below_spec(old(self).absorbed(), label@, bound),
            res matches Some(v) ==> v < bound,
    {
        if bound == 1 {
            return Some(0);
        }
        let cap = u64::MAX - (u64::MAX % bound);
        let mut counter: u32 = 0;
        loop
            invariant
                bound > 1,
                cap == below_cap(bound),
                counter <= 1000,
                below_spec(old(self).absorbed(), label@, bound, 0) == below_spec(
                    self.absorbed(),
                    label@,
                    bound,
                    counter as nat,
                ),
            decreases 1001 - counter,
        {
            let ghost st = self.absorbed();
            let v = self.derive_u64(label);
            counter = counter + 1;
            if v < cap {
                return Some(v % bound);
            }
            if counter > 1000 {
                return None;
            }
        }
    }

    /// Derive `n` uniform field elements `< q` from a single squeeze: the
    /// accepted 8-byte words of the stream of the labelled array request,
    /// reduced mod `q`; `None` when the first `1_000_000 + 4n` words hold
    /// fewer than `n` accepted ones.
    pub fn derive_field_array(&mut self, label: &[u8], n: usize, q: u64) -> (res: Option<Vec<u64>>)
        requires
            q > 1,
            n <= 0x0100_0000,
        ensures
            ({
                let input = array_input(old(self).absorbed(), label@, n as u64, q);
                let acc = accepted_u64(input, q, array_guard(n as nat));
                &&& final(self).absorbed() == input + ARRAY_OUT_TAG@ + le64(n as u64)
                &&& match res {
                    Some(v) => acc.len() >= n && v@ == acc.subrange(0, n as int),
                    None => acc.len() < n,
                }
            }),
    {
        self.hasher.update(&ARRAY_TAG);
        self.hasher.update(&u64_le_bytes(label.len() as u64));
        self.hasher.update(label);
        self.hasher.update(&u64_le_bytes(n as u64));
        self.hasher.update(&u64_le_bytes(q));
        let ghost input = array_input(old(self).absorbed(), label@, n as u64, q);
        assert(self.absorbed() =~= input);
        let cap = u64::MAX - (u64::MAX % q);
        let guard: usize = 1_000_000 + 4 * n;
        let mut words: usize = if n + 64 < guard { n + 64 } else { guard };
        let mut result: Option<Vec<u64>> = None;
        loop
            invariant_except_break
                result is None,
            invariant
                self.absorbed() == input,
                input == array_input(old(self).absorbed(), label@, n as u64, q),
                q > 1,
                cap == below_cap(q),
                n <= 0x0100_0000,
                guard == array_guard(n as nat),
                1 <= words <= guard,
            ensures
                self.absorbed() == input,
                result matches Some(v) ==> accepted_u64(input, q, array_guard(n as nat)).len() >= n
                    && v@ == accepted_u64(input, q, array_guard(n as nat)).subrange(0, n as int),
                result is None ==> accepted_u64(input, q, array_guard(n as nat)).len() < n,
            decreases guard - words,
        {
            let bytes = self.hasher.squeeze(8 * words);
            let mut out: Vec<u64> = Vec::new();
            let mut j: usize = 0;
            while j < words && out.len() < n
                invariant
                    bytes@.len() == 8 * words,
                    forall|t: int| 0 <= t < 8 * words ==> #[trigger] bytes@[t] == shake256_byte(input, t as nat),
                    words <= guard,
                    guard == array_guard(n as nat),
                    n <= 0x0100_0000,
                    q > 1,
                    cap == below_cap(q),
                    j <= words,
                    out@.len() <= n,
                    out@ == accepted_u64(input, q, j as nat),
                decreases words - j,
            {
                let w = u64_from_le_at(&bytes, 8 * j);
                proof {
                    assert(bytes@.subrange(8 * j as int, 8 * j + 8) =~= Seq::new(
                        8,
                        |i: int| shake256_byte(input, (8 * j + i) as nat),
                    ));
                }
                if w < cap {
                    out.push(w % q);
                }
                j += 1;
            }
            if out.len() == n {
                proof {
                    lemma_accepted_u64_prefix(input, q, j as nat, array_guard(n as nat));
                    assert(out@ =~= accepted_u64(input, q, array_guard(n as nat)).subrange(0, n as int));
                }
                result = Some(out);
                break;
            }
            if words == guard {
                break;
            }
            words = if words <= guard / 2 {
                words * 2
            } else {
                guard
            };
        }
        self.hasher.update(&ARRAY_OUT_TAG);
        self.hasher.update(&u64_le_bytes(n as u64));
        result
    }

    /// Derive a uniform field element `< q`.
    pub fn derive_field(&mut self, label: &[u8], q: u64) -> (res: Option<u64>)
        requires
            q > 0,
        ensures
            (res, final(self).absorbed()) == derive_below_spec(old(self).absorbed(), label@, q),
            res matches Some(v) ==> v < q,
    {
        self.derive_below(label, q)
    }
}

} // verus!
