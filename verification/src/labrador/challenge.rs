//! Amortizing challenges `c ∈ C`: ring elements with exactly `W` non-zero
//! coefficients, each in `{±1, ±2}`, and squared ℓ₂ norm at most `4·W`.
use crate::labrador::transcript::{derive_below_spec, le64, u64_le_bytes, Transcript};
use crate::modring::crt::Ring;
use crate::modring::modulus::centered_of;
use crate::modring::poly::{RingElem, D};
use crate::modring::polyspec::sum_sq;
use vstd::prelude::*;

verus! {

/// Number of non-zero coefficients of a challenge.
pub const W: usize = 43;

/// `τ²`: the operator-norm proxy used in the verifier's norm bound.
pub const TAU_SQ: i64 = 86;

/// Operator-norm bound.
pub const T_OP: i64 = 43;

/// Worst-case squared ℓ₂ norm: every non-zero coefficient is `±2`.
pub const WORST_CASE_L2SQ: i64 = 172;

/// `|pos|`
pub const POS_TAG: [u8; 5] = [124u8, 112, 111, 115, 124];

/// `|val|`
pub const VAL_TAG: [u8; 5] = [124u8, 118, 97, 108, 124];

/// The centered coefficients of `c` mod `q`.
pub open spec fn centered_seq(c: RingElem, q: int) -> Seq<int> {
    Seq::new(D as nat, |k: int| centered_of(c.c[k] as int, q))
}

/// Number of non-zero entries among the first `n`.
pub open spec fn nonzeros(s: Seq<int>, n: nat) -> nat
    decreases n,
{
    if n == 0 {
        0
    } else {
        nonzeros(s, (n - 1) as nat) + if s[n - 1] != 0 {
            1nat
        } else {
            0nat
        }
    }
}

/// `c` is a valid challenge: coefficients in `[-2, 2]`, exactly `W` of them
/// non-zero, squared norm at most `4·W`.
pub open spec fn challenge_ok(c: RingElem, q: int) -> bool {
    let cs = centered_seq(c, q);
    &&& forall|k: int| 0 <= k < D ==> -2 <= #[trigger] cs[k] <= 2
    &&& nonzeros(cs, D as nat) == W
    &&& sum_sq(cs, D as nat) <= WORST_CASE_L2SQ
}

/// Check both challenge bounds: exactly `W` non-zero coefficients, all in
/// `{±1, ±2}`, and squared ℓ₂ norm at most `4·W`.
pub fn check_norms(ring: &Ring, c: &RingElem) -> (ok: bool)
    requires
        ring.wf(),
        c.wf(ring.m),
    ensures
        ok == challenge_ok(*c, ring.m.q as int),
{
    let ghost cs = centered_seq(*c, ring.m.q as int);
    let mut l2sq: i128 = 0;
    let mut nz: usize = 0;
    for k in 0..D
        invariant
            ring.wf(),
            c.wf(ring.m),
            cs == centered_seq(*c, ring.m.q as int),
            forall|j: int| 0 <= j < k ==> -2 <= #[trigger] cs[j] <= 2,
            nz == nonzeros(cs, k as nat),
            nz <= k,
            l2sq == sum_sq(cs, k as nat),
            0 <= l2sq <= 4 * k,
    {
        let s = ring.m.centered(c.c[k]);
        assert(s == cs[k as int]);
        if s > 2 || s < -2 {
            return false;
        }
        if s != 0 {
            nz += 1;
        }
        proof {
            assert(0 <= s * s <= 4) by (nonlinear_arith)
                requires
                    -2 <= s <= 2,
            ;
        }
        l2sq += (s as i128) * (s as i128);
    }
    nz == W && l2sq <= WORST_CASE_L2SQ as i128
}

/// `label ‖ tag ‖ counter ‖ k`.
fn tagged_label(label: &[u8], tag: &[u8; 5], counter: u32, k: usize) -> (out: Vec<u8>)
    ensures
        out@ == label@ + tag@ + le64(counter as u64) + le64(k as u64),
{
    let mut out: Vec<u8> = Vec::new();
    out.extend_from_slice(label);
    out.extend_from_slice(tag);
    out.extend_from_slice(&u64_le_bytes(counter as u64));
    out.extend_from_slice(&u64_le_bytes(k as u64));
    assert(out@ =~= label@ + tag@ + le64(counter as u64) + le64(k as u64));
    out
}

/// The index of the `pick`-th free slot (counting from 0) at or after `j`,
/// `seen` free slots having been passed before `j`; 0 when there is none.
pub open spec fn scan_free(taken: Seq<bool>, pick: int, j: int, seen: int) -> int
    decreases D - j,
{
    if j < 0 || j >= D {
        0
    } else if !taken[j] {
        if seen == pick {
            j
        } else {
            scan_free(taken, pick, j + 1, seen + 1)
        }
    } else {
        scan_free(taken, pick, j + 1, seen)
    }
}

/// The coefficient value `{-2, -1, 1, 2}` of a draw below 4.
pub open spec fn signed_of(v: u64) -> int {
    if v == 0 {
        -2
    } else if v == 1 {
        -1
    } else if v == 2 {
        1
    } else {
        2
    }
}

/// The first `k` placements of attempt `counter` from state `st`: the
/// coefficients and the taken slots so far (or `None` once a draw fails),
/// and the state after.
pub open spec fn attempt_run(st: Seq<u8>, label: Seq<u8>, counter: u32, q: u64, k: nat) -> (Option<(Seq<u64>, Seq<bool>)>, Seq<u8>)
    decreases k,
{
    if k == 0 {
        (Some((Seq::new(D as nat, |i: int| 0u64), Seq::new(D as nat, |i: int| false))), st)
    } else {
        let prev = attempt_run(st, label, counter, q, (k - 1) as nat);
        match prev.0 {
            None => prev,
            Some(ct) => {
                let kk = (k - 1) as u64;
                let d1 = derive_below_spec(prev.1, label + POS_TAG@ + le64(counter as u64) + le64(kk), (D - kk) as u64);
                match d1.0 {
                    None => (None, d1.1),
                    Some(pick) => {
                        let ch = scan_free(ct.1, pick as int, 0, 0);
                        let d2 = derive_below_spec(d1.1, label + VAL_TAG@ + le64(counter as u64) + le64(kk), 4);
                        match d2.0 {
                            None => (None, d2.1),
                            Some(v) => (
                                Some((ct.0.update(ch, (signed_of(v) % (q as int)) as u64), ct.1.update(ch, true))),
                                d2.1,
                            ),
                        }
                    },
                }
            },
        }
    }
}

/// The centered values of a coefficient sequence mod `q`.
pub open spec fn centered_seq_of(cs: Seq<u64>, q: int) -> Seq<int> {
    Seq::new(D as nat, |k: int| centered_of(cs[k] as int, q))
}

/// [`challenge_ok`] on a coefficient sequence.
pub open spec fn seq_challenge_ok(cs: Seq<u64>, q: int) -> bool {
    let v = centered_seq_of(cs, q);
    &&& forall|k: int| 0 <= k < D ==> -2 <= #[trigger] v[k] <= 2
    &&& nonzeros(v, D as nat) == W
    &&& sum_sq(v, D as nat) <= WORST_CASE_L2SQ
}

/// The challenge drawn from state `st` by attempts `counter, counter+1, …`:
/// the first accepted attempt's coefficients (or `None` once a draw fails or
/// attempt 100 is rejected), and the state after.
pub open spec fn challenge_run(st: Seq<u8>, label: Seq<u8>, q: u64, counter: nat) -> (Option<Seq<u64>>, Seq<u8>)
    decreases 101 - counter,
{
    let a = attempt_run(st, label, counter as u32, q, W as nat);
    match a.0 {
        None => (None, a.1),
        Some(ct) => if seq_challenge_ok(ct.0, q as int) {
            (Some(ct.0), a.1)
        } else if counter + 1 > 100 || counter >= 101 {
            (None, a.1)
        } else {
            challenge_run(a.1, label, q, counter + 1)
        },
    }
}

/// Once a draw of an attempt failed, the rest of it changes nothing.
proof fn lemma_attempt_stop(st: Seq<u8>, label: Seq<u8>, counter: u32, q: u64, k: nat, k2: nat)
    requires
        k <= k2,
        attempt_run(st, label, counter, q, k).0 is None,
    ensures
        attempt_run(st, label, counter, q, k2) == attempt_run(st, label, counter, q, k),
    decreases k2,
{
    if k < k2 {
        lemma_attempt_stop(st, label, counter, q, k, (k2 - 1) as nat);
    }
}

/// Sample a challenge by rejection: each attempt places `W` coefficients in
/// `{±1, ±2}` at distinct positions drawn from the transcript, and is
/// accepted when it passes [`check_norms`]. `None` if a transcript draw
/// fails or more than 100 attempts are rejected.
#[verifier::rlimit(40)]
pub fn sample_challenge(transcript: &mut Transcript, label: &[u8], ring: &Ring) -> (res: Option<RingElem>)
    requires
        ring.wf(),
    ensures
        res matches Some(c) ==> c.wf(ring.m) && challenge_ok(c, ring.m.q as int),
        ({
            let run = challenge_run(old(transcript).absorbed(), label@, ring.m.q, 0);
            &&& final(transcript).absorbed() == run.1
            &&& match res {
                Some(c) => run.0 == Some(c.c@),
                None => run.0 is None,
            }
        }),
{
    let m = &ring.m;
    let ghost st0 = transcript.absorbed();
    let ghost q = ring.m.q;
    let mut counter: u32 = 0;
    loop
        invariant
            ring.wf(),
            m == &ring.m,
            q == ring.m.q,
            counter <= 100,
            st0 == old(transcript).absorbed(),
            challenge_run(st0, label@, q, 0) == challenge_run(transcript.absorbed(), label@, q, counter as nat),
        decreases 100 - counter,
    {
        let ghost st = transcript.absorbed();
        let mut c = RingElem::zero();
        let mut taken = [false; D];
        assert(c.c@ =~= Seq::new(D as nat, |i: int| 0u64));
        assert(taken@ =~= Seq::new(D as nat, |i: int| false));
        for k in 0..W
            invariant
                ring.wf(),
                m == &ring.m,
                q == ring.m.q,
                counter <= 100,
                st0 == old(transcript).absorbed(),
                challenge_run(st0, label@, q, 0) == challenge_run(st, label@, q, counter as nat),
                c.wf(ring.m),
                attempt_run(st, label@, counter, q, k as nat) == (Some((c.c@, taken@)), transcript.absorbed()),
        {
            let remaining = D - k;
            let pick_label = tagged_label(label, &POS_TAG, counter, k);
            let pick = match transcript.derive_below(&pick_label, remaining as u64) {
                Some(p) => p as usize,
                None => {
                    proof {
                        lemma_attempt_stop(st, label@, counter, q, (k + 1) as nat, W as nat);
                    }
                    return None;
                },
            };
            let ghost target = scan_free(taken@, pick as int, 0, 0);
            let mut seen: usize = 0;
            let mut chosen: usize = 0;
            let mut j: usize = 0;
            while j < D
                invariant_except_break
                    chosen == 0,
                    seen <= j <= D,
                    scan_free(taken@, pick as int, j as int, seen as int) == target,
                ensures
                    chosen == target,
                    chosen < D,
                decreases D - j,
            {
                if !taken[j] {
                    if seen == pick {
                        chosen = j;
                        break;
                    }
                    seen += 1;
                }
                j += 1;
            }
            taken[chosen] = true;
            let val_label = tagged_label(label, &VAL_TAG, counter, k);
            let v = match transcript.derive_below(&val_label, 4) {
                Some(v) => v,
                None => {
                    proof {
                        lemma_attempt_stop(st, label@, counter, q, (k + 1) as nat, W as nat);
                    }
                    return None;
                },
            };
            let signed: i64 = if v == 0 {
                -2
            } else if v == 1 {
                -1
            } else if v == 2 {
                1
            } else {
                2
            };
            assert(signed == signed_of(v));
            c.c[chosen] = m.from_i64(signed);
        }
        let ghost cs = c.c@;
        counter = counter + 1;
        let ok = check_norms(ring, &c);
        proof {
            assert(centered_seq(c, q as int) =~= centered_seq_of(cs, q as int));
        }
        if ok {
            return Some(c);
        }
        if counter > 100 {
            return None;
        }
    }
}

/// Drawing `count` challenges, challenge `i` under `labrador.c ‖ i`, from
/// state `st`: the challenges (or `None` once one fails) and the state after.
pub open spec fn challenges_run(st: Seq<u8>, label: Seq<u8>, q: u64, count: nat) -> (Option<Seq<Seq<u64>>>, Seq<u8>)
    decreases count,
{
    if count == 0 {
        (Some(Seq::empty()), st)
    } else {
        let prev = challenges_run(st, label, q, (count - 1) as nat);
        match prev.0 {
            None => prev,
            Some(cs) => {
                let d = challenge_run(prev.1, label + le64((count - 1) as u64), q, 0);
                match d.0 {
                    Some(c) => (Some(cs.push(c)), d.1),
                    None => (None, d.1),
                }
            },
        }
    }
}

/// Once a challenge failed, drawing further changes nothing.
pub(crate) proof fn lemma_challenges_stop(st: Seq<u8>, label: Seq<u8>, q: u64, k: nat, k2: nat)
    requires
        k <= k2,
        challenges_run(st, label, q, k).0 is None,
    ensures
        challenges_run(st, label, q, k2) == challenges_run(st, label, q, k),
    decreases k2,
{
    if k < k2 {
        lemma_challenges_stop(st, label, q, k, (k2 - 1) as nat);
    }
}

} // verus!
