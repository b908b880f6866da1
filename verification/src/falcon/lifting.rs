//! Whether a decoded signature can be encoded in the relation: the lifted
//! Falcon equation and the norm bound, checked exactly.
use crate::falcon::falcon_ring::{fpoly_centered, FALCON_BETA_SQ, FALCON_N, FALCON_Q};
use crate::falcon::parse::FalconSig;
use crate::falcon::relation::{centered_vec, lemma_negacyclic_bound, neg_mul_i64, sig_encodable, HALF_Q};
use crate::modring::polyspec::{ints_signed, negacyclic_coeff};
use vstd::prelude::*;

verus! {

/// Whether `sig` satisfies the lifted Falcon equation and the norm bound,
/// i.e. whether the relation can encode it.
pub fn check_encodable(sig: &FalconSig) -> (ok: bool)
    requires
        sig.h.wf(),
        sig.c.wf(),
        sig.s1.wf(),
        sig.s2.wf(),
    ensures
        ok == sig_encodable(*sig),
{
    let n1 = sig.s1.norm_sq();
    let n2 = sig.s2.norm_sq();
    if FALCON_BETA_SQ - n1 - n2 < 0 {
        return false;
    }
    let s1_i = centered_vec(&sig.s1);
    let s2_i = centered_vec(&sig.s2);
    let h_i = centered_vec(&sig.h);
    let c_i = centered_vec(&sig.c);
    let hs2 = neg_mul_i64(&h_i, &s2_i);
    proof {
        assert(ints_signed(h_i) =~= fpoly_centered(sig.h));
        assert(ints_signed(s2_i) =~= fpoly_centered(sig.s2));
    }
    let q = FALCON_Q as i64;
    proof {
        assert forall|k: int| 0 <= k < FALCON_N implies -HALF_Q <= #[trigger] fpoly_centered(sig.h)[k] <= HALF_Q by {
            assert(h_i[k] == fpoly_centered(sig.h)[k]);
        }
        assert forall|k: int| 0 <= k < FALCON_N implies -HALF_Q <= #[trigger] fpoly_centered(sig.s2)[k] <= HALF_Q by {
            assert(s2_i[k] == fpoly_centered(sig.s2)[k]);
        }
    }
    for i in 0..FALCON_N
        invariant
            q == FALCON_Q,
            forall|k: int| 0 <= k < FALCON_N ==> #[trigger] s1_i[k] == fpoly_centered(sig.s1)[k],
            forall|k: int| 0 <= k < FALCON_N ==> #[trigger] c_i[k] == fpoly_centered(sig.c)[k],
            forall|k: int| 0 <= k < FALCON_N ==> -HALF_Q <= #[trigger] s1_i[k] <= HALF_Q,
            forall|k: int| 0 <= k < FALCON_N ==> -HALF_Q <= #[trigger] c_i[k] <= HALF_Q,
            forall|k: int| 0 <= k < FALCON_N ==> -HALF_Q <= #[trigger] fpoly_centered(sig.h)[k] <= HALF_Q,
            forall|k: int| 0 <= k < FALCON_N ==> -HALF_Q <= #[trigger] fpoly_centered(sig.s2)[k] <= HALF_Q,
            forall|k: int|
                0 <= k < FALCON_N ==> #[trigger] hs2[k] == negacyclic_coeff(
                    fpoly_centered(sig.h),
                    fpoly_centered(sig.s2),
                    k,
                ),
            forall|k: int|
                0 <= k < i ==> (#[trigger] fpoly_centered(sig.c)[k] - fpoly_centered(sig.s1)[k] - negacyclic_coeff(
                    fpoly_centered(sig.h),
                    fpoly_centered(sig.s2),
                    k,
                )) % (FALCON_Q as int) == 0,
    {
        proof {
            lemma_negacyclic_bound(fpoly_centered(sig.h), fpoly_centered(sig.s2), i as int);
        }
        let diff = c_i[i] - s1_i[i] - hs2[i];
        if diff % q != 0 {
            return false;
        }
    }
    true
}

} // verus!
