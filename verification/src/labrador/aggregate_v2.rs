//! The recursive prover and verifier: `prove_v2`, then `fold` into the next
//! statement and witness, again and again, and `prove_v2` on the last one.
//! The intermediate proofs carry only their commitments; the verifier folds
//! the statements forward with `fold_statement` and runs `verify_v2` once
//! on the last one against the final proof.
use crate::labrador::fold::{e_fits, fold, fold_statement, folded_statement, replay_ready, FoldOutput};
use crate::labrador::jl::PROJECTION_ROWS;
use crate::labrador::proofs::{AggregateProofV2, IterationProofV2, VerifyError};
use crate::labrador::prover_v2::{extend_statement, extends_with, prove_v2, IterationParams};
use crate::labrador::statement::{elems_wf, vecs, wit_shape, Statement, Witness};
use crate::modring::poly::RingElem;
use crate::labrador::transcript::{domain_record, Transcript};
use crate::labrador::verification_v2::{accepts_v2, verify_v2};
use crate::modring::poly::D;
use vstd::prelude::*;

verus! {

/// Progress events of the recursive prover: one `iter_start` before each
/// iteration and one `iter_done` after it (and its fold).
pub trait ProgressSink {
    /// Iteration `k` of `depth` starts; `label` names its work.
    fn iter_start(&mut self, k: usize, depth: usize, label: &str);

    /// Iteration `k` is done.
    fn iter_done(&mut self, k: usize);
}

/// No progress reporting.
impl ProgressSink for () {
    fn iter_start(&mut self, k: usize, depth: usize, label: &str) {
    }

    fn iter_done(&mut self, k: usize) {
    }
}

/// How iteration `k` is folded into iteration `k + 1`: the pieces `ν`, `μ`
/// and the next statement's norm bound `β'²`.
#[derive(Clone, Copy, Debug)]
pub struct FoldStep {
    /// Pieces of `z^(0)` and `z^(1)`.
    pub nu: usize,
    /// Pieces of `ê`.
    pub mu: usize,
    /// The folded statement's `β²`.
    pub beta_sq: i128,
}

/// The integer parameters of a recursive proof: the number of signatures,
/// each iteration's parameters, and the fold after each but the last.
#[derive(Clone, Debug)]
pub struct RecursionParams {
    /// Number of aggregated signatures.
    pub num_sigs: usize,
    /// Parameters of each iteration; their number is the depth.
    pub iterations: Vec<IterationParams>,
    /// `folds[k]` folds iteration `k` into `k + 1`.
    pub folds: Vec<FoldStep>,
}

impl RecursionParams {
    /// At least one iteration, usable parameters, one fold between each two
    /// iterations with at least one piece each.
    pub open spec fn wf(&self) -> bool {
        &&& self.iterations@.len() >= 1
        &&& self.folds@.len() == self.iterations@.len() - 1
        &&& forall|k: int| 0 <= k < self.iterations@.len() ==> (#[trigger] self.iterations@[k]).wf()
        &&& forall|k: int|
            0 <= k < self.folds@.len() ==> (#[trigger] self.folds@[k]).nu >= 1 && self.folds@[k].mu >= 1
                && 2 * self.folds@[k].nu + self.folds@[k].mu <= usize::MAX
    }
}

/// The sizes an iteration handles: at least one and at most `2^28` vectors
/// of at most `2^26` elements, a projection, pair count and layout of
/// `ê` within `usize`, ranks within `usize`, `|β²| < 2^120`, and
/// `b² · q ≤ 2^120`.
pub open spec fn iteration_fits_spec(stmt: Statement, params: IterationParams) -> bool {
    let n = stmt.n as int;
    let r = stmt.r as int;
    let upper = r * (r + 1) / 2;
    &&& r >= 1
    &&& n <= 0x1_0000_0000
    &&& n * 64 <= 0x1_0000_0000
    &&& r <= 0x1000_0000
    &&& (n * 64 + 3) / 4 * 256 <= usize::MAX
    &&& r * (r + 1) <= usize::MAX
    &&& r * params.t1 <= usize::MAX
    &&& r * params.t1 * params.kappa + params.t2 * upper + params.t1 * upper <= usize::MAX
    &&& params.kappa + 3 + 2 * params.kappa1 <= usize::MAX
    &&& -0x00ff_ffff_ffff_ffff_ffff_ffff_ffff_ffffint <= stmt.beta_sq <= 0x00ff_ffff_ffff_ffff_ffff_ffff_ffff_ffffint
    &&& params.b * params.b <= 0x0100_0000_0000_0000_0000_0000_0000_0000int / (stmt.ring.m.q as int)
}

/// Whether `stmt` under `params` is within the sizes an iteration handles.
pub fn iteration_fits(stmt: &Statement, params: &IterationParams) -> (ok: bool)
    requires
        stmt.wf(),
        params.wf(),
    ensures
        ok == iteration_fits_spec(*stmt, *params),
        ok ==> replay_ready(*stmt, *params),
        ok ==> e_fits(stmt.r as int, params.t1 as int, params.t2 as int, params.kappa as int),
        ok ==> params.kappa + 3 + 2 * params.kappa1 <= usize::MAX,
        ok ==> i128::MIN <= 128 * stmt.beta_sq <= i128::MAX,
        ok ==> vstd::arithmetic::power::pow(params.b as int, 2) * stmt.ring.m.q
            <= 0x0100_0000_0000_0000_0000_0000_0000_0000,
{
    let n = stmt.n as u128;
    let r = stmt.r as u128;
    let t1 = params.t1 as u128;
    let t2 = params.t2 as u128;
    let kappa = params.kappa as u128;
    let kappa1 = params.kappa1 as u128;
    let b = params.b as u128;
    let q = stmt.ring.m.q as u128;
    let big: u128 = 0x1_0000_0000;
    if stmt.r < 1 || n > big || n * 64 > big || r > 0x1000_0000 {
        return false;
    }
    proof {
        assert(n * 64 <= big * 64) by (nonlinear_arith)
            requires
                n <= big,
        ;
        assert(r * (r + 1) <= 0x1000_0001 * 0x1000_0001) by (nonlinear_arith)
            requires
                r <= 0x1000_0000,
        ;
        assert(r * t1 <= 0x1000_0000 * 64) by (nonlinear_arith)
            requires
                r <= 0x1000_0000,
                t1 <= 64,
        ;
        assert(r * t1 * kappa <= 0x1000_0000 * 64 * 0x1_0000) by (nonlinear_arith)
            requires
                r * t1 <= 0x1000_0000 * 64,
                kappa <= 0x1_0000,
        ;
        assert(t2 * (r * (r + 1) / 2) <= 64 * (0x1000_0001 * 0x1000_0001)) by (nonlinear_arith)
            requires
                t2 <= 64,
                r * (r + 1) / 2 <= 0x1000_0001 * 0x1000_0001,
                0 <= r * (r + 1) / 2,
        ;
        assert(t1 * (r * (r + 1) / 2) <= 64 * (0x1000_0001 * 0x1000_0001)) by (nonlinear_arith)
            requires
                t1 <= 64,
                r * (r + 1) / 2 <= 0x1000_0001 * 0x1000_0001,
                0 <= r * (r + 1) / 2,
        ;
        assert(0 <= r * (r + 1)) by (nonlinear_arith);
        assert(b * b <= 0xffff_ffff_ffff_ffff * 0xffff_ffff_ffff_ffff) by (nonlinear_arith)
            requires
                b <= 0xffff_ffff_ffff_ffff,
        ;
    }
    let nd = n * 64;
    let proj = (nd + 3) / 4 * 256;
    let pairs = r * (r + 1);
    let upper = pairs / 2;
    let e = r * t1 * kappa + t2 * upper + t1 * upper;
    let usize_max = usize::MAX as u128;
    if proj > usize_max || pairs > usize_max || r * t1 > usize_max || e > usize_max {
        return false;
    }
    if kappa + 3 + 2 * kappa1 > usize_max {
        return false;
    }
    if stmt.beta_sq > 0x00ff_ffff_ffff_ffff_ffff_ffff_ffff_ffffi128 || stmt.beta_sq < -0x00ff_ffff_ffff_ffff_ffff_ffff_ffff_ffffi128 {
        return false;
    }
    let lim: u128 = 0x0100_0000_0000_0000_0000_0000_0000_0000u128 / q;
    if b > 0xffff_ffff_ffff_ffff || b * b > lim {
        return false;
    }
    proof {
        assert(D == 64);
        vstd::arithmetic::power::lemma_pow1(params.b as int);
        vstd::arithmetic::power::lemma_pow_adds(params.b as int, 1, 1);
        assert(vstd::arithmetic::power::pow(params.b as int, 2) == b * b);
        let big: int = 0x0100_0000_0000_0000_0000_0000_0000_0000int;
        vstd::arithmetic::div_mod::lemma_fundamental_div_mod(big, q as int);
        assert(b * b * q <= big) by (nonlinear_arith)
            requires
                b * b <= lim,
                lim == big / (q as int),
                q > 0,
                q * (big / (q as int)) <= big,
        ;
    }
    true
}

/// A copy of a witness.
fn copy_witness(w: &Witness) -> (out: Witness)
    ensures
        out.view_vecs() == w.view_vecs(),
{
    let mut vs: Vec<Vec<RingElem>> = Vec::new();
    for i in 0..w.w.len()
        invariant
            vs@.len() == i,
            forall|t: int| 0 <= t < i ==> (#[trigger] vs@[t])@ == w.w@[t]@,
    {
        let len_i = w.w[i].len();
        let mut row: Vec<RingElem> = Vec::new();
        for j in 0..len_i
            invariant
                i < w.w@.len(),
                len_i == w.w@[i as int]@.len(),
                row@ == w.w@[i as int]@.subrange(0, j as int),
        {
            row.push(w.w[i][j]);
            assert(row@ =~= w.w@[i as int]@.subrange(0, j + 1));
        }
        assert(row@ =~= w.w@[i as int]@);
        vs.push(row);
    }
    let out = Witness { w: vs };
    assert(out.view_vecs() =~= w.view_vecs());
    out
}

/// Run the recursive prover from a fresh transcript tagged with
/// `transcript_seed`; `None` if a transcript draw fails, a folded statement
/// exceeds the sizes an iteration handles, or a fold is refused.
pub fn prove_aggregate(stmt: &Statement, witness: &Witness, params: &RecursionParams, transcript_seed: &[u8]) -> (res:
    Option<AggregateProofV2>)
    requires
        stmt.wf(),
        wit_shape(witness.view_vecs(), stmt.r as int, stmt.n as int, stmt.ring.m),
        params.wf(),
    ensures
        res matches Some(p) ==> {
            &&& p.intermediate@.len() == params.iterations@.len() - 1
            &&& p.q_prime == stmt.ring.m.q
            &&& p.n_sigs == params.num_sigs
            &&& p.beta_sq == stmt.beta_sq
            &&& forall|k: int| 0 <= k < p.intermediate@.len() ==> (#[trigger] p.intermediate@[k]).last_msg is None
            &&& p.final_iter.last_msg is Some
        },
{
    let mut sink = ();
    prove_aggregate_with_progress(stmt, witness, params, transcript_seed, &mut sink)
}

/// The recursive prover, reporting each iteration to `sink`.
pub fn prove_aggregate_with_progress<P: ProgressSink>(
    stmt: &Statement,
    witness: &Witness,
    params: &RecursionParams,
    transcript_seed: &[u8],
    sink: &mut P,
) -> (res: Option<AggregateProofV2>)
    requires
        stmt.wf(),
        wit_shape(witness.view_vecs(), stmt.r as int, stmt.n as int, stmt.ring.m),
        params.wf(),
    ensures
        res matches Some(p) ==> {
            &&& p.intermediate@.len() == params.iterations@.len() - 1
            &&& p.q_prime == stmt.ring.m.q
            &&& p.n_sigs == params.num_sigs
            &&& p.beta_sq == stmt.beta_sq
            &&& forall|k: int| 0 <= k < p.intermediate@.len() ==> (#[trigger] p.intermediate@[k]).last_msg is None
            &&& p.final_iter.last_msg is Some
        },
{
    let depth = params.iterations.len();
    let mut cur_stmt = extend_statement(stmt, Vec::new());
    let mut cur_witness = copy_witness(witness);
    let mut t_prove = Transcript::new(transcript_seed);
    let mut intermediate: Vec<IterationProofV2> = Vec::new();
    for k in 0..depth - 1
        invariant
            depth == params.iterations@.len(),
            params.wf(),
            cur_stmt.wf(),
            cur_stmt.ring == stmt.ring,
            wit_shape(cur_witness.view_vecs(), cur_stmt.r as int, cur_stmt.n as int, cur_stmt.ring.m),
            intermediate@.len() == k,
            forall|kk: int| 0 <= kk < intermediate@.len() ==> (#[trigger] intermediate@[kk]).last_msg is None,
    {
        sink.iter_start(k, depth, "prove_v2 + fold");
        let it = params.iterations[k];
        if !iteration_fits(&cur_stmt, &it) {
            return None;
        }
        let mut t_fold = t_prove.fork();
        let proof_k = match prove_v2(&cur_stmt, &cur_witness, &it, &mut t_prove) {
            Some(p) => p,
            None => {
                return None;
            },
        };
        let step = params.folds[k];
        let out = match fold(&cur_stmt, &proof_k, &it, step.nu, step.mu, step.beta_sq, &mut t_fold) {
            Ok(out) => out,
            Err(_) => {
                return None;
            },
        };
        let FoldOutput { statement, witness: next_witness } = out;
        intermediate.push(proof_k.into_intermediate());
        cur_stmt = statement;
        cur_witness = next_witness;
        sink.iter_done(k);
    }
    sink.iter_start(depth - 1, depth, "prove_v2 (final)");
    let last = params.iterations[depth - 1];
    if !iteration_fits(&cur_stmt, &last) {
        return None;
    }
    let final_iter = match prove_v2(&cur_stmt, &cur_witness, &last, &mut t_prove) {
        Some(p) => p,
        None => {
            return None;
        },
    };
    sink.iter_done(depth - 1);
    Some(AggregateProofV2 {
        q_prime: stmt.ring.m.q,
        n_sigs: params.num_sigs,
        beta_sq: stmt.beta_sq,
        intermediate,
        final_iter,
    })
}

/// The statements a recursive verifier walks through: `ss[0]` is `stmt`
/// with nothing added, and `ss[k + 1]` is `ss[k]` folded with iteration
/// `k`'s parameters and fold step.
pub open spec fn fold_chain(stmt: Statement, params: RecursionParams, ss: Seq<Statement>) -> bool {
    &&& ss.len() == params.iterations@.len()
    &&& ss.len() >= 1
    &&& extends_with(stmt, ss[0], Seq::empty())
    &&& forall|k: int|
        0 <= k < ss.len() - 1 ==> folded_statement(
            #[trigger] ss[k],
            params.iterations@[k],
            params.folds@[k].nu as int,
            params.folds@[k].mu as int,
            params.folds@[k].beta_sq,
            ss[k + 1],
        )
}

/// Run the recursive verifier from a fresh transcript tagged with
/// `transcript_seed`: fold the statement forward over the intermediate
/// iterations, then verify the final iteration on the last statement.
pub fn verify_aggregate(stmt: &Statement, proof: &AggregateProofV2, params: &RecursionParams, transcript_seed: &[u8]) -> (res:
    Result<(), VerifyError>)
    requires
        stmt.wf(),
        params.wf(),
    ensures
        proof.intermediate@.len() != params.iterations@.len() - 1 ==> res == Err::<(), VerifyError>(
            VerifyError::BadIterationStage,
        ),
        proof.intermediate@.len() == params.iterations@.len() - 1 && stmt.ring.m.q != proof.q_prime ==> res == Err::<
            (),
            VerifyError,
        >(VerifyError::ModulusMismatch { got: proof.q_prime, want: stmt.ring.m.q }),
        res is Ok ==> exists|ss: Seq<Statement>, st: Seq<u8>|
            #![trigger fold_chain(*stmt, *params, ss), accepts_v2(ss.last(), proof.final_iter, params.iterations@.last(), st)]
            fold_chain(*stmt, *params, ss) && accepts_v2(ss.last(), proof.final_iter, params.iterations@.last(), st)
                && (params.iterations@.len() == 1 ==> st == domain_record(transcript_seed@)),
{
    let depth = params.iterations.len();
    if proof.intermediate.len() != depth - 1 {
        return Err(VerifyError::BadIterationStage);
    }
    if stmt.ring.m.q != proof.q_prime {
        return Err(VerifyError::ModulusMismatch { got: proof.q_prime, want: stmt.ring.m.q });
    }
    let mut cur_stmt = extend_statement(stmt, Vec::new());
    let mut t = Transcript::new(transcript_seed);
    let ghost mut ss: Seq<Statement> = seq![cur_stmt];
    for k in 0..depth - 1
        invariant
            depth == params.iterations@.len(),
            params.wf(),
            proof.intermediate@.len() == depth - 1,
            stmt.ring.m.q == proof.q_prime,
            cur_stmt.wf(),
            ss.len() == k + 1,
            ss.last() == cur_stmt,
            extends_with(*stmt, ss[0], Seq::empty()),
            forall|kk: int|
                0 <= kk < ss.len() - 1 ==> folded_statement(
                    #[trigger] ss[kk],
                    params.iterations@[kk],
                    params.folds@[kk].nu as int,
                    params.folds@[kk].mu as int,
                    params.folds@[kk].beta_sq,
                    ss[kk + 1],
                ),
            k == 0 ==> t.absorbed() == domain_record(transcript_seed@),
    {
        let it = params.iterations[k];
        if !iteration_fits(&cur_stmt, &it) {
            return Err(VerifyError::ParameterRange);
        }
        let step = params.folds[k];
        let next = match fold_statement(&cur_stmt, &proof.intermediate[k], &it, step.nu, step.mu, step.beta_sq, &mut t) {
            Ok(s) => s,
            Err(e) => {
                return Err(e);
            },
        };
        let ghost prev = ss;
        proof {
            ss = ss.push(next);
            assert forall|kk: int| 0 <= kk < ss.len() - 1 implies folded_statement(
                #[trigger] ss[kk],
                params.iterations@[kk],
                params.folds@[kk].nu as int,
                params.folds@[kk].mu as int,
                params.folds@[kk].beta_sq,
                ss[kk + 1],
            ) by {
                if kk < prev.len() - 1 {
                    assert(ss[kk] == prev[kk] && ss[kk + 1] == prev[kk + 1]);
                } else {
                    assert(ss[kk] == cur_stmt && ss[kk + 1] == next);
                }
            }
        }
        cur_stmt = next;
    }
    let last = params.iterations[depth - 1];
    if !iteration_fits(&cur_stmt, &last) {
        return Err(VerifyError::ParameterRange);
    }
    let ghost st = t.absorbed();
    let res = verify_v2(&cur_stmt, &proof.final_iter, &last, &mut t);
    proof {
        if res is Ok {
            assert(fold_chain(*stmt, *params, ss));
            assert(accepts_v2(ss.last(), proof.final_iter, params.iterations@.last(), st));
        }
    }
    res
}

} // verus!
