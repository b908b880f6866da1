//! LaBRADOR proof messages.
use crate::modring::poly::RingElem;
use vstd::prelude::*;

verus! {

/// One iteration of the (non-recursive) LaBRADOR argument: the inner
/// commitments `v_i = A·w_i`, the aggregated constant-term values `b''`, the
/// amortized opening `z = Σ c_i w_i`, and the garbage terms `g`, `h`.
#[derive(Clone, Debug)]
pub struct IterationProof {
    /// Inner commitments, one vector of `κ` elements per witness vector.
    pub v: Vec<Vec<RingElem>>,
    /// Aggregated constant-term right-hand sides.
    pub b_double_prime: Vec<RingElem>,
    /// Amortized opening `z = Σ c_i w_i`.
    pub z: Vec<RingElem>,
    /// Gram matrix `g_{ij} = ⟨w_i, w_j⟩` (upper triangle).
    pub g: Vec<Vec<RingElem>>,
    /// Linear garbage terms (upper triangle).
    pub h: Vec<Vec<RingElem>>,
}

/// One iteration of the recursive argument (outer commitments and the JL
/// projection), with the last message attached only to the final iteration.
#[derive(Clone, Debug)]
pub struct IterationProofV2 {
    /// First outer commitment.
    pub u1: Vec<RingElem>,
    /// JL projection of the witness.
    pub p: Vec<i128>,
    /// Aggregated constant-term right-hand sides.
    pub b_double_prime: Vec<RingElem>,
    /// Second outer commitment.
    pub u2: Vec<RingElem>,
    /// The opening sent in the final iteration only.
    pub last_msg: Option<IterationLastMsg>,
}

/// The opening of the final iteration.
#[derive(Clone, Debug)]
pub struct IterationLastMsg {
    /// Low half of the decomposed amortized opening.
    pub z0: Vec<RingElem>,
    /// High half of the decomposed amortized opening.
    pub z1: Vec<RingElem>,
    /// Inner commitments.
    pub v: Vec<Vec<RingElem>>,
    /// Gram matrix (upper triangle).
    pub g: Vec<Vec<RingElem>>,
    /// Linear garbage terms (upper triangle).
    pub h: Vec<Vec<RingElem>>,
}

impl IterationProofV2 {
    /// The same iteration without its last message.
    pub fn into_intermediate(self) -> (r: Self)
        ensures
            r.last_msg is None,
            r.u1 == self.u1,
            r.p == self.p,
            r.b_double_prime == self.b_double_prime,
            r.u2 == self.u2,
    {
        let mut s = self;
        s.last_msg = None;
        s
    }
}

/// A recursive aggregate proof: the intermediate iterations and the final one.
#[derive(Clone, Debug)]
pub struct AggregateProofV2 {
    /// The LaBRADOR modulus `q'`.
    pub q_prime: u64,
    /// Number of aggregated signatures.
    pub n_sigs: usize,
    /// Norm bound `β²` of the first statement.
    pub beta_sq: i128,
    /// Iterations before the last.
    pub intermediate: Vec<IterationProofV2>,
    /// The last iteration, carrying its opening.
    pub final_iter: IterationProofV2,
}

/// Sizes in bytes of the parts of a packed proof.
#[derive(Clone, Debug, Default)]
pub struct ProofBreakdown {
    /// `u1` of the intermediate iterations.
    pub intermediate_u1: usize,
    /// `u2` of the intermediate iterations.
    pub intermediate_u2: usize,
    /// `p` of the intermediate iterations.
    pub intermediate_p: usize,
    /// `b''` of the intermediate iterations.
    pub intermediate_bpp: usize,
    /// `u1` of the final iteration.
    pub final_u1: usize,
    /// `u2` of the final iteration.
    pub final_u2: usize,
    /// `p` of the final iteration.
    pub final_p: usize,
    /// `b''` of the final iteration.
    pub final_bpp: usize,
    /// `z0` of the final opening.
    pub final_z0: usize,
    /// `z1` of the final opening.
    pub final_z1: usize,
    /// `v` of the final opening.
    pub final_v: usize,
    /// `g` of the final opening.
    pub final_g: usize,
    /// `h` of the final opening.
    pub final_h: usize,
}

impl ProofBreakdown {
    /// The sum of all parts.
    pub open spec fn total_spec(&self) -> int {
        self.intermediate_u1 + self.intermediate_u2 + self.intermediate_p + self.intermediate_bpp
            + self.final_u1 + self.final_u2 + self.final_p + self.final_bpp + self.final_z0
            + self.final_z1 + self.final_v + self.final_g + self.final_h
    }

    /// Total size: the sum of all parts.
    pub fn total(&self) -> (t: usize)
        requires
            self.total_spec() <= usize::MAX,
        ensures
            t == self.total_spec(),
    {
        self.intermediate_u1 + self.intermediate_u2 + self.intermediate_p + self.intermediate_bpp
            + self.final_u1 + self.final_u2 + self.final_p + self.final_bpp + self.final_z0
            + self.final_z1 + self.final_v + self.final_g + self.final_h
    }
}

/// A (non-recursive) aggregate proof: one iteration per statement.
#[derive(Clone, Debug)]
pub struct AggregateProof {
    /// The LaBRADOR modulus `q'`.
    pub q_prime: u64,
    /// Number of aggregated signatures.
    pub n_sigs: usize,
    /// The iterations.
    pub iterations: Vec<IterationProof>,
}

/// Why a proof was rejected.
#[derive(Clone, Debug, PartialEq, Eq)]
pub enum VerifyError {
    /// The proof's modulus is not the expected one.
    ModulusMismatch { got: u64, want: u64 },
    /// The proof covers another number of signatures.
    SigCountMismatch { got: usize, want: usize },
    /// The statement's rank does not fit the proof.
    StatementRankMismatch,
    /// The constant term of `b''^{(k)}` is not the aggregated right-hand side.
    ConstTermMismatch(usize),
    /// `A·z ≠ Σ c_i v_i`.
    InnerCommitmentOpening,
    /// `⟨z, z⟩ ≠ Σ c_i c_j g_ij`.
    QuadraticOpening,
    /// `Σ ⟨φ_i, z⟩ c_i ≠ Σ c_i c_j h_ij`.
    LinearOpening,
    /// `Σ a_ij g_ij + Σ h_ii ≠ b`.
    AggregatedRelation,
    /// The opening exceeds its norm bound.
    NormBound,
    /// An outer commitment does not open.
    OuterCommitment(&'static str),
    /// The JL projection exceeds its bound.
    JlBound,
    /// The iteration chain is malformed.
    BadIterationStage,
    /// A statement or its parameters exceed the sizes the verifier handles.
    ParameterRange,
    /// A proof component has the wrong shape.
    ProofShape(&'static str),
    /// A transcript draw failed (rejection sampling did not terminate
    /// within its attempt limit).
    TranscriptExhausted,
}

} // verus!
