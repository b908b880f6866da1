//! End-to-end aggregation and verification of Falcon-512 signatures via
//! LaBRADOR.
//!
//! - [`aggregate`] decodes `N` signatures, builds the aggregated Falcon
//!   statement with its honest witness, and proves one LaBRADOR iteration.
//! - [`verify`] rebuilds the same statement from the public keys, messages
//!   and the proof's nonces, and checks the iteration.
use crate::falcon::embed::C;
use crate::falcon::falcon_ring::{FPoly, FALCON_N};
use crate::falcon::lifting::check_encodable;
use crate::falcon::parse::{
    accepted_words, decode_instance, decode_public_key, hash_to_point, public_key_spec, signature_spec,
    FalconSig, ParseError, MAX_HASH_WORDS, NONCE_LEN,
};
use crate::falcon::relation::{
    build_falcon_statement, falcon_statement, honest_value, is_falcon_statement, is_four_squares, norm_slack,
    sig_encodable, WitnessLayout, MAX_SIGS,
};
use crate::labrador::challenge::TAU_SQ;
use crate::labrador::proofs::IterationProof;
use crate::labrador::proofs::VerifyError as IterationError;
use crate::labrador::prover::{prove, prove_facts};
use crate::labrador::statement::{elems_wf, wit_shape, Statement, Witness};
use crate::labrador::transcript::{domain_record, Transcript};
use crate::labrador::verification::{accepts, verify as verify_iteration};
use crate::modring::crt::Ring;
use crate::modring::modulus::{find_prime_5mod8, is_prime, passes_primality_test, Modulus};
use crate::modring::poly::{RingElem, D};
use vstd::prelude::*;
use vstd::string::StringExecFns;

verus! {

/// `aggregate-falcon/v1`
pub const TRANSCRIPT_DOMAIN: [u8; 19] = [
    97u8, 103, 103, 114, 101, 103, 97, 116, 101, 45, 102, 97, 108, 99, 111, 110, 47, 118, 49,
];

/// The LaBRADOR modulus is the least prime `≡ 5 (mod 8)` from `2^44` on.
pub const QPRIME_FLOOR: u64 = 0x1000_0000_0000;

/// Largest usable LaBRADOR modulus (exclusive): `2^60`.
pub const QPRIME_LIMIT: u64 = 0x1000_0000_0000_0000;

/// The witness norm bound `β² = 2^60`.
pub const BETA_SQ: i128 = 0x1000_0000_0000_0000;

/// One Falcon-512 signature ready to aggregate.
#[derive(Clone, Debug)]
pub struct FalconInstance {
    /// The encoded public key.
    pub public_key: Vec<u8>,
    /// The signed message.
    pub message: Vec<u8>,
    /// The compressed signature.
    pub signature: Vec<u8>,
}

/// An aggregate proof for `N` Falcon-512 signatures.
#[derive(Clone, Debug)]
pub struct AggregateProof {
    /// LaBRADOR modulus `q'`.
    pub q_prime: u64,
    /// Per-signature nonces (needed by the verifier to rebuild `c`), each
    /// `NONCE_LEN` bytes.
    pub nonces: Vec<Vec<u8>>,
    /// The witness norm bound the statement was built with.
    pub beta_sq: i128,
    /// The (single) iteration's prover messages.
    pub iteration: IterationProof,
}

/// Why aggregation failed.
#[derive(Clone, Debug)]
pub enum AggregateError {
    /// No signatures were supplied.
    EmptyInput,
    /// More signatures than the witness layout supports.
    TooManySignatures,
    /// A signature instance did not decode (the decoder's error, as text).
    DecodeFailed(String),
    /// Signature `i` does not satisfy the lifted Falcon equation or exceeds
    /// the Falcon norm bound.
    NotEncodable(usize),
    /// No usable LaBRADOR modulus was found.
    NoModulus,
    /// Some norm slack was found to be no sum of four squares.
    NoDecomposition,
    /// A transcript draw of the prover failed.
    TranscriptExhausted,
}

/// Why an aggregate proof was rejected.
#[derive(Clone, Debug)]
pub enum VerifyError {
    /// The number of `(pk, message)` pairs differs from the proof's.
    SigCountMismatch { got: usize, want: usize },
    /// A public key, nonce or message could not be turned into `(h, c)`.
    DecodeFailed(String),
    /// The proof's modulus, norm bound or signature count cannot be used.
    BadParameters,
    /// The LaBRADOR iteration was rejected.
    Labrador(IterationError),
}

/// The name of a decoding error.
pub open spec fn parse_error_name(e: ParseError) -> Seq<char> {
    match e {
        ParseError::BadLength => "BadLength"@,
        ParseError::BadHeader => "BadHeader"@,
        ParseError::CoeffOutOfRange => "CoeffOutOfRange"@,
        ParseError::BadCompression => "BadCompression"@,
        ParseError::NonZeroPadding => "NonZeroPadding"@,
        ParseError::HashExhausted => "HashExhausted"@,
    }
}

/// The text of a decoding error: its name.
fn parse_error_text(e: &ParseError) -> (s: String)
    ensures
        s@ == parse_error_name(*e),
{
    match e {
        ParseError::BadLength => "BadLength".to_owned(),
        ParseError::BadHeader => "BadHeader".to_owned(),
        ParseError::CoeffOutOfRange => "CoeffOutOfRange".to_owned(),
        ParseError::BadCompression => "BadCompression".to_owned(),
        ParseError::NonZeroPadding => "NonZeroPadding".to_owned(),
        ParseError::HashExhausted => "HashExhausted".to_owned(),
    }
}

/// The character of a decimal digit.
pub open spec fn digit_char(d: nat) -> char {
    if d == 0 {
        '0'
    } else if d == 1 {
        '1'
    } else if d == 2 {
        '2'
    } else if d == 3 {
        '3'
    } else if d == 4 {
        '4'
    } else if d == 5 {
        '5'
    } else if d == 6 {
        '6'
    } else if d == 7 {
        '7'
    } else if d == 8 {
        '8'
    } else {
        '9'
    }
}

/// The decimal digits of `n > 0`, most significant first (empty for 0).
pub open spec fn digits_of(n: nat) -> Seq<char>
    decreases n,
{
    if n == 0 {
        Seq::empty()
    } else {
        digits_of(n / 10).push(digit_char(n % 10))
    }
}

/// The decimal text of `n`.
pub open spec fn decimal_text(n: nat) -> Seq<char> {
    if n == 0 {
        seq!['0']
    } else {
        digits_of(n)
    }
}

/// The one-character text of a digit.
fn digit_str(d: usize) -> (s: &'static str)
    requires
        d < 10,
    ensures
        s@ == seq![digit_char(d as nat)],
{
    proof {
        reveal_strlit("0");
        reveal_strlit("1");
        reveal_strlit("2");
        reveal_strlit("3");
        reveal_strlit("4");
        reveal_strlit("5");
        reveal_strlit("6");
        reveal_strlit("7");
        reveal_strlit("8");
        reveal_strlit("9");
    }
    if d == 0 {
        "0"
    } else if d == 1 {
        "1"
    } else if d == 2 {
        "2"
    } else if d == 3 {
        "3"
    } else if d == 4 {
        "4"
    } else if d == 5 {
        "5"
    } else if d == 6 {
        "6"
    } else if d == 7 {
        "7"
    } else if d == 8 {
        "8"
    } else {
        "9"
    }
}

/// Append the decimal text of `n` to `out`.
fn push_decimal(out: &mut String, n: usize)
    ensures
        final(out)@ == old(out)@ + decimal_text(n as nat),
{
    if n == 0 {
        out.append(digit_str(0));
        return;
    }
    let mut ds: Vec<usize> = Vec::new();
    let mut x = n;
    while x > 0
        invariant
            forall|i: int| 0 <= i < ds@.len() ==> #[trigger] ds@[i] < 10,
            digits_of(n as nat) == digits_of(x as nat) + Seq::new(ds@.len(), |i: int| digit_char(ds@[ds@.len() - 1 - i] as nat)),
        decreases x,
    {
        let ghost before = ds@;
        ds.push(x % 10);
        proof {
            assert(digits_of(x as nat) == digits_of((x / 10) as nat).push(digit_char((x % 10) as nat)));
            assert(Seq::new(ds@.len(), |i: int| digit_char(ds@[ds@.len() - 1 - i] as nat)) =~= seq![
                digit_char((x % 10) as nat),
            ] + Seq::new(before.len(), |i: int| digit_char(before[before.len() - 1 - i] as nat)));
        }
        x = x / 10;
    }
    let ghost start = out@;
    let mut k = ds.len();
    while k > 0
        invariant
            k <= ds@.len(),
            forall|i: int| 0 <= i < ds@.len() ==> #[trigger] ds@[i] < 10,
            out@ == start + Seq::new((ds@.len() - k) as nat, |i: int| digit_char(ds@[ds@.len() - 1 - i] as nat)),
        decreases k,
    {
        k = k - 1;
        let ghost before = out@;
        out.append(digit_str(ds[k]));
        assert(out@ =~= start + Seq::new((ds@.len() - k) as nat, |i: int| digit_char(ds@[ds@.len() - 1 - i] as nat)));
    }
    assert(digits_of(0) =~= Seq::<char>::empty());
    assert(out@ =~= start + digits_of(n as nat));
}

/// The text of a bad nonce length: `nonce length {len} != {NONCE_LEN}`.
fn nonce_length_text(len: usize) -> (s: String)
    ensures
        s@ == "nonce length "@ + decimal_text(len as nat) + " != "@ + decimal_text(NONCE_LEN as nat),
{
    let mut s = "nonce length ".to_owned();
    push_decimal(&mut s, len);
    s.append(" != ");
    push_decimal(&mut s, NONCE_LEN);
    s
}

/// The modulus `q'`: the least prime `≡ 5 (mod 8)` that is at least `2^44`.
pub open spec fn is_qprime(q: int) -> bool {
    &&& q >= QPRIME_FLOOR
    &&& q % 8 == 5
    &&& passes_primality_test(q)
    &&& forall|x: int| QPRIME_FLOOR <= x < q && x % 8 == 5 ==> !#[trigger] passes_primality_test(x)
}

/// Select the LaBRADOR modulus: the least prime `≡ 5 (mod 8)` from `2^44`.
pub fn select_qprime() -> (q: Option<u64>)
    ensures
        q matches Some(q) ==> is_qprime(q as int),
        q is None ==> forall|x: int|
            QPRIME_FLOOR <= x <= u64::MAX && x % 8 == 5 ==> !#[trigger] passes_primality_test(x),
{
    find_prime_5mod8(QPRIME_FLOOR)
}

/// The witness norm bound `β² = 2^60`.
pub fn select_beta_sq() -> (b: i128)
    ensures
        b == BETA_SQ,
{
    BETA_SQ
}

/// The instance decodes: public key, signature and `HashToPoint` all succeed.
pub open spec fn decode_ok(inst: FalconInstance) -> bool {
    match (public_key_spec(inst.public_key@), signature_spec(inst.signature@)) {
        (Ok(_), Ok((n, _))) => accepted_words(n + inst.message@, MAX_HASH_WORDS as nat).len() >= FALCON_N,
        _ => false,
    }
}

/// `f` is what the instance decodes to: `h` from the key, `s2` and the nonce
/// from the signature, `c = HashToPoint(nonce ‖ message)`, `s1 = c − s2·h`.
pub open spec fn decodes_to(inst: FalconInstance, f: FalconSig) -> bool {
    match (public_key_spec(inst.public_key@), signature_spec(inst.signature@)) {
        (Ok(hw), Ok((n, vs))) => {
            let acc = accepted_words(n + inst.message@, MAX_HASH_WORDS as nat);
            &&& acc.len() >= FALCON_N
            &&& f.nonce@ == n
            &&& f.h.wf()
            &&& f.c.wf()
            &&& f.s1.wf()
            &&& f.s2.wf()
            &&& forall|i: int|
                0 <= i < FALCON_N ==> {
                    &&& #[trigger] f.h.c[i] as int == hw[i]
                    &&& f.s2.c[i] as int == vs[i] % (crate::falcon::falcon_ring::FALCON_Q as int)
                    &&& f.c.c[i] as int == acc[i]
                    &&& f.s1.c[i] as int == (f.c.c[i] - crate::falcon::falcon_ring::fpoly_mul_coeff(f.s2, f.h, i))
                        % (crate::falcon::falcon_ring::FALCON_Q as int)
                }
        },
        _ => false,
    }
}

/// `w` is the honest witness of `sigs` under layout `l`: for some
/// four-square decompositions `eps` of the norm slacks, every coefficient is
/// the honest value.
pub open spec fn is_honest_witness(w: Witness, l: WitnessLayout, sigs: Seq<FalconSig>, q: int) -> bool {
    let n = sigs.len();
    &&& w.w@.len() == l.r_spec()
    &&& forall|vi: int|
        0 <= vi < l.r_spec() ==> (#[trigger] w.w@[vi])@.len() == C * n
    &&& exists|eps: Seq<Seq<int>>|
        #![trigger eps.len()]
        {
            &&& eps.len() == n
            &&& forall|s: int| 0 <= s < n ==> is_four_squares(#[trigger] eps[s], norm_slack(sigs[s]))
            &&& forall|vi: int, p: int, j: int|
                0 <= vi < l.r_spec() && 0 <= p < C * n && 0 <= j < D ==> (#[trigger] w.w@[vi]@[p].c[j])
                    == honest_value(l, sigs, eps, vi, p, j, q)
        }
}

/// What a successful aggregation produced for `sigs`: the nonces, `β²`,
/// `q'`, and an iteration proved for the Falcon statement of the decoded
/// signatures with their honest witness, from a fresh transcript.
pub open spec fn aggregated(sigs: Seq<FalconInstance>, p: AggregateProof) -> bool {
    let n = sigs.len();
    &&& p.beta_sq == BETA_SQ
    &&& is_qprime(p.q_prime as int)
    &&& p.nonces@.len() == n
    &&& exists|fs: Seq<FalconSig>, ring: Ring, stmt: Statement, w: Witness, l: WitnessLayout|
        #![trigger is_falcon_statement(stmt, l, ring, fs, BETA_SQ), is_honest_witness(w, l, fs, p.q_prime as int)]
        is_falcon_statement(stmt, l, ring, fs, BETA_SQ) && {
            &&& fs.len() == n
            &&& forall|i: int| 0 <= i < n ==> decodes_to(#[trigger] sigs[i], fs[i]) && sig_encodable(fs[i])
            &&& forall|i: int| 0 <= i < n ==> (#[trigger] p.nonces@[i])@ == fs[i].nonce@
            &&& ring.wf()
            &&& ring.m.q == p.q_prime
            &&& l.wf()
            &&& l.n_sigs == n
            &&& is_honest_witness(w, l, fs, p.q_prime as int)
            &&& prove_facts(stmt, w.view_vecs(), domain_record(TRANSCRIPT_DOMAIN@), p.iteration)
        }
}

/// Decode every instance; the first failure is returned.
fn decode_all(sigs: &[FalconInstance]) -> (res: Result<Vec<FalconSig>, (usize, ParseError)>)
    ensures
        match res {
            Ok(fs) => fs@.len() == sigs@.len() && forall|i: int|
                0 <= i < sigs@.len() ==> decodes_to(#[trigger] sigs@[i], fs@[i]),
            Err((i, _)) => i < sigs@.len() && !decode_ok(sigs@[i as int]) && forall|j: int|
                0 <= j < i ==> decode_ok(#[trigger] sigs@[j]),
        },
{
    let mut out: Vec<FalconSig> = Vec::new();
    for i in 0..sigs.len()
        invariant
            out@.len() == i,
            forall|j: int| 0 <= j < i ==> decodes_to(#[trigger] sigs@[j], out@[j]),
    {
        let s = &sigs[i];
        match decode_instance(&s.public_key, &s.signature, &s.message) {
            Ok(f) => {
                out.push(f);
                assert(decodes_to(sigs@[i as int], f));
            },
            Err(e) => {
                proof {
                    assert forall|j: int| 0 <= j < i implies decode_ok(#[trigger] sigs@[j]) by {
                        assert(decodes_to(sigs@[j], out@[j]));
                    }
                }
                return Err((i, e));
            },
        }
    }
    Ok(out)
}

/// The first signature that the relation cannot encode, if any.
fn first_unencodable(fs: &Vec<FalconSig>) -> (res: Option<usize>)
    requires
        forall|i: int|
            0 <= i < fs@.len() ==> (#[trigger] fs@[i]).h.wf() && fs@[i].c.wf() && fs@[i].s1.wf() && fs@[i].s2.wf(),
    ensures
        match res {
            Some(i) => i < fs@.len() && !sig_encodable(fs@[i as int]) && forall|j: int|
                0 <= j < i ==> sig_encodable(#[trigger] fs@[j]),
            None => forall|j: int| 0 <= j < fs@.len() ==> sig_encodable(#[trigger] fs@[j]),
        },
{
    for i in 0..fs.len()
        invariant
            forall|i: int|
                0 <= i < fs@.len() ==> (#[trigger] fs@[i]).h.wf() && fs@[i].c.wf() && fs@[i].s1.wf() && fs@[i].s2.wf(),
            forall|j: int| 0 <= j < i ==> sig_encodable(#[trigger] fs@[j]),
    {
        if !check_encodable(&fs[i]) {
            return Some(i);
        }
    }
    None
}

/// The nonce of every decoded signature, as byte vectors.
fn collect_nonces(fs: &Vec<FalconSig>) -> (out: Vec<Vec<u8>>)
    ensures
        out@.len() == fs@.len(),
        forall|i: int| 0 <= i < fs@.len() ==> (#[trigger] out@[i])@ == fs@[i].nonce@,
{
    let mut out: Vec<Vec<u8>> = Vec::new();
    for i in 0..fs.len()
        invariant
            out@.len() == i,
            forall|j: int| 0 <= j < i ==> (#[trigger] out@[j])@ == fs@[j].nonce@,
    {
        let mut v: Vec<u8> = Vec::new();
        for k in 0..NONCE_LEN
            invariant
                i < fs@.len(),
                v@ == fs@[i as int].nonce@.subrange(0, k as int),
        {
            v.push(fs[i].nonce[k]);
            assert(v@ =~= fs@[i as int].nonce@.subrange(0, k + 1));
        }
        assert(v@ =~= fs@[i as int].nonce@);
        out.push(v);
    }
    out
}

/// Aggregate `N ≥ 1` Falcon-512 signatures into one proof.
pub fn aggregate(sigs: &[FalconInstance]) -> (res: Result<AggregateProof, AggregateError>)
    ensures
        (sigs@.len() == 0) <==> (res matches Err(AggregateError::EmptyInput)),
        (sigs@.len() > MAX_SIGS) <==> (res matches Err(AggregateError::TooManySignatures)),
        res matches Err(AggregateError::DecodeFailed(_)) ==> exists|i: int|
            0 <= i < sigs@.len() && !decode_ok(#[trigger] sigs@[i]),
        1 <= sigs@.len() <= MAX_SIGS && (exists|i: int| 0 <= i < sigs@.len() && !decode_ok(#[trigger] sigs@[i]))
            ==> (res matches Err(AggregateError::DecodeFailed(_)) || res matches Err(AggregateError::NoModulus)),
        res matches Err(AggregateError::NotEncodable(i)) ==> i < sigs@.len() && exists|f: FalconSig|
            decodes_to(sigs@[i as int], f) && !#[trigger] sig_encodable(f),
        res matches Ok(p) ==> aggregated(sigs@, p),
{
    if sigs.len() == 0 {
        return Err(AggregateError::EmptyInput);
    }
    if sigs.len() > MAX_SIGS {
        return Err(AggregateError::TooManySignatures);
    }
    let q_prime = match select_qprime() {
        Some(q) => q,
        None => {
            return Err(AggregateError::NoModulus);
        },
    };
    if q_prime >= QPRIME_LIMIT {
        return Err(AggregateError::NoModulus);
    }
    let ring = match Ring::new(Modulus::new(q_prime)) {
        Some(r) => r,
        None => {
            return Err(AggregateError::NoModulus);
        },
    };
    let parsed = match decode_all(sigs) {
        Ok(fs) => fs,
        Err((_, e)) => {
            return Err(AggregateError::DecodeFailed(parse_error_text(&e)));
        },
    };
    proof {
        assert forall|i: int| 0 <= i < parsed@.len() implies (#[trigger] parsed@[i]).h.wf() && parsed@[i].c.wf()
            && parsed@[i].s1.wf() && parsed@[i].s2.wf() by {
            assert(decodes_to(sigs@[i], parsed@[i]));
        }
    }
    match first_unencodable(&parsed) {
        Some(i) => {
            proof {
                assert(decodes_to(sigs@[i as int], parsed@[i as int]));
            }
            return Err(AggregateError::NotEncodable(i));
        },
        None => {},
    }
    let beta_sq = select_beta_sq();
    let (statement, witness, layout) = match build_falcon_statement(&parsed, &ring, beta_sq) {
        Some(x) => x,
        None => {
            return Err(AggregateError::NoDecomposition);
        },
    };
    proof {
        let ws = witness.view_vecs();
        assert forall|i: int| 0 <= i < statement.r implies (#[trigger] ws[i]).len() == statement.n && elems_wf(
            ws[i],
            statement.ring.m,
        ) by {
            assert(ws[i] == witness.w@[i]@);
        }
    }
    let mut transcript = Transcript::new(&TRANSCRIPT_DOMAIN);
    assert(transcript.absorbed() == domain_record(TRANSCRIPT_DOMAIN@));
    let iteration = match prove(&statement, &witness, &mut transcript) {
        Some(p) => p,
        None => {
            return Err(AggregateError::TranscriptExhausted);
        },
    };
    let nonces = collect_nonces(&parsed);
    let proof = AggregateProof { q_prime, nonces, beta_sq, iteration };
    proof {
        assert(is_honest_witness(witness, layout, parsed@, proof.q_prime as int));
        assert(is_falcon_statement(statement, layout, ring, parsed@, BETA_SQ));
        assert(prove_facts(statement, witness.view_vecs(), domain_record(TRANSCRIPT_DOMAIN@), iteration));
        assert(is_qprime(q_prime as int));
        assert(proof.nonces@.len() == sigs@.len());
        assert(ring.m.q == q_prime);
        assert(ring.wf() && layout.wf() && layout.n_sigs == sigs@.len());
        assert(forall|i: int| 0 <= i < sigs@.len() ==> (#[trigger] proof.nonces@[i])@ == parsed@[i].nonce@);
        assert(parsed@.len() == sigs@.len());
        assert(forall|i: int| 0 <= i < sigs@.len() ==> decodes_to(#[trigger] sigs@[i], parsed@[i]) && sig_encodable(parsed@[i]));
        assert forall|i: int| 0 <= i < sigs@.len() implies decodes_to(#[trigger] sigs@[i], parsed@[i])
            && sig_encodable(parsed@[i]) by {}
    }
    Ok(proof)
}


/// What the verifier rebuilds for one signature from its public key, message
/// and nonce: `h` from the key, `c = HashToPoint(nonce ‖ message)`, the nonce.
pub open spec fn public_view(pk: Seq<u8>, msg: Seq<u8>, nonce: Seq<u8>, f: FalconSig) -> bool {
    match public_key_spec(pk) {
        Ok(hw) => {
            let acc = accepted_words(nonce + msg, MAX_HASH_WORDS as nat);
            &&& nonce.len() == NONCE_LEN
            &&& acc.len() >= FALCON_N
            &&& f.nonce@ == nonce
            &&& f.h.wf()
            &&& f.c.wf()
            &&& forall|i: int| 0 <= i < FALCON_N ==> #[trigger] f.h.c[i] as int == hw[i] && f.c.c[i] as int == acc[i]
        },
        Err(_) => false,
    }
}

/// The public view of one signature can be rebuilt.
pub open spec fn public_ok(pk: Seq<u8>, msg: Seq<u8>, nonce: Seq<u8>) -> bool {
    &&& nonce.len() == NONCE_LEN
    &&& public_key_spec(pk) is Ok
    &&& accepted_words(nonce + msg, MAX_HASH_WORDS as nat).len() >= FALCON_N
}

/// `proof` verifies for `pairs`: for the public views of the signatures, the
/// modulus `q'`, and the Falcon statement they give with the proof's `β²`,
/// the iteration passes every check from a fresh transcript.
pub open spec fn verified(pairs: Seq<(Vec<u8>, Vec<u8>)>, proof: AggregateProof) -> bool {
    let n = pairs.len();
    exists|fs: Seq<FalconSig>, ring: Ring, stmt: Statement, l: WitnessLayout|
        #[trigger] is_falcon_statement(stmt, l, ring, fs, proof.beta_sq) && {
            &&& fs.len() == n
            &&& forall|i: int|
                0 <= i < n ==> public_view(pairs[i].0@, pairs[i].1@, proof.nonces@[i]@, #[trigger] fs[i])
            &&& ring.wf()
            &&& ring.m.q == proof.q_prime
            &&& l.wf()
            &&& l.n_sigs == n
            &&& accepts(stmt, proof.iteration, domain_record(TRANSCRIPT_DOMAIN@))
        }
}

/// The nonce as a fixed-size array.
fn nonce_array(v: &Vec<u8>) -> (out: [u8; NONCE_LEN])
    requires
        v@.len() == NONCE_LEN,
    ensures
        out@ == v@,
{
    let mut out = [0u8; NONCE_LEN];
    for k in 0..NONCE_LEN
        invariant
            v@.len() == NONCE_LEN,
            forall|j: int| 0 <= j < k ==> out@[j] == v@[j],
    {
        out[k] = v[k];
    }
    assert(out@ =~= v@);
    out
}

/// Rebuild the public view of every signature; the first failure is
/// reported.
fn rebuild_views(pairs: &[(Vec<u8>, Vec<u8>)], nonces: &Vec<Vec<u8>>) -> (res: Result<Vec<FalconSig>, VerifyError>)
    requires
        pairs@.len() == nonces@.len(),
    ensures
        match res {
            Ok(fs) => fs@.len() == pairs@.len() && forall|i: int|
                0 <= i < pairs@.len() ==> public_view(pairs@[i].0@, pairs@[i].1@, nonces@[i]@, #[trigger] fs@[i]),
            Err(e) => e is DecodeFailed && exists|i: int|
                0 <= i < pairs@.len() && !public_ok(pairs@[i].0@, pairs@[i].1@, #[trigger] nonces@[i]@),
        },
{
    let mut out: Vec<FalconSig> = Vec::new();
    for i in 0..pairs.len()
        invariant
            pairs@.len() == nonces@.len(),
            out@.len() == i,
            forall|j: int|
                0 <= j < i ==> public_view(pairs@[j].0@, pairs@[j].1@, nonces@[j]@, #[trigger] out@[j]),
    {
        let nonce_vec = &nonces[i];
        if nonce_vec.len() != NONCE_LEN {
            assert(!public_ok(pairs@[i as int].0@, pairs@[i as int].1@, nonces@[i as int]@));
            return Err(VerifyError::DecodeFailed(nonce_length_text(nonce_vec.len())));
        }
        let nonce = nonce_array(nonce_vec);
        let h = match decode_public_key(&pairs[i].0) {
            Ok(h) => h,
            Err(e) => {
                assert(!public_ok(pairs@[i as int].0@, pairs@[i as int].1@, nonces@[i as int]@));
                return Err(VerifyError::DecodeFailed(parse_error_text(&e)));
            },
        };
        let c = match hash_to_point(&nonce, &pairs[i].1) {
            Some(c) => c,
            None => {
                assert(!public_ok(pairs@[i as int].0@, pairs@[i as int].1@, nonces@[i as int]@));
                return Err(VerifyError::DecodeFailed(parse_error_text(&ParseError::HashExhausted)));
            },
        };
        let f = FalconSig { h, c, s1: FPoly::zero(), s2: FPoly::zero(), nonce };
        proof {
            assert(public_key_spec(pairs@[i as int].0@) matches Ok(hw) && forall|k: int|
                0 <= k < FALCON_N ==> #[trigger] hw[k] == h.c[k]);
        }
        out.push(f);
        assert(public_view(pairs@[i as int].0@, pairs@[i as int].1@, nonces@[i as int]@, out@[i as int]));
    }
    Ok(out)
}

/// Whether `r · τ² · β²` fits in `i128`.
fn bound_fits(r: usize, beta_sq: i128) -> (ok: bool)
    ensures
        ok == (i128::MIN <= r * TAU_SQ * beta_sq <= i128::MAX),
{
    let r128 = r as i128;
    match r128.checked_mul(TAU_SQ as i128) {
        Some(x) => match x.checked_mul(beta_sq) {
            Some(_) => true,
            None => false,
        },
        None => {
            assert(r * TAU_SQ <= 0x1_0000_0000_0000_0000 * 86);
            false
        },
    }
}

/// Verify an aggregate proof against the `(public key, message)` pairs.
pub fn verify(pairs: &[(Vec<u8>, Vec<u8>)], proof: &AggregateProof) -> (res: Result<(), VerifyError>)
    ensures
        (pairs@.len() != proof.nonces@.len()) <==> res == Err::<(), VerifyError>(
            VerifyError::SigCountMismatch { got: pairs@.len() as usize, want: proof.nonces@.len() as usize },
        ),
        pairs@.len() == proof.nonces@.len() && !(1 <= pairs@.len() <= MAX_SIGS && 3 <= proof.q_prime
            < QPRIME_LIMIT && passes_primality_test(proof.q_prime as int)) ==> res matches Err(
            VerifyError::BadParameters,
        ),
        res matches Err(VerifyError::DecodeFailed(_)) ==> exists|i: int|
            0 <= i < pairs@.len() && !public_ok(pairs@[i].0@, pairs@[i].1@, #[trigger] proof.nonces@[i]@),
        res is Ok ==> pairs@.len() == proof.nonces@.len() && verified(pairs@, *proof),
{
    if pairs.len() != proof.nonces.len() {
        return Err(VerifyError::SigCountMismatch { got: pairs.len(), want: proof.nonces.len() });
    }
    let n = pairs.len();
    if n == 0 || n > MAX_SIGS {
        return Err(VerifyError::BadParameters);
    }
    let q = proof.q_prime;
    if q < 3 || q >= QPRIME_LIMIT || !is_prime(q) {
        return Err(VerifyError::BadParameters);
    }
    let ring = match Ring::new(Modulus::new(q)) {
        Some(r) => r,
        None => {
            return Err(VerifyError::BadParameters);
        },
    };
    let sigs_view = match rebuild_views(pairs, &proof.nonces) {
        Ok(fs) => fs,
        Err(e) => {
            return Err(e);
        },
    };
    let layout = WitnessLayout::new(n);
    if !bound_fits(layout.r(), proof.beta_sq) {
        return Err(VerifyError::BadParameters);
    }
    proof {
        assert forall|s: int| 0 <= s < sigs_view@.len() implies (#[trigger] sigs_view@[s]).h.wf() && sigs_view@[s].c.wf() by {
            assert(public_view(pairs@[s].0@, pairs@[s].1@, proof.nonces@[s]@, sigs_view@[s]));
        }
    }
    let stmt = falcon_statement(&sigs_view, &layout, &ring, proof.beta_sq);
    let mut transcript = Transcript::new(&TRANSCRIPT_DOMAIN);
    assert(transcript.absorbed() == domain_record(TRANSCRIPT_DOMAIN@));
    match verify_iteration(&stmt, &proof.iteration, &mut transcript) {
        Ok(()) => {
            proof {
                assert(is_falcon_statement(stmt, layout, ring, sigs_view@, proof.beta_sq));
                assert(accepts(stmt, proof.iteration, domain_record(TRANSCRIPT_DOMAIN@)));
            }
            Ok(())
        },
        Err(e) => Err(VerifyError::Labrador(e)),
    }
}

} // verus!
