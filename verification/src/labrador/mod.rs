pub mod aggregation;
pub mod binding;
pub mod challenge;
pub mod commit;
pub mod encode;
pub mod garbage;
pub mod proofs;
pub mod statement;
pub mod transcript;
pub mod prover;
pub mod verification;
pub mod wire;
pub mod outer;
pub mod jl;
pub mod prover_v2;
pub mod verification_v2;
pub mod packing;
pub mod fold;
pub mod aggregate_v2;
