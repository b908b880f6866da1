pub mod embed;
pub mod falcon_ring;
pub mod parse;
pub mod relation;
pub mod lifting;
