pub mod aggregate;
pub mod falcon;
pub mod labrador;
pub mod modring;
pub mod xof;
