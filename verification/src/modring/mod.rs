pub mod crt;
pub mod modulus;
pub mod ntt;
pub mod poly;
pub mod polyspec;
pub mod rng;
