//! Curl-P: a ternary sponge hash over balanced trits, with a scalar
//! permutation, a bit-sliced permutation that runs eight lanes at once, and a
//! one-shot digest function.

pub mod constants;
pub mod curl;
pub mod pcurl;
pub mod sponge;
pub mod stateless;

pub use constants::{substitute, Ptrit, Trit, HASH_LENGTH, STATE_LENGTH, TRUTH_TABLE};
pub use curl::Curl;
