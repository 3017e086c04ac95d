//! An append-only hash-chain accumulator with logarithmic back-pointers and
//! succinct proofs that an element sat at a given position of its history.

mod accumulator;
mod bits;
mod hash;
mod prover;

pub use accumulator::{root_at, Accumulator, SimpleAccumulator};
pub use bits::{highest_divisor_power_of_2, pred, Index};
pub use hash::{digest_data, hash_triple, same_digest, zero_element};
pub use prover::{Prover, ProverError, SimpleProver};
