//! Proof-of-work verification for Zcash-style block headers: Equihash (200, 9)
//! solutions, the compact-target difficulty filter and the contextual
//! difficulty adjustment, with the decisions of a header-sync driver.
pub mod context;
pub mod encoding;
pub mod equihash;
pub mod filter;
pub mod pow;
pub mod sync;
pub mod target;

pub use context::{expected_nbits, DifficultyContext};
pub use equihash::{
    indices_from_minimal, verify_equihash_solution, verify_equihash_solution_with_params, Error,
    Kind, Params,
};
pub use filter::{verify_difficulty, verify_difficulty_filter, DiffError};
pub use pow::{powheader_bytes, verify_pow, verify_pow_with_context, Header, PowError};
pub use target::{cmp_target, target_from_nbits, target_to_nbits, Target};
