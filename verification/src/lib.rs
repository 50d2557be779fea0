//! A solver for a single-player puzzle: a bounded stack of colored slices is
//! rearranged, using only prefix/suffix reversals ("flips"), until every color
//! occupies one contiguous run.
//!
//! The crate provides the deterministic pseudo-random generator used to build
//! reproducible initial puzzles, the stack data model, the progress oracle
//! (fragmentation count and completeness predicates), the move-finding
//! heuristics, the flip primitive, and the solve loop that drives them.

pub mod moves;
pub mod oracle;
pub mod prng;
pub mod solve;
pub mod stack;

pub use solve::ss_solve_step;
pub use solve::ss_solve;

pub use moves::ss_find_single_joining_move;
pub use moves::ss_find_first_double_move;

pub use oracle::ss_fragmentation;
pub use oracle::ss_fragmentation2;
pub use oracle::ss_iscomplete;
pub use oracle::ss_iscomplete2;

pub use stack::MAX_SLICES;
pub use stack::MAX_COLORS;
pub use stack::SliceStack;
pub use stack::StackError;
pub use stack::ss_init;
pub use stack::ss_init_fixed;
pub use stack::ss_flip;
pub use prng::PrngCtxGaloisLsfw;
pub use prng::prng_seed_galois_lsfw;
pub use prng::prng_galois_lsfw;
pub use prng::prng_galois_lsfw_int_minmax;
