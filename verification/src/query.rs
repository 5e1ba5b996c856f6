//! Limits and thresholds shared by the query surfaces.

use vstd::prelude::*;

verus! {

pub const WORKSPACE_SYMBOL_LIMIT: usize = 200;

pub const COMPLETION_LIMIT: usize = 100;

/// Extra score of a word that stands in the current file.
pub const COMPLETION_LOCALITY_BONUS: i32 = 50;

/// Shortest identifier prefix that starts a completion.
pub const MIN_PREFIX_LEN: usize = 1;

/// Shortest prefix that starts a member completion.
pub const MEMBER_COMPLETION_MIN_PREFIX_LEN: usize = 2;

/// Prefixes shorter than this keep only strong matches.
pub const SHORT_PREFIX_MIN_LEN: usize = 3;

/// Weakest match kept for a short prefix.
pub const SHORT_PREFIX_MIN_SCORE: i32 = 650;

} // verus!
