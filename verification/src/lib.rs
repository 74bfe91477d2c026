//! Word-level refinement of unified diffs.
//!
//! A hunk's removed and added lines are split into tokens, a longest common
//! subsequence of the two token streams is computed, and every line is cut
//! into coloured chunks that tell shared tokens from those unique to one
//! side. Escape sequences already present in the input are recognised and
//! kept out of the comparison.

pub mod escape;
pub mod token;
pub mod lines;
pub mod lcs;
pub mod snake;
pub mod myers;
pub mod normalize;
pub mod config;
pub mod paint;
pub mod stats;
pub mod hunk;
pub mod driver;

pub use crate::config::{color_spec, AppConfig};
pub use crate::escape::{first_after_escape, index_of, skip_all_escape_code, skip_token};
pub use crate::hunk::HunkBuffer;
pub use crate::lines::add_raw_line;
pub use crate::paint::output;
pub use crate::stats::{duration_ms_since, now, ExecStats};
