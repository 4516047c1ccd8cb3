//! The double-ended queue and its draining sequence under a second path; the
//! queue in `deque` serves both.
pub use crate::deque::{Deque, IntoIter};
