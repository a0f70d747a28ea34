//! Marzullo's agreement algorithm: from the intervals claimed by a set of
//! time sources, select the smallest interval that is consistent with the
//! largest number of them.
//!
//! Each source claims a closed interval and hands in its two ends as
//! [`SourceBound`]s. [`Interval::try_from_source_bounds`] puts the bounds in
//! order, sweeps them once while counting the intervals that are open, and
//! returns the narrowest window over which the count is greatest.
//!
//! - `bound`: the bounds and their total order.
//! - `sorting`: putting bounds in that order.
//! - `window`: the windows between neighbouring bounds, their depth and
//!   width, and which of them is the best.
//! - `interval`: the selected interval and the sweep that selects it.
//! - `agreement`: what the selection means for sources that claim whole
//!   intervals.
//! - `error`: the errors that report a refusal.

pub mod agreement;
pub mod bound;
pub mod error;
pub mod interval;
pub mod sorting;
pub mod window;

pub use bound::{BoundType, SourceBound};
pub use error::{ErrorKind, MarzulloError};
pub use interval::Interval;
