//! An in-process hierarchical execution-time profiler.
//!
//! Instrumented regions open a [`Block`] on a named [`Anchor`]; closing the
//! block splits its elapsed time between the anchor (self time) and the block
//! that was active when it opened (its parent), using one active id and one
//! snapshot per block instead of a call stack.
pub mod clock;
pub mod laws;
pub mod model;
pub mod profiler;
pub mod report;

pub use clock::{cycles_per_second, elapsed_ticks, CALIBRATION_MILLIS, NANOS_PER_SECOND};
pub use model::{AnchorView, BlockView, ProfilerView};
pub use profiler::{init, init_at, Anchor, Block, Profiler};
pub use report::{Report, ReportLine};
