//! A low-overhead execution tracer: per-thread event logs, the replay that
//! turns them into a tree of spans, and the layout of that tree as a diagram.
pub mod children;
pub mod diagnostics;
pub mod events;
pub mod graph;
pub mod idle;
pub mod laws;
pub mod list;
pub mod rerun;
pub mod spans;
pub mod stats;
pub mod storage;
pub mod subscriber;
pub mod svg;
pub mod text;

pub use subscriber::FastSubscriber;
pub use stats::stats;
pub use svg::{gantt_svg, svg};
