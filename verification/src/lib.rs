//! Collapse sampled stack traces from a profiler's textual output into
//! folded-stack lines: one line per unique call stack, root-first frames
//! joined by `;`, followed by an occurrence count.

pub mod bytes;
pub mod diag;
pub mod driver;
pub mod normalize;
pub mod occur;
pub mod perf;
