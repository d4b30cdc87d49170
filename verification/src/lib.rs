//! Compaction engine for a continuous profiler's stack-unwinding metadata:
//! it turns an executable's call-frame-information section into a compact,
//! densely packed row table that a constrained runtime can binary-search,
//! with fixed-capacity shards, a range index over them, and the
//! longest-prefix-match block summarizer used for mapping lookups.

pub mod profiler_bindings;
pub mod unwind_info;
pub mod shard;
pub mod lookup;
pub mod extract;
pub mod util;
