//! A malloc frequency profiler helps detect program hotspots that perform a large number of
//! memory allocations. Many small allocations can slow down an application and lead to memory
//! fragmentation.
//!
//! This library holds the logic of the profiler: recording allocations under their call stacks,
//! merging the profiles of several threads, adding up the allocations under each beginning of a
//! call stack, and printing the result. What it is to do each of these is stated in contracts and
//! proved. The allocator itself and the `mf_print` tool are built around it.
pub mod allocator;
pub mod calls;
pub mod children;
pub mod laws;
pub mod layout;
pub mod lines;
pub mod output;
pub mod profile;
pub mod ranking;
pub mod report;
pub mod report_calls;
pub mod stacks;
pub mod stats;
pub mod summary;
pub mod summary_calls;
pub mod sums;
pub mod text;
pub mod text_calls;
pub mod trie;

pub use allocator::{Plan, ProfAllocator};
pub use output::{WriteError, Writer};
pub use profile::Profile;
pub use stats::{AllocCounts, CallStack, CallStackStats};
