//! A stack-trace parser and flame-graph aggregation engine for managed
//! runtimes: raw multi-line thread-dump text is split into per-thread
//! blocks, each block becomes a one-branch call tree keyed by normalized
//! frame labels, and the trees are merged into one cumulative,
//! hit-counted tree ready for rendering. Hit counts add up exactly at
//! every path of the tree, and a sample that cannot be merged leaves the
//! cumulative state untouched.

pub mod aggregate;
pub mod node;
pub mod normalize;
pub mod parse;
pub mod process;
pub mod split;
pub mod text;

pub use process::Process;
