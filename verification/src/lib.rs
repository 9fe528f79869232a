//! An interactive fuzzy-completion engine: a scored subsequence matcher,
//! cyclic selection buffers, a per-root candidate cache, completion
//! strategies over filesystem scans, a readline-style line editor, and the
//! pure parts of the terminal rendering protocol and prompt control loop.

pub mod completer;
pub mod dropdown;
pub mod filter;
pub mod prompt;
pub mod readkeys;
pub mod ring_buffer;
pub mod util;
