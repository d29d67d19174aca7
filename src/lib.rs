//! Content-defined chunking and parallel dispatch of chunk work.
pub mod buzhash;
pub mod chunker;
pub mod stream;
pub mod parallel_handler;
pub mod tape_drive;
