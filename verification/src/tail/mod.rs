//! Tail operations: the last lines or bytes of a file or stream, the lines
//! or bytes from a starting offset, and the decisions of follow mode.

pub mod bytes;
pub mod follow;
pub mod lines;
pub mod ring;
