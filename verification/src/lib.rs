//! Verified core of `rtail`, a `tail` utility: the rules that decide what
//! is printed, kept apart from the reading, writing and sleeping that the
//! program around it does.

pub mod output;
pub mod tail;
pub mod cli;
pub mod run;
