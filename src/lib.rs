//! The decision core of a range-based, work-stealing download engine.
use vstd::prelude::*;

pub mod layout;
pub mod options;
pub mod range;
pub mod slots;
pub mod worker;
pub mod writer;
