//! A fixed-priority task scheduler with deadline bookkeeping and a
//! priority-ceiling lock around one shared output line.

pub mod blink;
pub mod dispatcher;
pub mod echo;
pub mod error;
pub mod queue;
pub mod resource;
