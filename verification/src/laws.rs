//! What the operations are for, as relations between the arguments and the results of calls.

pub mod artifacts;
pub mod calendar;
pub mod decisions;
pub mod numbers;
pub mod payloads;
pub mod texts;
