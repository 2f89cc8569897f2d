//! The agent's bookkeeping: control pins, retries, background jobs, and the trace of a run.

pub mod control_pins;
pub mod gate;
pub mod jobs;
pub mod trace;
