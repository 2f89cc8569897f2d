//! Running commands for measurements.

pub mod proc;
