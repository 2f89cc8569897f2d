//! Tools that the agent can call.

pub mod job_tools;
pub mod output;
pub mod run_tests;
