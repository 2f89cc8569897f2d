//! The chat gateway: sessions, schedules, channels, and who may speak to it.

pub mod duration_parse;
pub mod exec_env;
pub mod gateway;
pub mod instance_lock;
pub mod memory_bridge;
pub mod pairing;
pub mod registry;
pub mod schedule;
pub mod secrets;
pub mod session;
pub mod skills;
pub mod voice;
pub mod webhook;
