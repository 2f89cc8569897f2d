//! What is exchanged with model providers.

pub mod message;
pub mod routing;
pub mod sse;
