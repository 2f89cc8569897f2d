//! Searching code, and keeping the results short.

pub mod budget;
pub mod embed_plan;
pub mod lexical;
pub mod semantic_search;
