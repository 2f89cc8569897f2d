//! Text handling over sequences of Unicode scalars.
//!
//! The specifications here describe what the string operations of the rest of the
//! library compute, as functions on `Seq<char>`; each has an executable twin that is
//! proved to compute it.

pub mod chars;
pub mod lines;
pub mod lossy;
pub mod number;
pub mod order;
pub mod pairs;
pub mod path;
pub mod quote;
pub mod search;
pub mod slice;
pub mod table;
