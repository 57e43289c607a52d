//! Verified core of the Aerial diagram tool.
use vstd::prelude::*;

pub mod ast;
pub mod board;
pub mod diagram;
pub mod error;
pub mod graph;
pub mod parser;
pub mod printer;
pub mod roundtrip;
pub mod rows;
pub mod sugiyama;
pub mod svg;
pub mod text;
pub mod tools;

verus! {
} // verus!
