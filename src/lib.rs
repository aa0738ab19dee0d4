//! A small embedding index over chunked documents: a chunker that turns a
//! document's block tree into text chunks linked to their siblings, an index
//! that pairs each chunk with its embedding vector, brute-force nearest
//! neighbour search, a cell-bucketed approximate index, and the vector-file
//! framing used to save and load an index.
use vstd::prelude::*;

pub mod chunk;
pub mod index;
pub mod grid;
pub mod persist;

verus! {

} // verus!
