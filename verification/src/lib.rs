//! Semantic long-term memory for a conversational session: a co-indexed
//! vector/text store, fixed-point cosine similarity with top-k ranking,
//! sentence chunking, and the context window fed to the chat backend.
pub mod similarity;
pub mod ranking;
pub mod store;
pub mod chunking;
pub mod context;

use vstd::prelude::*;

verus! {

/// Converts a non-negative machine integer to an index; a negative input has none.
pub fn int_to_usize(input: i32) -> (r: Option<usize>)
    ensures
        input >= 0 ==> r == Some(input as usize),
        input < 0 ==> r is None,
{
    if input >= 0 {
        Some(input as usize)
    } else {
        None
    }
}

} // verus!
