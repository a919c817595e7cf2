//! Counts, for a corpus of words, how many words begin with each root of a
//! given root set, assigning every word to at most one root: the first root,
//! in the root set's priority order (descending length, then ascending
//! lexicographic order), whose text is a prefix of the word.

pub mod order;
pub mod aggregate;
pub mod corpus;
pub mod matcher;
pub mod report;
pub mod roots;

use vstd::prelude::*;

verus! {

/// The mathematical model of a list of strings: the sequence of their
/// character sequences.
pub open spec fn seq_views(s: Seq<String>) -> Seq<Seq<char>> {
    s.map_values(|x: String| x@)
}

} // verus!
