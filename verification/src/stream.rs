//! The observed stream as a mathematical sequence, and the true count of a
//! key in it.

use vstd::prelude::*;

verus! {

/// How often `key` occurs in `stream`.
pub open spec fn occurrences(stream: Seq<Seq<char>>, key: Seq<char>) -> nat
    decreases stream.len(),
{
    if stream.len() == 0 {
        0
    } else {
        occurrences(stream.drop_last(), key) + if stream.last() == key {
            1nat
        } else {
            0nat
        }
    }
}

/// One more observation raises the count of the observed key by one and
/// leaves every other count as it was.
pub proof fn lemma_occurrences_push(stream: Seq<Seq<char>>, seen: Seq<char>, key: Seq<char>)
    ensures
        occurrences(stream.push(seen), key) == occurrences(stream, key) + if seen == key {
            1nat
        } else {
            0nat
        },
{
    assert(stream.push(seen).drop_last() =~= stream);
}

/// No key occurs more often than the stream is long.
pub proof fn lemma_occurrences_bounded(stream: Seq<Seq<char>>, key: Seq<char>)
    ensures
        occurrences(stream, key) <= stream.len(),
    decreases stream.len(),
{
    if stream.len() > 0 {
        lemma_occurrences_bounded(stream.drop_last(), key);
    }
}

} // verus!
