//! Pieces shared by the batched operators: how a batch of input ended, the
//! value a predicate evaluated to, and in-order draining of a batch.
use crate::BustubxError;
use vstd::prelude::*;

verus! {

/// How filling a batch from an operator's input stopped.
pub enum BatchEnd {
    /// The batch is full; the input may have more rows.
    Continues,
    /// The input ended.
    Ended,
    /// The input failed with this error after the batch's rows.
    Failed(BustubxError),
}

/// What a predicate or join condition evaluated to, as far as filtering is
/// concerned.
pub enum PredicateValue {
    /// A boolean, or a boolean NULL.
    Boolean(Option<bool>),
    /// Any non-boolean value.
    Other,
}

/// The items of `v` in reverse order, so that popping from the back yields
/// them front to back.
pub fn reversed<T>(v: Vec<T>) -> (r: Vec<T>)
    ensures
        r@.len() == v@.len(),
        forall|j: int| 0 <= j < v@.len() ==> #[trigger] r@[j] == v@[v@.len() - 1 - j],
{
    let ghost orig = v@;
    let mut v = v;
    let mut r: Vec<T> = Vec::new();
    while v.len() > 0
        invariant
            v@ == orig.subrange(0, v@.len() as int),
            r@.len() == orig.len() - v@.len(),
            forall|j: int| 0 <= j < r@.len() ==> #[trigger] r@[j] == orig[orig.len() - 1 - j],
        decreases v@.len(),
    {
        let x = v.pop().unwrap();
        r.push(x);
    }
    r
}

} // verus!
