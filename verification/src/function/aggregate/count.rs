//! COUNT: the number of non-NULL input values, mergeable across partial
//! results.
use crate::function::aggregate::AccumulatorState;
use crate::BustubxError;
use vstd::prelude::*;

verus! {

/// Accumulator of COUNT.
pub struct CountAccumulator {
    count: i64,
}

impl View for CountAccumulator {
    type V = i64;

    closed spec fn view(&self) -> i64 {
        self.count
    }
}

impl CountAccumulator {
    /// A count of zero.
    pub fn new() -> (r: Self)
        ensures
            r@ == 0,
    {
        CountAccumulator { count: 0 }
    }

    /// The partial state to merge elsewhere.
    pub fn state<F>(&self) -> (r: AccumulatorState<F>)
        ensures
            r == AccumulatorState::<F>::Count(self@),
    {
        AccumulatorState::Count(self.count)
    }

    /// Add a partial count. A state of another aggregate, or a sum that
    /// overflows `i64`, is an execution error and leaves the count unchanged.
    pub fn merge<F>(&mut self, state: AccumulatorState<F>) -> (r: Result<(), BustubxError>)
        ensures
            match state {
                AccumulatorState::Count(c) => if i64::MIN <= old(self)@ + c <= i64::MAX {
                    r is Ok && final(self)@ == old(self)@ + c
                } else {
                    r matches Err(e) && e is Execution && final(self)@ == old(self)@
                },
                _ => r matches Err(e) && e is Execution && final(self)@ == old(self)@,
            },
    {
        let count = match state {
            AccumulatorState::Count(c) => c,
            _ => {
                return Err(BustubxError::Execution("Invalid COUNT partial state".to_owned()));
            },
        };
        match self.count.checked_add(count) {
            Some(c) => {
                self.count = c;
                Ok(())
            },
            None => Err(BustubxError::Execution("COUNT overflow".to_owned())),
        }
    }

    /// Count one input value unless it is NULL; overflow is an execution
    /// error.
    pub fn update_value(&mut self, is_null: bool) -> (r: Result<(), BustubxError>)
        ensures
            is_null ==> r is Ok && final(self)@ == old(self)@,
            !is_null && old(self)@ < i64::MAX ==> r is Ok && final(self)@ == old(self)@ + 1,
            !is_null && old(self)@ == i64::MAX ==> (r matches Err(e) && e is Execution
                && final(self)@ == old(self)@),
    {
        if !is_null {
            self.merge::<()>(AccumulatorState::Count(1))?;
        }
        Ok(())
    }

    /// The final count.
    pub fn evaluate(&self) -> (r: i64)
        ensures
            r == self@,
    {
        self.count
    }
}

/// Partial counts merge to the total: counting the values of two parts
/// separately and merging the partial counts gives the count of all values
/// (while it fits), whatever the split.
pub proof fn lemma_count_merge_is_total(part1: Seq<bool>, part2: Seq<bool>)
    ensures
        non_null_count(part1 + part2) == non_null_count(part1) + non_null_count(part2),
    decreases part2.len(),
{
    if part2.len() > 0 {
        lemma_count_merge_is_total(part1, part2.drop_last());
        assert((part1 + part2).drop_last() =~= part1 + part2.drop_last());
    } else {
        assert(part1 + part2 =~= part1);
    }
}

/// The number of non-NULL values among values given by their NULL flags.
pub open spec fn non_null_count(is_null: Seq<bool>) -> int
    decreases is_null.len(),
{
    if is_null.len() == 0 {
        0
    } else {
        non_null_count(is_null.drop_last()) + if is_null.last() {
            0int
        } else {
            1
        }
    }
}

} // verus!
