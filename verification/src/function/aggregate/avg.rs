//! AVG: the sum and the number of non-NULL input values, mergeable across
//! partial results. The sum's arithmetic belongs to the number type `F`;
//! this accumulator decides when values are added and counted.
use crate::function::aggregate::AccumulatorState;
use crate::BustubxError;
use vstd::prelude::*;

verus! {

/// The number type of an AVG sum.
pub trait SumValue: Sized + Copy {
    /// Zero.
    fn zero() -> Self;

    /// The sum of two values.
    fn plus(self, other: Self) -> Self;

    /// The value divided by a count.
    fn divided_by(self, count: u64) -> Self;
}

/// Whether `s` is what adding `v` to the running sum `sum` gives: `plus`
/// of the sum (or, before the first value, of what `zero` returns) and `v`.
pub open spec fn added<F: SumValue>(sum: Option<F>, v: F, s: F) -> bool {
    match sum {
        Some(b) => call_ensures(F::plus, (b, v), s),
        None => exists|z: F| call_ensures(F::zero, (), z) && call_ensures(F::plus, (z, v), s),
    }
}

/// Accumulator of AVG.
pub struct AvgAccumulator<F> {
    sum: Option<F>,
    count: u64,
}

impl<F: SumValue> AvgAccumulator<F> {
    /// The running sum, `None` before the first value.
    pub closed spec fn sum(&self) -> Option<F> {
        self.sum
    }

    /// The number of values summed.
    pub closed spec fn count(&self) -> u64 {
        self.count
    }

    /// No values yet.
    pub fn new() -> (r: Self)
        ensures
            r.sum() is None,
            r.count() == 0,
    {
        AvgAccumulator { sum: None, count: 0 }
    }

    /// The partial state to merge elsewhere.
    pub fn state(&self) -> (r: AccumulatorState<F>)
        ensures
            r == (AccumulatorState::Avg { sum: self.sum(), count: self.count() }),
    {
        AccumulatorState::Avg { sum: self.sum, count: self.count }
    }

    /// Add a partial sum and count. A state of another aggregate, or a
    /// count that overflows `u64`, is an execution error and changes
    /// nothing. A partial state without a sum adds only its count.
    pub fn merge(&mut self, state: AccumulatorState<F>) -> (r: Result<(), BustubxError>)
        ensures
            match state {
                AccumulatorState::Avg { sum, count } => if old(self).count() + count <= u64::MAX {
                    &&& r is Ok
                    &&& final(self).count() == old(self).count() + count
                    &&& match sum {
                        None => final(self).sum() == old(self).sum(),
                        Some(v) => final(self).sum() matches Some(s) && added(old(self).sum(), v, s),
                    }
                } else {
                    &&& r matches Err(e) && e is Execution
                    &&& final(self).sum() == old(self).sum()
                    &&& final(self).count() == old(self).count()
                },
                _ => {
                    &&& r matches Err(e) && e is Execution
                    &&& final(self).sum() == old(self).sum()
                    &&& final(self).count() == old(self).count()
                },
            },
    {
        let (sum, count) = match state {
            AccumulatorState::Avg { sum, count } => (sum, count),
            _ => {
                return Err(BustubxError::Execution("Invalid AVG partial state".to_owned()));
            },
        };
        let new_count = match self.count.checked_add(count) {
            Some(c) => c,
            None => {
                return Err(BustubxError::Execution("AVG count overflow".to_owned()));
            },
        };
        if let Some(value) = sum {
            let base = match self.sum {
                Some(s) => s,
                None => F::zero(),
            };
            self.sum = Some(base.plus(value));
        }
        self.count = new_count;
        Ok(())
    }

    /// Add one input value unless it is NULL (`None`); a count overflow is
    /// an execution error.
    pub fn update_value(&mut self, value: Option<F>) -> (r: Result<(), BustubxError>)
        ensures
            value is None ==> r is Ok && final(self).sum() == old(self).sum() && final(self).count()
                == old(self).count(),
            value is Some && old(self).count() < u64::MAX ==> r is Ok && final(self).count()
                == old(self).count() + 1 && (final(self).sum() matches Some(s) && added(
                old(self).sum(),
                value->Some_0,
                s,
            )),
            value is Some && old(self).count() == u64::MAX ==> (r matches Err(e) && e is Execution
                && final(self).sum() == old(self).sum() && final(self).count() == old(self).count()),
    {
        if let Some(v) = value {
            self.merge(AccumulatorState::Avg { sum: Some(v), count: 1 })?;
        }
        Ok(())
    }

    /// The average: the sum divided by the count, or `None` when no value
    /// was summed.
    pub fn evaluate(&self) -> (r: Option<F>)
        ensures
            match self.sum() {
                None => r is None,
                Some(s) => r matches Some(a) && call_ensures(F::divided_by, (s, self.count()), a),
            },
    {
        match self.sum {
            Some(s) => Some(s.divided_by(self.count)),
            None => None,
        }
    }
}

} // verus!
