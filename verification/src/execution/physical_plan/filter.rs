//! WHERE filtering, row by row or by batches whose predicate values are
//! computed by workers; results and errors keep input order.
use crate::execution::parallel::{clamp_parallelism, flatten, spec_clamp_parallelism, BATCH_SIZE};
use crate::execution::physical_plan::batch::{reversed, BatchEnd, PredicateValue};
use crate::BustubxError;
use std::collections::VecDeque;
use vstd::prelude::*;

verus! {

/// The outputs of a batch: each row whose predicate held, and each
/// predicate error in the position of its row, in input order.
pub open spec fn filter_output<T>(rows: Seq<T>, decisions: Seq<Result<bool, BustubxError>>) -> Seq<
    Result<T, BustubxError>,
>
    decreases rows.len(),
{
    if rows.len() == 0 || decisions.len() == 0 {
        Seq::empty()
    } else {
        let earlier = filter_output(rows.drop_last(), decisions.drop_last());
        match decisions.last() {
            Ok(true) => earlier.push(Ok(rows.last())),
            Ok(false) => earlier,
            Err(e) => earlier.push(Err(e)),
        }
    }
}

/// The error, if any, that a batch's input failure queues behind it.
pub open spec fn end_error<T>(end: BatchEnd) -> Seq<Result<T, BustubxError>> {
    match end {
        BatchEnd::Failed(e) => seq![Err(e)],
        _ => Seq::empty(),
    }
}

/// Batch boundaries do not matter: filtering two batches one after the
/// other gives the same outputs as filtering them as one batch, so a
/// parallel filter (batches of many rows) and a serial one (one row at a
/// time) produce the same sequence of rows and errors.
pub proof fn lemma_filter_output_split<T>(
    rows1: Seq<T>,
    decisions1: Seq<Result<bool, BustubxError>>,
    rows2: Seq<T>,
    decisions2: Seq<Result<bool, BustubxError>>,
)
    requires
        rows1.len() == decisions1.len(),
        rows2.len() == decisions2.len(),
    ensures
        filter_output(rows1 + rows2, decisions1 + decisions2) == filter_output(rows1, decisions1)
            + filter_output(rows2, decisions2),
    decreases rows2.len(),
{
    if rows2.len() == 0 {
        assert(rows1 + rows2 =~= rows1);
        assert(decisions1 + decisions2 =~= decisions1);
        assert(filter_output(rows1, decisions1) + Seq::empty() =~= filter_output(rows1, decisions1));
    } else {
        lemma_filter_output_split(rows1, decisions1, rows2.drop_last(), decisions2.drop_last());
        assert((rows1 + rows2).drop_last() =~= rows1 + rows2.drop_last());
        assert((decisions1 + decisions2).drop_last() =~= decisions1 + decisions2.drop_last());
        let a = filter_output(rows1, decisions1);
        let b = filter_output(rows2.drop_last(), decisions2.drop_last());
        match decisions2.last() {
            Ok(true) => {
                assert((a + b).push(Ok(rows2.last())) =~= a + b.push(Ok(rows2.last())));
            },
            Ok(false) => {},
            Err(e) => {
                assert((a + b).push(Err(e)) =~= a + b.push(Err(e)));
            },
        }
    }
}

/// The outputs of batches, queued one batch after another.
pub open spec fn filter_outputs<T>(
    rows: Seq<Seq<T>>,
    decisions: Seq<Seq<Result<bool, BustubxError>>>,
) -> Seq<Result<T, BustubxError>>
    decreases rows.len(),
{
    if rows.len() == 0 || decisions.len() == 0 {
        Seq::empty()
    } else {
        filter_outputs(rows.drop_last(), decisions.drop_last()) + filter_output(
            rows.last(),
            decisions.last(),
        )
    }
}

/// A filter's whole output does not depend on how its input is cut into
/// batches: the outputs of all batches, queued in order, are the filter of
/// all rows at once. So the batched filter, for every worker count, and
/// the serial filter (batches of one row) return the same rows and errors
/// in the same order.
pub proof fn lemma_filter_batches_are_one<T>(
    rows: Seq<Seq<T>>,
    decisions: Seq<Seq<Result<bool, BustubxError>>>,
)
    requires
        rows.len() == decisions.len(),
        forall|i: int| 0 <= i < rows.len() ==> (#[trigger] rows[i]).len() == decisions[i].len(),
    ensures
        flatten(rows).len() == flatten(decisions).len(),
        filter_outputs(rows, decisions) == filter_output(flatten(rows), flatten(decisions)),
    decreases rows.len(),
{
    if rows.len() > 0 {
        let r0 = rows.drop_last();
        let d0 = decisions.drop_last();
        assert forall|i: int| 0 <= i < r0.len() implies (#[trigger] r0[i]).len() == d0[i].len() by {
            assert(r0[i] == rows[i]);
        }
        lemma_filter_batches_are_one(r0, d0);
        assert(rows.last().len() == decisions.last().len());
        lemma_filter_output_split(flatten(r0), flatten(d0), rows.last(), decisions.last());
    }
}

/// Rows and errors decided but not yet returned, and whether the input has
/// ended.
pub struct FilterState<T> {
    pub pending: VecDeque<Result<T, BustubxError>>,
    pub exhausted: bool,
}

/// What the next call of a batched filter does.
pub enum FilterPoll<T> {
    /// Return this.
    Ready(Result<Option<T>, BustubxError>),
    /// Fill a batch of at most this many rows from the input, evaluate
    /// it, and absorb it.
    NeedBatch(usize),
}

/// What the serial filter does with one input row.
pub enum RowDecision<T> {
    /// Return the row.
    Emit(T),
    /// Drop the row and read the next one.
    Skip,
    /// Return the error.
    Fail(BustubxError),
}

/// The filter operator: predicate `P`, input plan `I`, rows `T`.
pub struct PhysicalFilter<P, I, T> {
    pub predicate: P,
    pub input: I,
    pub parallelism: usize,
    pub state: FilterState<T>,
}

impl<P, I, T> PhysicalFilter<P, I, T> {
    /// A serial filter of `input` by `predicate`.
    pub fn new(predicate: P, input: I) -> (r: Self)
        ensures
            r.predicate == predicate,
            r.input == input,
            r.parallelism == 1,
            r.state.pending@.len() == 0,
            !r.state.exhausted,
    {
        PhysicalFilter {
            predicate,
            input,
            parallelism: 1,
            state: FilterState { pending: VecDeque::new(), exhausted: false },
        }
    }

    /// The same filter with `workers` workers, clamped to `1..=64`.
    pub fn with_parallelism(self, workers: usize) -> (r: Self)
        ensures
            r.parallelism == spec_clamp_parallelism(workers),
            r.predicate == self.predicate,
            r.input == self.input,
            r.state == self.state,
    {
        let mut s = self;
        s.parallelism = clamp_parallelism(workers);
        s
    }

    /// Whether a row passes, given the predicate's value on it: a boolean
    /// decides; NULL or a non-boolean value is an execution error.
    pub fn matches(&self, value: PredicateValue) -> (r: Result<bool, BustubxError>)
        ensures
            match value {
                PredicateValue::Boolean(Some(b)) => r == Ok::<bool, BustubxError>(b),
                _ => r matches Err(e) && e is Execution,
            },
    {
        match value {
            PredicateValue::Boolean(Some(b)) => Ok(b),
            _ => Err(
                BustubxError::Execution("filter predicate value should be boolean".to_owned()),
            ),
        }
    }

    /// One step of the serial filter, given an input row and its
    /// predicate's value (or the error evaluating it): a passing row is
    /// returned, a rejected one skipped, and an error (of the evaluation, or
    /// a NULL or non-boolean value) returned.
    pub fn decide_row(&self, row: T, value: Result<PredicateValue, BustubxError>) -> (r: RowDecision<
        T,
    >)
        ensures
            match value {
                Err(e) => r == RowDecision::<T>::Fail(e),
                Ok(PredicateValue::Boolean(Some(true))) => r == RowDecision::Emit(row),
                Ok(PredicateValue::Boolean(Some(false))) => r is Skip,
                Ok(_) => r matches RowDecision::Fail(e) && e is Execution,
            },
    {
        match value {
            Err(e) => RowDecision::Fail(e),
            Ok(v) => match self.matches(v) {
                Ok(true) => RowDecision::Emit(row),
                Ok(false) => RowDecision::Skip,
                Err(e) => RowDecision::Fail(e),
            },
        }
    }

    /// Restart: drop undelivered results and forget the end of input.
    pub fn init(&mut self)
        ensures
            final(self).predicate == old(self).predicate,
            final(self).input == old(self).input,
            final(self).parallelism == old(self).parallelism,
            final(self).state.pending@.len() == 0,
            !final(self).state.exhausted,
    {
        self.state = FilterState { pending: VecDeque::new(), exhausted: false };
    }

    /// The next step of a batched filter: deliver the oldest decided
    /// result; else report the end once the input has ended; else ask for
    /// a batch.
    pub fn poll(&mut self) -> (r: FilterPoll<T>)
        ensures
            final(self).predicate == old(self).predicate,
            final(self).input == old(self).input,
            final(self).parallelism == old(self).parallelism,
            final(self).state.exhausted == old(self).state.exhausted,
            old(self).state.pending@.len() > 0 ==> final(self).state.pending@ == old(
                self,
            ).state.pending@.drop_first() && r == match old(self).state.pending@[0] {
                Ok(t) => FilterPoll::Ready(Ok(Some(t))),
                Err(e) => FilterPoll::<T>::Ready(Err(e)),
            },
            old(self).state.pending@.len() == 0 ==> final(self).state.pending@ == old(
                self,
            ).state.pending@ && r == if old(self).state.exhausted {
                FilterPoll::<T>::Ready(Ok(None))
            } else {
                FilterPoll::<T>::NeedBatch(BATCH_SIZE)
            },
    {
        if let Some(result) = self.state.pending.pop_front() {
            return match result {
                Ok(t) => FilterPoll::Ready(Ok(Some(t))),
                Err(e) => FilterPoll::Ready(Err(e)),
            };
        }
        if self.state.exhausted {
            FilterPoll::Ready(Ok(None))
        } else {
            FilterPoll::NeedBatch(BATCH_SIZE)
        }
    }

    /// Take a batch and its predicate outcomes (one per row, in order, or
    /// a failure of the evaluation itself). Passing rows and predicate
    /// errors are queued in input order, followed by the input's error if
    /// it failed; an input that ended or failed is not read again. A
    /// failed evaluation ends the filter and is returned at once.
    pub fn absorb_batch(
        &mut self,
        batch: Vec<T>,
        end: BatchEnd,
        decisions: Result<Vec<Result<bool, BustubxError>>, BustubxError>,
    ) -> (r: Result<(), BustubxError>)
        requires
            decisions matches Ok(d) ==> d@.len() == batch@.len(),
        ensures
            final(self).predicate == old(self).predicate,
            final(self).input == old(self).input,
            final(self).parallelism == old(self).parallelism,
            match decisions {
                Err(e) => r == Err::<(), BustubxError>(e) && final(self).state.exhausted
                    && final(self).state.pending@ == old(self).state.pending@,
                Ok(d) => r is Ok && final(self).state.exhausted == (old(self).state.exhausted
                    || !(end is Continues)) && final(self).state.pending@ == old(
                    self,
                ).state.pending@ + filter_output(batch@, d@) + end_error::<T>(end),
            },
    {
        if !matches!(end, BatchEnd::Continues) {
            self.state.exhausted = true;
        }
        let decisions = match decisions {
            Ok(d) => d,
            Err(e) => {
                self.state.exhausted = true;
                return Err(e);
            },
        };
        let ghost rows = batch@;
        let ghost ds = decisions@;
        let ghost start = self.state.pending@;
        let n = batch.len();
        let mut rrows = reversed(batch);
        let mut rdecisions = reversed(decisions);
        let mut i: usize = 0;
        while i < n
            invariant
                n == rows.len(),
                n == ds.len(),
                i <= n,
                rrows@.len() == n - i,
                rdecisions@.len() == n - i,
                forall|j: int| 0 <= j < n - i ==> #[trigger] rrows@[j] == rows[n - 1 - j],
                forall|j: int| 0 <= j < n - i ==> #[trigger] rdecisions@[j] == ds[n - 1 - j],
                self.state.pending@ == start + filter_output(
                    rows.subrange(0, i as int),
                    ds.subrange(0, i as int),
                ),
                self.predicate == old(self).predicate,
                self.input == old(self).input,
                self.parallelism == old(self).parallelism,
                self.state.exhausted == (old(self).state.exhausted || !(end is Continues)),
            decreases n - i,
        {
            let row = rrows.pop().unwrap();
            let decision = rdecisions.pop().unwrap();
            proof {
                assert(row == rows[i as int]);
                assert(decision == ds[i as int]);
                assert(rows.subrange(0, i + 1).drop_last() =~= rows.subrange(0, i as int));
                assert(ds.subrange(0, i + 1).drop_last() =~= ds.subrange(0, i as int));
            }
            match decision {
                Ok(true) => {
                    self.state.pending.push_back(Ok(row));
                },
                Ok(false) => {},
                Err(e) => {
                    self.state.pending.push_back(Err(e));
                },
            }
            proof {
                assert(self.state.pending@ =~= start + filter_output(
                    rows.subrange(0, i + 1),
                    ds.subrange(0, i + 1),
                ));
            }
            i = i + 1;
        }
        proof {
            assert(rows.subrange(0, n as int) =~= rows);
            assert(ds.subrange(0, n as int) =~= ds);
        }
        if let BatchEnd::Failed(e) = end {
            self.state.pending.push_back(Err(e));
        }
        proof {
            assert(self.state.pending@ =~= start + filter_output(rows, ds) + end_error::<T>(end));
        }
        Ok(())
    }
}

} // verus!
