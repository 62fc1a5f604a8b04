//! Projection, row by row or by batches projected by workers; results and
//! errors keep input order and are returned only when reached.
use crate::execution::parallel::{clamp_parallelism, spec_clamp_parallelism, BATCH_SIZE};
use crate::execution::physical_plan::batch::{reversed, BatchEnd};
use crate::execution::physical_plan::filter::end_error;
use crate::BustubxError;
use std::collections::VecDeque;
use vstd::prelude::*;

verus! {

/// The values of a projected row, or the first error among them in
/// expression order.
pub open spec fn collect_results<V>(results: Seq<Result<V, BustubxError>>) -> Result<
    Seq<V>,
    BustubxError,
>
    decreases results.len(),
{
    if results.len() == 0 {
        Ok(Seq::empty())
    } else {
        match collect_results(results.drop_last()) {
            Err(e) => Err(e),
            Ok(values) => match results.last() {
                Ok(v) => Ok(values.push(v)),
                Err(e) => Err(e),
            },
        }
    }
}

/// A projected row is complete exactly when every expression succeeded,
/// and then holds the expressions' values in order; otherwise the error is
/// that of the first failing expression.
pub proof fn lemma_collect_results_first_error<V>(results: Seq<Result<V, BustubxError>>)
    ensures
        collect_results(results) is Ok <==> forall|i: int|
            0 <= i < results.len() ==> #[trigger] results[i] is Ok,
        collect_results(results) matches Ok(values) ==> values.len() == results.len() && forall|
            i: int,
        |
            0 <= i < results.len() ==> results[i] == Ok::<V, BustubxError>(#[trigger] values[i]),
        collect_results(results) matches Err(e) ==> exists|k: int|
            0 <= k < results.len() && results[k] == Err::<V, BustubxError>(e) && forall|i: int|
                0 <= i < k ==> #[trigger] results[i] is Ok,
    decreases results.len(),
{
    if results.len() > 0 {
        let init = results.drop_last();
        lemma_collect_results_first_error(init);
        assert(forall|i: int| 0 <= i < init.len() ==> #[trigger] init[i] == results[i]);
        match collect_results(init) {
            Err(e) => {
                let k = choose|k: int|
                    0 <= k < init.len() && init[k] == Err::<V, BustubxError>(e) && forall|i: int|
                        0 <= i < k ==> #[trigger] init[i] is Ok;
                assert(results[k] == Err::<V, BustubxError>(e));
                assert forall|i: int| 0 <= i < k implies #[trigger] results[i] is Ok by {
                    assert(init[i] == results[i]);
                }
                assert(!(init[k] is Ok));
            },
            Ok(values) => {
                match results.last() {
                    Ok(v) => {
                        assert forall|i: int| 0 <= i < results.len() implies #[trigger] results[i] is Ok by {
                            if i < results.len() - 1 {
                                assert(init[i] == results[i]);
                            }
                        }
                        assert forall|i: int| 0 <= i < results.len() implies results[i] == Ok::<V, BustubxError>(#[trigger] values.push(v)[i]) by {
                            if i < results.len() - 1 {
                                assert(init[i] == results[i]);
                            }
                        }
                    },
                    Err(e) => {
                        let k = results.len() - 1;
                        assert forall|i: int| 0 <= i < k implies #[trigger] results[i] is Ok by {
                            assert(init[i] == results[i]);
                            assert(init[i] is Ok);
                        }
                    },
                }
            },
        }
    }
}

/// Rows and errors projected but not yet returned, and whether the input
/// has ended.
pub struct ProjectState<T> {
    pub pending: VecDeque<Result<T, BustubxError>>,
    pub exhausted: bool,
}

/// The projection operator: expressions `X`, output schema `S`, input plan
/// `I`, rows `T`.
pub struct PhysicalProject<X, S, I, T> {
    pub exprs: X,
    pub schema: S,
    pub input: I,
    pub parallelism: usize,
    pub state: ProjectState<T>,
}

impl<X, S, I, T> PhysicalProject<X, S, I, T> {
    /// A serial projection of `input`.
    pub fn new(exprs: X, schema: S, input: I) -> (r: Self)
        ensures
            r.exprs == exprs,
            r.schema == schema,
            r.input == input,
            r.parallelism == 1,
            r.state.pending@.len() == 0,
            !r.state.exhausted,
    {
        PhysicalProject {
            exprs,
            schema,
            input,
            parallelism: 1,
            state: ProjectState { pending: VecDeque::new(), exhausted: false },
        }
    }

    /// The same projection with `workers` workers, clamped to `1..=64`.
    pub fn with_parallelism(self, workers: usize) -> (r: Self)
        ensures
            r.parallelism == spec_clamp_parallelism(workers),
            r.exprs == self.exprs,
            r.schema == self.schema,
            r.input == self.input,
            r.state == self.state,
    {
        let mut s = self;
        s.parallelism = clamp_parallelism(workers);
        s
    }

    /// The values of one projected row from its expressions' results: all
    /// values in order, or the first error.
    pub fn project<V>(&self, results: Vec<Result<V, BustubxError>>) -> (r: Result<
        Vec<V>,
        BustubxError,
    >)
        ensures
            match collect_results(results@) {
                Ok(values) => r matches Ok(v) && v@ == values,
                Err(e) => r == Err::<Vec<V>, BustubxError>(e),
            },
    {
        let ghost all = results@;
        let n = results.len();
        let mut rev = reversed(results);
        let mut values: Vec<V> = Vec::new();
        let mut i: usize = 0;
        while i < n
            invariant
                all == results@,
                n == all.len(),
                i <= n,
                rev@.len() == n - i,
                forall|j: int| 0 <= j < n - i ==> #[trigger] rev@[j] == all[n - 1 - j],
                collect_results(all.subrange(0, i as int)) == Ok::<Seq<V>, BustubxError>(values@),
            decreases n - i,
        {
            let item = rev.pop().unwrap();
            proof {
                assert(item == all[i as int]);
                assert(all.subrange(0, i + 1).drop_last() =~= all.subrange(0, i as int));
            }
            match item {
                Ok(v) => {
                    values.push(v);
                },
                Err(e) => {
                    proof {
                        lemma_collect_prefix_error(all, i as int);
                        assert(all[i as int] == Err::<V, BustubxError>(e));
                        assert(collect_results(all) == Err::<Seq<V>, BustubxError>(e));
                    }
                    return Err(e);
                },
            }
            i = i + 1;
        }
        assert(all.subrange(0, n as int) =~= all);
        Ok(values)
    }

    /// Restart: drop undelivered results and forget the end of input.
    pub fn init(&mut self)
        ensures
            final(self).exprs == old(self).exprs,
            final(self).schema == old(self).schema,
            final(self).input == old(self).input,
            final(self).parallelism == old(self).parallelism,
            final(self).state.pending@.len() == 0,
            !final(self).state.exhausted,
    {
        self.state = ProjectState { pending: VecDeque::new(), exhausted: false };
    }

    /// Whether the batched projection must fill and project a new batch
    /// before answering (nothing is pending and the input has not ended),
    /// and of at most how many rows.
    pub fn batch_to_fill(&self) -> (r: Option<usize>)
        ensures
            r == if self.state.pending@.len() == 0 && !self.state.exhausted {
                Some(BATCH_SIZE)
            } else {
                None::<usize>
            },
    {
        if self.state.pending.len() == 0 && !self.state.exhausted {
            Some(BATCH_SIZE)
        } else {
            None
        }
    }

    /// Take a batch's projected rows (in input order, errors in place) or
    /// a failure of the evaluation itself. Rows are queued, followed by the
    /// input's error if it failed; an input that ended or failed is not
    /// read again. A failed evaluation ends the projection and is returned.
    pub fn absorb(
        &mut self,
        rows: Result<Vec<Result<T, BustubxError>>, BustubxError>,
        end: BatchEnd,
    ) -> (r: Result<(), BustubxError>)
        ensures
            final(self).exprs == old(self).exprs,
            final(self).schema == old(self).schema,
            final(self).input == old(self).input,
            final(self).parallelism == old(self).parallelism,
            match rows {
                Err(e) => r == Err::<(), BustubxError>(e) && final(self).state.exhausted
                    && final(self).state.pending@ == old(self).state.pending@,
                Ok(v) => r is Ok && final(self).state.exhausted == (old(self).state.exhausted
                    || !(end is Continues)) && final(self).state.pending@ == old(
                    self,
                ).state.pending@ + v@ + end_error::<T>(end),
            },
    {
        if !matches!(end, BatchEnd::Continues) {
            self.state.exhausted = true;
        }
        let rows = match rows {
            Ok(v) => v,
            Err(e) => {
                self.state.exhausted = true;
                return Err(e);
            },
        };
        let ghost all = rows@;
        let ghost start = self.state.pending@;
        let n = rows.len();
        let mut rev = reversed(rows);
        let mut i: usize = 0;
        while i < n
            invariant
                n == all.len(),
                i <= n,
                rev@.len() == n - i,
                forall|j: int| 0 <= j < n - i ==> #[trigger] rev@[j] == all[n - 1 - j],
                self.state.pending@ == start + all.subrange(0, i as int),
                self.exprs == old(self).exprs,
                self.schema == old(self).schema,
                self.input == old(self).input,
                self.parallelism == old(self).parallelism,
                self.state.exhausted == (old(self).state.exhausted || !(end is Continues)),
            decreases n - i,
        {
            let row = rev.pop().unwrap();
            self.state.pending.push_back(row);
            proof {
                assert(self.state.pending@ =~= start + all.subrange(0, i + 1));
            }
            i = i + 1;
        }
        assert(all.subrange(0, n as int) =~= all);
        if let BatchEnd::Failed(e) = end {
            self.state.pending.push_back(Err(e));
        }
        Ok(())
    }

    /// The next result of the batched projection: the oldest pending one,
    /// or the end when nothing is pending.
    pub fn take_next(&mut self) -> (r: Result<Option<T>, BustubxError>)
        ensures
            final(self).exprs == old(self).exprs,
            final(self).schema == old(self).schema,
            final(self).input == old(self).input,
            final(self).parallelism == old(self).parallelism,
            final(self).state.exhausted == old(self).state.exhausted,
            old(self).state.pending@.len() == 0 ==> r == Ok::<Option<T>, BustubxError>(None)
                && final(self).state.pending@ == old(self).state.pending@,
            old(self).state.pending@.len() > 0 ==> final(self).state.pending@ == old(
                self,
            ).state.pending@.drop_first() && r == match old(self).state.pending@[0] {
                Ok(t) => Ok(Some(t)),
                Err(e) => Err::<Option<T>, BustubxError>(e),
            },
    {
        match self.state.pending.pop_front() {
            Some(Ok(t)) => Ok(Some(t)),
            Some(Err(e)) => Err(e),
            None => Ok(None),
        }
    }
}

proof fn lemma_collect_prefix_error<V>(all: Seq<Result<V, BustubxError>>, i: int)
    requires
        0 <= i < all.len(),
        collect_results(all.subrange(0, i)) is Ok,
        all[i] is Err,
    ensures
        collect_results(all) == Err::<Seq<V>, BustubxError>(all[i]->Err_0),
    decreases all.len() - i,
{
    if i == all.len() - 1 {
        assert(all.drop_last() =~= all.subrange(0, i));
    } else {
        assert(all.drop_last().subrange(0, i) =~= all.subrange(0, i));
        lemma_collect_prefix_error(all.drop_last(), i);
    }
}

} // verus!
