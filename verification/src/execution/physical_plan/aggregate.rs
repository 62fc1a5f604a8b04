//! Hash aggregation: the result rows are built once, on the first call
//! after (re)initialization, then handed out one by one.
use crate::execution::parallel::{clamp_parallelism, spec_clamp_parallelism};
use crate::execution::physical_plan::batch::reversed;
use std::collections::VecDeque;
use vstd::prelude::*;

verus! {

/// Result rows not yet returned, and whether they have been built.
pub struct AggregateState<T> {
    pub rows: VecDeque<T>,
    pub built: bool,
}

/// The aggregate operator: input plan `I`, group-by expressions `G`,
/// aggregate expressions `A`, output schema `S`, rows `T`.
pub struct PhysicalAggregate<I, G, A, S, T> {
    pub input: I,
    pub group_exprs: G,
    pub aggr_exprs: A,
    pub schema: S,
    pub parallelism: usize,
    pub state: AggregateState<T>,
}

impl<I, G, A, S, T> PhysicalAggregate<I, G, A, S, T> {
    /// A serial aggregation of `input`.
    pub fn new(input: I, group_exprs: G, aggr_exprs: A, schema: S) -> (r: Self)
        ensures
            r.input == input,
            r.group_exprs == group_exprs,
            r.aggr_exprs == aggr_exprs,
            r.schema == schema,
            r.parallelism == 1,
            r.state.rows@.len() == 0,
            !r.state.built,
    {
        PhysicalAggregate {
            input,
            group_exprs,
            aggr_exprs,
            schema,
            parallelism: 1,
            state: AggregateState { rows: VecDeque::new(), built: false },
        }
    }

    /// The same aggregation with `workers` workers, clamped to `1..=64`.
    pub fn with_parallelism(self, workers: usize) -> (r: Self)
        ensures
            r.parallelism == spec_clamp_parallelism(workers),
            r.input == self.input,
            r.group_exprs == self.group_exprs,
            r.aggr_exprs == self.aggr_exprs,
            r.schema == self.schema,
            r.state == self.state,
    {
        let mut s = self;
        s.parallelism = clamp_parallelism(workers);
        s
    }

    /// Restart: results are rebuilt by the next call.
    pub fn init(&mut self)
        ensures
            final(self).input == old(self).input,
            final(self).group_exprs == old(self).group_exprs,
            final(self).aggr_exprs == old(self).aggr_exprs,
            final(self).schema == old(self).schema,
            final(self).parallelism == old(self).parallelism,
            final(self).state.rows@.len() == 0,
            !final(self).state.built,
    {
        self.state = AggregateState { rows: VecDeque::new(), built: false };
    }

    /// Begin a call: returns whether the results must be built now (the
    /// first call since initialization). From then on they count as built,
    /// so a failed build yields no rows afterwards.
    pub fn begin_next(&mut self) -> (r: bool)
        ensures
            final(self).input == old(self).input,
            final(self).group_exprs == old(self).group_exprs,
            final(self).aggr_exprs == old(self).aggr_exprs,
            final(self).schema == old(self).schema,
            final(self).parallelism == old(self).parallelism,
            r == !old(self).state.built,
            final(self).state.built,
            final(self).state.rows@ == old(self).state.rows@,
    {
        let must_build = !self.state.built;
        self.state.built = true;
        must_build
    }

    /// Store the built result rows, in order.
    pub fn set_rows(&mut self, rows: Vec<T>)
        ensures
            final(self).input == old(self).input,
            final(self).group_exprs == old(self).group_exprs,
            final(self).aggr_exprs == old(self).aggr_exprs,
            final(self).schema == old(self).schema,
            final(self).parallelism == old(self).parallelism,
            final(self).state.built == old(self).state.built,
            final(self).state.rows@ == rows@,
    {
        let ghost all = rows@;
        let n = rows.len();
        let mut rev = reversed(rows);
        let mut queue: VecDeque<T> = VecDeque::new();
        let mut i: usize = 0;
        while i < n
            invariant
                n == all.len(),
                i <= n,
                rev@.len() == n - i,
                forall|j: int| 0 <= j < n - i ==> #[trigger] rev@[j] == all[n - 1 - j],
                queue@ == all.subrange(0, i as int),
            decreases n - i,
        {
            let row = rev.pop().unwrap();
            queue.push_back(row);
            proof {
                assert(queue@ =~= all.subrange(0, i + 1));
            }
            i = i + 1;
        }
        assert(all.subrange(0, n as int) =~= all);
        self.state.rows = queue;
    }

    /// The next result row, if any.
    pub fn pop(&mut self) -> (r: Option<T>)
        ensures
            final(self).input == old(self).input,
            final(self).group_exprs == old(self).group_exprs,
            final(self).aggr_exprs == old(self).aggr_exprs,
            final(self).schema == old(self).schema,
            final(self).parallelism == old(self).parallelism,
            final(self).state.built == old(self).state.built,
            old(self).state.rows@.len() == 0 ==> r is None && final(self).state.rows@ == old(
                self,
            ).state.rows@,
            old(self).state.rows@.len() > 0 ==> r == Some(old(self).state.rows@[0])
                && final(self).state.rows@ == old(self).state.rows@.drop_first(),
    {
        self.state.rows.pop_front()
    }
}

} // verus!
