//! Grouping for hash aggregation: rows are grouped by their group id, each
//! chunk of a batch into a partial table (possibly by a worker), and the
//! partial tables are merged in order. Groups stay in the order their ids
//! first appear.
use crate::execution::physical_plan::batch::reversed;
use crate::execution::physical_plan::grouping_laws::{
    lemma_absent, lemma_absent_everywhere, lemma_present, lemma_push_positions,
};
use crate::function::aggregate::avg::SumValue;
use crate::function::aggregate::{
    average_of, build_accumulators, build_error, call_kind, calls_valid, fresh_tally, input_value,
    reports, sum_after, tally_merge, tally_update, AggregateCall, AggregateInput, AggregateValue,
    AnyAccumulator, Failure, Tally,
};
use crate::BustubxError;
use std::collections::HashMap;
use vstd::prelude::*;

verus! {

broadcast use vstd::std_specs::hash::group_hash_axioms;

/// The tallies of a group's accumulators.
pub open spec fn tallies_of<F: SumValue>(accs: Seq<AnyAccumulator<F>>) -> Seq<Tally> {
    accs.map_values(|a: AnyAccumulator<F>| a.tally())
}

/// The AVG sums of a group's accumulators (none for COUNT).
pub open spec fn sums_of<F: SumValue>(accs: Seq<AnyAccumulator<F>>) -> Seq<Option<F>> {
    accs.map_values(|a: AnyAccumulator<F>| a.avg_sum())
}

/// Whether `new` are a group's AVG sums after the row inputs `inputs` were
/// given to accumulators with tallies `t` and sums `old`: each AVG
/// accumulator that takes an input adds its numeric value.
pub open spec fn sums_after_inputs<F: SumValue>(
    old: Seq<Option<F>>,
    t: Seq<Tally>,
    inputs: Seq<Result<AggregateInput<F>, BustubxError>>,
    new: Seq<Option<F>>,
) -> bool {
    &&& new.len() == old.len()
    &&& forall|j: int|
        0 <= j < old.len() ==> sum_after(
            old[j],
            if j < zip_len(t, inputs) && t[j] is Avg {
                input_value(inputs[j]->Ok_0)
            } else {
                None
            },
            #[trigger] new[j],
        )
}

/// Whether `new` are a group's AVG sums after merging partial sums `s`
/// (zipped) into `old`.
pub open spec fn sums_after_merge<F: SumValue>(
    old: Seq<Option<F>>,
    s: Seq<Option<F>>,
    new: Seq<Option<F>>,
) -> bool {
    &&& new.len() == old.len()
    &&& forall|j: int|
        0 <= j < old.len() ==> sum_after(
            old[j],
            if j < zip_len(old, s) {
                s[j]
            } else {
                None
            },
            #[trigger] new[j],
        )
}

/// The AVG sums of a new group: none yet.
pub open spec fn no_sums<F>(n: nat) -> Seq<Option<F>> {
    Seq::new(n, |j: int| None::<F>)
}

/// Whether `new_sums` are a table's AVG sums after a row, given the table's
/// groups `groups` and sums `sums` before it and its groups `new_groups`
/// after: the row's group's sums (none for a new group) took the row's
/// inputs; every other group's sums are unchanged.
pub open spec fn sums_after_row<F: SumValue>(
    groups: GroupsView,
    sums: Seq<Seq<Option<F>>>,
    calls: Seq<AggregateCall>,
    id: u64,
    inputs: Seq<Result<AggregateInput<F>, BustubxError>>,
    new_groups: GroupsView,
    new_sums: Seq<Seq<Option<F>>>,
) -> bool {
    let p = position_of(new_groups, id);
    let existing = position_of(groups, id) >= 0;
    &&& new_sums.len() == new_groups.len()
    &&& 0 <= p < new_sums.len()
    &&& forall|i: int| 0 <= i < sums.len() && i != p ==> #[trigger] new_sums[i] == sums[i]
    &&& sums_after_inputs(
        if existing {
            sums[p]
        } else {
            no_sums(calls.len())
        },
        if existing {
            groups[p].1
        } else {
            fresh_tallies(calls)
        },
        inputs,
        new_sums[p],
    )
}

/// Whether `new_sums` are a table's AVG sums after merging a partial
/// table (groups `partial`, sums `psums`) into groups `groups` with sums
/// `sums`: a group of an id of the partial table has the partial sums
/// merged into its own, or takes them as they are when it is new; every
/// other group keeps its sums.
pub open spec fn sums_after_partial<F: SumValue>(
    sums: Seq<Seq<Option<F>>>,
    partial: GroupsView,
    psums: Seq<Seq<Option<F>>>,
    new_groups: GroupsView,
    new_sums: Seq<Seq<Option<F>>>,
) -> bool {
    &&& new_sums.len() == new_groups.len()
    &&& new_groups.len() >= sums.len()
    &&& forall|i: int|
        0 <= i < new_groups.len() ==> {
            let k = position_of(partial, (#[trigger] new_groups[i]).0);
            if k < 0 {
                i < sums.len() && new_sums[i] == sums[i]
            } else if i < sums.len() {
                sums_after_merge(sums[i], psums[k], new_sums[i])
            } else {
                new_sums[i] == psums[k]
            }
        }
}

/// The tallies of a new group's fresh accumulators.
pub open spec fn fresh_tallies(calls: Seq<AggregateCall>) -> Seq<Tally> {
    calls.map_values(|c: AggregateCall| fresh_tally(call_kind(c)))
}

/// How many pairs zipping `a` with `b` gives.
pub open spec fn zip_len<A, B>(a: Seq<A>, b: Seq<B>) -> nat {
    if a.len() < b.len() {
        a.len()
    } else {
        b.len()
    }
}

/// The failure, if any, of giving the tally `t` one evaluated input.
pub open spec fn input_failure<F>(t: Tally, input: Result<AggregateInput<F>, BustubxError>) -> Option<
    Failure,
> {
    match input {
        Err(e) => Some(Failure::Passed(e)),
        Ok(i) => match tally_update(t, i) {
            Ok(_) => None,
            Err(f) => Some(f),
        },
    }
}

/// The first failure among the first `n` tallies and their inputs.
pub open spec fn first_input_failure<F>(
    t: Seq<Tally>,
    inputs: Seq<Result<AggregateInput<F>, BustubxError>>,
    n: nat,
) -> Option<Failure>
    decreases n,
{
    if n == 0 {
        None
    } else {
        match first_input_failure(t, inputs, (n - 1) as nat) {
            Some(f) => Some(f),
            None => input_failure(t[n - 1], inputs[n - 1]),
        }
    }
}

/// A group's tallies after one row: each tally takes its own input (the
/// two zipped, in order); the first failure, if any, decides.
pub open spec fn update_tallies<F>(
    t: Seq<Tally>,
    inputs: Seq<Result<AggregateInput<F>, BustubxError>>,
) -> Result<Seq<Tally>, Failure> {
    let n = zip_len(t, inputs);
    match first_input_failure(t, inputs, n) {
        Some(f) => Err(f),
        None => Ok(
            Seq::new(
                t.len(),
                |j: int|
                    if j < n {
                        tally_update(t[j], inputs[j]->Ok_0)->Ok_0
                    } else {
                        t[j]
                    },
            ),
        ),
    }
}

proof fn lemma_first_input_failure_stays<F>(
    t: Seq<Tally>,
    inputs: Seq<Result<AggregateInput<F>, BustubxError>>,
    j: nat,
    m: nat,
)
    requires
        j <= m,
        first_input_failure(t, inputs, j) is Some,
    ensures
        first_input_failure(t, inputs, m) == first_input_failure(t, inputs, j),
    decreases m,
{
    if m > j {
        lemma_first_input_failure_stays(t, inputs, j, (m - 1) as nat);
    }
}

/// Give each accumulator of a group its input of one row, in order.
fn update_group<F: SumValue>(
    accs: &mut Vec<AnyAccumulator<F>>,
    inputs: Vec<Result<AggregateInput<F>, BustubxError>>,
) -> (r: Result<(), BustubxError>)
    ensures
        final(accs)@.len() == old(accs)@.len(),
        match update_tallies(tallies_of(old(accs)@), inputs@) {
            Ok(t) => r is Ok && tallies_of(final(accs)@) == t && sums_after_inputs(
                sums_of(old(accs)@),
                tallies_of(old(accs)@),
                inputs@,
                sums_of(final(accs)@),
            ),
            Err(f) => r matches Err(e) && reports(f, e),
        },
{
    let ghost t0 = tallies_of(accs@);
    let ghost all = inputs@;
    let n: usize = if accs.len() < inputs.len() {
        accs.len()
    } else {
        inputs.len()
    };
    let len = inputs.len();
    let mut rest = reversed(inputs);
    let mut j: usize = 0;
    while j < n
        invariant
            n == zip_len(t0, all),
            len == all.len(),
            j <= n,
            t0 == tallies_of(old(accs)@),
            all == inputs@,
            accs@.len() == t0.len(),
            rest@.len() == len - j,
            forall|k: int| 0 <= k < len - j ==> #[trigger] rest@[k] == all[len - 1 - k],
            first_input_failure(t0, all, j as nat) is None,
            sums_of(accs@).len() == t0.len(),
            forall|k: int|
                0 <= k < t0.len() ==> sum_after(
                    sums_of(old(accs)@)[k],
                    if k < j && t0[k] is Avg {
                        input_value(all[k]->Ok_0)
                    } else {
                        None
                    },
                    #[trigger] sums_of(accs@)[k],
                ),
            tallies_of(accs@) == Seq::new(
                t0.len(),
                |k: int|
                    if k < j {
                        tally_update(t0[k], all[k]->Ok_0)->Ok_0
                    } else {
                        t0[k]
                    },
            ),
        decreases n - j,
    {
        let ghost prev = accs@;
        let input = rest.pop().unwrap();
        assert(input == all[j as int]);
        assert(tallies_of(accs@)[j as int] == accs@[j as int].tally());
        match input {
            Err(e) => {
                proof {
                    lemma_first_input_failure_stays(t0, all, (j + 1) as nat, n as nat);
                }
                return Err(e);
            },
            Ok(i) => {
                let ghost ti = tally_update(t0[j as int], i);
                let res = accs[j].update_value(i);
                assert(accs@ == prev.update(j as int, accs@[j as int]));
                match res {
                    Err(e) => {
                        proof {
                            lemma_first_input_failure_stays(t0, all, (j + 1) as nat, n as nat);
                        }
                        return Err(e);
                    },
                    Ok(()) => {
                        assert(ti is Ok && accs@[j as int].tally() == ti->Ok_0);
                        assert(all[j as int]->Ok_0 == i);
                    },
                }
            },
        }
        proof {
            assert(sums_of(prev)[j as int] == prev[j as int].avg_sum());
            assert(sums_of(accs@)[j as int] == accs@[j as int].avg_sum());
            assert((t0[j as int] is Avg) == (prev[j as int] is Avg)) by {
                assert(tallies_of(prev)[j as int] == prev[j as int].tally());
            }
            assert forall|k: int| 0 <= k < t0.len() implies sum_after(
                sums_of(old(accs)@)[k],
                if k < j + 1 && t0[k] is Avg {
                    input_value(all[k]->Ok_0)
                } else {
                    None
                },
                #[trigger] sums_of(accs@)[k],
            ) by {
                if k != j {
                    assert(accs@[k] == prev[k]);
                    assert(sums_of(prev)[k] == prev[k].avg_sum());
                    assert(sums_of(accs@)[k] == accs@[k].avg_sum());
                }
            }
            let ghost cur = tallies_of(accs@);
            assert forall|k: int| 0 <= k < t0.len() implies #[trigger] cur[k] == (if k < j + 1 {
                tally_update(t0[k], all[k]->Ok_0)->Ok_0
            } else {
                t0[k]
            }) by {
                assert(cur[k] == accs@[k].tally());
                if k != j {
                    assert(accs@[k] == prev[k]);
                    assert(tallies_of(prev)[k] == prev[k].tally());
                }
            }
            assert(tallies_of(accs@) =~= Seq::new(
                t0.len(),
                |k: int|
                    if k < j + 1 {
                        tally_update(t0[k], all[k]->Ok_0)->Ok_0
                    } else {
                        t0[k]
                    },
            ));
        }
        j = j + 1;
    }
    Ok(())
}

/// The accumulators of a new group, one per aggregate expression.
fn new_group<F: SumValue>(calls: &Vec<AggregateCall>) -> (r: Result<
    Vec<AnyAccumulator<F>>,
    BustubxError,
>)
    ensures
        r is Ok <==> calls_valid(calls@),
        r matches Ok(accs) ==> tallies_of(accs@) == fresh_tallies(calls@) && sums_of(accs@)
            == no_sums::<F>(calls@.len()),
        r matches Err(e) ==> build_error(calls@, e),
{
    let kinds = build_accumulators(calls)?;
    let mut accs: Vec<AnyAccumulator<F>> = Vec::new();
    let mut i: usize = 0;
    while i < kinds.len()
        invariant
            kinds@ == calls@.map_values(|c: AggregateCall| call_kind(c)),
            i <= kinds@.len(),
            accs@.len() == i,
            forall|k: int| 0 <= k < i ==> #[trigger] accs@[k].tally() == fresh_tally(kinds@[k]),
            forall|k: int| 0 <= k < i ==> (#[trigger] accs@[k]).avg_sum() is None,
        decreases kinds@.len() - i,
    {
        let a = kinds[i].create_accumulator();
        accs.push(a);
        i = i + 1;
    }
    assert(tallies_of(accs@) =~= fresh_tallies(calls@));
    assert(sums_of(accs@) =~= no_sums::<F>(calls@.len()));
    Ok(accs)
}

/// Groups in the order their keys first appeared: each group's id and the
/// tallies of its accumulators.
pub type GroupsView = Seq<(u64, Seq<Tally>)>;

/// No two groups share an id.
pub open spec fn distinct_ids(groups: GroupsView) -> bool {
    forall|i: int, j: int| 0 <= i < j < groups.len() ==> groups[i].0 != groups[j].0
}

/// Where the group of `id` stands, or -1 if there is none.
pub open spec fn position_of(groups: GroupsView, id: u64) -> int {
    if exists|i: int| 0 <= i < groups.len() && groups[i].0 == id {
        choose|i: int| 0 <= i < groups.len() && groups[i].0 == id
    } else {
        -1
    }
}

/// Whether `e` is the error reported for failure `f` when accumulating
/// with the aggregate expressions `calls`.
pub open spec fn failure_error(f: Failure, calls: Seq<AggregateCall>, e: BustubxError) -> bool {
    match f {
        Failure::Unsupported => build_error(calls, e),
        _ => reports(f, e),
    }
}

/// The groups after one row: a key that failed to evaluate fails; an
/// unseen key opens a new group at the end (refused when the aggregate
/// expressions cannot be accumulated); then the group's tallies take the
/// row's inputs.
pub open spec fn row_step<F>(
    groups: GroupsView,
    calls: Seq<AggregateCall>,
    key: Result<u64, BustubxError>,
    inputs: Seq<Result<AggregateInput<F>, BustubxError>>,
) -> Result<GroupsView, Failure> {
    match key {
        Err(e) => Err(Failure::Passed(e)),
        Ok(id) => {
            let pos = position_of(groups, id);
            if pos < 0 && !calls_valid(calls) {
                Err(Failure::Unsupported)
            } else {
                let g = if pos < 0 {
                    groups.push((id, fresh_tallies(calls)))
                } else {
                    groups
                };
                let p = if pos < 0 {
                    groups.len() as int
                } else {
                    pos
                };
                match update_tallies(g[p].1, inputs) {
                    Err(f) => Err(f),
                    Ok(t) => Ok(g.update(p, (id, t))),
                }
            }
        },
    }
}

/// One input row of an aggregation: its group id (or the error its group
/// key evaluated to) and, per aggregate expression, its input value (or
/// the error the expression evaluated to).
pub struct RowInputs<F> {
    pub key: Result<u64, BustubxError>,
    pub inputs: Vec<Result<AggregateInput<F>, BustubxError>>,
}

/// The groups after the rows, in order, starting from `groups`.
pub open spec fn accumulate_from<F>(
    groups: GroupsView,
    calls: Seq<AggregateCall>,
    rows: Seq<RowInputs<F>>,
) -> Result<GroupsView, Failure>
    decreases rows.len(),
{
    if rows.len() == 0 {
        Ok(groups)
    } else {
        match accumulate_from(groups, calls, rows.drop_last()) {
            Err(f) => Err(f),
            Ok(g) => row_step(g, calls, rows.last().key, rows.last().inputs@),
        }
    }
}

/// Whether `sums` are the AVG sums of the groups of a chunk of rows that
/// groups without failing: each row's group took that row's inputs, row
/// by row (see `sums_after_row`).
pub open spec fn sums_after_rows<F: SumValue>(
    calls: Seq<AggregateCall>,
    rows: Seq<RowInputs<F>>,
    sums: Seq<Seq<Option<F>>>,
) -> bool
    decreases rows.len(),
{
    if rows.len() == 0 {
        sums.len() == 0
    } else {
        exists|prev: Seq<Seq<Option<F>>>|
            sums_after_rows(calls, rows.drop_last(), prev) && #[trigger] sums_after_row(
                accumulate_rows(calls, rows.drop_last())->Ok_0,
                prev,
                calls,
                rows.last().key->Ok_0,
                rows.last().inputs@,
                accumulate_rows(calls, rows)->Ok_0,
                sums,
            )
    }
}

/// The groups of a chunk of rows.
pub open spec fn accumulate_rows<F>(calls: Seq<AggregateCall>, rows: Seq<RowInputs<F>>) -> Result<
    GroupsView,
    Failure,
> {
    accumulate_from(Seq::empty(), calls, rows)
}

/// With distinct ids, the group of `id` is the one that holds it.
pub(crate) proof fn lemma_position(groups: GroupsView, id: u64, p: int)
    requires
        distinct_ids(groups),
        0 <= p < groups.len(),
        groups[p].0 == id,
    ensures
        position_of(groups, id) == p,
{
    let i = choose|i: int| 0 <= i < groups.len() && groups[i].0 == id;
    assert(0 <= i < groups.len() && groups[i].0 == id);
}

/// The failure, if any, of merging the partial tally `s` into `t`.
pub open spec fn merge_failure(t: Tally, s: Tally) -> Option<Failure> {
    match tally_merge(t, s) {
        Ok(_) => None,
        Err(f) => Some(f),
    }
}

/// The first failure among the first `n` pairs of tallies.
pub open spec fn first_merge_failure(t: Seq<Tally>, s: Seq<Tally>, n: nat) -> Option<Failure>
    decreases n,
{
    if n == 0 {
        None
    } else {
        match first_merge_failure(t, s, (n - 1) as nat) {
            Some(f) => Some(f),
            None => merge_failure(t[n - 1], s[n - 1]),
        }
    }
}

/// A group's tallies after merging a partial group's tallies into them
/// (the two zipped, in order); the first failure, if any, decides.
pub open spec fn merge_tallies(t: Seq<Tally>, s: Seq<Tally>) -> Result<Seq<Tally>, Failure> {
    let n = zip_len(t, s);
    match first_merge_failure(t, s, n) {
        Some(f) => Err(f),
        None => Ok(
            Seq::new(
                t.len(),
                |j: int|
                    if j < n {
                        tally_merge(t[j], s[j])->Ok_0
                    } else {
                        t[j]
                    },
            ),
        ),
    }
}

/// The groups after merging one partial group: an unseen id is appended,
/// a known one has the partial tallies merged into its own.
pub open spec fn merge_group(groups: GroupsView, g: (u64, Seq<Tally>)) -> Result<GroupsView, Failure> {
    let pos = position_of(groups, g.0);
    if pos < 0 {
        Ok(groups.push(g))
    } else {
        match merge_tallies(groups[pos].1, g.1) {
            Err(f) => Err(f),
            Ok(t) => Ok(groups.update(pos, (g.0, t))),
        }
    }
}

/// The groups after merging a partial table's groups, in order.
pub open spec fn merge_groups(groups: GroupsView, partial: GroupsView) -> Result<GroupsView, Failure>
    decreases partial.len(),
{
    if partial.len() == 0 {
        Ok(groups)
    } else {
        match merge_groups(groups, partial.drop_last()) {
            Err(f) => Err(f),
            Ok(g) => merge_group(g, partial.last()),
        }
    }
}

/// The groups after merging partial tables in order; the first failed
/// partial table, or the first failing merge, decides.
pub open spec fn merge_all(groups: GroupsView, partials: Seq<Result<GroupsView, BustubxError>>) -> Result<
    GroupsView,
    Failure,
>
    decreases partials.len(),
{
    if partials.len() == 0 {
        Ok(groups)
    } else {
        match merge_all(groups, partials.drop_last()) {
            Err(f) => Err(f),
            Ok(g) => match partials.last() {
                Err(e) => Err(Failure::Passed(e)),
                Ok(p) => merge_groups(g, p),
            },
        }
    }
}

/// The views of partial tables.
pub open spec fn partial_views<F: SumValue>(partials: Seq<Result<GroupTable<F>, BustubxError>>) -> Seq<
    Result<GroupsView, BustubxError>,
> {
    partials.map_values(
        |r: Result<GroupTable<F>, BustubxError>|
            match r {
                Ok(t) => Ok(t@),
                Err(e) => Err(e),
            },
    )
}

/// Whether `sums` are the AVG sums after merging the partial tables, in
/// order, into groups `groups` with sums `start`, when no merge fails:
/// each partial table's sums were merged in as `sums_after_partial` says.
pub open spec fn sums_after_partials<F: SumValue>(
    groups: GroupsView,
    start: Seq<Seq<Option<F>>>,
    partials: Seq<Result<GroupTable<F>, BustubxError>>,
    sums: Seq<Seq<Option<F>>>,
) -> bool
    decreases partials.len(),
{
    if partials.len() == 0 {
        sums == start
    } else {
        exists|prev: Seq<Seq<Option<F>>>|
            sums_after_partials(groups, start, partials.drop_last(), prev) && #[trigger] sums_after_partial(
                prev,
                partials.last()->Ok_0@,
                partials.last()->Ok_0.sums(),
                merge_all(groups, partial_views(partials))->Ok_0,
                sums,
            )
    }
}

/// Whether `v` is the value of an accumulator whose tally is `t` and AVG
/// sum is `sum`: the count, or the sum divided by the count.
pub open spec fn value_of<F: SumValue>(v: AggregateValue<F>, t: Tally, sum: Option<F>) -> bool {
    match t {
        Tally::Count(c) => v == AggregateValue::<F>::Count(c),
        Tally::Avg { count, .. } => v matches AggregateValue::Avg(a) && average_of(sum, count, a),
    }
}

proof fn lemma_first_merge_failure_stays(t: Seq<Tally>, s: Seq<Tally>, j: nat, m: nat)
    requires
        j <= m,
        first_merge_failure(t, s, j) is Some,
    ensures
        first_merge_failure(t, s, m) == first_merge_failure(t, s, j),
    decreases m,
{
    if m > j {
        lemma_first_merge_failure_stays(t, s, j, (m - 1) as nat);
    }
}

/// Merge a partial group's accumulators into a group's, pairwise.
fn merge_into<F: SumValue>(dest: &mut Vec<AnyAccumulator<F>>, src: Vec<AnyAccumulator<F>>) -> (r:
    Result<(), BustubxError>)
    ensures
        final(dest)@.len() == old(dest)@.len(),
        match merge_tallies(tallies_of(old(dest)@), tallies_of(src@)) {
            Ok(t) => r is Ok && tallies_of(final(dest)@) == t && sums_after_merge(
                sums_of(old(dest)@),
                sums_of(src@),
                sums_of(final(dest)@),
            ),
            Err(f) => r matches Err(e) && reports(f, e),
        },
{
    let ghost t0 = tallies_of(dest@);
    let ghost s0 = tallies_of(src@);
    let ghost all = src@;
    let n: usize = if dest.len() < src.len() {
        dest.len()
    } else {
        src.len()
    };
    let len = src.len();
    let mut rest = reversed(src);
    let mut j: usize = 0;
    while j < n
        invariant
            n == zip_len(t0, s0),
            len == all.len(),
            j <= n,
            t0 == tallies_of(old(dest)@),
            all == src@,
            s0 == tallies_of(all),
            dest@.len() == t0.len(),
            rest@.len() == len - j,
            forall|k: int| 0 <= k < len - j ==> #[trigger] rest@[k] == all[len - 1 - k],
            first_merge_failure(t0, s0, j as nat) is None,
            sums_of(dest@).len() == t0.len(),
            forall|k: int|
                0 <= k < t0.len() ==> sum_after(
                    sums_of(old(dest)@)[k],
                    if k < j {
                        sums_of(all)[k]
                    } else {
                        None
                    },
                    #[trigger] sums_of(dest@)[k],
                ),
            tallies_of(dest@) == Seq::new(
                t0.len(),
                |k: int|
                    if k < j {
                        tally_merge(t0[k], s0[k])->Ok_0
                    } else {
                        t0[k]
                    },
            ),
        decreases n - j,
    {
        let ghost prev = dest@;
        let source = rest.pop().unwrap();
        assert(source == all[j as int]);
        assert(s0[j as int] == source.tally());
        assert(tallies_of(dest@)[j as int] == dest@[j as int].tally());
        let state = source.state();
        let res = dest[j].merge(state);
        assert(dest@ == prev.update(j as int, dest@[j as int]));
        match res {
            Err(e) => {
                proof {
                    lemma_first_merge_failure_stays(t0, s0, (j + 1) as nat, n as nat);
                }
                return Err(e);
            },
            Ok(()) => {},
        }
        proof {
            assert(sums_of(prev)[j as int] == prev[j as int].avg_sum());
            assert(sums_of(dest@)[j as int] == dest@[j as int].avg_sum());
            assert(sums_of(all)[j as int] == source.avg_sum());
            assert forall|k: int| 0 <= k < t0.len() implies sum_after(
                sums_of(old(dest)@)[k],
                if k < j + 1 {
                    sums_of(all)[k]
                } else {
                    None
                },
                #[trigger] sums_of(dest@)[k],
            ) by {
                if k != j {
                    assert(dest@[k] == prev[k]);
                    assert(sums_of(prev)[k] == prev[k].avg_sum());
                    assert(sums_of(dest@)[k] == dest@[k].avg_sum());
                }
            }
            let ghost cur = tallies_of(dest@);
            assert forall|k: int| 0 <= k < t0.len() implies #[trigger] cur[k] == (if k < j + 1 {
                tally_merge(t0[k], s0[k])->Ok_0
            } else {
                t0[k]
            }) by {
                assert(cur[k] == dest@[k].tally());
                if k != j {
                    assert(dest@[k] == prev[k]);
                    assert(tallies_of(prev)[k] == prev[k].tally());
                }
            }
            assert(tallies_of(dest@) =~= Seq::new(
                t0.len(),
                |k: int|
                    if k < j + 1 {
                        tally_merge(t0[k], s0[k])->Ok_0
                    } else {
                        t0[k]
                    },
            ));
        }
        j = j + 1;
    }
    Ok(())
}

/// Groups of rows by id, with their accumulators.
pub struct GroupTable<F> {
    ids: Vec<u64>,
    accumulators: Vec<Vec<AnyAccumulator<F>>>,
    index: HashMap<u64, usize>,
}

impl<F: SumValue> View for GroupTable<F> {
    type V = GroupsView;

    closed spec fn view(&self) -> GroupsView {
        Seq::new(self.ids@.len(), |i: int| (self.ids@[i], tallies_of(self.accumulators@[i]@)))
    }
}

impl<F: SumValue> GroupTable<F> {
    /// The ids and accumulators correspond, ids are distinct, and the index
    /// finds each group.
    pub closed spec fn wf(&self) -> bool {
        &&& self.ids@.len() == self.accumulators@.len()
        &&& forall|i: int, j: int| 0 <= i < j < self.ids@.len() ==> self.ids@[i] != self.ids@[j]
        &&& forall|i: int|
            0 <= i < self.ids@.len() ==> #[trigger] self.index@.contains_key(self.ids@[i])
                && self.index@[self.ids@[i]] == i
        &&& forall|id: u64|
            #[trigger] self.index@.contains_key(id) ==> (self.index@[id] as int) < self.ids@.len()
                && self.ids@[self.index@[id] as int] == id
    }

    /// The AVG sums of each group's accumulators (none for COUNT).
    pub closed spec fn sums(&self) -> Seq<Seq<Option<F>>> {
        Seq::new(self.accumulators@.len(), |i: int| sums_of(self.accumulators@[i]@))
    }

    /// A well-formed table has distinct ids.
    pub proof fn lemma_distinct(&self)
        requires
            self.wf(),
        ensures
            distinct_ids(self@),
    {
    }

    /// No groups.
    pub fn new() -> (r: Self)
        ensures
            r.wf(),
            r@ == Seq::<(u64, Seq<Tally>)>::empty(),
            r.sums() == Seq::<Seq<Option<F>>>::empty(),
    {
        let r = GroupTable { ids: Vec::new(), accumulators: Vec::new(), index: HashMap::new() };
        assert(r@ =~= Seq::<(u64, Seq<Tally>)>::empty());
        assert(r.sums() =~= Seq::<Seq<Option<F>>>::empty());
        r
    }

    /// Where the group of `id` stands.
    fn find(&self, id: u64) -> (r: Option<usize>)
        requires
            self.wf(),
        ensures
            match r {
                Some(p) => p < self@.len() && position_of(self@, id) == p,
                None => position_of(self@, id) == -1,
            },
    {
        match self.index.get(&id) {
            Some(p) => {
                proof {
                    lemma_position(self@, id, *p as int);
                }
                Some(*p)
            },
            None => {
                assert(!exists|i: int| 0 <= i < self@.len() && self@[i].0 == id) by {
                    if exists|i: int| 0 <= i < self@.len() && self@[i].0 == id {
                        let i = choose|i: int| 0 <= i < self@.len() && self@[i].0 == id;
                        assert(self.index@.contains_key(self.ids@[i]));
                    }
                }
                None
            },
        }
    }

    /// Open a group for a new id.
    fn push_group(&mut self, id: u64, accs: Vec<AnyAccumulator<F>>)
        requires
            old(self).wf(),
            position_of(old(self)@, id) == -1,
        ensures
            final(self).wf(),
            final(self)@ == old(self)@.push((id, tallies_of(accs@))),
            final(self).sums() == old(self).sums().push(sums_of(accs@)),
    {
        let ghost before = self@;
        let ghost before_sums = self.sums();
        let ghost acc_view = accs@;
        let n = self.ids.len();
        self.ids.push(id);
        self.accumulators.push(accs);
        self.index.insert(id, n);
        proof {
            assert forall|i: int| 0 <= i < before.len() implies before[i].0 != id by {
                if before[i].0 == id {
                    assert(exists|i: int| 0 <= i < before.len() && before[i].0 == id);
                }
            }
            assert(self@ =~= before.push((id, tallies_of(accs@))));
            assert(self.sums() =~= before_sums.push(sums_of(acc_view)));
            assert forall|i: int| 0 <= i < self.ids@.len() implies #[trigger] self.index@.contains_key(
                self.ids@[i],
            ) && self.index@[self.ids@[i]] == i by {
                if i < n {
                    assert(self.ids@[i] == before[i].0);
                }
            }
            assert forall|i: int, j: int| 0 <= i < j < self.ids@.len() implies self.ids@[i]
                != self.ids@[j] by {
                assert(self.ids@[i] == before[i].0);
                if j < n {
                    assert(self.ids@[j] == old(self).ids@[j]);
                }
            }
            assert forall|k: u64| #[trigger] self.index@.contains_key(k) implies (self.index@[k] as int)
                < self.ids@.len() && self.ids@[self.index@[k] as int] == k by {
                if k != id {
                    assert(old(self).index@.contains_key(k));
                }
            }
        }
    }

    /// A table holding one new group for `id`, the group of all rows when
    /// nothing is grouped by.
    pub fn with_group(id: u64, calls: &Vec<AggregateCall>) -> (r: Result<Self, BustubxError>)
        ensures
            r is Ok <==> calls_valid(calls@),
            r matches Ok(t) ==> t.wf() && t@ == seq![(id, fresh_tallies(calls@))] && t.sums()
                == seq![no_sums::<F>(calls@.len())],
            r matches Err(e) ==> build_error(calls@, e),
    {
        let accs = new_group(calls)?;
        let mut t = GroupTable::new();
        t.push_group(id, accs);
        assert(t@ =~= seq![(id, fresh_tallies(calls@))]);
        assert(t.sums() =~= seq![no_sums::<F>(calls@.len())]);
        Ok(t)
    }

    /// The groups an aggregation starts with: none when it groups by
    /// keys; otherwise the one group (of `ungrouped_id`) that every row
    /// falls in, present even when there are no rows.
    pub fn for_aggregation(grouped: bool, ungrouped_id: u64, calls: &Vec<AggregateCall>) -> (r:
        Result<Self, BustubxError>)
        ensures
            r is Ok <==> grouped || calls_valid(calls@),
            r matches Ok(t) ==> t.wf() && t@ == if grouped {
                Seq::<(u64, Seq<Tally>)>::empty()
            } else {
                seq![(ungrouped_id, fresh_tallies(calls@))]
            },
            r matches Err(e) ==> build_error(calls@, e),
    {
        if grouped {
            Ok(GroupTable::new())
        } else {
            GroupTable::with_group(ungrouped_id, calls)
        }
    }

    /// Add one row to its group.
    pub fn accumulate_row(&mut self, calls: &Vec<AggregateCall>, row: RowInputs<F>) -> (r: Result<
        (),
        BustubxError,
    >)
        requires
            old(self).wf(),
        ensures
            final(self).wf(),
            match row_step(old(self)@, calls@, row.key, row.inputs@) {
                Ok(g) => r is Ok && final(self)@ == g && sums_after_row(
                    old(self)@,
                    old(self).sums(),
                    calls@,
                    row.key->Ok_0,
                    row.inputs@,
                    final(self)@,
                    final(self).sums(),
                ),
                Err(f) => r matches Err(e) && failure_error(f, calls@, e),
            },
    {
        let ghost before = self@;
        let ghost before_sums = self.sums();
        let id = match row.key {
            Ok(id) => id,
            Err(e) => {
                return Err(e);
            },
        };
        let p = match self.find(id) {
            Some(p) => p,
            None => {
                let accs = new_group(calls)?;
                let n = self.ids.len();
                self.push_group(id, accs);
                n
            },
        };
        assert(self.ids@.len() == self.accumulators@.len());
        assert(p < self@.len());
        let ghost mid = self@;
        let ghost mid_sums = self.sums();
        let ghost mid_accs = self.accumulators@[p as int]@;
        let ghost inputs = row.inputs@;
        let res = update_group(&mut self.accumulators[p], row.inputs);
        proof {
            assert(mid[p as int].1 == tallies_of(mid_accs));
            assert(mid[p as int].0 == id);
            assert(mid_sums[p as int] == sums_of(mid_accs));
        }
        match res {
            Ok(()) => {
                assert(self@ =~= mid.update(p as int, (id, tallies_of(self.accumulators@[p as int]@))));
                proof {
                    lemma_position(self@, id, p as int);
                    assert(self.sums() =~= mid_sums.update(
                        p as int,
                        sums_of(self.accumulators@[p as int]@),
                    ));
                    if (p as int) < before.len() {
                        lemma_position(before, id, p as int);
                        assert(mid_sums == before_sums);
                    } else {
                        assert(mid_sums[p as int] == no_sums::<F>(calls@.len()));
                        assert(mid[p as int].1 == fresh_tallies(calls@));
                    }
                }
                Ok(())
            },
            Err(e) => Err(e),
        }
    }

    /// Merge a partial table's groups, in order: an unseen id is appended
    /// with its accumulators, a known one has them merged into its own.
    pub fn merge_table(&mut self, partial: GroupTable<F>) -> (r: Result<(), BustubxError>)
        requires
            old(self).wf(),
            partial.wf(),
        ensures
            final(self).wf(),
            match merge_groups(old(self)@, partial@) {
                Ok(g) => r is Ok && final(self)@ == g && sums_after_partial(
                    old(self).sums(),
                    partial@,
                    partial.sums(),
                    final(self)@,
                    final(self).sums(),
                ),
                Err(f) => r matches Err(e) && reports(f, e),
            },
    {
        let ghost pv = partial@;
        let ghost ps = partial.sums();
        proof {
            partial.lemma_distinct();
            assert(self@.len() == self.sums().len());
            assert(sums_after_partial(
                old(self).sums(),
                pv.subrange(0, 0),
                ps.subrange(0, 0),
                self@,
                self.sums(),
            )) by {
                assert forall|q: int| 0 <= q < self@.len() implies position_of(
                    pv.subrange(0, 0),
                    (#[trigger] self@[q]).0,
                ) < 0 by {
                    lemma_absent(pv.subrange(0, 0), self@[q].0);
                }
            }
        }
        let GroupTable { ids, accumulators, index: _ } = partial;
        let n = ids.len();
        let mut rids = reversed(ids);
        let mut raccs = reversed(accumulators);
        let mut i: usize = 0;
        while i < n
            invariant
                n == pv.len(),
                pv == partial@,
                i <= n,
                rids@.len() == n - i,
                raccs@.len() == n - i,
                forall|k: int| 0 <= k < n - i ==> (#[trigger] rids@[k]) == pv[n - 1 - k].0,
                forall|k: int| 0 <= k < n - i ==> tallies_of((#[trigger] raccs@[k])@) == pv[n - 1 - k].1,
                forall|k: int| 0 <= k < n - i ==> sums_of((#[trigger] raccs@[k])@) == ps[n - 1 - k],
                ps.len() == n,
                distinct_ids(pv),
                self.wf(),
                self.sums().len() == self@.len(),
                merge_groups(old(self)@, pv.subrange(0, i as int)) == Ok::<GroupsView, Failure>(self@),
                sums_after_partial(
                    old(self).sums(),
                    pv.subrange(0, i as int),
                    ps.subrange(0, i as int),
                    self@,
                    self.sums(),
                ),
            decreases n - i,
        {
            let id = rids.pop().unwrap();
            let accs = raccs.pop().unwrap();
            let ghost pre = pv.subrange(0, i as int);
            let ghost pre1 = pv.subrange(0, i + 1);
            let ghost sp1 = ps.subrange(0, i + 1);
            let ghost mid = self@;
            let ghost mid_sums = self.sums();
            proof {
                assert(pv.subrange(0, i + 1).drop_last() =~= pv.subrange(0, i as int));
                assert(pv.subrange(0, i + 1).last() == (id, tallies_of(accs@)));
                assert(sums_of(accs@) == ps[i as int]);
                assert(pre1 =~= pre.push((id, tallies_of(accs@))));
                assert forall|k: int| 0 <= k < pre.len() implies (#[trigger] pre[k]).0 != id by {
                    assert(pre[k] == pv[k]);
                }
                lemma_absent(pre, id);
                assert(distinct_ids(pre)) by {
                    assert forall|a: int, b: int| 0 <= a < b < pre.len() implies pre[a].0 != pre[b].0 by {
                        assert(pre[a] == pv[a] && pre[b] == pv[b]);
                    }
                }
                assert forall|x: u64| true implies position_of(pre1, x) == if x == id {
                    i as int
                } else {
                    position_of(pre, x)
                } by {
                    lemma_push_positions(pre, (id, tallies_of(accs@)), x);
                }
                assert forall|k: int| 0 <= k < pre1.len() implies sp1[k] == ps[k] by {}
            }
            match self.find(id) {
                None => {
                    let ghost acc_sums = sums_of(accs@);
                    self.push_group(id, accs);
                    proof {
                        assert forall|q: int| 0 <= q < self@.len() implies ({
                            let k = position_of(pre1, (#[trigger] self@[q]).0);
                            if k < 0 {
                                q < old(self).sums().len() && self.sums()[q] == old(self).sums()[q]
                            } else if q < old(self).sums().len() {
                                sums_after_merge(old(self).sums()[q], sp1[k], self.sums()[q])
                            } else {
                                self.sums()[q] == sp1[k]
                            }
                        }) by {
                            if q < mid.len() {
                                lemma_absent_everywhere(mid, id, q);
                                assert(self@[q] == mid[q]);
                                assert(self.sums()[q] == mid_sums[q]);
                                let k = position_of(pre, mid[q].0);
                                if k >= 0 {
                                    assert(sp1[k] == ps.subrange(0, i as int)[k]);
                                }
                            } else {
                                assert(self@[q].0 == id);
                                assert(self.sums()[q] == acc_sums);
                            }
                        }
                    }
                },
                Some(p) => {
                    assert(self.ids@.len() == self.accumulators@.len());
                    assert(mid[p as int].1 == tallies_of(self.accumulators@[p as int]@));
                    assert(mid[p as int].0 == id);
                    assert(mid_sums[p as int] == sums_of(self.accumulators@[p as int]@));
                    proof {
                        assert(position_of(pre, mid[p as int].0) < 0);
                        assert((p as int) < old(self).sums().len());
                    }
                    let ghost acc_sums = sums_of(accs@);
                    let res = merge_into(&mut self.accumulators[p], accs);
                    match res {
                        Ok(()) => {
                            assert(self@ =~= mid.update(
                                p as int,
                                (id, tallies_of(self.accumulators@[p as int]@)),
                            ));
                            proof {
                                assert(self.sums() =~= mid_sums.update(
                                    p as int,
                                    sums_of(self.accumulators@[p as int]@),
                                ));
                                assert forall|q: int| 0 <= q < self@.len() implies ({
                                    let k = position_of(pre1, (#[trigger] self@[q]).0);
                                    if k < 0 {
                                        q < old(self).sums().len() && self.sums()[q] == old(
                                            self,
                                        ).sums()[q]
                                    } else if q < old(self).sums().len() {
                                        sums_after_merge(old(self).sums()[q], sp1[k], self.sums()[q])
                                    } else {
                                        self.sums()[q] == sp1[k]
                                    }
                                }) by {
                                    if q != p {
                                        assert(self@[q] == mid[q]);
                                        assert(mid[q].0 != id) by {
                                            assert(self.ids@[q as int] != self.ids@[p as int]);
                                        }
                                        let k = position_of(pre, mid[q].0);
                                        if k >= 0 {
                                            assert(sp1[k] == ps.subrange(0, i as int)[k]);
                                        }
                                    } else {
                                        assert(sp1[i as int] == acc_sums);
                                    }
                                }
                            }
                        },
                        Err(e) => {
                            proof {
                                lemma_merge_groups_fails_on(old(self)@, pv, (i + 1) as int);
                            }
                            return Err(e);
                        },
                    }
                },
            }
            i = i + 1;
        }
        assert(pv.subrange(0, n as int) =~= pv);
        Ok(())
    }

    /// Merge the partial tables of a batch's chunks, in order; a failed
    /// partial table, or a failing merge, ends the merging with its error.
    pub fn merge_partials(&mut self, partials: Vec<Result<GroupTable<F>, BustubxError>>) -> (r: Result<
        (),
        BustubxError,
    >)
        requires
            old(self).wf(),
            forall|k: int| 0 <= k < partials@.len() ==> (#[trigger] partials@[k] matches Ok(t) ==> t.wf()),
        ensures
            final(self).wf(),
            match merge_all(old(self)@, partial_views(partials@)) {
                Ok(g) => r is Ok && final(self)@ == g && sums_after_partials(
                    old(self)@,
                    old(self).sums(),
                    partials@,
                    final(self).sums(),
                ),
                Err(f) => r matches Err(e) && reports(f, e),
            },
    {
        let ghost pv = partial_views(partials@);
        let ghost all = partials@;
        let n = partials.len();
        let mut rest = reversed(partials);
        let mut i: usize = 0;
        while i < n
            invariant
                n == all.len(),
                all == partials@,
                pv == partial_views(all),
                forall|k: int| 0 <= k < all.len() ==> (#[trigger] all[k] matches Ok(t) ==> t.wf()),
                i <= n,
                rest@.len() == n - i,
                forall|k: int| 0 <= k < n - i ==> #[trigger] rest@[k] == all[n - 1 - k],
                self.wf(),
                merge_all(old(self)@, pv.subrange(0, i as int)) == Ok::<GroupsView, Failure>(self@),
                sums_after_partials(old(self)@, old(self).sums(), all.subrange(0, i as int), self.sums()),
            decreases n - i,
        {
            let partial = rest.pop().unwrap();
            let ghost prev_sums = self.sums();
            let ghost done = all.subrange(0, i + 1);
            proof {
                assert(done.drop_last() =~= all.subrange(0, i as int));
                assert(partial_views(done) =~= pv.subrange(0, i + 1));
                assert(done.last() == partial);
                assert(partial == all[i as int]);
                assert(pv.subrange(0, i + 1).drop_last() =~= pv.subrange(0, i as int));
                assert(pv[i as int] == match partial {
                    Ok(t) => Ok::<GroupsView, BustubxError>(t@),
                    Err(e) => Err(e),
                });
            }
            match partial {
                Err(e) => {
                    proof {
                        lemma_merge_all_fails_on(old(self)@, pv, (i + 1) as int);
                    }
                    return Err(e);
                },
                Ok(t) => {
                    match self.merge_table(t) {
                        Ok(()) => {
                            proof {
                                lemma_sums_after_partials_step(
                                    old(self)@,
                                    old(self).sums(),
                                    done,
                                    prev_sums,
                                    self.sums(),
                                );
                            }
                        },
                        Err(e) => {
                            proof {
                                lemma_merge_all_fails_on(old(self)@, pv, (i + 1) as int);
                            }
                            return Err(e);
                        },
                    }
                },
            }
            i = i + 1;
        }
        assert(pv.subrange(0, n as int) =~= pv);
        assert(all.subrange(0, n as int) =~= all);
        Ok(())
    }

    /// The groups' ids and final values, in order.
    pub fn finish(self) -> (r: Vec<(u64, Vec<AggregateValue<F>>)>)
        requires
            self.wf(),
        ensures
            r@.len() == self@.len(),
            forall|i: int|
                0 <= i < r@.len() ==> (#[trigger] r@[i]).0 == self@[i].0 && r@[i].1@.len()
                    == self@[i].1.len() && forall|j: int|
                    0 <= j < r@[i].1@.len() ==> value_of(
                        #[trigger] r@[i].1@[j],
                        self@[i].1[j],
                        self.sums()[i][j],
                    ),
    {
        let ghost v = self@;
        let ghost sums = self.sums();
        let n = self.ids.len();
        let mut out: Vec<(u64, Vec<AggregateValue<F>>)> = Vec::new();
        let mut i: usize = 0;
        while i < n
            invariant
                n == v.len(),
                self.wf(),
                v == self@,
                sums == self.sums(),
                i <= n,
                out@.len() == i,
                forall|k: int|
                    0 <= k < i ==> (#[trigger] out@[k]).0 == v[k].0 && out@[k].1@.len()
                        == v[k].1.len() && forall|j: int|
                        0 <= j < out@[k].1@.len() ==> value_of(
                            #[trigger] out@[k].1@[j],
                            v[k].1[j],
                            sums[k][j],
                        ),
            decreases n - i,
        {
            let accs = &self.accumulators[i];
            let mut values: Vec<AggregateValue<F>> = Vec::new();
            let mut j: usize = 0;
            while j < accs.len()
                invariant
                    j <= accs@.len(),
                    values@.len() == j,
                    tallies_of(accs@) == v[i as int].1,
                    forall|k: int|
                        0 <= k < j ==> value_of(#[trigger] values@[k], v[i as int].1[k], sums[i as int][k]),
                    sums_of(accs@) == sums[i as int],
                decreases accs@.len() - j,
            {
                assert(tallies_of(accs@)[j as int] == accs@[j as int].tally());
                assert(sums_of(accs@)[j as int] == accs@[j as int].avg_sum());
                values.push(accs[j].evaluate());
                j = j + 1;
            }
            out.push((self.ids[i], values));
            i = i + 1;
        }
        out
    }
}

/// The AVG sums after merging partial tables, one table further.
proof fn lemma_sums_after_partials_step<F: SumValue>(
    groups: GroupsView,
    start: Seq<Seq<Option<F>>>,
    partials: Seq<Result<GroupTable<F>, BustubxError>>,
    prev: Seq<Seq<Option<F>>>,
    sums: Seq<Seq<Option<F>>>,
)
    requires
        partials.len() > 0,
        sums_after_partials(groups, start, partials.drop_last(), prev),
        sums_after_partial(
            prev,
            partials.last()->Ok_0@,
            partials.last()->Ok_0.sums(),
            merge_all(groups, partial_views(partials))->Ok_0,
            sums,
        ),
    ensures
        sums_after_partials(groups, start, partials, sums),
{
}

/// Once merging a prefix of the partial groups fails, merging all of them
/// fails the same way.
proof fn lemma_merge_groups_fails_on(groups: GroupsView, partial: GroupsView, k: int)
    requires
        0 <= k <= partial.len(),
        merge_groups(groups, partial.subrange(0, k)) is Err,
    ensures
        merge_groups(groups, partial) == merge_groups(groups, partial.subrange(0, k)),
    decreases partial.len() - k,
{
    if k < partial.len() {
        assert(partial.subrange(0, k + 1).drop_last() =~= partial.subrange(0, k));
        lemma_merge_groups_fails_on(groups, partial, k + 1);
    } else {
        assert(partial.subrange(0, k) =~= partial);
    }
}

/// Once merging a prefix of the partial tables fails, merging all of them
/// fails the same way.
proof fn lemma_merge_all_fails_on(
    groups: GroupsView,
    partials: Seq<Result<GroupsView, BustubxError>>,
    k: int,
)
    requires
        0 <= k <= partials.len(),
        merge_all(groups, partials.subrange(0, k)) is Err,
    ensures
        merge_all(groups, partials) == merge_all(groups, partials.subrange(0, k)),
    decreases partials.len() - k,
{
    if k < partials.len() {
        assert(partials.subrange(0, k + 1).drop_last() =~= partials.subrange(0, k));
        lemma_merge_all_fails_on(groups, partials, k + 1);
    } else {
        assert(partials.subrange(0, k) =~= partials);
    }
}

/// Group a chunk of rows: the groups in the order their keys first
/// appear, each with its accumulators having taken its rows' inputs; the
/// first failing row decides the error.
pub fn accumulate_chunk<F: SumValue>(calls: &Vec<AggregateCall>, rows: Vec<RowInputs<F>>) -> (r: Result<
    GroupTable<F>,
    BustubxError,
>)
    ensures
        match accumulate_rows(calls@, rows@) {
            Ok(g) => r matches Ok(t) && t.wf() && t@ == g && sums_after_rows(
                calls@,
                rows@,
                t.sums(),
            ),
            Err(f) => r matches Err(e) && failure_error(f, calls@, e),
        },
{
    let ghost all = rows@;
    let n = rows.len();
    let mut rest = reversed(rows);
    let mut table: GroupTable<F> = GroupTable::new();
    let mut i: usize = 0;
    while i < n
        invariant
            n == all.len(),
            i <= n,
            all == rows@,
            rest@.len() == n - i,
            forall|k: int| 0 <= k < n - i ==> #[trigger] rest@[k] == all[n - 1 - k],
            table.wf(),
            accumulate_rows(calls@, all.subrange(0, i as int)) == Ok::<GroupsView, Failure>(table@),
            sums_after_rows(calls@, all.subrange(0, i as int), table.sums()),
        decreases n - i,
    {
        let row = rest.pop().unwrap();
        let ghost prev_groups = table@;
        let ghost prev_sums = table.sums();
        let ghost done = all.subrange(0, i + 1);
        proof {
            assert(done.drop_last() =~= all.subrange(0, i as int));
            assert(row == all[i as int]);
            assert(done.last() == row);
        }
        match table.accumulate_row(calls, row) {
            Ok(()) => {
                proof {
                    assert(accumulate_rows(calls@, done.drop_last()) == Ok::<GroupsView, Failure>(
                        prev_groups,
                    ));
                    assert(accumulate_rows(calls@, done) == Ok::<GroupsView, Failure>(table@));
                    assert(sums_after_rows(calls@, done.drop_last(), prev_sums));
                    assert(sums_after_row(
                        prev_groups,
                        prev_sums,
                        calls@,
                        done.last().key->Ok_0,
                        done.last().inputs@,
                        table@,
                        table.sums(),
                    ));
                    lemma_sums_after_rows_step(calls@, done, prev_sums, table.sums());
                }
            },
            Err(e) => {
                proof {
                    lemma_accumulate_fails_on(calls@, all, (i + 1) as int);
                }
                return Err(e);
            },
        }
        i = i + 1;
    }
    assert(all.subrange(0, n as int) =~= all);
    Ok(table)
}

/// The AVG sums of a chunk, one row further.
proof fn lemma_sums_after_rows_step<F: SumValue>(
    calls: Seq<AggregateCall>,
    rows: Seq<RowInputs<F>>,
    prev: Seq<Seq<Option<F>>>,
    sums: Seq<Seq<Option<F>>>,
)
    requires
        rows.len() > 0,
        sums_after_rows(calls, rows.drop_last(), prev),
        sums_after_row(
            accumulate_rows(calls, rows.drop_last())->Ok_0,
            prev,
            calls,
            rows.last().key->Ok_0,
            rows.last().inputs@,
            accumulate_rows(calls, rows)->Ok_0,
            sums,
        ),
    ensures
        sums_after_rows(calls, rows, sums),
{
}

/// Once a prefix of the rows fails, all of them fail the same way.
proof fn lemma_accumulate_fails_on<F>(calls: Seq<AggregateCall>, rows: Seq<RowInputs<F>>, k: int)
    requires
        0 <= k <= rows.len(),
        accumulate_rows(calls, rows.subrange(0, k)) is Err,
    ensures
        accumulate_rows(calls, rows) == accumulate_rows(calls, rows.subrange(0, k)),
    decreases rows.len() - k,
{
    if k < rows.len() {
        assert(rows.subrange(0, k + 1).drop_last() =~= rows.subrange(0, k));
        lemma_accumulate_fails_on(calls, rows, k + 1);
    } else {
        assert(rows.subrange(0, k) =~= rows);
    }
}

} // verus!
