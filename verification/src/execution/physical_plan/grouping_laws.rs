//! Laws of grouping: merging the partial table of a chunk of rows is the
//! same as taking the rows one by one, so a parallel aggregation gives
//! the serial result.
use crate::execution::physical_plan::grouping::{
    accumulate_from, accumulate_rows, distinct_ids, first_input_failure, first_merge_failure,
    fresh_tallies, input_failure, lemma_position, merge_all, merge_failure, merge_group,
    merge_groups, merge_tallies, position_of, row_step, update_tallies, zip_len, GroupsView,
    RowInputs,
};
use crate::function::aggregate::{
    call_kind, calls_valid, tally_merge, tally_update, AggregateCall, AggregateFunctionKind,
    AggregateInput, Failure, Tally,
};
use crate::BustubxError;
use vstd::prelude::*;

verus! {

/// The aggregate function a tally belongs to.
pub open spec fn tally_kind(t: Tally) -> AggregateFunctionKind {
    match t {
        Tally::Count(_) => AggregateFunctionKind::Count,
        Tally::Avg { .. } => AggregateFunctionKind::Avg,
    }
}

/// A tally of the function `kind`, as accumulation makes it (a count is
/// never negative).
pub open spec fn tally_fits(t: Tally, kind: AggregateFunctionKind) -> bool {
    &&& tally_kind(t) == kind
    &&& t matches Tally::Count(c) ==> c >= 0
}

/// The tallies of a group fit the aggregate expressions: one per
/// expression, of its function.
pub open spec fn tallies_shaped(t: Seq<Tally>, calls: Seq<AggregateCall>) -> bool {
    &&& t.len() == calls.len()
    &&& forall|j: int| 0 <= j < t.len() ==> tally_fits(#[trigger] t[j], call_kind(calls[j]))
}

/// Groups as accumulation makes them: distinct ids, tallies that fit the
/// aggregate expressions, and no group at all unless the expressions can
/// be accumulated.
pub open spec fn shaped(groups: GroupsView, calls: Seq<AggregateCall>) -> bool {
    &&& distinct_ids(groups)
    &&& (calls_valid(calls) || groups.len() == 0)
    &&& forall|i: int| 0 <= i < groups.len() ==> tallies_shaped(#[trigger] groups[i].1, calls)
}

proof fn lemma_tally_commute<F>(a: Tally, b: Tally, i: AggregateInput<F>)
    requires
        tally_fits(a, tally_kind(b)),
        tally_fits(b, tally_kind(a)),
        tally_merge(a, b) is Ok,
        tally_update(tally_merge(a, b)->Ok_0, i) is Ok,
    ensures
        tally_update(b, i) is Ok,
        tally_fits(tally_update(b, i)->Ok_0, tally_kind(b)),
        tally_merge(a, tally_update(b, i)->Ok_0) == tally_update(tally_merge(a, b)->Ok_0, i),
{
}

proof fn lemma_first_input_failure_none<F>(
    t: Seq<Tally>,
    inputs: Seq<Result<AggregateInput<F>, BustubxError>>,
    n: nat,
)
    ensures
        first_input_failure(t, inputs, n) is None <==> forall|j: int|
            0 <= j < n ==> #[trigger] input_failure(t[j], inputs[j]) is None,
    decreases n,
{
    if n > 0 {
        lemma_first_input_failure_none(t, inputs, (n - 1) as nat);
    }
}

proof fn lemma_first_merge_failure_none(t: Seq<Tally>, s: Seq<Tally>, n: nat)
    ensures
        first_merge_failure(t, s, n) is None <==> forall|j: int|
            0 <= j < n ==> #[trigger] merge_failure(t[j], s[j]) is None,
    decreases n,
{
    if n > 0 {
        lemma_first_merge_failure_none(t, s, (n - 1) as nat);
    }
}

/// Updating merged tallies is merging into updated partial tallies.
proof fn lemma_update_merged<F>(
    a: Seq<Tally>,
    b: Seq<Tally>,
    inputs: Seq<Result<AggregateInput<F>, BustubxError>>,
    calls: Seq<AggregateCall>,
)
    requires
        tallies_shaped(a, calls),
        tallies_shaped(b, calls),
        merge_tallies(a, b) is Ok,
        update_tallies(merge_tallies(a, b)->Ok_0, inputs) is Ok,
    ensures
        update_tallies(b, inputs) is Ok,
        tallies_shaped(update_tallies(b, inputs)->Ok_0, calls),
        merge_tallies(a, update_tallies(b, inputs)->Ok_0) == update_tallies(
            merge_tallies(a, b)->Ok_0,
            inputs,
        ),
{
    let m = merge_tallies(a, b)->Ok_0;
    let len = a.len();
    let n = zip_len(m, inputs);
    lemma_first_merge_failure_none(a, b, len);
    lemma_first_input_failure_none(m, inputs, n);
    lemma_first_input_failure_none(b, inputs, n);
    assert forall|j: int| 0 <= j < n implies #[trigger] input_failure(b[j], inputs[j]) is None by {
        assert(input_failure(m[j], inputs[j]) is None);
        assert(merge_failure(a[j], b[j]) is None);
        lemma_tally_commute(a[j], b[j], inputs[j]->Ok_0);
    }
    let y = update_tallies(b, inputs)->Ok_0;
    let x = update_tallies(m, inputs)->Ok_0;
    lemma_first_merge_failure_none(a, y, len);
    assert forall|j: int| 0 <= j < len implies #[trigger] merge_failure(a[j], y[j]) is None
        && tally_merge(a[j], y[j])->Ok_0 == x[j] by {
        assert(merge_failure(a[j], b[j]) is None);
        if j < n {
            assert(input_failure(m[j], inputs[j]) is None);
            lemma_tally_commute(a[j], b[j], inputs[j]->Ok_0);
        }
    }
    assert forall|j: int| 0 <= j < y.len() implies tally_fits(#[trigger] y[j], call_kind(calls[j])) by {
        if j < n {
            assert(merge_failure(a[j], b[j]) is None);
            assert(input_failure(m[j], inputs[j]) is None);
            lemma_tally_commute(a[j], b[j], inputs[j]->Ok_0);
        }
    }
    assert(y.len() == len && x.len() == len);
    assert(zip_len(a, y) == len);
    assert(first_merge_failure(a, y, len) is None);
    let z = merge_tallies(a, y)->Ok_0;
    assert forall|j: int| 0 <= j < len implies #[trigger] z[j] == x[j] by {
        assert(merge_failure(a[j], y[j]) is None);
    }
    assert(z =~= x);
}

/// Merging fresh tallies changes nothing.
proof fn lemma_merge_fresh(t: Seq<Tally>, calls: Seq<AggregateCall>)
    requires
        tallies_shaped(t, calls),
    ensures
        merge_tallies(t, fresh_tallies(calls)) == Ok::<Seq<Tally>, Failure>(t),
        tallies_shaped(fresh_tallies(calls), calls),
{
    let f = fresh_tallies(calls);
    lemma_first_merge_failure_none(t, f, t.len());
    assert forall|j: int| 0 <= j < t.len() implies #[trigger] merge_failure(t[j], f[j]) is None
        && tally_merge(t[j], f[j])->Ok_0 == t[j] by {
        assert(tally_fits(t[j], call_kind(calls[j])));
    }
    assert(merge_tallies(t, f)->Ok_0 =~= t);
}

/// Updating keeps tallies fitting the aggregate expressions.
proof fn lemma_update_shaped<F>(
    t: Seq<Tally>,
    inputs: Seq<Result<AggregateInput<F>, BustubxError>>,
    calls: Seq<AggregateCall>,
)
    requires
        tallies_shaped(t, calls),
        update_tallies(t, inputs) is Ok,
    ensures
        tallies_shaped(update_tallies(t, inputs)->Ok_0, calls),
{
    let n = zip_len(t, inputs);
    lemma_first_input_failure_none(t, inputs, n);
    let y = update_tallies(t, inputs)->Ok_0;
    assert forall|j: int| 0 <= j < y.len() implies tally_fits(#[trigger] y[j], call_kind(calls[j])) by {
        if j < n {
            assert(input_failure(t[j], inputs[j]) is None);
        }
    }
}

/// Merging keeps tallies fitting the aggregate expressions.
proof fn lemma_merge_shaped(t: Seq<Tally>, s: Seq<Tally>, calls: Seq<AggregateCall>)
    requires
        tallies_shaped(t, calls),
        tallies_shaped(s, calls),
        merge_tallies(t, s) is Ok,
    ensures
        tallies_shaped(merge_tallies(t, s)->Ok_0, calls),
{
    let n = zip_len(t, s);
    lemma_first_merge_failure_none(t, s, n);
    let y = merge_tallies(t, s)->Ok_0;
    assert forall|j: int| 0 <= j < y.len() implies tally_fits(#[trigger] y[j], call_kind(calls[j])) by {
        if j < n {
            assert(merge_failure(t[j], s[j]) is None);
        }
    }
}

pub(crate) proof fn lemma_absent(groups: GroupsView, id: u64)
    requires
        forall|i: int| 0 <= i < groups.len() ==> (#[trigger] groups[i]).0 != id,
    ensures
        position_of(groups, id) == -1,
{
}

pub(crate) proof fn lemma_present(groups: GroupsView, id: u64)
    requires
        position_of(groups, id) >= 0,
    ensures
        0 <= position_of(groups, id) < groups.len(),
        groups[position_of(groups, id)].0 == id,
{
    if !(exists|i: int| 0 <= i < groups.len() && groups[i].0 == id) {
        assert(position_of(groups, id) == -1);
    }
}

pub(crate) proof fn lemma_absent_everywhere(groups: GroupsView, id: u64, i: int)
    requires
        position_of(groups, id) == -1,
        0 <= i < groups.len(),
    ensures
        groups[i].0 != id,
{
    if groups[i].0 == id {
        assert(exists|i: int| 0 <= i < groups.len() && groups[i].0 == id);
        let c = choose|i: int| 0 <= i < groups.len() && groups[i].0 == id;
        assert(0 <= c < groups.len());
    }
}

/// Replacing a group's tallies keeps every position.
pub(crate) proof fn lemma_update_positions(groups: GroupsView, s: int, t: Seq<Tally>, id: u64)
    requires
        distinct_ids(groups),
        0 <= s < groups.len(),
    ensures
        distinct_ids(groups.update(s, (groups[s].0, t))),
        position_of(groups.update(s, (groups[s].0, t)), id) == position_of(groups, id),
{
    let g2 = groups.update(s, (groups[s].0, t));
    assert forall|i: int| 0 <= i < groups.len() implies (#[trigger] g2[i]).0 == groups[i].0 by {}
    let p = position_of(groups, id);
    if p >= 0 {
        lemma_present(groups, id);
        lemma_position(g2, id, p);
    } else {
        assert forall|i: int| 0 <= i < g2.len() implies (#[trigger] g2[i]).0 != id by {
            lemma_absent_everywhere(groups, id, i);
        }
        lemma_absent(g2, id);
    }
}

/// Appending a group of a new id keeps every other position.
pub(crate) proof fn lemma_push_positions(groups: GroupsView, g: (u64, Seq<Tally>), id: u64)
    requires
        distinct_ids(groups),
        position_of(groups, g.0) == -1,
    ensures
        distinct_ids(groups.push(g)),
        position_of(groups.push(g), id) == if id == g.0 {
            groups.len() as int
        } else {
            position_of(groups, id)
        },
{
    let g2 = groups.push(g);
    assert forall|i: int| 0 <= i < groups.len() implies (#[trigger] g2[i]).0 != g.0 by {
        lemma_absent_everywhere(groups, g.0, i);
    }
    if id == g.0 {
        lemma_position(g2, id, groups.len() as int);
    } else {
        let p = position_of(groups, id);
        if p >= 0 {
            lemma_present(groups, id);
            lemma_position(g2, id, p);
        } else {
            assert forall|i: int| 0 <= i < g2.len() implies (#[trigger] g2[i]).0 != id by {
                if i < groups.len() {
                    lemma_absent_everywhere(groups, id, i);
                }
            }
            lemma_absent(g2, id);
        }
    }
}

/// A row keeps groups as accumulation makes them.
proof fn lemma_row_step_shaped<F>(
    groups: GroupsView,
    calls: Seq<AggregateCall>,
    key: Result<u64, BustubxError>,
    inputs: Seq<Result<AggregateInput<F>, BustubxError>>,
)
    requires
        shaped(groups, calls),
        row_step(groups, calls, key, inputs) is Ok,
    ensures
        shaped(row_step(groups, calls, key, inputs)->Ok_0, calls),
{
    let id = key->Ok_0;
    let pos = position_of(groups, id);
    if pos >= 0 {
        lemma_present(groups, id);
        lemma_update_shaped(groups[pos].1, inputs, calls);
        lemma_update_positions(groups, pos, update_tallies(groups[pos].1, inputs)->Ok_0, id);
    } else {
        let g = groups.push((id, fresh_tallies(calls)));
        lemma_merge_fresh(fresh_tallies(calls), calls);
        lemma_push_positions(groups, (id, fresh_tallies(calls)), id);
        lemma_update_shaped(fresh_tallies(calls), inputs, calls);
        lemma_update_positions(g, groups.len() as int, update_tallies(g[groups.len() as int].1, inputs)->Ok_0, id);
    }
    let r = row_step(groups, calls, key, inputs)->Ok_0;
    assert forall|i: int| 0 <= i < r.len() implies tallies_shaped(#[trigger] r[i].1, calls) by {
        if pos < 0 {
            if i < groups.len() {
                assert(r[i] == groups[i]);
            }
        } else if i != pos {
            assert(r[i] == groups[i]);
        }
    }
}

/// Merging one partial group keeps groups as accumulation makes them, and
/// the merged id then has a group.
proof fn lemma_merge_group_shaped(groups: GroupsView, g: (u64, Seq<Tally>), calls: Seq<AggregateCall>)
    requires
        shaped(groups, calls),
        calls_valid(calls),
        tallies_shaped(g.1, calls),
        merge_group(groups, g) is Ok,
    ensures
        shaped(merge_group(groups, g)->Ok_0, calls),
        position_of(merge_group(groups, g)->Ok_0, g.0) >= 0,
        forall|id: u64| #[trigger] position_of(groups, id) >= 0 ==> position_of(merge_group(groups, g)->Ok_0, id) >= 0,
{
    let pos = position_of(groups, g.0);
    let r = merge_group(groups, g)->Ok_0;
    if pos >= 0 {
        lemma_present(groups, g.0);
        lemma_merge_shaped(groups[pos].1, g.1, calls);
        assert forall|id: u64| #[trigger] position_of(groups, id) >= 0 implies position_of(r, id) >= 0 by {
            lemma_update_positions(groups, pos, merge_tallies(groups[pos].1, g.1)->Ok_0, id);
        }
        lemma_update_positions(groups, pos, merge_tallies(groups[pos].1, g.1)->Ok_0, g.0);
        assert forall|i: int| 0 <= i < r.len() implies tallies_shaped(#[trigger] r[i].1, calls) by {
            if i != pos {
                assert(r[i] == groups[i]);
            }
        }
    } else {
        assert forall|id: u64| #[trigger] position_of(groups, id) >= 0 implies position_of(r, id) >= 0 by {
            lemma_push_positions(groups, g, id);
        }
        lemma_push_positions(groups, g, g.0);
        assert forall|i: int| 0 <= i < r.len() implies tallies_shaped(#[trigger] r[i].1, calls) by {
            if i < groups.len() {
                assert(r[i] == groups[i]);
            }
        }
    }
}

/// Merging a partial table keeps groups as accumulation makes them, and
/// every id of the partial table then has a group.
proof fn lemma_merge_groups_shaped(groups: GroupsView, partial: GroupsView, calls: Seq<AggregateCall>)
    requires
        shaped(groups, calls),
        shaped(partial, calls),
        merge_groups(groups, partial) is Ok,
    ensures
        shaped(merge_groups(groups, partial)->Ok_0, calls),
        forall|k: int| 0 <= k < partial.len() ==> position_of(merge_groups(groups, partial)->Ok_0, (#[trigger] partial[k]).0) >= 0,
    decreases partial.len(),
{
    if partial.len() > 0 {
        let p0 = partial.drop_last();
        assert(shaped(p0, calls)) by {
            assert forall|i: int| 0 <= i < p0.len() implies tallies_shaped(#[trigger] p0[i].1, calls) by {
                assert(p0[i] == partial[i]);
            }
        }
        lemma_merge_groups_shaped(groups, p0, calls);
        let m0 = merge_groups(groups, p0)->Ok_0;
        assert(tallies_shaped(partial.last().1, calls));
        lemma_merge_group_shaped(m0, partial.last(), calls);
        let m = merge_groups(groups, partial)->Ok_0;
        assert forall|k: int| 0 <= k < partial.len() implies position_of(m, (#[trigger] partial[k]).0) >= 0 by {
            if k < partial.len() - 1 {
                assert(partial[k] == p0[k]);
                assert(position_of(m0, p0[k].0) >= 0);
            }
        }
    }
}

/// Rows keep groups as accumulation makes them.
proof fn lemma_accumulate_shaped<F>(groups: GroupsView, calls: Seq<AggregateCall>, rows: Seq<RowInputs<F>>)
    requires
        shaped(groups, calls),
        accumulate_from(groups, calls, rows) is Ok,
    ensures
        shaped(accumulate_from(groups, calls, rows)->Ok_0, calls),
    decreases rows.len(),
{
    if rows.len() > 0 {
        lemma_accumulate_shaped(groups, calls, rows.drop_last());
        lemma_row_step_shaped(
            accumulate_from(groups, calls, rows.drop_last())->Ok_0,
            calls,
            rows.last().key,
            rows.last().inputs@,
        );
    }
}

/// One row after merging a partial table is the same as the row taken by
/// the partial table before merging it.
#[verifier::rlimit(40)]
proof fn lemma_step_after_merge<F>(
    groups: GroupsView,
    partial: GroupsView,
    calls: Seq<AggregateCall>,
    key: Result<u64, BustubxError>,
    inputs: Seq<Result<AggregateInput<F>, BustubxError>>,
)
    requires
        shaped(groups, calls),
        shaped(partial, calls),
        merge_groups(groups, partial) is Ok,
        row_step(merge_groups(groups, partial)->Ok_0, calls, key, inputs) is Ok,
    ensures
        row_step(partial, calls, key, inputs) is Ok,
        merge_groups(groups, row_step(partial, calls, key, inputs)->Ok_0) == row_step(
            merge_groups(groups, partial)->Ok_0,
            calls,
            key,
            inputs,
        ),
    decreases partial.len(),
{
    let m = merge_groups(groups, partial)->Ok_0;
    lemma_merge_groups_shaped(groups, partial, calls);
    let id = key->Ok_0;
    let q = position_of(partial, id);
    let s = position_of(m, id);
    let fresh = fresh_tallies(calls);
    lemma_merge_fresh(fresh, calls);
    if q < 0 {
        // The row opens a new partial group.
        let y;
        if s >= 0 {
            lemma_present(m, id);
            lemma_merge_fresh(m[s].1, calls);
            lemma_update_merged(m[s].1, fresh, inputs, calls);
            y = update_tallies(fresh, inputs)->Ok_0;
            assert(merge_tallies(m[s].1, y) == update_tallies(m[s].1, inputs));
        } else {
            y = update_tallies(fresh, inputs)->Ok_0;
            lemma_push_positions(m, (id, fresh), id);
            assert(m.push((id, fresh)).update(m.len() as int, (id, y)) =~= m.push((id, y)));
        }
        let p2 = row_step(partial, calls, key, inputs)->Ok_0;
        lemma_push_positions(partial, (id, fresh), id);
        assert(p2 =~= partial.push((id, y)));
        assert(p2.drop_last() =~= partial);
    } else if q == partial.len() - 1 {
        // The row falls in the last partial group.
        lemma_present(partial, id);
        let p0 = partial.drop_last();
        let y = partial.last().1;
        assert(shaped(p0, calls)) by {
            assert forall|i: int| 0 <= i < p0.len() implies tallies_shaped(#[trigger] p0[i].1, calls) by {
                assert(p0[i] == partial[i]);
            }
        }
        assert forall|i: int| 0 <= i < p0.len() implies (#[trigger] p0[i]).0 != id by {
            assert(p0[i] == partial[i]);
        }
        lemma_absent(p0, id);
        lemma_merge_groups_shaped(groups, p0, calls);
        let m0 = merge_groups(groups, p0)->Ok_0;
        let s0 = position_of(m0, id);
        assert(tallies_shaped(y, calls));
        if s0 >= 0 {
            lemma_present(m0, id);
            let t = merge_tallies(m0[s0].1, y)->Ok_0;
            lemma_update_positions(m0, s0, t, id);
            assert(m == m0.update(s0, (id, t)));
            lemma_update_merged(m0[s0].1, y, inputs, calls);
            let y2 = update_tallies(y, inputs)->Ok_0;
            let x = update_tallies(t, inputs)->Ok_0;
            let p2 = row_step(partial, calls, key, inputs)->Ok_0;
            assert(p2 == partial.update(q, (id, y2)));
            assert(p2.drop_last() =~= p0);
            assert(p2.last() == (id, y2));
            assert(m0.update(s0, (id, t)).update(s0, (id, x)) =~= m0.update(s0, (id, x)));
        } else {
            lemma_push_positions(m0, (id, y), id);
            assert(m == m0.push((id, y)));
            let y2 = update_tallies(y, inputs)->Ok_0;
            let p2 = row_step(partial, calls, key, inputs)->Ok_0;
            assert(p2.drop_last() =~= p0);
            assert(p2.last() == (id, y2));
            assert(m0.push((id, y)).update(m0.len() as int, (id, y2)) =~= m0.push((id, y2)));
        }
    } else {
        // The row falls in an earlier partial group: step the shorter
        // partial table, then merge its last group.
        lemma_present(partial, id);
        let p0 = partial.drop_last();
        let last = partial.last();
        assert(last.0 != id);
        assert(p0[q].0 == id);
        lemma_position(p0, id, q);
        assert(shaped(p0, calls)) by {
            assert forall|i: int| 0 <= i < p0.len() implies tallies_shaped(#[trigger] p0[i].1, calls) by {
                assert(p0[i] == partial[i]);
            }
        }
        lemma_merge_groups_shaped(groups, p0, calls);
        let m0 = merge_groups(groups, p0)->Ok_0;
        assert(position_of(m0, p0[q].0) >= 0);
        let s0 = position_of(m0, id);
        lemma_present(m0, id);
        let s2 = position_of(m0, last.0);
        // The row's group is the same before and after merging `last`.
        if s2 >= 0 {
            lemma_present(m0, last.0);
            let t = merge_tallies(m0[s2].1, last.1)->Ok_0;
            lemma_update_positions(m0, s2, t, id);
            assert(m == m0.update(s2, (last.0, t)));
        } else {
            lemma_push_positions(m0, last, id);
            assert(m == m0.push(last));
        }
        assert(s == s0 && m[s] == m0[s0]);
        let x = update_tallies(m0[s0].1, inputs)->Ok_0;
        assert(row_step(m0, calls, key, inputs) == Ok::<GroupsView, Failure>(m0.update(s0, (id, x))));
        lemma_step_after_merge(groups, p0, calls, key, inputs);
        let p0s = row_step(p0, calls, key, inputs)->Ok_0;
        let m0s = m0.update(s0, (id, x));
        lemma_update_positions(m0, s0, x, last.0);
        let p2 = row_step(partial, calls, key, inputs)->Ok_0;
        let y2 = update_tallies(partial[q].1, inputs)->Ok_0;
        assert(p0s == p0.update(q, (id, y2)));
        assert(p2 == partial.update(q, (id, y2)));
        assert(p2.drop_last() =~= p0s);
        assert(p2.last() == last);
        if s2 >= 0 {
            let t = merge_tallies(m0[s2].1, last.1)->Ok_0;
            assert(m0s[s2] == m0[s2]);
            assert(m0s.update(s2, (last.0, t)) =~= m0.update(s2, (last.0, t)).update(s0, (id, x)));
        } else {
            assert(m0s.push(last) =~= m0.push(last).update(s0, (id, x)));
        }
    }
}

/// Merging the partial table of some rows into groups is the same as the
/// groups taking those rows one by one, whenever the latter succeeds: a
/// chunk of a batch may be grouped apart, by a worker, and merged.
pub proof fn lemma_merge_partial_is_accumulation<F>(
    groups: GroupsView,
    calls: Seq<AggregateCall>,
    rows: Seq<RowInputs<F>>,
)
    requires
        shaped(groups, calls),
        accumulate_from(groups, calls, rows) is Ok,
    ensures
        accumulate_rows(calls, rows) is Ok,
        merge_groups(groups, accumulate_rows(calls, rows)->Ok_0) == accumulate_from(groups, calls, rows),
    decreases rows.len(),
{
    if rows.len() > 0 {
        let r0 = rows.drop_last();
        lemma_merge_partial_is_accumulation(groups, calls, r0);
        let p0 = accumulate_rows(calls, r0)->Ok_0;
        assert(shaped(Seq::<(u64, Seq<Tally>)>::empty(), calls));
        lemma_accumulate_shaped(Seq::empty(), calls, r0);
        lemma_step_after_merge(groups, p0, calls, rows.last().key, rows.last().inputs@);
    } else {
        assert(shaped(Seq::<(u64, Seq<Tally>)>::empty(), calls));
    }
}

proof fn lemma_tally_commute_back<F>(a: Tally, b: Tally, i: AggregateInput<F>)
    requires
        tally_fits(a, tally_kind(b)),
        tally_fits(b, tally_kind(a)),
        tally_update(b, i) is Ok,
        tally_merge(a, tally_update(b, i)->Ok_0) is Ok,
    ensures
        tally_merge(a, b) is Ok,
        tally_update(tally_merge(a, b)->Ok_0, i) is Ok,
{
}

/// When merging into updated partial tallies succeeds, so do merging and
/// then updating.
proof fn lemma_merged_update<F>(
    a: Seq<Tally>,
    b: Seq<Tally>,
    inputs: Seq<Result<AggregateInput<F>, BustubxError>>,
    calls: Seq<AggregateCall>,
)
    requires
        tallies_shaped(a, calls),
        tallies_shaped(b, calls),
        update_tallies(b, inputs) is Ok,
        merge_tallies(a, update_tallies(b, inputs)->Ok_0) is Ok,
    ensures
        merge_tallies(a, b) is Ok,
        update_tallies(merge_tallies(a, b)->Ok_0, inputs) is Ok,
{
    let len = a.len();
    let n = zip_len(b, inputs);
    let y = update_tallies(b, inputs)->Ok_0;
    lemma_first_input_failure_none(b, inputs, n);
    lemma_first_merge_failure_none(a, y, len);
    lemma_first_merge_failure_none(a, b, len);
    assert forall|j: int| 0 <= j < len implies #[trigger] merge_failure(a[j], b[j]) is None by {
        assert(merge_failure(a[j], y[j]) is None);
        if j < n {
            assert(input_failure(b[j], inputs[j]) is None);
            lemma_tally_commute_back(a[j], b[j], inputs[j]->Ok_0);
        }
    }
    let m = merge_tallies(a, b)->Ok_0;
    lemma_first_input_failure_none(m, inputs, n);
    assert forall|j: int| 0 <= j < n implies #[trigger] input_failure(m[j], inputs[j]) is None by {
        assert(merge_failure(a[j], y[j]) is None);
        assert(input_failure(b[j], inputs[j]) is None);
        lemma_tally_commute_back(a[j], b[j], inputs[j]->Ok_0);
    }
}

/// When merging a partial table that took a row succeeds, merging it
/// before the row succeeds too, and so does the row afterwards.
#[verifier::rlimit(40)]
proof fn lemma_merge_before_step<F>(
    groups: GroupsView,
    partial: GroupsView,
    calls: Seq<AggregateCall>,
    key: Result<u64, BustubxError>,
    inputs: Seq<Result<AggregateInput<F>, BustubxError>>,
)
    requires
        shaped(groups, calls),
        shaped(partial, calls),
        row_step(partial, calls, key, inputs) is Ok,
        merge_groups(groups, row_step(partial, calls, key, inputs)->Ok_0) is Ok,
    ensures
        merge_groups(groups, partial) is Ok,
        row_step(merge_groups(groups, partial)->Ok_0, calls, key, inputs) is Ok,
    decreases partial.len(),
{
    let id = key->Ok_0;
    let q = position_of(partial, id);
    let fresh = fresh_tallies(calls);
    lemma_merge_fresh(fresh, calls);
    let p2 = row_step(partial, calls, key, inputs)->Ok_0;
    if q < 0 {
        let y = update_tallies(fresh, inputs)->Ok_0;
        lemma_push_positions(partial, (id, fresh), id);
        assert(p2 =~= partial.push((id, y)));
        assert(p2.drop_last() =~= partial);
        let m = merge_groups(groups, partial)->Ok_0;
        lemma_merge_groups_shaped(groups, partial, calls);
        let s = position_of(m, id);
        if s >= 0 {
            lemma_present(m, id);
            lemma_merged_update(m[s].1, fresh, inputs, calls);
            lemma_merge_fresh(m[s].1, calls);
        }
    } else if q == partial.len() - 1 {
        lemma_present(partial, id);
        let p0 = partial.drop_last();
        let y = partial.last().1;
        let y2 = update_tallies(y, inputs)->Ok_0;
        assert(p2 == partial.update(q, (id, y2)));
        assert(p2.drop_last() =~= p0);
        assert(p2.last() == (id, y2));
        assert(shaped(p0, calls)) by {
            assert forall|i: int| 0 <= i < p0.len() implies tallies_shaped(#[trigger] p0[i].1, calls) by {
                assert(p0[i] == partial[i]);
            }
        }
        lemma_merge_groups_shaped(groups, p0, calls);
        let m0 = merge_groups(groups, p0)->Ok_0;
        let s0 = position_of(m0, id);
        assert(tallies_shaped(y, calls));
        if s0 >= 0 {
            lemma_present(m0, id);
            lemma_merged_update(m0[s0].1, y, inputs, calls);
            let t = merge_tallies(m0[s0].1, y)->Ok_0;
            lemma_update_positions(m0, s0, t, id);
        } else {
            lemma_push_positions(m0, (id, y), id);
        }
    } else {
        lemma_present(partial, id);
        let p0 = partial.drop_last();
        let last = partial.last();
        assert(last.0 != id);
        lemma_position(p0, id, q);
        assert(shaped(p0, calls)) by {
            assert forall|i: int| 0 <= i < p0.len() implies tallies_shaped(#[trigger] p0[i].1, calls) by {
                assert(p0[i] == partial[i]);
            }
        }
        let y2 = update_tallies(partial[q].1, inputs)->Ok_0;
        let p0s = row_step(p0, calls, key, inputs)->Ok_0;
        assert(p0s == p0.update(q, (id, y2)));
        assert(p2 == partial.update(q, (id, y2)));
        assert(p2.drop_last() =~= p0s);
        assert(p2.last() == last);
        lemma_merge_before_step(groups, p0, calls, key, inputs);
        lemma_step_after_merge(groups, p0, calls, key, inputs);
        lemma_merge_groups_shaped(groups, p0, calls);
        let m0 = merge_groups(groups, p0)->Ok_0;
        assert(position_of(m0, p0[q].0) >= 0);
        let s0 = position_of(m0, id);
        lemma_present(m0, id);
        let x = update_tallies(m0[s0].1, inputs)->Ok_0;
        let m0s = m0.update(s0, (id, x));
        lemma_update_positions(m0, s0, x, last.0);
        let s2 = position_of(m0, last.0);
        if s2 >= 0 {
            lemma_present(m0, last.0);
            assert(m0s[s2] == m0[s2]);
            let t = merge_tallies(m0[s2].1, last.1)->Ok_0;
            lemma_update_positions(m0, s2, t, id);
        } else {
            lemma_push_positions(m0, last, id);
        }
    }
}

/// Merging the partial table of some rows into groups succeeds exactly
/// when the groups taking those rows one by one succeed.
pub proof fn lemma_merge_partial_succeeds_iff<F>(
    groups: GroupsView,
    calls: Seq<AggregateCall>,
    rows: Seq<RowInputs<F>>,
)
    requires
        shaped(groups, calls),
    ensures
        accumulate_from(groups, calls, rows) is Ok <==> (accumulate_rows(calls, rows) is Ok
            && merge_groups(groups, accumulate_rows(calls, rows)->Ok_0) is Ok),
    decreases rows.len(),
{
    if accumulate_from(groups, calls, rows) is Ok {
        lemma_merge_partial_is_accumulation(groups, calls, rows);
    } else if rows.len() > 0 && accumulate_rows(calls, rows) is Ok && merge_groups(
        groups,
        accumulate_rows(calls, rows)->Ok_0,
    ) is Ok {
        let r0 = rows.drop_last();
        let p0 = accumulate_rows(calls, r0)->Ok_0;
        assert(shaped(Seq::<(u64, Seq<Tally>)>::empty(), calls));
        lemma_accumulate_shaped(Seq::empty(), calls, r0);
        lemma_merge_before_step(groups, p0, calls, rows.last().key, rows.last().inputs@);
        lemma_merge_partial_succeeds_iff(groups, calls, r0);
        lemma_merge_partial_is_accumulation(groups, calls, r0);
    }
}

/// Rows taken in two runs are the rows taken at once.
proof fn lemma_accumulate_concat<F>(
    groups: GroupsView,
    calls: Seq<AggregateCall>,
    rows1: Seq<RowInputs<F>>,
    rows2: Seq<RowInputs<F>>,
)
    ensures
        accumulate_from(groups, calls, rows1 + rows2) == match accumulate_from(groups, calls, rows1) {
            Err(f) => Err(f),
            Ok(g) => accumulate_from(g, calls, rows2),
        },
    decreases rows2.len(),
{
    if rows2.len() == 0 {
        assert(rows1 + rows2 =~= rows1);
    } else {
        lemma_accumulate_concat(groups, calls, rows1, rows2.drop_last());
        assert((rows1 + rows2).drop_last() =~= rows1 + rows2.drop_last());
        assert((rows1 + rows2).last() == rows2.last());
        if accumulate_from(groups, calls, rows1) is Err {
            lemma_accumulate_fails_from(groups, calls, rows1, rows2);
        }
    }
}

proof fn lemma_accumulate_fails_from<F>(
    groups: GroupsView,
    calls: Seq<AggregateCall>,
    rows1: Seq<RowInputs<F>>,
    rows2: Seq<RowInputs<F>>,
)
    requires
        accumulate_from(groups, calls, rows1) is Err,
    ensures
        accumulate_from(groups, calls, rows1 + rows2) == accumulate_from(groups, calls, rows1),
    decreases rows2.len(),
{
    if rows2.len() == 0 {
        assert(rows1 + rows2 =~= rows1);
    } else {
        lemma_accumulate_fails_from(groups, calls, rows1, rows2.drop_last());
        assert((rows1 + rows2).drop_last() =~= rows1 + rows2.drop_last());
    }
}

/// Parallel aggregation gives the serial result: grouping the rows of a
/// batch in two chunks apart, then merging the second chunk's groups into
/// the first chunk's, succeeds exactly when grouping all the rows at once
/// does, and then gives exactly its groups (in order, with their tallies).
pub proof fn lemma_chunked_aggregation_is_serial<F>(
    calls: Seq<AggregateCall>,
    rows1: Seq<RowInputs<F>>,
    rows2: Seq<RowInputs<F>>,
)
    ensures
        accumulate_rows(calls, rows1 + rows2) is Ok <==> ({
            &&& accumulate_rows(calls, rows1) is Ok
            &&& accumulate_rows(calls, rows2) is Ok
            &&& merge_groups(accumulate_rows(calls, rows1)->Ok_0, accumulate_rows(calls, rows2)->Ok_0) is Ok
        }),
        accumulate_rows(calls, rows1 + rows2) is Ok ==> merge_groups(
            accumulate_rows(calls, rows1)->Ok_0,
            accumulate_rows(calls, rows2)->Ok_0,
        ) == accumulate_rows(calls, rows1 + rows2),
{
    lemma_accumulate_concat(Seq::empty(), calls, rows1, rows2);
    if accumulate_rows(calls, rows1) is Ok {
        assert(shaped(Seq::<(u64, Seq<Tally>)>::empty(), calls));
        lemma_accumulate_shaped(Seq::empty(), calls, rows1);
        lemma_merge_partial_succeeds_iff(accumulate_rows(calls, rows1)->Ok_0, calls, rows2);
        if accumulate_rows(calls, rows1 + rows2) is Ok {
            lemma_merge_partial_is_accumulation(accumulate_rows(calls, rows1)->Ok_0, calls, rows2);
        }
    }
}

/// The rows of consecutive chunks, in order.
pub open spec fn chunk_rows<F>(chunks: Seq<Seq<RowInputs<F>>>) -> Seq<RowInputs<F>>
    decreases chunks.len(),
{
    if chunks.len() == 0 {
        Seq::empty()
    } else {
        chunk_rows(chunks.drop_last()) + chunks.last()
    }
}

/// The successful partial tables of chunks.
pub open spec fn chunk_tables<F>(calls: Seq<AggregateCall>, chunks: Seq<Seq<RowInputs<F>>>) -> Seq<
    Result<GroupsView, BustubxError>,
> {
    chunks.map_values(
        |c: Seq<RowInputs<F>>| Ok::<GroupsView, BustubxError>(accumulate_rows(calls, c)->Ok_0),
    )
}

/// Merging the partial tables of a batch's chunks, in order, into the
/// groups so far gives exactly the groups of taking the batch's rows one
/// by one, whenever that succeeds; then every chunk's grouping succeeds.
pub proof fn lemma_merged_chunks_are_serial<F>(
    groups: GroupsView,
    calls: Seq<AggregateCall>,
    chunks: Seq<Seq<RowInputs<F>>>,
)
    requires
        shaped(groups, calls),
        accumulate_from(groups, calls, chunk_rows(chunks)) is Ok,
    ensures
        forall|k: int| 0 <= k < chunks.len() ==> (#[trigger] accumulate_rows(calls, chunks[k])) is Ok,
        merge_all(groups, chunk_tables(calls, chunks)) == accumulate_from(groups, calls, chunk_rows(chunks)),
    decreases chunks.len(),
{
    if chunks.len() > 0 {
        let c0 = chunks.drop_last();
        lemma_accumulate_concat(groups, calls, chunk_rows(c0), chunks.last());
        lemma_merged_chunks_are_serial(groups, calls, c0);
        let g0 = accumulate_from(groups, calls, chunk_rows(c0))->Ok_0;
        lemma_accumulate_shaped(groups, calls, chunk_rows(c0));
        lemma_merge_partial_is_accumulation(g0, calls, chunks.last());
        assert(chunk_tables(calls, chunks).drop_last() =~= chunk_tables(calls, c0));
        assert forall|k: int| 0 <= k < chunks.len() implies (#[trigger] accumulate_rows(calls, chunks[k])) is Ok by {
            if k < chunks.len() - 1 {
                assert(chunks[k] == c0[k]);
                assert(accumulate_rows(calls, c0[k]) is Ok);
            }
        }
    } else {
        assert(chunk_tables(calls, chunks) =~= Seq::<Result<GroupsView, BustubxError>>::empty());
    }
}

/// The rows of consecutive batches, each made of consecutive chunks.
pub open spec fn batch_rows<F>(batches: Seq<Seq<Seq<RowInputs<F>>>>) -> Seq<RowInputs<F>>
    decreases batches.len(),
{
    if batches.len() == 0 {
        Seq::empty()
    } else {
        batch_rows(batches.drop_last()) + chunk_rows(batches.last())
    }
}

/// The groups after merging, batch by batch, the partial tables of each
/// batch's chunks.
pub open spec fn merge_batches<F>(
    groups: GroupsView,
    calls: Seq<AggregateCall>,
    batches: Seq<Seq<Seq<RowInputs<F>>>>,
) -> Result<GroupsView, Failure>
    decreases batches.len(),
{
    if batches.len() == 0 {
        Ok(groups)
    } else {
        match merge_batches(groups, calls, batches.drop_last()) {
            Err(f) => Err(f),
            Ok(g) => merge_all(g, chunk_tables(calls, batches.last())),
        }
    }
}

/// The groups an aggregation starts with fit accumulation: none, or (when
/// the aggregate expressions can be accumulated) one fresh group.
pub proof fn lemma_starting_groups_are_shaped(id: u64, calls: Seq<AggregateCall>)
    ensures
        shaped(Seq::<(u64, Seq<Tally>)>::empty(), calls),
        calls_valid(calls) ==> shaped(seq![(id, fresh_tallies(calls))], calls),
{
    if calls_valid(calls) {
        let f = fresh_tallies(calls);
        assert forall|j: int| 0 <= j < f.len() implies tally_fits(#[trigger] f[j], call_kind(calls[j])) by {}
        assert(tallies_shaped(f, calls));
        let g = seq![(id, f)];
        assert forall|i: int| 0 <= i < g.len() implies tallies_shaped(#[trigger] g[i].1, calls) by {
            assert(g[i] == (id, f));
        }
    }
}

/// A whole aggregation is serial: merging, batch after batch, the partial
/// tables of every batch's chunks into the starting groups gives exactly
/// the groups of taking all rows one by one, whenever that succeeds.
pub proof fn lemma_aggregation_is_serial<F>(
    groups: GroupsView,
    calls: Seq<AggregateCall>,
    batches: Seq<Seq<Seq<RowInputs<F>>>>,
)
    requires
        shaped(groups, calls),
        accumulate_from(groups, calls, batch_rows(batches)) is Ok,
    ensures
        merge_batches(groups, calls, batches) == accumulate_from(groups, calls, batch_rows(batches)),
    decreases batches.len(),
{
    if batches.len() > 0 {
        let b0 = batches.drop_last();
        lemma_accumulate_concat(groups, calls, batch_rows(b0), chunk_rows(batches.last()));
        lemma_aggregation_is_serial(groups, calls, b0);
        lemma_accumulate_shaped(groups, calls, batch_rows(b0));
        let g = accumulate_from(groups, calls, batch_rows(b0))->Ok_0;
        lemma_merged_chunks_are_serial(g, calls, batches.last());
    }
}

/// Merging a batch's chunk tables succeeds exactly when taking the batch's
/// rows one by one does: every chunk groups without failing and every
/// merge succeeds.
proof fn lemma_merged_chunks_succeed_iff<F>(
    groups: GroupsView,
    calls: Seq<AggregateCall>,
    chunks: Seq<Seq<RowInputs<F>>>,
)
    requires
        shaped(groups, calls),
    ensures
        accumulate_from(groups, calls, chunk_rows(chunks)) is Ok <==> ({
            &&& forall|k: int| 0 <= k < chunks.len() ==> (#[trigger] accumulate_rows(calls, chunks[k])) is Ok
            &&& merge_all(groups, chunk_tables(calls, chunks)) is Ok
        }),
    decreases chunks.len(),
{
    if accumulate_from(groups, calls, chunk_rows(chunks)) is Ok {
        lemma_merged_chunks_are_serial(groups, calls, chunks);
    } else if chunks.len() > 0 && (forall|k: int|
        0 <= k < chunks.len() ==> (#[trigger] accumulate_rows(calls, chunks[k])) is Ok) && merge_all(
        groups,
        chunk_tables(calls, chunks),
    ) is Ok {
        let c0 = chunks.drop_last();
        let last = chunks.last();
        assert(chunk_tables(calls, chunks).drop_last() =~= chunk_tables(calls, c0));
        assert forall|k: int| 0 <= k < c0.len() implies (#[trigger] accumulate_rows(calls, c0[k])) is Ok by {
            assert(c0[k] == chunks[k]);
        }
        lemma_merged_chunks_succeed_iff(groups, calls, c0);
        lemma_merged_chunks_are_serial(groups, calls, c0);
        let g0 = accumulate_from(groups, calls, chunk_rows(c0))->Ok_0;
        lemma_accumulate_shaped(groups, calls, chunk_rows(c0));
        assert(accumulate_rows(calls, chunks[chunks.len() - 1]) is Ok);
        assert(chunk_tables(calls, chunks).last() == Ok::<GroupsView, BustubxError>(
            accumulate_rows(calls, last)->Ok_0,
        ));
        lemma_merge_partial_succeeds_iff(g0, calls, last);
        lemma_accumulate_concat(groups, calls, chunk_rows(c0), last);
    }
}

/// A whole aggregation succeeds exactly when taking all rows one by one
/// does: it succeeds when every chunk of every batch groups without
/// failing and every merge succeeds, and fails otherwise (the failure
/// reported may differ between the two).
pub proof fn lemma_aggregation_succeeds_iff<F>(
    groups: GroupsView,
    calls: Seq<AggregateCall>,
    batches: Seq<Seq<Seq<RowInputs<F>>>>,
)
    requires
        shaped(groups, calls),
    ensures
        accumulate_from(groups, calls, batch_rows(batches)) is Ok <==> ({
            &&& forall|b: int, k: int|
                0 <= b < batches.len() && 0 <= k < batches[b].len() ==> (#[trigger] accumulate_rows(
                    calls,
                    batches[b][k],
                )) is Ok
            &&& merge_batches(groups, calls, batches) is Ok
        }),
    decreases batches.len(),
{
    if batches.len() > 0 {
        let n = batches.len() - 1;
        let b0 = batches.drop_last();
        let last = batches.last();
        lemma_accumulate_concat(groups, calls, batch_rows(b0), chunk_rows(last));
        lemma_aggregation_succeeds_iff(groups, calls, b0);
        let all_ok = forall|b: int, k: int|
            0 <= b < batches.len() && 0 <= k < batches[b].len() ==> (#[trigger] accumulate_rows(
                calls,
                batches[b][k],
            )) is Ok;
        let front_ok = forall|b: int, k: int|
            0 <= b < b0.len() && 0 <= k < b0[b].len() ==> (#[trigger] accumulate_rows(calls, b0[b][k])) is Ok;
        let last_ok = forall|k: int| 0 <= k < last.len() ==> (#[trigger] accumulate_rows(calls, last[k])) is Ok;
        assert(all_ok <==> front_ok && last_ok) by {
            if all_ok {
                assert forall|b: int, k: int|
                    0 <= b < b0.len() && 0 <= k < b0[b].len() implies (#[trigger] accumulate_rows(
                        calls,
                        b0[b][k],
                    )) is Ok by {
                    assert(b0[b] == batches[b]);
                    assert(accumulate_rows(calls, batches[b][k]) is Ok);
                }
                assert forall|k: int| 0 <= k < last.len() implies (#[trigger] accumulate_rows(
                    calls,
                    last[k],
                )) is Ok by {
                    assert(accumulate_rows(calls, batches[n][k]) is Ok);
                }
            }
            if front_ok && last_ok {
                assert forall|b: int, k: int|
                    0 <= b < batches.len() && 0 <= k < batches[b].len() implies (#[trigger] accumulate_rows(
                        calls,
                        batches[b][k],
                    )) is Ok by {
                    if b < n {
                        assert(b0[b] == batches[b]);
                        assert(accumulate_rows(calls, b0[b][k]) is Ok);
                    } else {
                        assert(accumulate_rows(calls, last[k]) is Ok);
                    }
                }
            }
        }
        if accumulate_from(groups, calls, batch_rows(b0)) is Ok {
            lemma_aggregation_is_serial(groups, calls, b0);
            lemma_accumulate_shaped(groups, calls, batch_rows(b0));
            let g = accumulate_from(groups, calls, batch_rows(b0))->Ok_0;
            lemma_merged_chunks_succeed_iff(g, calls, last);
        }
    }
}

/// One group per key: after rows are taken one by one, every row's key has
/// a group, no two groups share an id, and every group is a starting group
/// or the group of some row's key.
pub proof fn lemma_groups_are_the_keys<F>(
    groups: GroupsView,
    calls: Seq<AggregateCall>,
    rows: Seq<RowInputs<F>>,
)
    requires
        shaped(groups, calls),
        accumulate_from(groups, calls, rows) is Ok,
    ensures
        ({
            let s = accumulate_from(groups, calls, rows)->Ok_0;
            &&& distinct_ids(s)
            &&& forall|k: int|
                0 <= k < rows.len() ==> (#[trigger] rows[k]).key is Ok && position_of(
                    s,
                    rows[k].key->Ok_0,
                ) >= 0
            &&& forall|i: int|
                0 <= i < s.len() ==> position_of(groups, (#[trigger] s[i]).0) >= 0 || exists|k: int|
                    0 <= k < rows.len() && rows[k].key == Ok::<u64, BustubxError>(s[i].0)
        }),
    decreases rows.len(),
{
    lemma_accumulate_shaped(groups, calls, rows);
    if rows.len() > 0 {
        let r0 = rows.drop_last();
        lemma_groups_are_the_keys(groups, calls, r0);
        lemma_accumulate_shaped(groups, calls, r0);
        let s0 = accumulate_from(groups, calls, r0)->Ok_0;
        let s = accumulate_from(groups, calls, rows)->Ok_0;
        let last = rows.last();
        let id = last.key->Ok_0;
        let pos = position_of(s0, id);
        if pos >= 0 {
            lemma_present(s0, id);
            let t = update_tallies(s0[pos].1, last.inputs@)->Ok_0;
            assert(s == s0.update(pos, (id, t)));
            assert forall|x: u64| true implies position_of(s, x) == position_of(s0, x) by {
                lemma_update_positions(s0, pos, t, x);
            }
        } else {
            let g = s0.push((id, fresh_tallies(calls)));
            assert forall|x: u64| true implies position_of(g, x) == if x == id {
                s0.len() as int
            } else {
                position_of(s0, x)
            } by {
                lemma_push_positions(s0, (id, fresh_tallies(calls)), x);
            }
            let t = update_tallies(fresh_tallies(calls), last.inputs@)->Ok_0;
            assert(s == g.update(s0.len() as int, (id, t)));
            lemma_push_positions(s0, (id, fresh_tallies(calls)), id);
            assert forall|x: u64| true implies position_of(s, x) == position_of(g, x) by {
                lemma_update_positions(g, s0.len() as int, t, x);
            }
        }
        assert forall|k: int| 0 <= k < rows.len() implies (#[trigger] rows[k]).key is Ok
            && position_of(s, rows[k].key->Ok_0) >= 0 by {
            if k < rows.len() - 1 {
                assert(rows[k] == r0[k]);
            }
        }
        assert forall|i: int| 0 <= i < s.len() implies position_of(groups, (#[trigger] s[i]).0) >= 0
            || exists|k: int| 0 <= k < rows.len() && rows[k].key == Ok::<u64, BustubxError>(s[i].0) by {
            if s[i].0 != id {
                lemma_present(s, s[i].0);
                lemma_position(s, s[i].0, i);
                let j = position_of(s0, s[i].0);
                lemma_present(s0, s[i].0);
                assert(s0[j].0 == s[i].0);
                if position_of(groups, s[i].0) < 0 {
                    let k = choose|k: int| 0 <= k < r0.len() && r0[k].key == Ok::<u64, BustubxError>(s0[j].0);
                    assert(rows[k] == r0[k]);
                }
            } else {
                assert(rows[rows.len() - 1].key == Ok::<u64, BustubxError>(id));
            }
        }
    }
}

} // verus!
