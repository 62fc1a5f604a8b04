//! Nested loop join (INNER, CROSS, LEFT, RIGHT and FULL OUTER): for each
//! left row, scan the right input in batches joined by workers; pad
//! unmatched left rows after their scan and unmatched right rows (known by
//! their position in the right input) after all left rows.
use crate::execution::parallel::{clamp_parallelism, flatten, spec_clamp_parallelism, BATCH_SIZE};
use crate::execution::physical_plan::batch::{reversed, BatchEnd, PredicateValue};
use crate::execution::physical_plan::filter::end_error;
use crate::BustubxError;
use std::collections::HashSet;
use std::collections::VecDeque;
use vstd::prelude::*;

verus! {

broadcast use vstd::std_specs::hash::group_hash_axioms;

/// The kinds of join.
#[derive(Debug, Clone, Copy, PartialEq, Eq, Structural)]
pub enum JoinType {
    Inner,
    LeftOuter,
    RightOuter,
    FullOuter,
    Cross,
}

/// Whether unmatched left rows appear, padded with NULLs.
pub open spec fn spec_preserves_left(join_type: JoinType) -> bool {
    join_type == JoinType::LeftOuter || join_type == JoinType::FullOuter
}

/// Whether unmatched right rows appear, padded with NULLs.
pub open spec fn spec_preserves_right(join_type: JoinType) -> bool {
    join_type == JoinType::RightOuter || join_type == JoinType::FullOuter
}

/// The outputs of a joined batch: each matching pair and each condition
/// error, in right-input order.
pub open spec fn join_output<T>(rows: Seq<Result<Option<T>, BustubxError>>) -> Seq<
    Result<T, BustubxError>,
>
    decreases rows.len(),
{
    if rows.len() == 0 {
        Seq::empty()
    } else {
        let earlier = join_output(rows.drop_last());
        match rows.last() {
            Ok(Some(t)) => earlier.push(Ok(t)),
            Ok(None) => earlier,
            Err(e) => earlier.push(Err(e)),
        }
    }
}

/// The right-input positions that matched, for a batch starting at
/// position `first`.
pub open spec fn matched_positions<T>(first: int, rows: Seq<Result<Option<T>, BustubxError>>) -> Set<
    usize,
> {
    Set::new(|o: usize| first <= o < first + rows.len() && rows[o - first] matches Ok(Some(_)))
}

/// Whether any pair of a batch matched.
pub open spec fn any_match<T>(rows: Seq<Result<Option<T>, BustubxError>>) -> bool {
    exists|i: int| 0 <= i < rows.len() && #[trigger] rows[i] matches Ok(Some(_))
}

/// Batch boundaries do not matter: joining two consecutive batches gives
/// the outputs, matched positions and match flag of joining them as one, so
/// parallel (large batches) and serial (one row at a time) execution agree.
pub proof fn lemma_join_batches_compose<T>(
    first: int,
    rows1: Seq<Result<Option<T>, BustubxError>>,
    rows2: Seq<Result<Option<T>, BustubxError>>,
)
    ensures
        join_output(rows1 + rows2) == join_output(rows1) + join_output(rows2),
        matched_positions(first, rows1 + rows2) == matched_positions(first, rows1).union(
            matched_positions(first + rows1.len(), rows2),
        ),
        any_match(rows1 + rows2) == (any_match(rows1) || any_match(rows2)),
    decreases rows2.len(),
{
    let all = rows1 + rows2;
    if rows2.len() == 0 {
        assert(all =~= rows1);
        assert(join_output(rows1) + Seq::empty() =~= join_output(rows1));
    } else {
        lemma_join_batches_compose(first, rows1, rows2.drop_last());
        assert(all.drop_last() =~= rows1 + rows2.drop_last());
        let a = join_output(rows1);
        let b = join_output(rows2.drop_last());
        match rows2.last() {
            Ok(Some(t)) => {
                assert((a + b).push(Ok(t)) =~= a + b.push(Ok(t)));
            },
            Ok(None) => {},
            Err(e) => {
                assert((a + b).push(Err(e)) =~= a + b.push(Err(e)));
            },
        }
    }
    assert(matched_positions(first, all) =~= matched_positions(first, rows1).union(
        matched_positions(first + rows1.len(), rows2),
    )) by {
        assert forall|o: usize| #[trigger] matched_positions(first, all).contains(o) <==> (
        matched_positions(first, rows1).contains(o) || matched_positions(
            first + rows1.len(),
            rows2,
        ).contains(o)) by {
            if first <= o < first + rows1.len() {
                assert(all[o - first] == rows1[o - first]);
            } else if first + rows1.len() <= o < first + all.len() {
                assert(all[o - first] == rows2[o - first - rows1.len()]);
            }
        }
    }
    if any_match(all) {
        let i = choose|i: int| 0 <= i < all.len() && #[trigger] all[i] matches Ok(Some(_));
        if i < rows1.len() {
            assert(rows1[i] == all[i]);
        } else {
            assert(rows2[i - rows1.len()] == all[i]);
        }
    }
    if any_match(rows1) {
        let i = choose|i: int| 0 <= i < rows1.len() && #[trigger] rows1[i] matches Ok(Some(_));
        assert(all[i] == rows1[i]);
    }
    if any_match(rows2) {
        let i = choose|i: int| 0 <= i < rows2.len() && #[trigger] rows2[i] matches Ok(Some(_));
        assert(all[rows1.len() + i] == rows2[i]);
    }
}

/// The outputs of batches of joined right rows, queued one batch after
/// another.
pub open spec fn join_outputs<T>(batches: Seq<Seq<Result<Option<T>, BustubxError>>>) -> Seq<
    Result<T, BustubxError>,
>
    decreases batches.len(),
{
    if batches.len() == 0 {
        Seq::empty()
    } else {
        join_outputs(batches.drop_last()) + join_output(batches.last())
    }
}

/// A left row's whole join output does not depend on how the right input
/// is cut into batches: the outputs of all batches, queued in order, are
/// the join of all right rows at once, so every worker count gives the
/// serial result.
pub proof fn lemma_join_batches_are_one<T>(batches: Seq<Seq<Result<Option<T>, BustubxError>>>)
    ensures
        join_outputs(batches) == join_output(flatten(batches)),
    decreases batches.len(),
{
    if batches.len() > 0 {
        lemma_join_batches_are_one(batches.drop_last());
        lemma_join_batches_compose(0, flatten(batches.drop_last()), batches.last());
    }
}

/// Each joined right row adds to a batch's outputs, in order: the
/// combined row when the pair joins, the condition's error when it failed,
/// and nothing when it did not join.
pub proof fn lemma_join_output_row_by_row<T>(
    rows: Seq<Result<Option<T>, BustubxError>>,
    x: Result<Option<T>, BustubxError>,
)
    ensures
        join_output(rows.push(x)) == join_output(rows) + match x {
            Ok(Some(t)) => seq![Ok::<T, BustubxError>(t)],
            Ok(None) => Seq::<Result<T, BustubxError>>::empty(),
            Err(e) => seq![Err::<T, BustubxError>(e)],
        },
        join_output(Seq::<Result<Option<T>, BustubxError>>::empty()).len() == 0,
{
    assert(rows.push(x).drop_last() =~= rows);
    assert(rows.push(x).last() == x);
    match x {
        Ok(Some(t)) => {
            assert(join_output(rows).push(Ok(t)) =~= join_output(rows) + seq![Ok::<T, BustubxError>(t)]);
        },
        Ok(None) => {
            assert(join_output(rows) + Seq::<Result<T, BustubxError>>::empty() =~= join_output(rows));
        },
        Err(e) => {
            assert(join_output(rows).push(Err(e)) =~= join_output(rows) + seq![Err::<T, BustubxError>(e)]);
        },
    }
}

proof fn lemma_join_output_single<T>(x: Result<Option<T>, BustubxError>)
    ensures
        join_output(seq![x]) == match x {
            Ok(Some(t)) => seq![Ok::<T, BustubxError>(t)],
            Ok(None) => Seq::<Result<T, BustubxError>>::empty(),
            Err(e) => seq![Err::<T, BustubxError>(e)],
        },
{
    reveal_with_fuel(join_output, 2);
    assert(seq![x].drop_last() =~= Seq::<Result<Option<T>, BustubxError>>::empty());
    assert(seq![x].last() == x);
    assert(seq![x].len() == 1);
    match x {
        Ok(Some(t)) => {
            assert(Seq::<Result<T, BustubxError>>::empty().push(Ok(t)) =~= seq![Ok::<T, BustubxError>(t)]);
        },
        Ok(None) => {},
        Err(e) => {
            assert(Seq::<Result<T, BustubxError>>::empty().push(Err(e)) =~= seq![Err::<T, BustubxError>(e)]);
        },
    }
}

/// A join state after absorbing a batch of `count` right rows joined with
/// the current left row (`rows`), whose reading ended as `end`: matching
/// rows and condition errors are queued in right-input order, followed by
/// the input's failure if it failed; the matching positions are recorded;
/// the left row counts as matched once any pair joined.
pub open spec fn absorbed<T>(
    s: JoinStateView<T>,
    count: usize,
    end: BatchEnd,
    rows: Seq<Result<Option<T>, BustubxError>>,
) -> JoinStateView<T> {
    JoinStateView {
        right_ordinal: (s.right_ordinal + count) as usize,
        right_finished: s.right_finished || end is Ended,
        exhausted: s.exhausted || end is Failed,
        pending: s.pending + join_output(rows) + end_error::<T>(end),
        matched_right: s.matched_right.union(matched_positions(s.right_ordinal as int, rows)),
        current_left_matched: s.current_left_matched || any_match(rows),
        ..s
    }
}

/// Matches are recorded by their position in the whole right input: after
/// a batch of right rows that starts at position `s.right_ordinal` is
/// absorbed, the position of its `k`-th row is recorded as matched exactly
/// when it was before or that row joined, and every position outside the
/// batch keeps its mark. So the unmatched-right phase (which pads exactly
/// the positions not recorded) pads a right row exactly when no left row
/// joined it.
pub proof fn lemma_matches_recorded_by_position<T>(
    s: JoinStateView<T>,
    count: usize,
    end: BatchEnd,
    rows: Seq<Result<Option<T>, BustubxError>>,
    k: int,
    o: usize,
)
    requires
        rows.len() == count,
        s.right_ordinal + count <= usize::MAX,
    ensures
        0 <= k < count ==> (absorbed(s, count, end, rows).matched_right.contains(
            (s.right_ordinal + k) as usize,
        ) <==> (s.matched_right.contains((s.right_ordinal + k) as usize) || rows[k] matches Ok(
            Some(_),
        ))),
        !(s.right_ordinal <= o < s.right_ordinal + count) ==> (absorbed(
            s,
            count,
            end,
            rows,
        ).matched_right.contains(o) <==> s.matched_right.contains(o)),
        absorbed(s, count, end, rows).right_ordinal == s.right_ordinal + count,
        absorbed(s, count, end, rows).pending == s.pending + join_output(rows) + match end {
            BatchEnd::Failed(e) => seq![Err::<T, BustubxError>(e)],
            _ => Seq::<Result<T, BustubxError>>::empty(),
        },
        absorbed(s, count, end, rows).exhausted == (s.exhausted || end is Failed),
        absorbed(s, count, end, rows).right_finished == (s.right_finished || end is Ended),
        absorbed(s, count, end, rows).current_left_matched == (s.current_left_matched || exists|
            i: int,
        | 0 <= i < count && #[trigger] rows[i] matches Ok(Some(_))),
        absorbed(s, count, end, rows).left == s.left,
{
}

/// A left row's scan of the right input, absorbed batch by batch: every
/// batch but the last continues, the last ended as `end`.
pub open spec fn absorbed_batches<T>(
    s: JoinStateView<T>,
    batches: Seq<Seq<Result<Option<T>, BustubxError>>>,
    end: BatchEnd,
) -> JoinStateView<T>
    decreases batches.len(),
{
    if batches.len() == 0 {
        s
    } else {
        let before = absorbed_batches(s, batches.drop_last(), BatchEnd::Continues);
        absorbed(before, batches.last().len() as usize, end, batches.last())
    }
}

/// How a left row's right scan is cut into batches does not matter: with
/// every batch but the last continuing, absorbing the batches one after
/// another leaves the join in the state of absorbing all their rows as one
/// batch. So the rows and errors queued for a left row are the join of it
/// with every right row, in right-input order; its matched right positions
/// are exactly those that joined; and it counts as matched, and so is
/// padded with NULLs by a LEFT or FULL join exactly when, no pair joined.
pub proof fn lemma_left_row_scan_is_one_batch<T>(
    s: JoinStateView<T>,
    batches: Seq<Seq<Result<Option<T>, BustubxError>>>,
    end: BatchEnd,
)
    requires
        batches.len() > 0,
        s.right_ordinal + flatten(batches).len() <= usize::MAX,
    ensures
        absorbed_batches(s, batches, end) == absorbed(s, flatten(batches).len() as usize, end, flatten(batches)),
    decreases batches.len(),
{
    let b0 = batches.drop_last();
    let last = batches.last();
    let f0 = flatten(b0);
    if b0.len() == 0 {
        assert(flatten(b0) =~= Seq::<Result<Option<T>, BustubxError>>::empty());
        assert(flatten(batches) =~= last);
    } else {
        lemma_left_row_scan_is_one_batch(s, b0, BatchEnd::Continues);
        lemma_join_batches_compose(s.right_ordinal as int, f0, last);
        let mid = absorbed(s, f0.len() as usize, BatchEnd::Continues, f0);
        let a = absorbed(mid, last.len() as usize, end, last);
        let b = absorbed(s, flatten(batches).len() as usize, end, flatten(batches));
        assert(end_error::<T>(BatchEnd::Continues) =~= Seq::<Result<T, BustubxError>>::empty());
        assert(a.pending =~= b.pending);
        assert(a.matched_right =~= b.matched_right);
    }
}

/// The next step of a join of kind `join_type` with `parallelism` workers
/// in state `s`, and its state after. Pending results come first, then
/// the end; in the unmatched-right phase, the next right row; when the
/// right input is done for a left row, the right scan restarts and that
/// left row is handed back for padding exactly when the join preserves
/// left rows and it matched nothing; without a left row, the next left
/// row; otherwise a batch of right rows (`BATCH_SIZE` when parallel, else
/// one).
pub open spec fn join_step<T>(join_type: JoinType, parallelism: usize, s: JoinStateView<T>) -> (
    JoinStep<T>,
    JoinStateView<T>,
) {
    if s.pending.len() > 0 {
        (delivered(s.pending[0]), JoinStateView { pending: s.pending.drop_first(), ..s })
    } else if s.exhausted {
        (JoinStep::Ready(Ok(None)), s)
    } else if s.emitting_unmatched_right {
        (JoinStep::PullUnmatchedRight, s)
    } else if s.right_finished {
        (
            JoinStep::RestartRight(
                if spec_preserves_left(join_type) && !s.current_left_matched {
                    s.left
                } else {
                    None
                },
            ),
            JoinStateView {
                left: None,
                current_left_matched: false,
                right_ordinal: 0,
                right_finished: false,
                ..s
            },
        )
    } else if s.left is None {
        (JoinStep::PullLeft, s)
    } else {
        (
            JoinStep::PullRight(
                if parallelism > 1 {
                    BATCH_SIZE
                } else {
                    1
                },
            ),
            s,
        )
    }
}

/// The step that returns a decided result.
pub open spec fn delivered<T>(x: Result<T, BustubxError>) -> JoinStep<T> {
    match x {
        Ok(row) => JoinStep::Ready(Ok(Some(row))),
        Err(e) => JoinStep::Ready(Err(e)),
    }
}

/// `n` steps of a join from state `s`, and its state after them.
pub open spec fn join_steps<T>(join_type: JoinType, parallelism: usize, s: JoinStateView<T>, n: nat) -> (
    Seq<JoinStep<T>>,
    JoinStateView<T>,
)
    decreases n,
{
    if n == 0 {
        (Seq::empty(), s)
    } else {
        let (r, t) = join_step(join_type, parallelism, s);
        let rest = join_steps(join_type, parallelism, t, (n - 1) as nat);
        (seq![r] + rest.0, rest.1)
    }
}

/// An ended join hands out what it had decided, in order, and then the
/// end at every call, never reading either input again: after the end
/// (`Ok(None)`), or after an input's error that ended the join, every
/// call returns `Ok(None)` until the join is initialized again.
pub proof fn lemma_ended_join_stays_ended<T>(
    join_type: JoinType,
    parallelism: usize,
    s: JoinStateView<T>,
    n: nat,
)
    requires
        s.exhausted,
    ensures
        join_steps(join_type, parallelism, s, n).0 == Seq::new(
            n,
            |i: int|
                if i < s.pending.len() {
                    delivered(s.pending[i])
                } else {
                    JoinStep::<T>::Ready(Ok(None))
                },
        ),
        join_steps(join_type, parallelism, s, n).1.exhausted,
    decreases n,
{
    if n > 0 {
        let t = join_step(join_type, parallelism, s).1;
        lemma_ended_join_stays_ended(join_type, parallelism, t, (n - 1) as nat);
        let all = join_steps(join_type, parallelism, s, n).0;
        let want = Seq::new(
            n,
            |i: int|
                if i < s.pending.len() {
                    delivered(s.pending[i])
                } else {
                    JoinStep::<T>::Ready(Ok(None))
                },
        );
        assert forall|i: int| 0 <= i < n implies #[trigger] all[i] == want[i] by {
            if i > 0 && s.pending.len() > 0 {
                assert(t.pending == s.pending.drop_first());
                assert(i - 1 < t.pending.len() ==> t.pending[i - 1] == s.pending[i]);
            }
        }
        assert(all =~= want);
    }
}

/// Steps compose: `a + b` steps are `a` steps, then `b` more from there.
proof fn lemma_join_steps_split<T>(
    join_type: JoinType,
    parallelism: usize,
    s: JoinStateView<T>,
    a: nat,
    b: nat,
)
    ensures
        ({
            let first = join_steps(join_type, parallelism, s, a);
            let then = join_steps(join_type, parallelism, first.1, b);
            &&& join_steps(join_type, parallelism, s, a + b).0 == first.0 + then.0
            &&& join_steps(join_type, parallelism, s, a + b).1 == then.1
        }),
    decreases a,
{
    if a == 0 {
        assert(Seq::<JoinStep<T>>::empty() + join_steps(join_type, parallelism, s, b).0 =~= join_steps(
            join_type,
            parallelism,
            s,
            b,
        ).0);
    } else {
        let t = join_step(join_type, parallelism, s);
        lemma_join_steps_split(join_type, parallelism, t.1, (a - 1) as nat, b);
        assert((a + b - 1) as nat == (a - 1) as nat + b);
        let first = join_steps(join_type, parallelism, t.1, (a - 1) as nat);
        let then = join_steps(join_type, parallelism, first.1, b);
        assert(seq![t.0] + (first.0 + then.0) =~= (seq![t.0] + first.0) + then.0);
    }
}

/// The first `n` steps of a join with at least `n` pending results hand
/// them out in order.
proof fn lemma_join_steps_drain<T>(
    join_type: JoinType,
    parallelism: usize,
    s: JoinStateView<T>,
    n: nat,
)
    requires
        n <= s.pending.len(),
    ensures
        join_steps(join_type, parallelism, s, n).0 == Seq::new(n, |i: int| delivered(s.pending[i])),
        join_steps(join_type, parallelism, s, n).1 == (JoinStateView {
            pending: s.pending.subrange(n as int, s.pending.len() as int),
            ..s
        }),
    decreases n,
{
    if n == 0 {
        assert(s.pending.subrange(0, s.pending.len() as int) =~= s.pending);
        assert(Seq::new(0, |i: int| delivered(s.pending[i])) =~= Seq::<JoinStep<T>>::empty());
    } else {
        let t = join_step(join_type, parallelism, s).1;
        lemma_join_steps_drain(join_type, parallelism, t, (n - 1) as nat);
        assert(t.pending =~= s.pending.drop_first());
        assert(t.pending.subrange((n - 1) as int, t.pending.len() as int) =~= s.pending.subrange(
            n as int,
            s.pending.len() as int,
        ));
        let all = join_steps(join_type, parallelism, s, n).0;
        assert forall|i: int| 0 <= i < n implies #[trigger] all[i] == delivered(s.pending[i]) by {
            if i > 0 {
                assert(t.pending[i - 1] == s.pending[i]);
            }
        }
        assert(all =~= Seq::new(n, |i: int| delivered(s.pending[i])));
    }
}

/// One left row's round of a join: once the left row `l` is current
/// (nothing pending or matched for it, its right scan at the start), its
/// right scan absorbed in batches, every batch but the last continuing and
/// the last ending the right input, makes the join return, in order, the
/// join of `l` with every right row (matching rows and condition errors in
/// right-input order), and then restart the right input, handing `l` back
/// to be padded with NULLs exactly when the join preserves left rows and no
/// right row matched it; the join is then ready for the next left row,
/// with the positions that matched `l` recorded.
pub proof fn lemma_left_row_round<T>(
    join_type: JoinType,
    parallelism: usize,
    s: JoinStateView<T>,
    batches: Seq<Seq<Result<Option<T>, BustubxError>>>,
)
    requires
        s.left is Some,
        s.pending.len() == 0,
        !s.exhausted,
        !s.emitting_unmatched_right,
        !s.right_finished,
        !s.current_left_matched,
        s.right_ordinal == 0,
        batches.len() > 0,
        flatten(batches).len() <= usize::MAX,
    ensures
        ({
            let all = flatten(batches);
            let out = join_output(all);
            let after = absorbed_batches(s, batches, BatchEnd::Ended);
            let run = join_steps(join_type, parallelism, after, out.len() + 1);
            &&& run.0 == Seq::new(out.len(), |i: int| delivered(out[i])).push(
                JoinStep::RestartRight(
                    if spec_preserves_left(join_type) && !any_match(all) {
                        s.left
                    } else {
                        None
                    },
                ),
            )
            &&& run.1 == (JoinStateView {
                left: None,
                pending: Seq::empty(),
                matched_right: s.matched_right.union(matched_positions(0, all)),
                ..s
            })
        }),
{
    let all = flatten(batches);
    let out = join_output(all);
    lemma_left_row_scan_is_one_batch(s, batches, BatchEnd::Ended);
    let after = absorbed_batches(s, batches, BatchEnd::Ended);
    assert(end_error::<T>(BatchEnd::Ended) =~= Seq::<Result<T, BustubxError>>::empty());
    assert(after.pending =~= out);
    lemma_join_steps_split(join_type, parallelism, after, out.len(), 1);
    lemma_join_steps_drain(join_type, parallelism, after, out.len());
    let drained = join_steps(join_type, parallelism, after, out.len()).1;
    assert(drained.pending =~= Seq::<Result<T, BustubxError>>::empty());
    let last = join_steps(join_type, parallelism, drained, 1);
    let restarted = join_step(join_type, parallelism, drained);
    assert(join_steps(join_type, parallelism, restarted.1, 0) == (Seq::<JoinStep<T>>::empty(), restarted.1));
    assert(last.0 =~= seq![restarted.0]);
    assert(last.1 == restarted.1);
    assert(restarted.1.matched_right =~= s.matched_right.union(matched_positions(0, all)));
    let want = Seq::new(out.len(), |i: int| delivered(out[i]));
    let pad = JoinStep::RestartRight(
        if spec_preserves_left(join_type) && !any_match(all) {
            s.left
        } else {
            None
        },
    );
    assert(join_step(join_type, parallelism, drained).0 == pad);
    assert(want + seq![pad] =~= want.push(pad));
}

/// What the join does with a right row in the unmatched-right phase, and
/// its state after: a row whose position never matched is padded, a
/// matched one skipped, both moving to the next position; the end of the
/// right input, or its error, ends the join.
pub open spec fn unmatched_step<T>(s: JoinStateView<T>, row: Result<Option<T>, BustubxError>) -> (
    UnmatchedRight<T>,
    JoinStateView<T>,
) {
    match row {
        Ok(Some(t)) => (
            if s.matched_right.contains(s.right_ordinal) {
                UnmatchedRight::Skip
            } else {
                UnmatchedRight::Pad(t)
            },
            JoinStateView { right_ordinal: (s.right_ordinal + 1) as usize, ..s },
        ),
        Ok(None) => (UnmatchedRight::Finished(Ok(None)), JoinStateView { exhausted: true, ..s }),
        Err(e) => (UnmatchedRight::Finished(Err(e)), JoinStateView { exhausted: true, ..s }),
    }
}

/// The right rows `rows`, starting at position `first`, whose positions
/// are not in `matched`, in order.
pub open spec fn unmatched_rows<T>(matched: Set<usize>, first: int, rows: Seq<T>) -> Seq<T>
    decreases rows.len(),
{
    if rows.len() == 0 {
        Seq::empty()
    } else {
        (if matched.contains(first as usize) {
            Seq::empty()
        } else {
            seq![rows[0]]
        }) + unmatched_rows(matched, first + 1, rows.drop_first())
    }
}

/// The unmatched-right phase over right rows `rows`, row by row: the rows
/// padded, and the join's state after them.
pub open spec fn unmatched_walk<T>(s: JoinStateView<T>, rows: Seq<T>) -> (Seq<T>, JoinStateView<T>)
    decreases rows.len(),
{
    if rows.len() == 0 {
        (Seq::empty(), s)
    } else {
        let (r, t) = unmatched_step(s, Ok(Some(rows[0])));
        let rest = unmatched_walk(t, rows.drop_first());
        (
            (if r is Pad {
                seq![rows[0]]
            } else {
                Seq::empty()
            }) + rest.0,
            rest.1,
        )
    }
}

/// After all left rows, a RIGHT or FULL join pads exactly the right rows
/// whose positions matched no left row, in right-input order (equal rows
/// are told apart by position), and nothing else changes but the position.
pub proof fn lemma_unmatched_right_rows<T>(s: JoinStateView<T>, rows: Seq<T>)
    requires
        s.right_ordinal + rows.len() <= usize::MAX,
    ensures
        unmatched_walk(s, rows).0 == unmatched_rows(s.matched_right, s.right_ordinal as int, rows),
        unmatched_walk(s, rows).1 == (JoinStateView {
            right_ordinal: (s.right_ordinal + rows.len()) as usize,
            ..s
        }),
    decreases rows.len(),
{
    if rows.len() > 0 {
        let t = unmatched_step(s, Ok(Some(rows[0]))).1;
        lemma_unmatched_right_rows(t, rows.drop_first());
    }
}

/// Progress of a nested loop join.
pub struct JoinState<T> {
    /// The current left row.
    pub left: Option<T>,
    /// The right input has ended for the current left row.
    pub right_finished: bool,
    /// The join has ended.
    pub exhausted: bool,
    /// The current left row matched some right row.
    pub current_left_matched: bool,
    /// Position of the next right row within the right input.
    pub right_ordinal: usize,
    /// Right positions that matched some left row.
    pub matched_right: HashSet<usize>,
    /// All left rows are done; unmatched right rows are being emitted.
    pub emitting_unmatched_right: bool,
    /// Results decided but not yet returned.
    pub pending: VecDeque<Result<T, BustubxError>>,
}

/// Abstract state of a nested loop join.
pub struct JoinStateView<T> {
    pub left: Option<T>,
    pub right_finished: bool,
    pub exhausted: bool,
    pub current_left_matched: bool,
    pub right_ordinal: usize,
    pub matched_right: Set<usize>,
    pub emitting_unmatched_right: bool,
    pub pending: Seq<Result<T, BustubxError>>,
}

impl<T> View for JoinState<T> {
    type V = JoinStateView<T>;

    open spec fn view(&self) -> JoinStateView<T> {
        JoinStateView {
            left: self.left,
            right_finished: self.right_finished,
            exhausted: self.exhausted,
            current_left_matched: self.current_left_matched,
            right_ordinal: self.right_ordinal,
            matched_right: self.matched_right@,
            emitting_unmatched_right: self.emitting_unmatched_right,
            pending: self.pending@,
        }
    }
}

/// What the next call of the join does.
pub enum JoinStep<T> {
    /// Return this.
    Ready(Result<Option<T>, BustubxError>),
    /// Read the next right row and hand it to `on_unmatched_right`.
    PullUnmatchedRight,
    /// The right scan for the previous left row is done: restart the right
    /// input, and queue this left row padded with NULLs if it is given.
    RestartRight(Option<T>),
    /// Read the next left row and hand it to `on_left`.
    PullLeft,
    /// Read up to this many right rows, join them with the current left row
    /// and hand them to `absorb_right_batch`.
    PullRight(usize),
}

/// What the join does with the next left row or the end of the left input.
pub enum LeftOutcome {
    /// Scan the right input for this left row.
    Scan,
    /// The left input ended and unmatched right rows must follow: restart
    /// the right input, then call `begin_unmatched_right`.
    StartUnmatchedRight,
    /// The join has ended.
    End,
}

/// What the join does with a right row while emitting unmatched right rows.
pub enum UnmatchedRight<T> {
    /// This right row matched nothing: return it padded with NULLs.
    Pad(T),
    /// This right row matched: read the next one.
    Skip,
    /// The join has ended: return this.
    Finished(Result<Option<T>, BustubxError>),
}

/// The nested loop join: condition `X`, input plans `I`, output schema
/// `S`, rows `T`.
pub struct PhysicalNestedLoopJoin<X, I, S, T> {
    pub join_type: JoinType,
    pub condition: Option<X>,
    pub left_input: I,
    pub right_input: I,
    pub schema: S,
    pub parallelism: usize,
    pub state: JoinState<T>,
}

/// A join state before the first row.
pub open spec fn fresh_join_state<T>(s: JoinState<T>) -> bool {
    &&& s.left is None
    &&& !s.right_finished
    &&& !s.exhausted
    &&& !s.current_left_matched
    &&& s.right_ordinal == 0
    &&& s.matched_right@ == Set::<usize>::empty()
    &&& !s.emitting_unmatched_right
    &&& s.pending@.len() == 0
}

fn fresh_state<T>() -> (r: JoinState<T>)
    ensures
        fresh_join_state(r),
{
    JoinState {
        left: None,
        right_finished: false,
        exhausted: false,
        current_left_matched: false,
        right_ordinal: 0,
        matched_right: HashSet::new(),
        emitting_unmatched_right: false,
        pending: VecDeque::new(),
    }
}

impl<X, I, S, T> PhysicalNestedLoopJoin<X, I, S, T> {
    /// A serial join of `left_input` and `right_input`.
    pub fn new(
        join_type: JoinType,
        condition: Option<X>,
        left_input: I,
        right_input: I,
        schema: S,
    ) -> (r: Self)
        ensures
            r.join_type == join_type,
            r.condition == condition,
            r.left_input == left_input,
            r.right_input == right_input,
            r.schema == schema,
            r.parallelism == 1,
            fresh_join_state(r.state),
    {
        PhysicalNestedLoopJoin {
            join_type,
            condition,
            left_input,
            right_input,
            schema,
            parallelism: 1,
            state: fresh_state(),
        }
    }

    /// The same join with `workers` workers, clamped to `1..=64`.
    pub fn with_parallelism(self, workers: usize) -> (r: Self)
        ensures
            r.parallelism == spec_clamp_parallelism(workers),
            r.join_type == self.join_type,
            r.condition == self.condition,
            r.left_input == self.left_input,
            r.right_input == self.right_input,
            r.schema == self.schema,
            r.state == self.state,
    {
        let mut s = self;
        s.parallelism = clamp_parallelism(workers);
        s
    }

    /// The values of an output row: the left values, or the left side's
    /// NULLs when there is no left row, followed by the right values, or
    /// the right side's NULLs.
    pub fn combine<V>(
        &self,
        left: Option<Vec<V>>,
        right: Option<Vec<V>>,
        left_nulls: Vec<V>,
        right_nulls: Vec<V>,
    ) -> (r: Vec<V>)
        ensures
            r@ == match left {
                Some(l) => l@,
                None => left_nulls@,
            } + match right {
                Some(x) => x@,
                None => right_nulls@,
            },
    {
        let mut data = match left {
            Some(l) => l,
            None => left_nulls,
        };
        let mut tail = match right {
            Some(x) => x,
            None => right_nulls,
        };
        data.append(&mut tail);
        data
    }

    /// Whether a combined pair joins, given the condition's value on it (or
    /// `None` without a condition): TRUE joins, FALSE or NULL does not, any
    /// non-boolean value is an execution error.
    pub fn join(&self, condition_value: Option<PredicateValue>) -> (r: Result<bool, BustubxError>)
        ensures
            match condition_value {
                None => r == Ok::<bool, BustubxError>(true),
                Some(PredicateValue::Boolean(b)) => r == Ok::<bool, BustubxError>(
                    b == Some(true),
                ),
                Some(PredicateValue::Other) => r matches Err(e) && e is Execution,
            },
    {
        match condition_value {
            None => Ok(true),
            Some(PredicateValue::Boolean(Some(true))) => Ok(true),
            Some(PredicateValue::Boolean(_)) => Ok(false),
            Some(PredicateValue::Other) => Err(
                BustubxError::Execution("join condition should be boolean".to_owned()),
            ),
        }
    }

    /// Whether unmatched left rows are emitted (LEFT and FULL joins).
    pub fn preserves_left(&self) -> (r: bool)
        ensures
            r == spec_preserves_left(self.join_type),
    {
        matches!(self.join_type, JoinType::LeftOuter | JoinType::FullOuter)
    }

    /// Whether unmatched right rows are emitted (RIGHT and FULL joins).
    pub fn preserves_right(&self) -> (r: bool)
        ensures
            r == spec_preserves_right(self.join_type),
    {
        matches!(self.join_type, JoinType::RightOuter | JoinType::FullOuter)
    }

    /// Restart: forget the current left row, the matched right positions,
    /// the unmatched-right phase and undelivered results (the caller also
    /// restarts both inputs).
    pub fn init(&mut self)
        ensures
            final(self).join_type == old(self).join_type,
            final(self).condition == old(self).condition,
            final(self).left_input == old(self).left_input,
            final(self).right_input == old(self).right_input,
            final(self).schema == old(self).schema,
            final(self).parallelism == old(self).parallelism,
            fresh_join_state(final(self).state),
    {
        self.state = fresh_state();
    }

    /// Decide the next step, as `join_step` says.
    pub fn step(&mut self) -> (r: JoinStep<T>)
        ensures
            final(self).join_type == old(self).join_type,
            final(self).condition == old(self).condition,
            final(self).left_input == old(self).left_input,
            final(self).right_input == old(self).right_input,
            final(self).schema == old(self).schema,
            final(self).parallelism == old(self).parallelism,
            (r, final(self).state@) == join_step(old(self).join_type, old(self).parallelism, old(self).state@),
    {
        let preserves_left = self.preserves_left();
        let state = &mut self.state;
        if let Some(row) = state.pending.pop_front() {
            return match row {
                Ok(t) => JoinStep::Ready(Ok(Some(t))),
                Err(e) => JoinStep::Ready(Err(e)),
            };
        }
        if state.exhausted {
            return JoinStep::Ready(Ok(None));
        }
        if state.emitting_unmatched_right {
            return JoinStep::PullUnmatchedRight;
        }
        if state.right_finished {
            let unmatched_left = preserves_left && !state.current_left_matched;
            let left = state.left.take();
            state.current_left_matched = false;
            state.right_ordinal = 0;
            state.right_finished = false;
            return JoinStep::RestartRight(
                if unmatched_left {
                    left
                } else {
                    None
                },
            );
        }
        if state.left.is_none() {
            return JoinStep::PullLeft;
        }
        JoinStep::PullRight(
            if self.parallelism > 1 {
                BATCH_SIZE
            } else {
                1
            },
        )
    }

    /// Queue a left row that matched nothing, already padded with NULLs.
    pub fn queue_padded_left(&mut self, row: T)
        ensures
            final(self).join_type == old(self).join_type,
            final(self).condition == old(self).condition,
            final(self).left_input == old(self).left_input,
            final(self).right_input == old(self).right_input,
            final(self).schema == old(self).schema,
            final(self).parallelism == old(self).parallelism,
            final(self).state@ == (JoinStateView {
                pending: old(self).state@.pending.push(Ok(row)),
                ..old(self).state@
            }),
    {
        self.state.pending.push_back(Ok(row));
    }

    /// Take the next left row, or the end of the left input: a row becomes
    /// the current one; at the end, unmatched right rows follow for RIGHT
    /// and FULL joins, otherwise the join ends.
    pub fn on_left(&mut self, row: Option<T>) -> (r: LeftOutcome)
        ensures
            final(self).join_type == old(self).join_type,
            final(self).condition == old(self).condition,
            final(self).left_input == old(self).left_input,
            final(self).right_input == old(self).right_input,
            final(self).schema == old(self).schema,
            final(self).parallelism == old(self).parallelism,
            match row {
                Some(t) => r is Scan && final(self).state@ == (JoinStateView {
                    left: Some(t),
                    ..old(self).state@
                }),
                None => if spec_preserves_right(old(self).join_type) {
                    r is StartUnmatchedRight && final(self).state@ == old(self).state@
                } else {
                    r is End && final(self).state@ == (JoinStateView {
                        exhausted: true,
                        ..old(self).state@
                    })
                },
            },
    {
        match row {
            Some(t) => {
                self.state.left = Some(t);
                LeftOutcome::Scan
            },
            None => {
                if self.preserves_right() {
                    LeftOutcome::StartUnmatchedRight
                } else {
                    self.state.exhausted = true;
                    LeftOutcome::End
                }
            },
        }
    }

    /// Enter the unmatched-right phase after the right input was restarted.
    pub fn begin_unmatched_right(&mut self)
        ensures
            final(self).join_type == old(self).join_type,
            final(self).condition == old(self).condition,
            final(self).left_input == old(self).left_input,
            final(self).right_input == old(self).right_input,
            final(self).schema == old(self).schema,
            final(self).parallelism == old(self).parallelism,
            final(self).state@ == (JoinStateView {
                emitting_unmatched_right: true,
                right_ordinal: 0,
                ..old(self).state@
            }),
    {
        self.state.emitting_unmatched_right = true;
        self.state.right_ordinal = 0;
    }

    /// Take a right row (or the end, or an error) in the unmatched-right
    /// phase: a row whose position never matched is returned padded; a
    /// matched one is skipped; the end or an error ends the join.
    pub fn on_unmatched_right(&mut self, row: Result<Option<T>, BustubxError>) -> (r:
        UnmatchedRight<T>)
        requires
            old(self).state.right_ordinal < usize::MAX,
        ensures
            final(self).join_type == old(self).join_type,
            final(self).condition == old(self).condition,
            final(self).left_input == old(self).left_input,
            final(self).right_input == old(self).right_input,
            final(self).schema == old(self).schema,
            final(self).parallelism == old(self).parallelism,
            (r, final(self).state@) == unmatched_step(old(self).state@, row),
    {
        match row {
            Ok(Some(t)) => {
                let ordinal = self.state.right_ordinal;
                self.state.right_ordinal = ordinal + 1;
                if self.state.matched_right.contains(&ordinal) {
                    UnmatchedRight::Skip
                } else {
                    UnmatchedRight::Pad(t)
                }
            },
            Ok(None) => {
                self.state.exhausted = true;
                UnmatchedRight::Finished(Ok(None))
            },
            Err(e) => {
                self.state.exhausted = true;
                UnmatchedRight::Finished(Err(e))
            },
        }
    }

    /// Take a batch of `count` right rows joined with the current left row
    /// (for each, the combined row if it joins, or the condition's error),
    /// or a failure of the evaluation itself, and how reading the batch
    /// ended. Matching rows and condition errors are queued in right-input
    /// order, the matching positions are recorded, and the left row is
    /// marked matched if any pair joined; the input's error, if it failed,
    /// follows and ends the join. A failed evaluation ends the join and is
    /// returned at once.
    pub fn absorb_right_batch(
        &mut self,
        count: usize,
        end: BatchEnd,
        joined: Result<Vec<Result<Option<T>, BustubxError>>, BustubxError>,
    ) -> (r: Result<(), BustubxError>)
        requires
            old(self).state.right_ordinal + count <= usize::MAX,
            joined matches Ok(rows) ==> rows@.len() == count,
        ensures
            final(self).join_type == old(self).join_type,
            final(self).condition == old(self).condition,
            final(self).left_input == old(self).left_input,
            final(self).right_input == old(self).right_input,
            final(self).schema == old(self).schema,
            final(self).parallelism == old(self).parallelism,
            ({
                let s = old(self).state;
                let t = final(self).state;
                &&& t.left == s.left
                &&& t.emitting_unmatched_right == s.emitting_unmatched_right
                &&& t.right_ordinal == s.right_ordinal + count
                &&& t.right_finished == (s.right_finished || end is Ended)
                &&& match joined {
                    Err(e) => {
                        &&& r == Err::<(), BustubxError>(e)
                        &&& t.exhausted
                        &&& t.pending@ == s.pending@
                        &&& t.matched_right@ == s.matched_right@
                        &&& t.current_left_matched == s.current_left_matched
                    },
                    Ok(rows) => r is Ok && t@ == absorbed(s@, count, end, rows@),
                }
            }),
    {
        let first = self.state.right_ordinal;
        self.state.right_ordinal = first + count;
        let mut failure: Option<BustubxError> = None;
        match end {
            BatchEnd::Continues => {},
            BatchEnd::Ended => {
                self.state.right_finished = true;
            },
            BatchEnd::Failed(e) => {
                self.state.exhausted = true;
                failure = Some(e);
            },
        }
        let rows = match joined {
            Ok(rows) => rows,
            Err(e) => {
                self.state.exhausted = true;
                return Err(e);
            },
        };
        let ghost all = rows@;
        let ghost start = self.state;
        let mut rev = reversed(rows);
        let mut i: usize = 0;
        while i < count
            invariant
                joined matches Ok(p) && p@ == all,
                all.len() == count,
                first + count <= usize::MAX,
                i <= count,
                rev@.len() == count - i,
                forall|j: int| 0 <= j < count - i ==> #[trigger] rev@[j] == all[count - 1 - j],
                self.join_type == old(self).join_type,
                self.condition == old(self).condition,
                self.left_input == old(self).left_input,
                self.right_input == old(self).right_input,
                self.schema == old(self).schema,
                self.parallelism == old(self).parallelism,
                self.state.left == start.left,
                self.state.emitting_unmatched_right == start.emitting_unmatched_right,
                self.state.right_ordinal == start.right_ordinal,
                self.state.right_finished == start.right_finished,
                self.state.exhausted == start.exhausted,
                self.state.pending@ == start.pending@ + join_output(all.subrange(0, i as int)),
                self.state.matched_right@ == start.matched_right@.union(
                    matched_positions(first as int, all.subrange(0, i as int)),
                ),
                self.state.current_left_matched == (start.current_left_matched || any_match(
                    all.subrange(0, i as int),
                )),
            decreases count - i,
        {
            let row = rev.pop().unwrap();
            proof {
                assert(row == all[i as int]);
                lemma_join_output_single(all[i as int]);
                lemma_join_batches_compose(
                    first as int,
                    all.subrange(0, i as int),
                    seq![all[i as int]],
                );
                assert(all.subrange(0, i as int) + seq![all[i as int]] =~= all.subrange(
                    0,
                    i + 1,
                ));
                assert(seq![all[i as int]].drop_last() =~= Seq::<
                    Result<Option<T>, BustubxError>,
                >::empty());
                assert(matched_positions(first + i, seq![all[i as int]]) =~= if all[i as int] matches Ok(Some(_)) {
                    set![(first + i) as usize]
                } else {
                    Set::<usize>::empty()
                });
                if any_match(seq![all[i as int]]) {
                    let k = choose|k: int| 0 <= k < 1 && #[trigger] seq![all[i as int]][k] matches Ok(Some(_));
                    assert(k == 0);
                }
                if all[i as int] matches Ok(Some(_)) {
                    assert(seq![all[i as int]][0] == all[i as int]);
                }
            }
            match row {
                Ok(Some(t)) => {
                    self.state.current_left_matched = true;
                    self.state.matched_right.insert(first + i);
                    self.state.pending.push_back(Ok(t));
                },
                Ok(None) => {},
                Err(e) => {
                    self.state.pending.push_back(Err(e));
                },
            }
            proof {
                assert(self.state.matched_right@ =~= start.matched_right@.union(
                    matched_positions(first as int, all.subrange(0, i + 1)),
                ));
            }
            i = i + 1;
        }
        assert(all.subrange(0, count as int) =~= all);
        if let Some(e) = failure {
            self.state.pending.push_back(Err(e));
        }
        proof {
            let want = absorbed(old(self).state@, count, end, all);
            assert(self.state@.pending =~= want.pending);
            assert(self.state@.matched_right =~= want.matched_right);
        }
        Ok(())
    }
}

} // verus!
