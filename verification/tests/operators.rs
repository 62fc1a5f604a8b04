use bustubx::execution::parallel::BATCH_SIZE;
use bustubx::execution::physical_plan::batch::{BatchEnd, PredicateValue};
use bustubx::execution::physical_plan::filter::{FilterPoll, PhysicalFilter, RowDecision};
use bustubx::execution::physical_plan::limit::{LimitOutcome, PhysicalLimit};
use bustubx::execution::physical_plan::nested_loop_join::{
    JoinStep, JoinType, LeftOutcome, PhysicalNestedLoopJoin, UnmatchedRight,
};
use bustubx::execution::physical_plan::project::PhysicalProject;
use bustubx::BustubxError;

/// A replayable input: rows (or errors) in order.
struct Input<T: Clone> {
    rows: Vec<Result<T, BustubxError>>,
    pos: usize,
    pulls: usize,
}

impl<T: Clone> Input<T> {
    fn new(rows: Vec<Result<T, BustubxError>>) -> Self {
        Input { rows, pos: 0, pulls: 0 }
    }
    fn init(&mut self) {
        self.pos = 0;
    }
    fn next(&mut self) -> Result<Option<T>, BustubxError> {
        self.pulls += 1;
        if self.pos >= self.rows.len() {
            return Ok(None);
        }
        self.pos += 1;
        self.rows[self.pos - 1].clone().map(Some)
    }
}

fn bad() -> BustubxError {
    BustubxError::Execution("Cannot cast 'bad' to Int32".into())
}

fn fill<T: Clone>(input: &mut Input<T>, max: usize) -> (Vec<T>, BatchEnd) {
    let mut batch = Vec::new();
    for _ in 0..max {
        match input.next() {
            Ok(Some(t)) => batch.push(t),
            Ok(None) => return (batch, BatchEnd::Ended),
            Err(e) => return (batch, BatchEnd::Failed(e)),
        }
    }
    (batch, BatchEnd::Continues)
}

// ---- projection over an input whose rows may fail to project -----------

type Project = PhysicalProject<(), (), Input<i32>, i32>;

fn project_value(v: i32) -> Result<i32, BustubxError> {
    if v < 0 {
        Err(bad())
    } else {
        Ok(v)
    }
}

fn project_next(op: &mut Project) -> Result<Option<i32>, BustubxError> {
    if op.parallelism == 1 {
        return match op.input.next()? {
            Some(v) => Ok(Some(op.project(vec![project_value(v)])?[0])),
            None => Ok(None),
        };
    }
    if let Some(max) = op.batch_to_fill() {
        let (batch, end) = fill(&mut op.input, max);
        let rows: Vec<Result<i32, BustubxError>> = batch
            .iter()
            .map(|v| op.project(vec![project_value(*v)]).map(|r| r[0]))
            .collect();
        op.absorb(Ok(rows), end)?;
    }
    op.take_next()
}

#[test]
fn errors_are_returned_in_row_order() {
    let mut project = Project::new((), (), Input::new(vec![Ok(7), Ok(-1)])).with_parallelism(4);
    project.init();
    project.input.init();
    assert_eq!(project_next(&mut project).unwrap(), Some(7));
    assert!(project_next(&mut project).is_err());
    assert!(project_next(&mut project).unwrap().is_none());
    assert!(project_next(&mut project).unwrap().is_none());
}

#[test]
fn projection_errors_remain_lazy_and_init_discards_pending_rows() {
    let mut valid = Project::new((), (), Input::new(vec![Ok(7), Ok(8)])).with_parallelism(4);
    valid.init();
    valid.input.init();
    let first = project_next(&mut valid).unwrap();
    valid.init();
    valid.input.init();
    assert_eq!(project_next(&mut valid).unwrap(), first);
    assert_ne!(project_next(&mut valid).unwrap(), first);
    let mut failing = Project::new((), (), Input::new(vec![Ok(-7), Ok(-1)])).with_parallelism(4);
    failing.init();
    failing.input.init();
    assert!(project_next(&mut failing).is_err());
    failing.init();
    failing.input.init();
    assert!(project_next(&mut failing).is_err());
    assert!(project_next(&mut failing).is_err());
    assert!(project_next(&mut failing).unwrap().is_none());
}

#[test]
fn project_collects_values_or_first_error() {
    let op = Project::new((), (), Input::new(vec![]));
    assert_eq!(op.project(vec![Ok(1), Ok(2), Ok(3)]).unwrap(), vec![1, 2, 3]);
    let r = op.project(vec![
        Ok(1),
        Err(BustubxError::Internal("first".into())),
        Err(BustubxError::Execution("second".into())),
    ]);
    assert!(matches!(r, Err(BustubxError::Internal(_))));
    assert_eq!(op.project::<i32>(vec![]).unwrap(), Vec::<i32>::new());
}

// ---- limit ---------------------------------------------------------------

type Limit = PhysicalLimit<Project>;

fn limit_next(op: &mut Limit) -> Result<Option<i32>, BustubxError> {
    limit_over(op, project_next)
}

fn limit_over<I, T>(op: &mut PhysicalLimit<I>, next: fn(&mut I) -> Result<Option<T>, BustubxError>) -> Result<Option<T>, BustubxError> {
    if !op.wants_input() {
        return Ok(None);
    }
    loop {
        let row = next(&mut op.input)?;
        match op.accept(row) {
            LimitOutcome::Skipped => continue,
            LimitOutcome::Emit(t) => return Ok(Some(t)),
            LimitOutcome::End => return Ok(None),
        }
    }
}

fn values(rows: Vec<i32>, workers: usize) -> Project {
    Project::new((), (), Input::new(rows.into_iter().map(Ok).collect())).with_parallelism(workers)
}

fn limit_init(op: &mut Limit) {
    op.init();
    op.input.init();
    op.input.input.init();
}

#[test]
fn limit_never_requests_rows_beyond_its_quota() {
    for workers in [1, 4] {
        let mut zero = Limit::new(Some(0), 5, values(vec![-1], workers));
        limit_init(&mut zero);
        assert!(limit_next(&mut zero).unwrap().is_none());
        assert_eq!(zero.input.input.pulls, 0);
        let mut one = Limit::new(Some(1), 1, values(vec![7, 7, -1], workers));
        limit_init(&mut one);
        assert_eq!(limit_next(&mut one).unwrap(), Some(7));
        for _ in 0..3 {
            assert!(limit_next(&mut one).unwrap().is_none());
        }
        let mut error = Limit::new(Some(2), 0, values(vec![7, -1], workers));
        limit_init(&mut error);
        assert!(limit_next(&mut error).unwrap().is_some());
        assert!(limit_next(&mut error).is_err());
    }
}

#[test]
fn large_limit_and_offset_do_not_overflow() {
    for limit in [Some(usize::MAX), None] {
        let mut op = Limit::new(limit, 1, values(vec![7, 7], 4));
        limit_init(&mut op);
        assert!(limit_next(&mut op).unwrap().is_some());
        assert!(limit_next(&mut op).unwrap().is_none());
    }
    let mut op = Limit::new(None, usize::MAX, values(vec![7], 4));
    limit_init(&mut op);
    assert!(limit_next(&mut op).unwrap().is_none());
}

#[test]
fn init_resets_offset_quota_and_exhaustion() {
    let mut op = Limit::new(Some(1), 1, values(vec![1, 2, 3], 1));
    for _ in 0..2 {
        limit_init(&mut op);
        assert_eq!(limit_next(&mut op).unwrap(), Some(2));
        assert!(limit_next(&mut op).unwrap().is_none());
    }
}

// ---- filter --------------------------------------------------------------

type Filter = PhysicalFilter<(), Input<Option<bool>>, Option<bool>>;

fn predicate(row: &Option<bool>) -> PredicateValue {
    PredicateValue::Boolean(*row)
}

fn filter_next(op: &mut Filter, value: fn(&Option<bool>) -> PredicateValue) -> Result<Option<Option<bool>>, BustubxError> {
    if op.parallelism == 1 {
        loop {
            match op.input.next()? {
                Some(row) => {
                    if op.matches(value(&row))? {
                        return Ok(Some(row));
                    }
                }
                None => return Ok(None),
            }
        }
    }
    loop {
        match op.poll() {
            FilterPoll::Ready(r) => return r,
            FilterPoll::NeedBatch(_) => {
                let (batch, end) = fill(&mut op.input, BATCH_SIZE);
                let decisions = batch.iter().map(|row| op.matches(value(row))).collect();
                op.absorb_batch(batch, end, Ok(decisions))?;
            }
        }
    }
}

fn filter(rows: Vec<Result<Option<bool>, BustubxError>>, workers: usize) -> Filter {
    Filter::new((), Input::new(rows)).with_parallelism(workers)
}

#[test]
fn predicates_and_errors_follow_input_order() {
    for workers in [1, 4] {
        let mut op = filter(vec![Ok(Some(false)), Ok(Some(true)), Ok(None)], workers);
        op.init();
        op.input.init();
        assert_eq!(filter_next(&mut op, predicate).unwrap(), Some(Some(true)));
        assert!(filter_next(&mut op, predicate).is_err());
        for _ in 0..2 {
            assert!(filter_next(&mut op, predicate).unwrap().is_none());
        }
        let mut op = filter(vec![Ok(Some(true)), Err(bad())], workers);
        op.init();
        op.input.init();
        assert!(filter_next(&mut op, predicate).unwrap().is_some());
        assert!(filter_next(&mut op, predicate).is_err());

        let mut limit = PhysicalLimit::new(
            Some(1),
            0,
            filter(vec![Ok(Some(false)), Ok(Some(true)), Ok(None)], workers),
        );
        limit.init();
        limit.input.init();
        limit.input.input.init();
        let next: fn(&mut Filter) -> Result<Option<Option<bool>>, BustubxError> = |f| filter_next(f, predicate);
        assert!(limit_over(&mut limit, next).unwrap().is_some());
        assert!(limit_over(&mut limit, next).unwrap().is_none());
    }
}

#[test]
fn non_boolean_predicates_are_errors() {
    for workers in [1, 4] {
        let mut op = filter(vec![Ok(Some(true)), Ok(Some(false))], workers);
        op.init();
        op.input.init();
        assert!(matches!(
            filter_next(&mut op, |_| PredicateValue::Other),
            Err(BustubxError::Execution(_))
        ));
    }
}

#[test]
fn init_discards_pending_rows_and_resets_end_of_input() {
    let mut op = filter(vec![Ok(Some(true)), Ok(Some(false)), Ok(Some(true))], 4);
    op.init();
    op.input.init();
    assert!(filter_next(&mut op, predicate).unwrap().is_some());
    for _ in 0..2 {
        op.init();
        op.input.init();
        assert!(filter_next(&mut op, predicate).unwrap().is_some());
        assert!(filter_next(&mut op, predicate).unwrap().is_some());
        assert!(filter_next(&mut op, predicate).unwrap().is_none());
    }
}

#[test]
fn filter_batches_keep_rows_after_an_all_rejected_batch() {
    let mut rows: Vec<Result<Option<bool>, BustubxError>> = (0..BATCH_SIZE).map(|_| Ok(Some(false))).collect();
    rows.extend((0..5).map(|_| Ok(Some(true))));
    let mut op = filter(rows, 4);
    op.init();
    op.input.init();
    for _ in 0..5 {
        assert_eq!(filter_next(&mut op, predicate).unwrap(), Some(Some(true)));
    }
    assert!(filter_next(&mut op, predicate).unwrap().is_none());
}

#[test]
fn failed_evaluation_ends_the_filter() {
    let mut op = filter(vec![Ok(Some(true))], 4);
    assert!(matches!(op.poll(), FilterPoll::NeedBatch(1024)));
    let r = op.absorb_batch(vec![Some(true)], BatchEnd::Continues, Err(BustubxError::Execution("worker panicked".into())));
    assert!(r.is_err());
    assert!(matches!(op.poll(), FilterPoll::Ready(Ok(None))));
}

// ---- nested loop join ------------------------------------------------------

type Row = Vec<Option<i32>>;
type Join = PhysicalNestedLoopJoin<Option<PredicateValue>, Input<Row>, (), Row>;

fn join_next(op: &mut Join, cond: fn(&Row) -> Option<PredicateValue>) -> Result<Option<Row>, BustubxError> {
    loop {
        match op.step() {
            JoinStep::Ready(r) => return r,
            JoinStep::PullUnmatchedRight => {
                let row = op.right_input.next();
                match op.on_unmatched_right(row) {
                    UnmatchedRight::Pad(right) => {
                        return Ok(Some(op.combine(None, Some(right), vec![None], vec![])));
                    }
                    UnmatchedRight::Skip => {}
                    UnmatchedRight::Finished(r) => return r,
                }
            }
            JoinStep::RestartRight(left) => {
                op.right_input.init();
                if let Some(left) = left {
                    let padded = op.combine(Some(left), None, vec![], vec![None]);
                    op.queue_padded_left(padded);
                }
            }
            JoinStep::PullLeft => {
                let left = op.left_input.next()?;
                match op.on_left(left) {
                    LeftOutcome::Scan => {}
                    LeftOutcome::StartUnmatchedRight => {
                        op.right_input.init();
                        op.begin_unmatched_right();
                    }
                    LeftOutcome::End => return Ok(None),
                }
            }
            JoinStep::PullRight(max) => {
                let (batch, end) = fill(&mut op.right_input, max);
                let left = op.state.left.clone().unwrap();
                let joined: Vec<Result<Option<Row>, BustubxError>> = batch
                    .into_iter()
                    .map(|right| {
                        let row = op.combine(Some(left.clone()), Some(right), vec![], vec![]);
                        let keep = op.join(cond(&row))?;
                        Ok(if keep { Some(row) } else { None })
                    })
                    .collect();
                op.absorb_right_batch(joined.len(), end, Ok(joined))?;
            }
        }
    }
}

fn side() -> Input<Row> {
    Input::new(vec![Ok(vec![Some(1)]), Ok(vec![Some(2)])])
}

fn join_init(op: &mut Join) {
    op.init();
    op.left_input.init();
    op.right_input.init();
}

#[test]
fn values_rescan_eof_and_join_conditions() {
    for workers in [1, 4] {
        let mut join = Join::new(JoinType::Cross, None, side(), side(), ()).with_parallelism(workers);
        for _ in 0..2 {
            join_init(&mut join);
            for (a, b) in [(1, 1), (1, 2), (2, 1), (2, 2)] {
                assert_eq!(join_next(&mut join, |_| None).unwrap().unwrap(), vec![Some(a), Some(b)]);
            }
            for _ in 0..2 {
                assert!(join_next(&mut join, |_| None).unwrap().is_none());
            }
        }
        join_init(&mut join);
        assert!(join_next(&mut join, |_| Some(PredicateValue::Boolean(None))).unwrap().is_none());
        join_init(&mut join);
        assert!(matches!(
            join_next(&mut join, |_| Some(PredicateValue::Other)),
            Err(BustubxError::Execution(_))
        ));
        join.join_type = JoinType::LeftOuter;
        join_init(&mut join);
        for value in [1, 2] {
            let row = join_next(&mut join, |_| Some(PredicateValue::Boolean(Some(false)))).unwrap().unwrap();
            assert_eq!(row[0], Some(value));
            assert!(row[1].is_none());
        }
        assert!(join_next(&mut join, |_| Some(PredicateValue::Boolean(Some(false)))).unwrap().is_none());
    }
}

#[test]
fn outer_joins_pad_unmatched_rows_on_both_sides() {
    // left {1, 2}, right {2, 3}, condition a = b
    let eq = |row: &Row| Some(PredicateValue::Boolean(Some(row[0] == row[1])));
    for workers in [1, 4] {
        for (kind, expected) in [
            (JoinType::Inner, vec![vec![Some(2), Some(2)]]),
            (JoinType::LeftOuter, vec![vec![Some(1), None], vec![Some(2), Some(2)]]),
            (JoinType::RightOuter, vec![vec![Some(2), Some(2)], vec![None, Some(3)]]),
            (
                JoinType::FullOuter,
                vec![vec![Some(1), None], vec![Some(2), Some(2)], vec![None, Some(3)]],
            ),
        ] {
            let left = Input::new(vec![Ok(vec![Some(1)]), Ok(vec![Some(2)])]);
            let right = Input::new(vec![Ok(vec![Some(2)]), Ok(vec![Some(3)])]);
            let mut join = Join::new(kind, None, left, right, ()).with_parallelism(workers);
            join_init(&mut join);
            let mut rows = Vec::new();
            while let Some(row) = join_next(&mut join, eq).unwrap() {
                rows.push(row);
            }
            assert_eq!(rows, expected, "{kind:?} workers={workers}");
        }
    }
}

#[test]
fn join_predicates_and_helpers() {
    let join = Join::new(JoinType::FullOuter, None, side(), side(), ());
    assert!(join.preserves_left() && join.preserves_right());
    let join = Join::new(JoinType::Inner, None, side(), side(), ());
    assert!(!join.preserves_left() && !join.preserves_right());
    assert_eq!(join.join(None).unwrap(), true);
    assert_eq!(join.join(Some(PredicateValue::Boolean(Some(true)))).unwrap(), true);
    assert_eq!(join.join(Some(PredicateValue::Boolean(Some(false)))).unwrap(), false);
    assert_eq!(join.combine(Some(vec![1, 2]), None, vec![0], vec![9, 9]), vec![1, 2, 9, 9]);
    assert_eq!(join.combine(None, Some(vec![5]), vec![0, 0], vec![9]), vec![0, 0, 5]);
}

#[test]
fn serial_filter_step_decides_each_row() {
    let op: PhysicalFilter<(), (), i32> = PhysicalFilter::new((), ());
    assert!(matches!(op.decide_row(1, Ok(PredicateValue::Boolean(Some(true)))), RowDecision::Emit(1)));
    assert!(matches!(op.decide_row(2, Ok(PredicateValue::Boolean(Some(false)))), RowDecision::Skip));
    assert!(matches!(
        op.decide_row(3, Ok(PredicateValue::Boolean(None))),
        RowDecision::Fail(BustubxError::Execution(_))
    ));
    assert!(matches!(op.decide_row(4, Ok(PredicateValue::Other)), RowDecision::Fail(BustubxError::Execution(_))));
    assert!(matches!(
        op.decide_row(5, Err(BustubxError::Storage("eval".into()))),
        RowDecision::Fail(BustubxError::Storage(_))
    ));
}

fn join_all(kind: JoinType, left: Vec<i32>, right: Vec<i32>, workers: usize, cond: fn(&Row) -> Option<PredicateValue>) -> Vec<Row> {
    let left = Input::new(left.into_iter().map(|v| Ok(vec![Some(v)])).collect());
    let right = Input::new(right.into_iter().map(|v| Ok(vec![Some(v)])).collect());
    let mut join = Join::new(kind, None, left, right, ()).with_parallelism(workers);
    join_init(&mut join);
    let mut rows = Vec::new();
    while let Some(row) = join_next(&mut join, cond).unwrap() {
        rows.push(row);
    }
    rows
}

#[test]
fn parallel_join_handles_large_right_side_empty_sides_and_no_matches() {
    // The right side (1300 rows) is longer than one batch.
    let left = vec![1100, 1100, 1200];
    let right: Vec<i32> = (0..1300).collect();
    let eq: fn(&Row) -> Option<PredicateValue> = |row| Some(PredicateValue::Boolean(Some(row[0] == row[1])));
    let less: fn(&Row) -> Option<PredicateValue> = |row| Some(PredicateValue::Boolean(Some(row[0] < row[1])));
    let none: fn(&Row) -> Option<PredicateValue> = |_| Some(PredicateValue::Boolean(Some(false)));
    let always: fn(&Row) -> Option<PredicateValue> = |_| None;
    let cases: Vec<(JoinType, Vec<i32>, Vec<i32>, fn(&Row) -> Option<PredicateValue>)> = vec![
        (JoinType::Inner, left.clone(), right.clone(), eq),
        (JoinType::Inner, left.clone(), right.clone(), less),
        (JoinType::Cross, left.clone(), right.clone(), always),
        (JoinType::Inner, left.clone(), right.clone(), none),
        (JoinType::Cross, left.clone(), vec![], always),
        (JoinType::Cross, vec![], right.clone(), always),
    ];
    for (kind, l, r, cond) in cases {
        let expected = join_all(kind, l.clone(), r.clone(), 1, cond);
        for workers in [2, 4] {
            assert_eq!(join_all(kind, l.clone(), r.clone(), workers, cond), expected);
        }
    }
    assert_eq!(join_all(JoinType::Inner, left.clone(), right.clone(), 1, eq).len(), 3);
    assert_eq!(join_all(JoinType::Cross, left.clone(), right.clone(), 4, always).len(), 3900);
    assert!(join_all(JoinType::Inner, left.clone(), right.clone(), 4, none).is_empty());
    assert!(join_all(JoinType::Cross, left, vec![], 4, always).is_empty());
}
