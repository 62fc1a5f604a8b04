use bustubx::execution::physical_plan::aggregate::PhysicalAggregate;
use bustubx::execution::physical_plan::grouping::{accumulate_chunk, GroupTable, RowInputs};
use bustubx::execution::physical_plan::seq_scan::{
    keep_through_first_error, PageClaim, PageId, PhysicalSeqScan, ScanPoll, INVALID_PAGE_ID,
    PAGES_PER_BATCH,
};
use bustubx::function::aggregate::avg::{AvgAccumulator, SumValue};
use bustubx::function::aggregate::count::CountAccumulator;
use bustubx::function::aggregate::{
    build_accumulators, AccumulatorState, AggregateCall, AggregateFunctionKind, AggregateInput,
    AggregateValue, AnyAccumulator,
};
use bustubx::BustubxError;
use std::collections::HashMap;

/// Pages: id -> (next page, rows).
type Pages = HashMap<PageId, (PageId, Vec<i32>)>;
type Scan = PhysicalSeqScan<(), (), i32>;

fn scan_next(op: &mut Scan, pages: &Pages, fetches: &mut Vec<PageId>) -> Result<Option<i32>, BustubxError> {
    loop {
        match op.poll()? {
            ScanPoll::Ready(r) => return r,
            ScanPoll::NeedPages => {
                let mut batch = Vec::new();
                let mut failure = None;
                loop {
                    match op.claim_page() {
                        PageClaim::Done | PageClaim::BatchFull => break,
                        PageClaim::Cycle(error) => {
                            failure = Some(error);
                            break;
                        }
                        PageClaim::Fetch(id) => {
                            fetches.push(id);
                            match pages.get(&id) {
                                Some((next, rows)) => {
                                    op.page_fetched(*next);
                                    batch.push(rows.clone());
                                }
                                None => {
                                    op.fetch_failed();
                                    failure = Some(BustubxError::Storage("missing page".into()));
                                    break;
                                }
                            }
                        }
                    }
                }
                let decoded = batch
                    .into_iter()
                    .map(|rows| keep_through_first_error(rows.into_iter().map(Ok).collect()))
                    .collect();
                op.absorb_pages(Ok(decoded), failure)?;
            }
        }
    }
}

#[test]
fn scan_skips_empty_pages_releases_pins_and_detects_cycles() {
    // Page 1 is empty and links past a gap to page 4, which holds 42.
    let mut pages: Pages = HashMap::new();
    pages.insert(1, (4, vec![]));
    pages.insert(4, (INVALID_PAGE_ID, vec![42]));
    let mut scan = Scan::new((), ()).with_parallelism(4);
    for _ in 0..2 {
        let mut fetches = Vec::new();
        scan.init(1);
        assert_eq!(scan_next(&mut scan, &pages, &mut fetches).unwrap(), Some(42));
        assert!(scan_next(&mut scan, &pages, &mut fetches).unwrap().is_none());
        assert!(scan_next(&mut scan, &pages, &mut fetches).unwrap().is_none());
        assert_eq!(fetches, vec![1, 4]);
    }
    // Link the last page back to the first: the cycle is reported once.
    pages.insert(4, (1, vec![42]));
    let mut fetches = Vec::new();
    scan.init(1);
    assert!(scan_next(&mut scan, &pages, &mut fetches).unwrap().is_some());
    assert!(matches!(
        scan_next(&mut scan, &pages, &mut fetches),
        Err(BustubxError::Storage(_))
    ));
    assert!(scan_next(&mut scan, &pages, &mut fetches).unwrap().is_none());
    assert_eq!(fetches, vec![1, 4]);
}

#[test]
fn parallel_scan_covers_multiple_page_batches_and_reopen() {
    // Fifty pages of a hundred rows each: more than three batches.
    let mut pages: Pages = HashMap::new();
    for page in 1..=50u32 {
        let next = if page == 50 { INVALID_PAGE_ID } else { page + 1 };
        let first = (page as i32 - 1) * 100;
        pages.insert(page, (next, (first..first + 100).collect()));
    }
    let run = |scan: &mut Scan| {
        let mut fetches = Vec::new();
        scan.init(1);
        let mut rows = Vec::new();
        while let Some(row) = scan_next(scan, &pages, &mut fetches).unwrap() {
            rows.push(row);
        }
        assert!(scan_next(scan, &pages, &mut fetches).unwrap().is_none());
        assert_eq!(fetches, (1..=50).collect::<Vec<PageId>>());
        rows
    };
    let expected = run(&mut Scan::new((), ()));
    assert_eq!(expected.len(), 5000);
    for (i, row) in expected.iter().enumerate() {
        assert_eq!(*row as usize, i);
    }
    for workers in [2, 4] {
        let mut scan = Scan::new((), ()).with_parallelism(workers);
        assert_eq!(run(&mut scan), expected);
        // Scanning again from the start gives the same rows.
        assert_eq!(run(&mut scan), expected);
    }
}

#[test]
fn uninitialized_scan_is_an_error() {
    let mut scan = Scan::new((), ()).with_parallelism(2);
    assert!(matches!(scan.poll(), Err(BustubxError::Execution(_))));
    let mut serial = Scan::new((), ());
    serial.init(3);
    assert!(matches!(serial.poll(), Ok(ScanPoll::NeedPages)));
}

#[test]
fn page_decoding_stops_after_the_first_error() {
    let rows = vec![Ok(1), Err(BustubxError::Storage("bad slot".into())), Ok(3)];
    let kept = keep_through_first_error(rows);
    assert_eq!(kept.len(), 2);
    assert!(kept[1].is_err());
    assert_eq!(keep_through_first_error::<i32>(vec![Ok(1), Ok(2)]).len(), 2);
}

#[derive(Debug, Clone, Copy, PartialEq)]
struct F64(f64);

impl SumValue for F64 {
    fn zero() -> Self {
        F64(0.0)
    }
    fn plus(self, other: Self) -> Self {
        F64(self.0 + other.0)
    }
    fn divided_by(self, count: u64) -> Self {
        F64(self.0 / count as f64)
    }
}

#[test]
fn partial_states_merge_counts_and_weighted_average() {
    let mut avg = AvgAccumulator::<F64>::new();
    avg.merge(AccumulatorState::Avg { sum: Some(F64(10.0)), count: 1 }).unwrap();
    avg.merge(AccumulatorState::Avg { sum: Some(F64(90.0)), count: 9 }).unwrap();
    avg.merge(AccumulatorState::Avg { sum: None, count: 0 }).unwrap();
    assert_eq!(avg.evaluate(), Some(F64(10.0)));
    assert!(avg.merge(AccumulatorState::Count(1)).is_err());
    let mut count = CountAccumulator::new();
    count.merge::<F64>(AccumulatorState::Count(i64::MAX)).unwrap();
    assert!(count.update_value(false).is_err());
    assert_eq!(count.evaluate(), i64::MAX);
    assert!(count.merge(avg.state()).is_err());
    let mut huge = AvgAccumulator::<F64>::new();
    huge.merge(AccumulatorState::Avg { sum: Some(F64(1.0)), count: u64::MAX }).unwrap();
    assert!(huge.update_value(Some(F64(1.0))).is_err());
}

#[test]
fn avg_ignores_nulls_and_is_null_without_values() {
    let mut avg = AvgAccumulator::<F64>::new();
    assert_eq!(avg.evaluate(), None);
    avg.update_value(None).unwrap();
    assert_eq!(avg.evaluate(), None);
    avg.update_value(Some(F64(3.0))).unwrap();
    avg.update_value(Some(F64(5.0))).unwrap();
    assert_eq!(avg.evaluate(), Some(F64(4.0)));
    assert!(matches!(avg.state(), AccumulatorState::Avg { sum: Some(F64(s)), count: 2 } if s == 8.0));
}

#[test]
fn count_partial_states_merge() {
    let mut count = CountAccumulator::new();
    count.merge::<f64>(AccumulatorState::Count(i64::MAX)).unwrap();
    assert!(count.update_value(false).is_err());
    assert_eq!(count.evaluate(), i64::MAX);
    let avg_state: AccumulatorState<f64> = AccumulatorState::Avg { sum: Some(10.0), count: 1 };
    assert!(matches!(count.merge(avg_state), Err(BustubxError::Execution(_))));
    let mut a = CountAccumulator::new();
    a.update_value(false).unwrap();
    a.update_value(true).unwrap();
    a.update_value(false).unwrap();
    let mut b = CountAccumulator::new();
    b.update_value(false).unwrap();
    b.merge(a.state::<f64>()).unwrap();
    assert_eq!(b.evaluate(), 3);
}

#[test]
fn aggregate_functions_are_found_ignoring_case() {
    assert_eq!(AggregateFunctionKind::find("count"), Some(AggregateFunctionKind::Count));
    assert_eq!(AggregateFunctionKind::find("COUNT"), Some(AggregateFunctionKind::Count));
    assert_eq!(AggregateFunctionKind::find("aVg"), Some(AggregateFunctionKind::Avg));
    assert_eq!(AggregateFunctionKind::find("sum"), None);
    assert_eq!(AggregateFunctionKind::find("counts"), None);
    assert_eq!(AggregateFunctionKind::find(""), None);
    assert_eq!(AggregateFunctionKind::Count.name(), "Count");
    assert_eq!(AggregateFunctionKind::Avg.name(), "Avg");
}

#[test]
fn accumulators_are_built_for_plain_aggregates_only() {
    let calls = vec![
        AggregateCall::Function { kind: AggregateFunctionKind::Count, distinct: false },
        AggregateCall::Function { kind: AggregateFunctionKind::Avg, distinct: false },
    ];
    assert_eq!(
        build_accumulators(&calls).unwrap(),
        vec![AggregateFunctionKind::Count, AggregateFunctionKind::Avg]
    );
    let calls = vec![
        AggregateCall::Function { kind: AggregateFunctionKind::Count, distinct: true },
        AggregateCall::NotAggregate,
    ];
    assert!(matches!(build_accumulators(&calls), Err(BustubxError::NotSupport(_))));
    let calls = vec![AggregateCall::NotAggregate];
    assert!(matches!(build_accumulators(&calls), Err(BustubxError::Execution(_))));
}

#[test]
fn aggregate_builds_once_per_run() {
    let mut agg = PhysicalAggregate::<(), (), (), (), i32>::new((), (), (), ()).with_parallelism(100);
    assert_eq!(agg.parallelism, 64);
    for _ in 0..2 {
        agg.init();
        assert!(agg.begin_next());
        agg.set_rows(vec![3, 1]);
        assert_eq!(agg.pop(), Some(3));
        assert!(!agg.begin_next());
        assert_eq!(agg.pop(), Some(1));
        assert!(!agg.begin_next());
        assert_eq!(agg.pop(), None);
    }
}

fn count_and_avg() -> Vec<AggregateCall> {
    vec![
        AggregateCall::Function { kind: AggregateFunctionKind::Count, distinct: false },
        AggregateCall::Function { kind: AggregateFunctionKind::Avg, distinct: false },
    ]
}

/// A row of group `id` whose COUNT and AVG argument is `value`.
fn row(id: u64, value: Option<f64>) -> RowInputs<F64> {
    let input = match value {
        Some(v) => AggregateInput::Value(Some(F64(v))),
        None => AggregateInput::Null,
    };
    let count_input = match value {
        Some(_) => AggregateInput::Value(None),
        None => AggregateInput::Null,
    };
    RowInputs { key: Ok(id), inputs: vec![Ok(count_input), Ok(input)] }
}

fn results(table: GroupTable<F64>) -> Vec<(u64, i64, Option<f64>)> {
    table
        .finish()
        .into_iter()
        .map(|(id, values)| match (&values[0], &values[1]) {
            (AggregateValue::Count(c), AggregateValue::Avg(a)) => (id, *c, a.map(|v| v.0)),
            _ => panic!("unexpected aggregate values"),
        })
        .collect()
}

#[test]
fn accumulators_are_created_by_kind() {
    let mut count: AnyAccumulator<F64> = AggregateFunctionKind::Count.create_accumulator();
    count.update_value(AggregateInput::Value(None)).unwrap();
    count.update_value(AggregateInput::Null).unwrap();
    assert!(matches!(count.evaluate(), AggregateValue::Count(1)));
    let mut avg: AnyAccumulator<F64> = AggregateFunctionKind::Avg.create_accumulator();
    assert!(matches!(avg.evaluate(), AggregateValue::Avg(None)));
    assert!(matches!(avg.update_value(AggregateInput::Value(None)), Err(BustubxError::Internal(_))));
    avg.update_value(AggregateInput::Value(Some(F64(2.0)))).unwrap();
    avg.update_value(AggregateInput::Value(Some(F64(4.0)))).unwrap();
    assert!(matches!(avg.evaluate(), AggregateValue::Avg(Some(F64(v))) if v == 3.0));
    assert!(matches!(count.merge(avg.state()), Err(BustubxError::Execution(_))));
    let mut other: AnyAccumulator<F64> = AggregateFunctionKind::Avg.create_accumulator();
    other.merge(avg.state()).unwrap();
    assert!(matches!(other.evaluate(), AggregateValue::Avg(Some(F64(v))) if v == 3.0));
}

#[test]
fn chunk_groups_rows_in_order_of_first_appearance() {
    let calls = count_and_avg();
    let rows = vec![row(7, Some(1.0)), row(3, None), row(7, Some(3.0)), row(3, Some(5.0))];
    let table = accumulate_chunk(&calls, rows).unwrap();
    assert_eq!(results(table), vec![(7, 2, Some(2.0)), (3, 1, Some(5.0))]);
    let empty = accumulate_chunk::<F64>(&calls, vec![]).unwrap();
    assert!(results(empty).is_empty());
}

#[test]
fn chunk_reports_the_first_failing_row() {
    let calls = count_and_avg();
    let rows = vec![
        row(1, Some(1.0)),
        RowInputs { key: Err(BustubxError::Execution("key".into())), inputs: vec![] },
        RowInputs { key: Ok(1), inputs: vec![Err(BustubxError::Storage("arg".into()))] },
    ];
    assert!(matches!(accumulate_chunk(&calls, rows), Err(BustubxError::Execution(m)) if m == "key"));
    let rows = vec![
        row(1, Some(1.0)),
        RowInputs {
            key: Ok(2),
            inputs: vec![Ok(AggregateInput::Value(None)), Ok(AggregateInput::Value(None))],
        },
    ];
    assert!(matches!(accumulate_chunk(&calls, rows), Err(BustubxError::Internal(_))));
    // DISTINCT is refused when the first group is opened, not before.
    let distinct = vec![AggregateCall::Function { kind: AggregateFunctionKind::Count, distinct: true }];
    assert!(accumulate_chunk::<F64>(&distinct, vec![]).is_ok());
    assert!(matches!(accumulate_chunk(&distinct, vec![row(1, None)]), Err(BustubxError::NotSupport(_))));
    assert!(matches!(GroupTable::<F64>::with_group(0, &distinct), Err(BustubxError::NotSupport(_))));
}

#[test]
fn merged_chunks_equal_one_serial_chunk() {
    let calls = count_and_avg();
    let all = || {
        vec![
            row(1, Some(2.0)),
            row(2, Some(10.0)),
            row(1, None),
            row(3, Some(7.0)),
            row(2, Some(20.0)),
            row(1, Some(4.0)),
        ]
    };
    let serial = results(accumulate_chunk(&calls, all()).unwrap());
    assert_eq!(serial, vec![(1, 2, Some(3.0)), (2, 2, Some(15.0)), (3, 1, Some(7.0))]);
    for split in 0..=6 {
        let mut rows = all();
        let second = rows.split_off(split);
        let partials = vec![accumulate_chunk(&calls, rows), accumulate_chunk(&calls, second)];
        let mut table = GroupTable::new();
        table.merge_partials(partials).unwrap();
        assert_eq!(results(table), serial);
    }
}

#[test]
fn chunked_aggregation_fails_exactly_when_serial_fails() {
    let calls = count_and_avg();
    let all = || {
        vec![
            row(1, Some(2.0)),
            row(2, Some(10.0)),
            RowInputs { key: Ok(1), inputs: vec![Ok(AggregateInput::Value(None)), Ok(AggregateInput::Value(None))] },
            row(3, Some(7.0)),
        ]
    };
    assert!(accumulate_chunk(&calls, all()).is_err());
    for split in 0..=4 {
        let mut rows = all();
        let second = rows.split_off(split);
        let partials = vec![accumulate_chunk(&calls, rows), accumulate_chunk(&calls, second)];
        let mut table = GroupTable::new();
        assert!(table.merge_partials(partials).is_err());
    }
}

#[test]
fn merging_stops_at_the_first_failed_partial() {
    let calls = count_and_avg();
    let mut table = GroupTable::with_group(0, &calls).unwrap();
    let partials = vec![
        accumulate_chunk(&calls, vec![row(0, Some(1.0))]),
        Err(BustubxError::Storage("worker".into())),
        accumulate_chunk(&calls, vec![row(0, Some(2.0))]),
    ];
    assert!(matches!(table.merge_partials(partials), Err(BustubxError::Storage(_))));
    // Without group keys there is one group even for empty input.
    let table = GroupTable::<F64>::with_group(0, &calls).unwrap();
    assert_eq!(results(table), vec![(0, 0, None)]);
}

#[test]
fn scan_batches_hold_at_most_sixteen_pages() {
    let mut scan = Scan::new((), ()).with_parallelism(2);
    scan.init(1);
    assert!(matches!(scan.poll(), Ok(ScanPoll::NeedPages)));
    for page in 1..=PAGES_PER_BATCH as u32 {
        assert!(matches!(scan.claim_page(), PageClaim::Fetch(id) if id == page));
        scan.page_fetched(page + 1);
    }
    assert!(matches!(scan.claim_page(), PageClaim::BatchFull));
    scan.absorb_pages(Ok(vec![]), None).unwrap();
    assert!(matches!(scan.claim_page(), PageClaim::Fetch(17)));
}

#[test]
fn aggregation_starts_with_one_group_only_without_group_keys() {
    let calls = count_and_avg();
    let grouped = GroupTable::<F64>::for_aggregation(true, 0, &calls).unwrap();
    assert!(results(grouped).is_empty());
    let single = GroupTable::<F64>::for_aggregation(false, 0, &calls).unwrap();
    assert_eq!(results(single), vec![(0, 0, None)]);
    let distinct = vec![AggregateCall::Function { kind: AggregateFunctionKind::Avg, distinct: true }];
    assert!(GroupTable::<F64>::for_aggregation(true, 0, &distinct).is_ok());
    assert!(matches!(
        GroupTable::<F64>::for_aggregation(false, 0, &distinct),
        Err(BustubxError::NotSupport(_))
    ));
}
