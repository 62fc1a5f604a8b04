//! Aggregate functions: the kinds, lookup by name, and partial states.
pub mod avg;
pub mod count;

use crate::function::aggregate::avg::{added, AvgAccumulator, SumValue};
use crate::function::aggregate::count::CountAccumulator;
use crate::BustubxError;
use vstd::prelude::*;
use vstd::string::StringSliceAdditionalSpecFns;

verus! {

/// The aggregate functions.
#[derive(Debug, Clone, Copy, PartialEq, Eq, Structural)]
pub enum AggregateFunctionKind {
    Count,
    Avg,
}

/// ASCII lower case of a byte.
pub open spec fn ascii_lower(b: u8) -> u8 {
    if 65 <= b <= 90 {
        (b + 32) as u8
    } else {
        b
    }
}

/// Byte strings equal when ASCII letters are compared without case.
pub open spec fn eq_ignore_ascii_case(a: Seq<u8>, b: Seq<u8>) -> bool {
    a.len() == b.len() && forall|i: int| 0 <= i < a.len() ==> ascii_lower(#[trigger] a[i])
        == ascii_lower(b[i])
}

/// The name of a kind as displayed: `Count` or `Avg`.
pub open spec fn kind_name(kind: AggregateFunctionKind) -> Seq<u8> {
    match kind {
        AggregateFunctionKind::Count => seq![67u8, 111u8, 117u8, 110u8, 116u8],
        AggregateFunctionKind::Avg => seq![65u8, 118u8, 103u8],
    }
}

fn lower(b: u8) -> (r: u8)
    ensures
        r == ascii_lower(b),
{
    if 65 <= b && b <= 90 {
        b + 32
    } else {
        b
    }
}

fn bytes_eq_ignore_ascii_case(a: &[u8], b: &[u8]) -> (r: bool)
    ensures
        r == eq_ignore_ascii_case(a@, b@),
{
    if a.len() != b.len() {
        return false;
    }
    let mut i: usize = 0;
    while i < a.len()
        invariant
            a@.len() == b@.len(),
            i <= a@.len(),
            forall|j: int| 0 <= j < i ==> ascii_lower(#[trigger] a@[j]) == ascii_lower(b@[j]),
        decreases a@.len() - i,
    {
        if lower(a[i]) != lower(b[i]) {
            return false;
        }
        i = i + 1;
    }
    true
}

fn name_bytes(kind: AggregateFunctionKind) -> (r: Vec<u8>)
    ensures
        r@ == kind_name(kind),
{
    let r = match kind {
        AggregateFunctionKind::Count => vec![67u8, 111u8, 117u8, 110u8, 116u8],
        AggregateFunctionKind::Avg => vec![65u8, 118u8, 103u8],
    };
    assert(r@ =~= kind_name(kind));
    r
}

impl AggregateFunctionKind {
    /// The kind whose name equals `name` ignoring ASCII case, trying
    /// `Count` before `Avg`; `None` for any other name.
    pub fn find(name: &str) -> (r: Option<Self>)
        ensures
            r == if eq_ignore_ascii_case(name.spec_bytes(), kind_name(AggregateFunctionKind::Count)) {
                Some(AggregateFunctionKind::Count)
            } else if eq_ignore_ascii_case(name.spec_bytes(), kind_name(AggregateFunctionKind::Avg)) {
                Some(AggregateFunctionKind::Avg)
            } else {
                None
            },
    {
        let bytes = name.as_bytes();
        let count = name_bytes(AggregateFunctionKind::Count);
        if bytes_eq_ignore_ascii_case(bytes, count.as_slice()) {
            return Some(AggregateFunctionKind::Count);
        }
        let avg = name_bytes(AggregateFunctionKind::Avg);
        if bytes_eq_ignore_ascii_case(bytes, avg.as_slice()) {
            return Some(AggregateFunctionKind::Avg);
        }
        None
    }

    /// The kind's display name, `Count` or `Avg`.
    pub fn name(&self) -> (r: String)
        ensures
            r@ == match self {
                AggregateFunctionKind::Count => "Count"@,
                AggregateFunctionKind::Avg => "Avg"@,
            },
    {
        match self {
            AggregateFunctionKind::Count => "Count".to_owned(),
            AggregateFunctionKind::Avg => "Avg".to_owned(),
        }
    }
}

/// A partial aggregate state exchanged between accumulators when partial
/// results are merged. The running sum of AVG is carried as an opaque `F`
/// (a floating-point value), which this library never computes with.
pub enum AccumulatorState<F> {
    Count(i64),
    Avg { sum: Option<F>, count: u64 },
}

/// What an accumulator has counted, as far as this library computes it:
/// the COUNT so far, or how many values an AVG has summed and whether it
/// holds a sum. (The sum itself is a value of the number type.)
pub enum Tally {
    Count(i64),
    Avg { count: u64, has_sum: bool },
}

/// The tally of a fresh accumulator of `kind`.
pub open spec fn fresh_tally(kind: AggregateFunctionKind) -> Tally {
    match kind {
        AggregateFunctionKind::Count => Tally::Count(0),
        AggregateFunctionKind::Avg => Tally::Avg { count: 0, has_sum: false },
    }
}

/// The tally a partial state carries.
pub open spec fn state_tally<F>(state: AccumulatorState<F>) -> Tally {
    match state {
        AccumulatorState::Count(c) => Tally::Count(c),
        AccumulatorState::Avg { sum, count } => Tally::Avg { count, has_sum: sum is Some },
    }
}

/// Why accumulating or merging fails.
pub enum Failure {
    /// An error from evaluating an input, passed on unchanged.
    Passed(BustubxError),
    /// The aggregate expressions cannot be accumulated (see
    /// `build_accumulators`).
    Unsupported,
    /// An AVG input value has no numeric value (an internal error).
    NotNumeric,
    /// A count would overflow (an execution error).
    Overflow,
    /// Partial states of different aggregates met (an execution error).
    Mismatch,
}

/// Whether `e` is the error reported for failure `f`: a passed-on error
/// itself, an internal error for a non-numeric AVG input, an execution
/// error for an overflow or a mismatch. (For `Unsupported`, see
/// `build_error`.)
pub open spec fn reports(f: Failure, e: BustubxError) -> bool {
    match f {
        Failure::Passed(x) => e == x,
        Failure::Unsupported => false,
        Failure::NotNumeric => e is Internal,
        Failure::Overflow => e is Execution,
        Failure::Mismatch => e is Execution,
    }
}

/// One input value of an aggregate, as its accumulator reads it.
pub enum AggregateInput<F> {
    /// NULL.
    Null,
    /// A non-NULL value, with its numeric value if it has one.
    Value(Option<F>),
}

/// The tally after one input: NULL is skipped; COUNT counts any other
/// value; AVG adds a numeric value and refuses a value without one.
pub open spec fn tally_update<F>(t: Tally, input: AggregateInput<F>) -> Result<Tally, Failure> {
    match input {
        AggregateInput::Null => Ok(t),
        AggregateInput::Value(v) => match t {
            Tally::Count(c) => if c < i64::MAX {
                Ok(Tally::Count((c + 1) as i64))
            } else {
                Err(Failure::Overflow)
            },
            Tally::Avg { count, has_sum } => match v {
                None => Err(Failure::NotNumeric),
                Some(_) => if count < u64::MAX {
                    Ok(Tally::Avg { count: (count + 1) as u64, has_sum: true })
                } else {
                    Err(Failure::Overflow)
                },
            },
        },
    }
}

/// COUNT counts every non-NULL input, whatever its value, numeric or
/// not, and skips NULL; it fails only when the count cannot grow.
pub proof fn lemma_count_counts_every_value<F>(c: i64, v: Option<F>)
    ensures
        c < i64::MAX ==> tally_update(Tally::Count(c), AggregateInput::Value(v)) == Ok::<
            Tally,
            Failure,
        >(Tally::Count((c + 1) as i64)),
        c == i64::MAX ==> tally_update(Tally::Count(c), AggregateInput::Value(v)) is Err,
        tally_update(Tally::Count(c), AggregateInput::<F>::Null) == Ok::<Tally, Failure>(
            Tally::Count(c),
        ),
{
}

/// AVG counts every numeric input, refuses a non-NULL input without a
/// numeric value, and skips NULL; it fails only when the count cannot grow.
pub proof fn lemma_avg_counts_numeric_values<F>(n: u64, has_sum: bool, v: F)
    ensures
        n < u64::MAX ==> tally_update(Tally::Avg { count: n, has_sum }, AggregateInput::Value(Some(v)))
            == Ok::<Tally, Failure>(Tally::Avg { count: (n + 1) as u64, has_sum: true }),
        n == u64::MAX ==> tally_update(
            Tally::Avg { count: n, has_sum },
            AggregateInput::Value(Some(v)),
        ) is Err,
        tally_update(Tally::Avg { count: n, has_sum }, AggregateInput::<F>::Value(None)) == Err::<
            Tally,
            Failure,
        >(Failure::NotNumeric),
        tally_update(Tally::Avg { count: n, has_sum }, AggregateInput::<F>::Null) == Ok::<
            Tally,
            Failure,
        >(Tally::Avg { count: n, has_sum }),
{
}

/// Merging partial tallies adds their counts (an AVG tally has a sum once
/// either side has one) when the total fits, and refuses tallies of
/// different aggregates.
pub proof fn lemma_merge_adds_counts(a: i64, b: i64, x: u64, y: u64, p: bool, q: bool)
    ensures
        i64::MIN <= a + b <= i64::MAX ==> tally_merge(Tally::Count(a), Tally::Count(b)) == Ok::<
            Tally,
            Failure,
        >(Tally::Count((a + b) as i64)),
        x + y <= u64::MAX ==> tally_merge(
            Tally::Avg { count: x, has_sum: p },
            Tally::Avg { count: y, has_sum: q },
        ) == Ok::<Tally, Failure>(Tally::Avg { count: (x + y) as u64, has_sum: p || q }),
        x + y > u64::MAX ==> tally_merge(
            Tally::Avg { count: x, has_sum: p },
            Tally::Avg { count: y, has_sum: q },
        ) is Err,
        tally_merge(Tally::Count(a), Tally::Avg { count: x, has_sum: p }) is Err,
        tally_merge(Tally::Avg { count: x, has_sum: p }, Tally::Count(a)) is Err,
{
}

/// The tally after merging the partial tally `s` into `t`.
pub open spec fn tally_merge(t: Tally, s: Tally) -> Result<Tally, Failure> {
    match t {
        Tally::Count(a) => match s {
            Tally::Count(b) => if i64::MIN <= a + b <= i64::MAX {
                Ok(Tally::Count((a + b) as i64))
            } else {
                Err(Failure::Overflow)
            },
            _ => Err(Failure::Mismatch),
        },
        Tally::Avg { count: a, has_sum: x } => match s {
            Tally::Avg { count: b, has_sum: y } => if a + b <= u64::MAX {
                Ok(Tally::Avg { count: (a + b) as u64, has_sum: x || y })
            } else {
                Err(Failure::Overflow)
            },
            _ => Err(Failure::Mismatch),
        },
    }
}

/// The value an aggregate produces: a COUNT, or an AVG (`None` when no
/// value was summed).
pub enum AggregateValue<F> {
    Count(i64),
    Avg(Option<F>),
}

/// An accumulator of either aggregate function.
pub enum AnyAccumulator<F> {
    Count(CountAccumulator),
    Avg(AvgAccumulator<F>),
}

/// The AVG sum a partial state carries (none for COUNT).
pub open spec fn state_sum<F>(state: AccumulatorState<F>) -> Option<F> {
    match state {
        AccumulatorState::Count(_) => None,
        AccumulatorState::Avg { sum, .. } => sum,
    }
}

/// Whether `new` is the running AVG sum after `incoming` was added to
/// `old`: unchanged when nothing comes in, otherwise what `plus` gives.
pub open spec fn sum_after<F: SumValue>(old: Option<F>, incoming: Option<F>, new: Option<F>) -> bool {
    match incoming {
        None => new == old,
        Some(v) => new matches Some(s) && added(old, v, s),
    }
}

/// Whether `v` is the AVG value of a sum over `count` values: none without
/// a sum, otherwise what `divided_by` gives.
pub open spec fn average_of<F: SumValue>(sum: Option<F>, count: u64, v: Option<F>) -> bool {
    match sum {
        None => v is None,
        Some(s) => v matches Some(a) && call_ensures(F::divided_by, (s, count), a),
    }
}

/// The numeric value of an AVG input (none for NULL or COUNT's inputs).
pub open spec fn input_value<F>(input: AggregateInput<F>) -> Option<F> {
    match input {
        AggregateInput::Value(Some(v)) => Some(v),
        _ => None,
    }
}

impl<F: SumValue> AnyAccumulator<F> {
    /// The running sum of an AVG accumulator (none for COUNT).
    pub open spec fn avg_sum(&self) -> Option<F> {
        match self {
            AnyAccumulator::Count(_) => None,
            AnyAccumulator::Avg(a) => a.sum(),
        }
    }

    /// What this accumulator has counted.
    pub open spec fn tally(&self) -> Tally {
        match self {
            AnyAccumulator::Count(c) => Tally::Count(c@),
            AnyAccumulator::Avg(a) => Tally::Avg { count: a.count(), has_sum: a.sum() is Some },
        }
    }

    /// The partial state to merge elsewhere.
    pub fn state(&self) -> (r: AccumulatorState<F>)
        ensures
            state_tally(r) == self.tally(),
            state_sum(r) == self.avg_sum(),
    {
        match self {
            AnyAccumulator::Count(c) => c.state(),
            AnyAccumulator::Avg(a) => a.state(),
        }
    }

    /// Merge a partial state; on failure nothing changes.
    pub fn merge(&mut self, state: AccumulatorState<F>) -> (r: Result<(), BustubxError>)
        ensures
            match tally_merge(old(self).tally(), state_tally(state)) {
                Ok(t) => r is Ok && final(self).tally() == t && sum_after(
                    old(self).avg_sum(),
                    state_sum(state),
                    final(self).avg_sum(),
                ),
                Err(f) => final(self).tally() == old(self).tally() && final(self).avg_sum() == old(
                    self,
                ).avg_sum() && (r matches Err(e) && reports(
                    f,
                    e,
                )),
            },
    {
        match self {
            AnyAccumulator::Count(c) => c.merge(state),
            AnyAccumulator::Avg(a) => a.merge(state),
        }
    }

    /// Take one input value; on failure nothing changes.
    pub fn update_value(&mut self, input: AggregateInput<F>) -> (r: Result<(), BustubxError>)
        ensures
            match tally_update(old(self).tally(), input) {
                Ok(t) => r is Ok && final(self).tally() == t && sum_after(
                    old(self).avg_sum(),
                    if *old(self) is Avg {
                        input_value(input)
                    } else {
                        None
                    },
                    final(self).avg_sum(),
                ),
                Err(f) => final(self).tally() == old(self).tally() && final(self).avg_sum() == old(
                    self,
                ).avg_sum() && (r matches Err(e) && reports(
                    f,
                    e,
                )),
            },
    {
        match self {
            AnyAccumulator::Count(c) => c.update_value(matches!(input, AggregateInput::Null)),
            AnyAccumulator::Avg(a) => match input {
                AggregateInput::Null => Ok(()),
                AggregateInput::Value(Some(v)) => a.update_value(Some(v)),
                AggregateInput::Value(None) => Err(
                    BustubxError::Internal("Failed to cast value to float64".to_owned()),
                ),
            },
        }
    }

    /// The final value: the count, or the average (present exactly when a
    /// value was summed).
    pub fn evaluate(&self) -> (r: AggregateValue<F>)
        ensures
            match self.tally() {
                Tally::Count(c) => r == AggregateValue::<F>::Count(c),
                Tally::Avg { count, .. } => r matches AggregateValue::Avg(v) && average_of(
                    self.avg_sum(),
                    count,
                    v,
                ),
            },
    {
        match self {
            AnyAccumulator::Count(c) => AggregateValue::Count(c.evaluate()),
            AnyAccumulator::Avg(a) => AggregateValue::Avg(a.evaluate()),
        }
    }
}

impl AggregateFunctionKind {
    /// A fresh accumulator of this kind.
    pub fn create_accumulator<F: SumValue>(&self) -> (r: AnyAccumulator<F>)
        ensures
            r.tally() == fresh_tally(*self),
            r.avg_sum() is None,
    {
        match self {
            AggregateFunctionKind::Count => AnyAccumulator::Count(CountAccumulator::new()),
            AggregateFunctionKind::Avg => AnyAccumulator::Avg(AvgAccumulator::new()),
        }
    }
}

/// How an aggregate expression of a plan is made, as far as building its
/// accumulator is concerned.
pub enum AggregateCall {
    /// An aggregate function call.
    Function { kind: AggregateFunctionKind, distinct: bool },
    /// Any other expression.
    NotAggregate,
}

/// Whether every aggregate expression is an aggregate call without DISTINCT.
pub open spec fn calls_valid(calls: Seq<AggregateCall>) -> bool {
    forall|i: int|
        0 <= i < calls.len() ==> (#[trigger] calls[i] matches AggregateCall::Function {
            distinct: false,
            ..
        })
}

/// The function an aggregate call applies (COUNT for a non-aggregate
/// expression, which is never accumulated).
pub open spec fn call_kind(call: AggregateCall) -> AggregateFunctionKind {
    match call {
        AggregateCall::Function { kind, .. } => kind,
        AggregateCall::NotAggregate => AggregateFunctionKind::Count,
    }
}

/// Whether `e` is the error reported for `calls`: the first expression
/// that is not a plain aggregate call decides it, NotSupport for a
/// DISTINCT aggregate and Execution for a non-aggregate expression.
pub open spec fn build_error(calls: Seq<AggregateCall>, e: BustubxError) -> bool {
    exists|k: int|
        #![trigger calls[k]]
        0 <= k < calls.len() && (forall|j: int|
            0 <= j < k ==> (#[trigger] calls[j] matches AggregateCall::Function {
                distinct: false,
                ..
            })) && match calls[k] {
            AggregateCall::Function { distinct: true, .. } => e is NotSupport,
            AggregateCall::NotAggregate => e is Execution,
            _ => false,
        }
}

/// The accumulator kinds for a list of aggregate expressions, in order; an
/// expression that is not a plain aggregate call is refused (`build_error`).
pub fn build_accumulators(calls: &Vec<AggregateCall>) -> (r: Result<
    Vec<AggregateFunctionKind>,
    BustubxError,
>)
    ensures
        r is Ok <==> calls_valid(calls@),
        r matches Ok(kinds) ==> kinds@ == calls@.map_values(|c: AggregateCall| call_kind(c)),
        r matches Err(e) ==> build_error(calls@, e),
{
    let mut kinds: Vec<AggregateFunctionKind> = Vec::new();
    let mut i: usize = 0;
    while i < calls.len()
        invariant
            i <= calls@.len(),
            kinds@.len() == i,
            forall|j: int|
                0 <= j < i ==> #[trigger] calls@[j] == (AggregateCall::Function {
                    kind: kinds@[j],
                    distinct: false,
                }),
        decreases calls@.len() - i,
    {
        match &calls[i] {
            AggregateCall::Function { kind, distinct } => {
                if *distinct {
                    assert(calls@[i as int] matches AggregateCall::Function { distinct: true, .. });
                    return Err(
                        BustubxError::NotSupport("DISTINCT aggregate is not implemented".to_owned()),
                    );
                }
                kinds.push(*kind);
            },
            AggregateCall::NotAggregate => {
                assert(calls@[i as int] is NotAggregate);
                return Err(BustubxError::Execution("Invalid aggregate expression".to_owned()));
            },
        }
        i = i + 1;
    }
    assert(kinds@ =~= calls@.map_values(|c: AggregateCall| call_kind(c)));
    Ok(kinds)
}

} // verus!
