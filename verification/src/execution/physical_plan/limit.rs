//! LIMIT / OFFSET: skip `offset` input rows, then pass at most `limit` rows,
//! and never request input beyond that quota.
use vstd::prelude::*;

verus! {

/// Progress of a limit operator.
pub struct LimitState {
    /// Input rows still to skip.
    pub to_skip: usize,
    /// Rows still to pass, or `None` without a limit.
    pub remaining: Option<usize>,
    /// The input has ended.
    pub exhausted: bool,
}

/// What the limit does with one input event.
pub enum LimitOutcome<T> {
    /// The row is skipped (offset); request the next one.
    Skipped,
    /// The row is the next output.
    Emit(T),
    /// The input ended; so does the output.
    End,
}

/// Progress before the first row.
pub open spec fn fresh_limit_state(offset: usize, limit: Option<usize>) -> LimitState {
    LimitState { to_skip: offset, remaining: limit, exhausted: false }
}

/// Whether the limit asks its input for a row.
pub open spec fn limit_wants_input(s: LimitState) -> bool {
    !s.exhausted && s.remaining != Some(0usize)
}

/// Progress after one input event (`present`: a row arrived).
pub open spec fn limit_step(s: LimitState, present: bool) -> LimitState {
    if !present {
        LimitState { exhausted: true, ..s }
    } else if s.to_skip > 0 {
        LimitState { to_skip: (s.to_skip - 1) as usize, ..s }
    } else {
        LimitState {
            remaining: match s.remaining {
                Some(r) => Some((r - 1) as usize),
                None => None,
            },
            ..s
        }
    }
}

/// Progress after `i` rows have arrived, none of them the end.
pub open spec fn limit_after_rows(offset: usize, limit: Option<usize>, i: nat) -> LimitState {
    LimitState {
        to_skip: if i < offset {
            (offset - i) as usize
        } else {
            0
        },
        remaining: match limit {
            Some(l) => Some(
                if i <= offset {
                    l
                } else {
                    (l - (i - offset)) as usize
                },
            ),
            None => None,
        },
        exhausted: false,
    }
}

/// Whether the `i`-th input row (from 0) is passed on.
pub open spec fn limit_emits(offset: usize, limit: Option<usize>, i: nat) -> bool {
    offset <= i && match limit {
        Some(l) => i < offset + l,
        None => true,
    }
}

/// The LIMIT/OFFSET window (`i` counts the rows that have arrived, up to
/// the quota): from a fresh start, the `i`-th input row is
/// skipped while `i < offset` and passed on while `i < offset + limit`;
/// input is requested exactly while fewer than `offset + limit` rows have
/// arrived, so rows beyond the quota are never requested (with a zero
/// limit, none at all), and an unbounded limit passes every row after the
/// offset.
pub proof fn lemma_limit_window(offset: usize, limit: Option<usize>, i: nat)
    requires
        limit matches Some(l) ==> i <= offset + l,
    ensures
        limit_after_rows(offset, limit, 0) == fresh_limit_state(offset, limit),
        limit_wants_input(limit_after_rows(offset, limit, i)) <==> match limit {
            Some(l) => l > 0 && i < offset + l,
            None => true,
        },
        limit_wants_input(limit_after_rows(offset, limit, i)) ==> limit_step(
            limit_after_rows(offset, limit, i),
            true,
        ) == limit_after_rows(offset, limit, i + 1),
        limit_wants_input(limit_after_rows(offset, limit, i)) ==> (limit_after_rows(
            offset,
            limit,
            i,
        ).to_skip == 0 <==> limit_emits(offset, limit, i)),
{
}

/// The LIMIT operator's configuration and progress; `I` is its input plan.
pub struct PhysicalLimit<I> {
    pub limit: Option<usize>,
    pub offset: usize,
    pub input: I,
    /// Progress of the current run.
    pub state: LimitState,
}

impl<I> PhysicalLimit<I> {
    /// A limit over `input`, ready to run.
    pub fn new(limit: Option<usize>, offset: usize, input: I) -> (r: Self)
        ensures
            r.limit == limit,
            r.offset == offset,
            r.input == input,
            r.state == fresh_limit_state(offset, limit),
    {
        PhysicalLimit {
            limit,
            offset,
            input,
            state: LimitState { to_skip: offset, remaining: limit, exhausted: false },
        }
    }

    /// Restart: the offset, quota and end of input are reset (the caller
    /// also restarts the input).
    pub fn init(&mut self)
        ensures
            final(self).limit == old(self).limit,
            final(self).offset == old(self).offset,
            final(self).input == old(self).input,
            final(self).state == fresh_limit_state(old(self).offset, old(self).limit),
    {
        self.state = LimitState { to_skip: self.offset, remaining: self.limit, exhausted: false };
    }

    /// Whether the next call must request input; when not, the output has
    /// ended.
    pub fn wants_input(&self) -> (r: bool)
        ensures
            r == limit_wants_input(self.state),
    {
        !self.state.exhausted && !matches!(self.state.remaining, Some(0))
    }

    /// Take one input event: the end of input, or a row that is skipped or
    /// passed on.
    pub fn accept<T>(&mut self, row: Option<T>) -> (r: LimitOutcome<T>)
        requires
            limit_wants_input(old(self).state),
        ensures
            final(self).limit == old(self).limit,
            final(self).offset == old(self).offset,
            final(self).input == old(self).input,
            final(self).state == limit_step(old(self).state, row is Some),
            match row {
                None => r is End,
                Some(t) => if old(self).state.to_skip > 0 {
                    r is Skipped
                } else {
                    r == LimitOutcome::Emit(t)
                },
            },
    {
        match row {
            None => {
                self.state.exhausted = true;
                LimitOutcome::End
            },
            Some(t) => {
                if self.state.to_skip > 0 {
                    self.state.to_skip = self.state.to_skip - 1;
                    return LimitOutcome::Skipped;
                }
                if let Some(remaining) = self.state.remaining {
                    self.state.remaining = Some(remaining - 1);
                }
                LimitOutcome::Emit(t)
            },
        }
    }
}

} // verus!
