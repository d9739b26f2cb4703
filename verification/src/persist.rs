//! When a journal event that could not be written is tried again, and when it is given up.
use crate::text::chars_of;
use vstd::prelude::*;

verus! {

/// How often an event is tried.
pub const ATTEMPTS: u32 = 10;

/// The wait after the first failure, in milliseconds.
pub const FIRST_DELAY_MS: u64 = 200;

/// The longest wait, in milliseconds.
pub const LONGEST_DELAY_MS: u64 = 30_000;

/// How a write ended.
#[derive(Debug, Clone, Copy, PartialEq, Eq, Structural)]
pub enum WriteOutcome {
    Written,
    /// It will fail the same way every time.
    Refused,
    Failed,
}

/// What to do after a write.
#[derive(Debug, Clone, Copy, PartialEq, Eq, Structural)]
pub enum WriteStep {
    Done,
    /// Log the event and go on with the next one.
    Drop,
    /// Try again after this many milliseconds.
    Retry { after_ms: u64 },
}

/// The wait after the given attempt, the first being one: it doubles up to a limit.
pub open spec fn delay_after(attempt: nat) -> nat
    decreases attempt,
{
    if attempt <= 1 {
        FIRST_DELAY_MS as nat
    } else {
        let twice = 2 * delay_after((attempt - 1) as nat);
        if twice > LONGEST_DELAY_MS {
            LONGEST_DELAY_MS as nat
        } else {
            twice
        }
    }
}

/// What follows an attempt: the last failed one is given up, so that later events are not held up.
pub open spec fn step_after(attempt: nat, outcome: WriteOutcome) -> WriteStep {
    match outcome {
        WriteOutcome::Written => WriteStep::Done,
        WriteOutcome::Refused => WriteStep::Drop,
        WriteOutcome::Failed => if attempt >= ATTEMPTS {
            WriteStep::Drop
        } else {
            WriteStep::Retry { after_ms: delay_after(attempt) as u64 }
        },
    }
}

/// What to do after the given attempt, the first being one.
pub fn next_step(attempt: u32, outcome: WriteOutcome) -> (r: WriteStep)
    ensures
        r == step_after(attempt as nat, outcome),
        r matches WriteStep::Retry { after_ms } ==> FIRST_DELAY_MS <= after_ms <= LONGEST_DELAY_MS,
{
    match outcome {
        WriteOutcome::Written => WriteStep::Done,
        WriteOutcome::Refused => WriteStep::Drop,
        WriteOutcome::Failed => {
            if attempt >= ATTEMPTS {
                return WriteStep::Drop;
            }
            let mut delay: u64 = FIRST_DELAY_MS;
            let mut i: u32 = 1;
            while i < attempt
                invariant
                    1 <= i,
                    i <= attempt || attempt == 0,
                    attempt < ATTEMPTS,
                    i == 1 || i <= attempt,
                    delay == delay_after(i as nat),
                    FIRST_DELAY_MS <= delay <= LONGEST_DELAY_MS,
                decreases attempt - i,
            {
                delay = if 2 * delay > LONGEST_DELAY_MS {
                    LONGEST_DELAY_MS
                } else {
                    2 * delay
                };
                i += 1;
            }
            WriteStep::Retry { after_ms: delay }
        },
    }
}

/// Integrity violations (SQLSTATE class 23) will fail the same way on every retry.
pub fn is_permanent(code: &str) -> (r: bool)
    ensures
        r == (code@.len() >= 2 && code@[0] == '2' && code@[1] == '3'),
{
    let v = chars_of(code);
    v.len() >= 2 && v[0] == '2' && v[1] == '3'
}

/// Every event is tried at most ten times: no failed attempt from the tenth on is tried again, and
/// every earlier one is.
pub proof fn law_events_are_tried_a_limited_number_of_times(attempt: nat)
    ensures
        step_after(attempt, WriteOutcome::Failed) == WriteStep::Drop <==> attempt >= ATTEMPTS,
        step_after(attempt, WriteOutcome::Refused) == WriteStep::Drop,
{
}

/// A write that failed is tried again after a wait that doubles with each attempt, from the first to the
/// longest; one that was written is done, and one that will fail the same way is dropped.
pub proof fn law_write_waits_double(attempt: nat)
    requires
        1 <= attempt < ATTEMPTS - 1,
    ensures
        step_after(1, WriteOutcome::Failed) == (WriteStep::Retry { after_ms: FIRST_DELAY_MS }),
        ({
            let a = step_after(attempt, WriteOutcome::Failed);
            let b = step_after(attempt + 1, WriteOutcome::Failed);
            &&& a is Retry && b is Retry
            &&& b->after_ms == if 2 * a->after_ms > LONGEST_DELAY_MS {
                LONGEST_DELAY_MS as int
            } else {
                2 * a->after_ms
            }
        }),
        step_after(attempt, WriteOutcome::Written) == WriteStep::Done,
{
    lemma_delay(attempt);
    lemma_delay(attempt + 1);
}

proof fn lemma_delay(attempt: nat)
    ensures
        FIRST_DELAY_MS <= delay_after(attempt) <= LONGEST_DELAY_MS,
    decreases attempt,
{
    if attempt > 1 {
        lemma_delay((attempt - 1) as nat);
    }
}

} // verus!
