use vstd::prelude::*;

use crate::message::{ReportMessage, UserResult, UserStatus};

verus! {

/// What the reconciliation step of one tick decides to spawn: the shortfall
/// between target and live population, capped at a batch of 20 so one tick
/// never bursts unboundedly.
pub open spec fn spec_spawn_count(target: int, current: int) -> int {
    let want = if target > current {
        target - current
    } else {
        0
    };
    if want > 20 {
        20
    } else {
        want
    }
}

/// How many users to launch on this tick, given the scheduler's target and
/// the live population.
pub fn spawn_count(target: usize, current: usize) -> (n: usize)
    ensures
        n as int == spec_spawn_count(target as int, current as int),
        n <= 20,
{
    if target <= current {
        return 0;
    }
    let want = target - current;
    if want > 20 {
        20
    } else {
        want
    }
}

/// How one lifecycle event moves the live counter: a creation raises it by
/// one, a completion lowers it by one.
pub open spec fn spec_apply_status(c: int, status: UserStatus) -> int {
    match status {
        UserStatus::Created => c + 1,
        UserStatus::Finished(_) => c - 1,
    }
}

/// The counter after a whole sequence of lifecycle events.
pub open spec fn counter_after(c0: int, events: Seq<UserStatus>) -> int
    decreases events.len(),
{
    if events.len() == 0 {
        c0
    } else {
        counter_after(spec_apply_status(c0, events[0]), events.skip(1))
    }
}

/// How many of the events are creations.
pub open spec fn count_created(events: Seq<UserStatus>) -> int
    decreases events.len(),
{
    if events.len() == 0 {
        0
    } else {
        (if events[0] is Created {
            1int
        } else {
            0int
        }) + count_created(events.skip(1))
    }
}

/// How many of the events are completions.
pub open spec fn count_finished(events: Seq<UserStatus>) -> int
    decreases events.len(),
{
    if events.len() == 0 {
        0
    } else {
        (if events[0] is Finished {
            1int
        } else {
            0int
        }) + count_finished(events.skip(1))
    }
}

/// The supervisor's own state: the live user counter and the outcomes
/// buffered since the last report tick. The tick loop that owns the clock
/// and the channels drives this state from outside.
pub struct RunnerState {
    pub users_counter: usize,
    pub queued_results: Vec<UserResult>,
}

impl RunnerState {
    pub fn new() -> (s: RunnerState)
        ensures
            s.users_counter == 0,
            s.queued_results@.len() == 0,
    {
        RunnerState { users_counter: 0, queued_results: Vec::new() }
    }

    /// Fold one lifecycle event into the state: `Created` raises the live
    /// counter; `Finished` lowers it and buffers the outcome. A completion
    /// can only arrive while users are live, and the population cannot
    /// outgrow the machine word.
    pub fn apply_status(&mut self, status: UserStatus)
        requires
            status is Created ==> old(self).users_counter < usize::MAX,
            status is Finished ==> old(self).users_counter > 0,
        ensures
            final(self).users_counter as int == spec_apply_status(
                old(self).users_counter as int,
                status,
            ),
            match status {
                UserStatus::Created => final(self).queued_results@ == old(self).queued_results@,
                UserStatus::Finished(outcome) => final(self).queued_results@ == old(
                    self,
                ).queued_results@.push(outcome),
            },
    {
        match status {
            UserStatus::Created => {
                self.users_counter = self.users_counter + 1;
            },
            UserStatus::Finished(outcome) => {
                self.users_counter = self.users_counter - 1;
                self.queued_results.push(outcome);
            },
        }
    }

    /// Produce this tick's report snapshot: the live counter, the elapsed
    /// seconds, and the outcomes buffered since the last tick, draining the
    /// buffer.
    pub fn take_report(&mut self, duration: usize) -> (msg: ReportMessage)
        ensures
            msg.current_users == old(self).users_counter,
            msg.duration == duration,
            msg.results@ == old(self).queued_results@,
            final(self).users_counter == old(self).users_counter,
            final(self).queued_results@.len() == 0,
    {
        let mut drained: Vec<UserResult> = Vec::new();
        core::mem::swap(&mut drained, &mut self.queued_results);
        ReportMessage { current_users: self.users_counter, results: drained, duration }
    }
}

/// The live counter tracks lifecycles exactly: after any sequence of
/// events, it has moved from its start by the number of creations minus the
/// number of completions. With a zero start this is `|created| -
/// |finished|`, the population a report snapshot carries.
pub proof fn lemma_counter_tracks_lifecycles(c0: int, events: Seq<UserStatus>)
    ensures
        counter_after(c0, events) == c0 + count_created(events) - count_finished(events),
    decreases events.len(),
{
    if events.len() > 0 {
        lemma_counter_tracks_lifecycles(spec_apply_status(c0, events[0]), events.skip(1));
    }
}

} // verus!
