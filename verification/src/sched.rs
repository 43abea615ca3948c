//! Notification scheduler: decides, for each sighting, how long to wait
//! before alerting, and which command to hand the animation engine once the
//! wait ends or an interrupt arrives.

use vstd::prelude::*;

verus! {

/// Seconds before an event at which the visual notification begins.
pub const NOTIFY_DURATION: i64 = 300;

/// Command sent from the scheduler to the animation engine. The payload of
/// `IssApproching` is the event's Unix timestamp: the engine animates until
/// that instant.
#[derive(Clone, Copy, Debug, PartialEq, Eq, Structural)]
pub enum BlinktCmd {
    IssApproching(i64),
    Terminate,
}

/// The wait the scheduler owes a sighting: none at all for an event already
/// in the past, otherwise the time to the event minus the notification lead,
/// floored at zero.
#[derive(Clone, Copy, Debug, PartialEq, Eq, Structural)]
pub enum WaitPlan {
    SkipPast,
    Wait { seconds: u64 },
}

/// Seconds to wait before notifying for an event at `event_ts`, seen at
/// `now_ts`: the lead time is subtracted and the result floored at zero.
pub open spec fn wait_seconds_spec(event_ts: int, now_ts: int) -> int {
    if event_ts - now_ts - NOTIFY_DURATION > 0 {
        event_ts - now_ts - NOTIFY_DURATION
    } else {
        0
    }
}

/// The command the scheduler owes one sighting once its wait, if any, has
/// ended: a past event gets no wait and no command at all, whatever the
/// interrupt state; otherwise an interrupt during the wait yields the
/// single `Terminate`, and an undisturbed wait yields the approach command.
pub open spec fn sighting_command(event_ts: i64, now_ts: i64, interrupted: bool) -> Option<
    BlinktCmd,
> {
    if event_ts - now_ts < 0 {
        None
    } else if interrupted {
        Some(BlinktCmd::Terminate)
    } else {
        Some(BlinktCmd::IssApproching(event_ts))
    }
}

/// Skipping law: a sighting whose event lies in the past is skipped
/// outright — no command of any kind is owed for it, whether or not an
/// interrupt arrives, and no wait precedes the next sighting.
pub proof fn lemma_past_sighting_sends_nothing(event_ts: i64, now_ts: i64, interrupted: bool)
    requires
        event_ts - now_ts < 0,
    ensures
        sighting_command(event_ts, now_ts, interrupted) is None,
{
}

/// Decide what a sighting is owed: events strictly in the past are skipped
/// without any wait or command; all others get the lead-time wait.
pub fn plan_sighting(event_ts: i64, now_ts: i64) -> (p: WaitPlan)
    requires
        i64::MIN <= event_ts - now_ts <= i64::MAX,
    ensures
        p is SkipPast <==> event_ts - now_ts < 0,
        p is SkipPast <==> (forall|b: bool| sighting_command(event_ts, now_ts, b) is None),
        p matches WaitPlan::Wait { seconds } ==> seconds == wait_seconds_spec(
            event_ts as int,
            now_ts as int,
        ),
{
    proof {
        assert(sighting_command(event_ts, now_ts, false) is None ==> event_ts - now_ts < 0);
    }
    let time_to_event = event_ts - now_ts;
    if time_to_event < 0 {
        WaitPlan::SkipPast
    } else if time_to_event > NOTIFY_DURATION {
        WaitPlan::Wait { seconds: (time_to_event - NOTIFY_DURATION) as u64 }
    } else {
        WaitPlan::Wait { seconds: 0 }
    }
}

/// Decide the command once a sighting's wait has ended: an interrupt during
/// the wait turns into the single `Terminate`; otherwise the engine is told
/// to animate until the event's timestamp.
pub fn resolve_wait(interrupted: bool, event_ts: i64) -> (c: BlinktCmd)
    ensures
        interrupted ==> c == BlinktCmd::Terminate,
        !interrupted ==> c == BlinktCmd::IssApproching(event_ts),
        forall|now_ts: i64|
            event_ts - now_ts >= 0 ==> sighting_command(event_ts, now_ts, interrupted) == Some(
                c,
            ),
{
    if interrupted {
        BlinktCmd::Terminate
    } else {
        BlinktCmd::IssApproching(event_ts)
    }
}

} // verus!
