//! User presence: a bounded wait for a physical confirmation, driven by polls.
use vstd::prelude::*;

verus! {

/// What the visual indicator shows.
#[derive(Clone, Copy, Debug, PartialEq, Eq, Structural)]
pub enum LedState {
    /// Waiting for the user to confirm.
    Confirm,
    /// Nothing to do.
    Idle,
    /// Awake and serving a command.
    Active,
    /// Busy; no new command is taken.
    Processing,
}

impl Default for LedState {
    fn default() -> (r: LedState)
        ensures
            r == LedState::Idle,
    {
        LedState::Idle
    }
}

/// Why presence is asked for.
#[derive(Clone, Copy, Debug, PartialEq, Eq, Structural)]
pub enum PresenceReason {
    Registration,
    Assertion,
    Reset,
    Selection,
    Deletion,
}

/// How a presence request ended.
#[derive(Clone, Copy, Debug, PartialEq, Eq, Structural)]
pub enum Verdict {
    Granted,
    Denied,
    TimedOut,
}

/// The result of one poll of the confirmation input.
#[derive(Clone, Copy, Debug, PartialEq, Eq, Structural)]
pub enum Poll {
    Waiting,
    Done(Verdict),
}

/// A presence request in progress: it ends at the first confirmation seen
/// before `deadline`, or times out.
#[derive(Clone, Copy, Debug, PartialEq, Eq, Structural)]
pub struct PresenceRequest {
    pub reason: PresenceReason,
    pub deadline: u64,
}

/// `now + timeout`, held at the largest time.
pub open spec fn deadline_after(now: u64, timeout: u64) -> u64 {
    if now as int + timeout as int > u64::MAX as int {
        u64::MAX
    } else {
        (now + timeout) as u64
    }
}

/// One poll: no confirmation counts once the deadline has passed.
pub open spec fn poll_spec(req: PresenceRequest, pressed: bool, now: u64) -> (Poll, LedState) {
    if now >= req.deadline {
        (Poll::Done(Verdict::TimedOut), LedState::Idle)
    } else if pressed {
        (Poll::Done(Verdict::Granted), LedState::Active)
    } else {
        (Poll::Waiting, LedState::Confirm)
    }
}

impl PresenceRequest {
    /// Opens a request at time `now` that lasts `timeout` milliseconds; the
    /// indicator asks the user to confirm.
    pub fn start(reason: PresenceReason, now: u64, timeout: u64) -> (r: (PresenceRequest, LedState))
        ensures
            r.0.reason == reason,
            r.0.deadline == deadline_after(now, timeout),
            r.1 == LedState::Confirm,
    {
        let deadline = now.saturating_add(timeout);
        (PresenceRequest { reason, deadline }, LedState::Confirm)
    }

    /// Looks at the confirmation input at time `now`.
    pub fn poll(&self, pressed: bool, now: u64) -> (r: (Poll, LedState))
        ensures
            r == poll_spec(*self, pressed, now),
    {
        if now >= self.deadline {
            (Poll::Done(Verdict::TimedOut), LedState::Idle)
        } else if pressed {
            (Poll::Done(Verdict::Granted), LedState::Active)
        } else {
            (Poll::Waiting, LedState::Confirm)
        }
    }

    /// Abandons the request: the indicator goes back to idle and nothing else happens.
    pub fn cancel(&self) -> (r: LedState)
        ensures
            r == LedState::Idle,
    {
        LedState::Idle
    }
}

/// Polls that never see a confirmation never grant presence: they wait until
/// the deadline and then time out.
pub proof fn lemma_unconfirmed_times_out(req: PresenceRequest, now: u64)
    ensures
        poll_spec(req, false, now).0 != Poll::Done(Verdict::Granted),
        now >= req.deadline ==> poll_spec(req, false, now).0 == Poll::Done(Verdict::TimedOut),
        now < req.deadline ==> poll_spec(req, false, now).0 == Poll::Waiting,
{
}

} // verus!
