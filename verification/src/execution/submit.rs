//! Judging a submission: one POST, then a poll every [`POLL_INTERVAL_MS`] until the verdict
//! is in, at most [`MAX_POLLS`] times. The waiting and the requests belong to the caller; the
//! decisions are here, as transitions from a state and what came back to the next state and
//! whether to poll again.

use vstd::prelude::*;

use crate::text::lit;

verus! {

/// How many polls a submission gets before it is given up on.
pub const MAX_POLLS: u32 = 100;

/// How long to wait before each poll.
pub const POLL_INTERVAL_MS: u32 = 1200;

/// What the verdict panel shows: nothing yet, judging the submission with this id, the judged
/// submission, or why it failed.
#[derive(Debug, Clone, PartialEq)]
pub enum SubmitState<D> {
    Idle,
    Judging(String),
    Done(D),
    Failed(String),
}

/// What one poll brought back.
pub enum PollReply<D> {
    /// The submission is judged.
    Completed(D),
    /// Still pending or being judged.
    Pending,
    /// The request failed, with this message.
    Error(String),
}

/// The message a submission that never came back ends with.
pub open spec fn timed_out() -> Seq<char> {
    "judging timed out"@
}

/// Whether a submit may start: one judging at a time.
pub fn can_submit<D>(state: &SubmitState<D>) -> (b: bool)
    ensures
        b == !(state is Judging),
{
    match state {
        SubmitState::Judging(_) => false,
        _ => true,
    }
}

/// The POST was answered: the submission with this id is being judged (poll it), or the
/// submit failed with this message (stop).
pub fn on_submitted<D>(reply: Result<String, String>) -> (r: (SubmitState<D>, bool))
    ensures
        match reply {
            Ok(id) => r.0 == SubmitState::<D>::Judging(id) && r.1,
            Err(m) => r.0 == SubmitState::<D>::Failed(m) && !r.1,
        },
{
    match reply {
        Ok(id) => (SubmitState::Judging(id), true),
        Err(message) => (SubmitState::Failed(message), false),
    }
}

/// Poll number `attempt` (from 0) of submission `id` came back: a verdict ends the wait, an
/// error ends it with the error, and a pending answer polls again unless this was the last
/// poll allowed, which ends it as timed out.
pub fn on_polled<D>(id: String, attempt: u32, reply: PollReply<D>) -> (r: (SubmitState<D>, bool))
    requires
        attempt < MAX_POLLS,
    ensures
        match reply {
            PollReply::Completed(d) => r.0 == SubmitState::<D>::Done(d) && !r.1,
            PollReply::Error(m) => r.0 == SubmitState::<D>::Failed(m) && !r.1,
            PollReply::Pending => if attempt + 1 < MAX_POLLS {
                r.0 == SubmitState::<D>::Judging(id) && r.1
            } else {
                (r.0 matches SubmitState::Failed(m) && m@ == timed_out()) && !r.1
            },
        },
{
    match reply {
        PollReply::Completed(d) => (SubmitState::Done(d), false),
        PollReply::Error(message) => (SubmitState::Failed(message), false),
        PollReply::Pending => {
            if attempt + 1 < MAX_POLLS {
                (SubmitState::Judging(id), true)
            } else {
                (SubmitState::Failed(crate::text::string_of(&lit("judging timed out"))), false)
            }
        },
    }
}


/// What one poll's answer means: a submission whose status is `completed` is judged; any
/// other status is still pending; a failed request is an error with its message.
pub fn poll_reply<D>(answer: Result<(String, D), String>) -> (r: PollReply<D>)
    ensures
        match answer {
            Ok((status, d)) => if status@ == "completed"@ {
                r == PollReply::<D>::Completed(d)
            } else {
                r == PollReply::<D>::Pending
            },
            Err(m) => r == PollReply::<D>::Error(m),
        },
{
    match answer {
        Ok((status, d)) => {
            if crate::text::str_eq(status.as_str(), "completed") {
                PollReply::Completed(d)
            } else {
                PollReply::Pending
            }
        },
        Err(message) => PollReply::Error(message),
    }
}

} // verus!
