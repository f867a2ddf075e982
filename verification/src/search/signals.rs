//! What the search reads from its surroundings: the clock, the shared stop
//! and memory flags, and the channel to the proof-tree builder.
//!
//! Nothing here is a function of its arguments alone, so none of these
//! calls has a stated result: the search is verified for every answer.

use std::sync::atomic::AtomicBool;
use std::sync::Arc;

use vstd::prelude::*;

use crate::proof_event::ProofEvent;

verus! {

#[verifier::external_type_specification]
#[verifier::external_body]
pub struct ExInstant(std::time::Instant);

#[verifier::external_type_specification]
#[verifier::external_body]
#[verifier::reject_recursive_types(T)]
pub struct ExSender<T>(std::sync::mpsc::Sender<T>);

/// `Instant::now`: the current reading of the monotonic clock.
#[verifier::external_body]
pub(crate) fn instant_now() -> (r: std::time::Instant) {
    std::time::Instant::now()
}

/// `Instant::checked_add` of `secs` whole seconds; `None` when the instant
/// cannot be represented.
#[verifier::external_body]
pub(crate) fn instant_plus_secs(start: &std::time::Instant, secs: u64) -> (r: Option<std::time::Instant>) {
    start.checked_add(std::time::Duration::from_secs(secs))
}

/// `Instant`'s `>=`: whether `a` is at or after `b`.
#[verifier::external_body]
pub(crate) fn instant_at_or_after(a: &std::time::Instant, b: &std::time::Instant) -> (r: bool) {
    *a >= *b
}

/// `Sender::send`; a receiver that has gone away is ignored, since the
/// search never depends on what the builder does with an event.
#[verifier::external_body]
pub(crate) fn send_event(sender: &std::sync::mpsc::Sender<ProofEvent>, event: ProofEvent) {
    let _ = sender.send(event);
}

/// Whether the shared flag is raised (an acquire load); `false` when there
/// is no flag.
pub fn flag_raised(flag: &Option<Arc<AtomicBool>>) -> (r: bool)
    ensures
        flag is None ==> !r,
{
    match flag {
        Some(f) => {
            let b: &AtomicBool = f;
            b.load(std::sync::atomic::Ordering::Acquire)
        },
        None => false,
    }
}

/// Whether the clock has reached `deadline`; never when there is none.
pub fn deadline_passed(deadline: &Option<std::time::Instant>) -> (r: bool)
    ensures
        deadline is None ==> !r,
{
    match deadline {
        Some(d) => {
            let now = instant_now();
            instant_at_or_after(&now, d)
        },
        None => false,
    }
}

} // verus!
