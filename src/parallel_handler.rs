//! Decisions of the worker pool that processes chunks in parallel: the
//! shared abort slot (first failure wins), the send handle, and what the
//! pool reports when it completes. The threads themselves are run by the
//! embedding program.
use std::sync::{Arc, Mutex};

use crossbeam_channel::Sender;
use vstd::prelude::*;
use vstd::string::*;

verus! {

#[verifier::external_type_specification]
#[verifier::external_body]
#[verifier::reject_recursive_types(T)]
pub struct ExSender<T>(crossbeam_channel::Sender<T>);

#[verifier::external_type_specification]
#[verifier::external_body]
#[verifier::reject_recursive_types(T)]
pub struct ExMutex<T: ?Sized>(std::sync::Mutex<T>);

pub assume_specification<T>[ <crossbeam_channel::Sender<T> as Clone>::clone ](
    s: &crossbeam_channel::Sender<T>,
) -> crossbeam_channel::Sender<T>;

/// Why the pool refused work or failed.
#[derive(Debug, PartialEq, Eq)]
pub enum PoolError {
    /// A handler failed with this message; no more work is taken.
    Aborted(String),
    /// Every worker is gone, so the channel to them is closed.
    ChannelClosed,
    /// Worker threads panicked; one message for each.
    WorkerPanics(Vec<String>),
}

/// The lines of `v` joined by newlines.
pub open spec fn lines(v: Seq<Seq<char>>) -> Seq<char>
    decreases v.len(),
{
    if v.len() == 0 {
        Seq::empty()
    } else if v.len() == 1 {
        v[0]
    } else {
        lines(v.drop_last()) + "\n"@ + v.last()
    }
}

/// The views of a list of strings.
pub open spec fn views(v: Seq<String>) -> Seq<Seq<char>> {
    v.map_values(|s: String| s@)
}

impl PoolError {
    /// The text of the error.
    pub open spec fn text(&self) -> Seq<char> {
        match self {
            PoolError::Aborted(m) => m@,
            PoolError::ChannelClosed => "send failed - channel closed"@,
            PoolError::WorkerPanics(list) => lines(views(list@)),
        }
    }

    /// The text of the error.
    pub fn message(&self) -> (r: String)
        ensures
            r@ == self.text(),
    {
        match self {
            PoolError::Aborted(m) => m.clone(),
            PoolError::ChannelClosed => String::from_str("send failed - channel closed"),
            PoolError::WorkerPanics(list) => join_lines(list),
        }
    }
}

fn join_lines(list: &Vec<String>) -> (r: String)
    ensures
        r@ == lines(views(list@)),
{
    let mut out = String::new();
    let mut i: usize = 0;
    while i < list.len()
        invariant
            i <= list@.len(),
            out@ == lines(views(list@.subrange(0, i as int))),
        decreases list.len() - i,
    {
        let ghost before = list@.subrange(0, i as int);
        let ghost after = list@.subrange(0, i + 1);
        proof {
            assert(views(after).drop_last() =~= views(before));
            assert(views(after).last() == list@[i as int]@);
            if i == 0 {
                assert(views(before).len() == 0);
            }
        }
        if i > 0 {
            out.append("\n");
        }
        out.append(list[i].as_str());
        i = i + 1;
        proof {
            if i == 1 {
                assert(out@ =~= list@[0]@);
            }
        }
    }
    proof {
        assert(list@.subrange(0, list@.len() as int) =~= list@);
    }
    out
}

/// The abort slot as text.
pub open spec fn slot_view(slot: Option<String>) -> Option<Seq<char>> {
    match slot {
        Some(s) => Some(s@),
        None => None,
    }
}

/// The slot after a failure with `msg` was recorded: the first one stays.
pub open spec fn record(slot: Option<Seq<char>>, msg: Seq<char>) -> Option<Seq<char>> {
    if slot is None {
        Some(msg)
    } else {
        slot
    }
}

/// `r` is the abort error with message `m`.
pub open spec fn aborted_with(r: Result<(), PoolError>, m: Seq<char>) -> bool {
    match r {
        Err(PoolError::Aborted(s)) => s@ == m,
        _ => false,
    }
}

/// `r` reports the state of the abort slot: success when it is empty, else
/// the recorded failure.
pub open spec fn reports_abort(r: Result<(), PoolError>, slot: Option<Seq<char>>) -> bool {
    match slot {
        Some(m) => aborted_with(r, m),
        None => r is Ok,
    }
}

/// `r` is what a send reports after the channel call, with the abort slot
/// `slot` read after it and `sent` telling whether the item was queued: a
/// recorded failure first, then a closed channel, else success.
pub open spec fn send_reports(r: Result<(), PoolError>, slot: Option<Seq<char>>, sent: bool) -> bool {
    match slot {
        Some(m) => aborted_with(r, m),
        None => if sent {
            r is Ok
        } else {
            r == Err::<(), PoolError>(PoolError::ChannelClosed)
        },
    }
}

/// `r` is what the pool reports once its workers were joined, with the abort
/// slot `abort` and the panic messages `panics` of the workers.
pub open spec fn completes_with(
    r: Result<(), PoolError>,
    abort: Option<Seq<char>>,
    panics: Seq<Seq<char>>,
) -> bool {
    match abort {
        Some(m) => aborted_with(r, m),
        None => if panics.len() == 0 {
            r is Ok
        } else {
            match r {
                Err(PoolError::WorkerPanics(v)) => views(v@) == panics,
                _ => false,
            }
        },
    }
}

/// The abort slot after the outcomes `outcomes` of handler calls were
/// recorded in order, starting from `slot`; an outcome is `None` for a
/// success and the failure's message otherwise.
pub open spec fn record_all(slot: Option<Seq<char>>, outcomes: Seq<Option<Seq<char>>>) -> Option<
    Seq<char>,
>
    decreases outcomes.len(),
{
    if outcomes.len() == 0 {
        slot
    } else {
        let next = match outcomes[0] {
            Some(m) => record(slot, m),
            None => slot,
        };
        record_all(next, outcomes.drop_first())
    }
}

/// Once a failure is recorded, later outcomes leave the slot as it is.
pub proof fn lemma_abort_is_final(m: Seq<char>, later: Seq<Option<Seq<char>>>)
    ensures
        record_all(Some(m), later) == Some(m),
    decreases later.len(),
{
    if later.len() > 0 {
        lemma_abort_is_final(m, later.drop_first());
    }
}

/// The first failure recorded is the one the slot keeps.
pub proof fn lemma_first_failure_wins(outcomes: Seq<Option<Seq<char>>>, k: int)
    requires
        0 <= k < outcomes.len(),
        outcomes[k] is Some,
        forall|i: int| 0 <= i < k ==> outcomes[i] is None,
    ensures
        record_all(None, outcomes) == outcomes[k],
    decreases k,
{
    if k == 0 {
        lemma_abort_is_final(outcomes[0]->Some_0, outcomes.drop_first());
    } else {
        assert forall|i: int| 0 <= i < k - 1 implies outcomes.drop_first()[i] is None by {
            assert(outcomes.drop_first()[i] == outcomes[i + 1]);
        }
        lemma_first_failure_wins(outcomes.drop_first(), k - 1);
    }
}

/// When the handler fails on one item alone, completing the pool reports that
/// failure's message, whatever the workers' panics.
pub proof fn lemma_failure_reported(
    outcomes: Seq<Option<Seq<char>>>,
    k: int,
    panics: Seq<Seq<char>>,
    r: Result<(), PoolError>,
)
    requires
        0 <= k < outcomes.len(),
        outcomes[k] is Some,
        forall|i: int| 0 <= i < outcomes.len() && i != k ==> outcomes[i] is None,
        completes_with(r, record_all(None, outcomes), panics),
    ensures
        aborted_with(r, outcomes[k]->Some_0),
{
    lemma_first_failure_wins(outcomes, k);
}

/// After a failure was recorded, whatever else fails later, a send reports
/// that failure: one that starts later at its first check, one that was
/// blocked on a full queue once the channel call returns, queued or not.
pub proof fn lemma_send_after_abort(
    m: Seq<char>,
    later: Seq<Option<Seq<char>>>,
    r_check: Result<(), PoolError>,
    r_send: Result<(), PoolError>,
    sent: bool,
)
    requires
        reports_abort(r_check, record_all(Some(m), later)),
        send_reports(r_send, record_all(Some(m), later), sent),
    ensures
        aborted_with(r_check, m),
        aborted_with(r_send, m),
{
    lemma_abort_is_final(m, later);
}

/// Completing reports success only when no failure was recorded and no
/// worker panicked.
pub proof fn lemma_success_is_clean(
    r: Result<(), PoolError>,
    abort: Option<Seq<char>>,
    panics: Seq<Seq<char>>,
)
    requires
        completes_with(r, abort, panics),
        r is Ok,
    ensures
        abort is None,
        panics.len() == 0,
{
}

/// Records the failure `msg` in the abort slot unless one is there already.
pub fn record_first(slot: &mut Option<String>, msg: String)
    ensures
        slot_view(*final(slot)) == record(slot_view(*old(slot)), msg@),
{
    if slot.is_none() {
        *slot = Some(msg);
    }
}

/// Success for an empty abort slot, else the error of the recorded failure.
pub fn abort_status(slot: &Option<String>) -> (r: Result<(), PoolError>)
    ensures
        reports_abort(r, slot_view(*slot)),
{
    match slot {
        Some(msg) => Err(PoolError::Aborted(msg.clone())),
        None => Ok(()),
    }
}

/// Returns the first failure recorded in `abort`, if any.
pub fn check_abort(abort: &Mutex<Option<String>>) -> (r: Result<(), PoolError>)
    ensures
        r is Ok || (exists|m: Seq<char>| aborted_with(r, m)),
{
    let slot = read_slot(abort);
    let r = abort_status(&slot);
    proof {
        if let Some(m) = slot {
            assert(aborted_with(r, m@));
        }
    }
    r
}

/// What a send reports once the channel call returned, given the abort slot
/// read after it and whether the item was queued.
pub fn send_outcome(slot: &Option<String>, sent: bool) -> (r: Result<(), PoolError>)
    ensures
        send_reports(r, slot_view(*slot), sent),
{
    match slot {
        Some(msg) => Err(PoolError::Aborted(msg.clone())),
        None => if sent {
            Ok(())
        } else {
            Err(PoolError::ChannelClosed)
        },
    }
}

/// What the pool reports once its workers were joined: the recorded failure
/// first, then the panics of the workers, else success.
pub fn completion_status(abort: &Option<String>, panics: Vec<String>) -> (r: Result<(), PoolError>)
    ensures
        completes_with(r, slot_view(*abort), views(panics@)),
{
    match abort {
        Some(msg) => Err(PoolError::Aborted(msg.clone())),
        None => if panics.len() == 0 {
            Ok(())
        } else {
            Err(PoolError::WorkerPanics(panics))
        },
    }
}

/// A handle to send work to the worker threads; it can be cloned, and all
/// clones share the channel and the abort slot.
#[verifier::reject_recursive_types(I)]
pub struct SendHandle<I> {
    input: Sender<I>,
    abort: Arc<Mutex<Option<String>>>,
}

impl<I> SendHandle<I> {
    /// A handle on the channel `input` with the shared abort slot `abort`.
    pub fn new(input: Sender<I>, abort: Arc<Mutex<Option<String>>>) -> (r: Self) {
        SendHandle { input, abort }
    }

    /// Sends `input` to the worker threads, unless a failure has been
    /// recorded: then that failure is returned and nothing is sent. A failure
    /// recorded while the send was blocked is returned as well; else a closed
    /// channel is reported as such.
    pub fn send(&self, input: I) -> (r: Result<(), PoolError>)
        ensures
            r is Ok || r == Err::<(), PoolError>(PoolError::ChannelClosed) || (exists|m: Seq<char>|
                aborted_with(r, m)),
    {
        match check_abort(&self.abort) {
            Err(e) => return Err(e),
            Ok(()) => {},
        }
        let sent = channel_send(&self.input, input);
        let slot = read_slot(&self.abort);
        let r = send_outcome(&slot, sent);
        proof {
            if let Some(m) = slot {
                assert(aborted_with(r, m@));
            }
        }
        r
    }
}

impl<I> Clone for SendHandle<I> {
    fn clone(&self) -> Self {
        SendHandle { input: self.input.clone(), abort: share(&self.abort) }
    }
}

/// Relies on `Mutex::lock`: a copy of the abort slot, read under the lock
/// (through a poisoned lock too). Other threads may change the slot at any
/// time, so nothing is promised of the copy.
#[verifier::external_body]
fn read_slot(abort: &Mutex<Option<String>>) -> (r: Option<String>) {
    match abort.lock() {
        Ok(guard) => guard.clone(),
        Err(poisoned) => poisoned.into_inner().clone(),
    }
}

/// Relies on `crossbeam_channel::Sender::send`: blocks until the message is
/// queued or every receiver is gone; true when it was queued. Which of the two
/// happens depends on the other threads.
#[verifier::external_body]
fn channel_send<T>(tx: &Sender<T>, msg: T) -> (sent: bool) {
    tx.send(msg).is_ok()
}

/// Relies on `Arc::clone`: one more handle on the same shared value.
#[verifier::external_body]
fn share<T>(a: &Arc<T>) -> (r: Arc<T>) {
    Arc::clone(a)
}

} // verus!
