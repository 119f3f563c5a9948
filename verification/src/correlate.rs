//! The correlator: matches an awaiting HTTP request to its reply by id,
//! tolerating out-of-order arrival. One control connection serves many
//! concurrent requests; every waiter polls the shared inbound queue,
//! keeps a reply addressed to itself, and publishes any other in the
//! unmatched cache for its owner to find. There is no dedicated
//! dispatcher, and no ordering between concurrent requests: the one
//! guarantee is exact pairing of a request id with its reply.

use vstd::prelude::*;

use crate::session::{match_step, Session, SessionView};

verus! {

broadcast use crate::kv::lemma_bytes_deep_view;

/// How long a waiter sleeps between polls, in milliseconds.
pub const POLL_INTERVAL_MS: u64 = 100;

/// How long a waiter polls before giving up, in milliseconds.
pub const MAX_WAIT_MS: u64 = 100000;

/// Result of one poll by a waiter.
pub enum AwaitOutcome {
    /// The reply for the awaited id.
    Reply(Vec<u8>),
    /// The wait has reached its ceiling; any later reply for this id
    /// stays unclaimed.
    TimedOut,
    /// Nothing for this id yet; poll again after the interval.
    Pending,
}

/// Specification-level image of an [`AwaitOutcome`].
pub enum AwaitOutcomeView {
    Reply(Seq<u8>),
    TimedOut,
    Pending,
}

impl View for AwaitOutcome {
    type V = AwaitOutcomeView;

    open spec fn view(&self) -> AwaitOutcomeView {
        match self {
            AwaitOutcome::Reply(p) => AwaitOutcomeView::Reply(p@),
            AwaitOutcome::TimedOut => AwaitOutcomeView::TimedOut,
            AwaitOutcome::Pending => AwaitOutcomeView::Pending,
        }
    }
}

/// One poll of the waiter for `rid`: a correlation step, then the
/// timeout check. The step runs first, so the queue is drained even on
/// the final poll; a reply found once the ceiling is reached is still
/// reported as a timeout.
pub open spec fn await_step_spec(
    s: SessionView,
    rid: Seq<u8>,
    elapsed_ms: u64,
    max_wait_ms: u64,
) -> (SessionView, AwaitOutcomeView) {
    let (s2, found) = match_step(s, rid);
    if elapsed_ms >= max_wait_ms {
        (s2, AwaitOutcomeView::TimedOut)
    } else {
        match found {
            Some(p) => (s2, AwaitOutcomeView::Reply(p)),
            None => (s2, AwaitOutcomeView::Pending),
        }
    }
}

/// One poll of the waiter for `rid`, after `elapsed_ms` of waiting.
pub fn await_step(
    session: &mut Session,
    rid: &Vec<u8>,
    elapsed_ms: u64,
    max_wait_ms: u64,
) -> (r: AwaitOutcome)
    requires
        old(session).wf(),
    ensures
        final(session).wf(),
        (final(session)@, r@) == await_step_spec(old(session)@, rid@, elapsed_ms, max_wait_ms),
{
    let found = session.match_response(rid);
    if elapsed_ms >= max_wait_ms {
        return AwaitOutcome::TimedOut;
    }
    match found {
        Some(p) => AwaitOutcome::Reply(p),
        None => AwaitOutcome::Pending,
    }
}

/// Exact pairing: whatever a correlation step hands the waiter of `rid`
/// was recorded against exactly `rid` — at the head of the inbound
/// queue or in the unmatched cache. With ids never reused over the
/// relay's lifetime, a late reply can therefore never be attributed to
/// a different, newer request.
pub proof fn lemma_reply_is_paired(s: SessionView, rid: Seq<u8>, p: Seq<u8>)
    requires
        match_step(s, rid).1 == Some(p),
    ensures
        (s.inbound.len() > 0 && s.inbound[0] == (rid, p)) || (s.unmatched.contains_key(rid)
            && s.unmatched[rid] == p),
{
}

/// A waiter never sees anything but its own reply or a timeout: one
/// poll either returns the payload paired with `rid`, or times out, or
/// asks to poll again.
pub proof fn lemma_await_step_sound(
    s: SessionView,
    rid: Seq<u8>,
    elapsed_ms: u64,
    max_wait_ms: u64,
)
    ensures
        match await_step_spec(s, rid, elapsed_ms, max_wait_ms).1 {
            AwaitOutcomeView::Reply(p) => elapsed_ms < max_wait_ms && ((s.inbound.len() > 0
                && s.inbound[0] == (rid, p)) || (s.unmatched.contains_key(rid) && s.unmatched[rid]
                == p)),
            AwaitOutcomeView::TimedOut => elapsed_ms >= max_wait_ms,
            AwaitOutcomeView::Pending => elapsed_ms < max_wait_ms,
        },
{
    let (s2, found) = match_step(s, rid);
    if elapsed_ms < max_wait_ms {
        match found {
            Some(p) => lemma_reply_is_paired(s, rid, p),
            None => {},
        }
    }
}

/// Out-of-order arrival, replies drained by their own waiters: with the
/// replies to `d2` and `d1` queued in that order, the waiter of `d2`
/// polling first and the waiter of `d1` polling second each receive
/// their own payload.
pub proof fn lemma_out_of_order_direct(
    s: SessionView,
    d1: Seq<u8>,
    d2: Seq<u8>,
    p1: Seq<u8>,
    p2: Seq<u8>,
)
    requires
        d1 != d2,
        s.inbound == seq![(d2, p2), (d1, p1)],
    ensures
        ({
            let (sa, r2) = match_step(s, d2);
            let (sb, r1) = match_step(sa, d1);
            r2 == Some(p2) && r1 == Some(p1)
        }),
{
    let (sa, r2) = match_step(s, d2);
    assert(s.inbound[0] == (d2, p2));
    assert(sa.inbound =~= seq![(d1, p1)]);
}

/// Out-of-order arrival, replies drained by the other waiter: with the
/// replies to `d2` and `d1` queued in that order and neither id cached,
/// the waiter of `d1` polling first drains and publishes the reply to
/// `d2` without claiming it, and the waiter of `d2` then finds it in
/// the cache; the reply to `d1` stays published in the cache, claimable
/// only by `d1`'s waiter.
pub proof fn lemma_out_of_order_cached(
    s: SessionView,
    d1: Seq<u8>,
    d2: Seq<u8>,
    p1: Seq<u8>,
    p2: Seq<u8>,
)
    requires
        d1 != d2,
        s.inbound == seq![(d2, p2), (d1, p1)],
        !s.unmatched.contains_key(d1),
        !s.unmatched.contains_key(d2),
    ensures
        ({
            let (sa, ra) = match_step(s, d1);
            let (sb, rb) = match_step(sa, d2);
            ra is None && rb == Some(p2) && sb.unmatched.contains_key(d1) && sb.unmatched[d1] == p1
        }),
{
    let (sa, ra) = match_step(s, d1);
    assert(s.inbound[0] == (d2, p2));
    assert(sa.inbound =~= seq![(d1, p1)]);
    assert(sa.unmatched == s.unmatched.insert(d2, p2));
    let (sb, rb) = match_step(sa, d2);
    assert(sa.inbound[0] == (d1, p1));
    assert(sb.unmatched == sa.unmatched.insert(d1, p1));
}

} // verus!
