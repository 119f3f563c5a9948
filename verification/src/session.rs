//! Per-agent session state: a bounded outbound queue of encoded
//! requests (consumed by the connection's writer), a bounded inbound
//! queue of decoded replies (fed by the connection's reader), and the
//! unmatched-reply cache that lets concurrent waiters pick up replies
//! drained by one another. The cache grows without bound; entries are
//! never evicted.

use vstd::prelude::*;

use crate::kv::{assoc_map, find_key, keys_eq, lemma_assoc_update, lemma_assoc_value, unique_keys};

verus! {

broadcast use crate::kv::lemma_bytes_deep_view;

/// Capacity of the outbound and the inbound queue; the bound is the
/// relay's only admission control.
pub const QUEUE_CAPACITY: usize = 100;

/// Mathematical image of a [`Session`].
#[verifier::ext_equal]
pub struct SessionView {
    /// Encoded requests waiting for the connection's writer, oldest first.
    pub outbound: Seq<Seq<u8>>,
    /// Decoded `(id, payload)` replies waiting for a matching waiter,
    /// oldest first.
    pub inbound: Seq<(Seq<u8>, Seq<u8>)>,
    /// Replies drained by a waiter they were not addressed to.
    pub unmatched: Map<Seq<u8>, Seq<u8>>,
    /// Cleared when the agent's control connection has gone.
    pub connected: bool,
}

/// The state of a session right after its agent connected.
pub open spec fn empty_session() -> SessionView {
    SessionView {
        outbound: Seq::empty(),
        inbound: Seq::empty(),
        unmatched: Map::empty(),
        connected: true,
    }
}

/// One correlation step for the waiter of `rid`: drain at most one
/// inbound reply; a reply for `rid` is handed out at once, any other is
/// published in the cache, after which the cache is consulted for a
/// reply to `rid` that an earlier step may have left there. An empty
/// queue ends the step without a cache lookup.
pub open spec fn match_step(s: SessionView, rid: Seq<u8>) -> (SessionView, Option<Seq<u8>>) {
    if s.inbound.len() == 0 {
        (s, None)
    } else {
        let aid = s.inbound[0].0;
        let payload = s.inbound[0].1;
        let rest = s.inbound.skip(1);
        if aid == rid {
            ((SessionView { inbound: rest, ..s }), Some(payload))
        } else {
            let s2 = SessionView { inbound: rest, unmatched: s.unmatched.insert(aid, payload), ..s };
            if s.unmatched.contains_key(rid) {
                (s2, Some(s.unmatched[rid]))
            } else {
                (s2, None)
            }
        }
    }
}

/// Relay-side state for one live agent control connection.
pub struct Session {
    outbound: Vec<Vec<u8>>,
    inbound: Vec<(Vec<u8>, Vec<u8>)>,
    unmatched: Vec<(Vec<u8>, Vec<u8>)>,
    connected: bool,
}

impl View for Session {
    type V = SessionView;

    closed spec fn view(&self) -> SessionView {
        SessionView {
            outbound: self.outbound.deep_view(),
            inbound: self.inbound.deep_view(),
            unmatched: assoc_map(self.unmatched.deep_view()),
            connected: self.connected,
        }
    }
}

impl Session {
    /// Holds between calls: queues within capacity, cache keys distinct.
    pub closed spec fn wf(self) -> bool {
        &&& self.outbound@.len() <= QUEUE_CAPACITY
        &&& self.inbound@.len() <= QUEUE_CAPACITY
        &&& unique_keys(self.unmatched.deep_view())
    }

    /// A fresh session: empty queues, empty cache, connected.
    pub fn new() -> (s: Session)
        ensures
            s@ == empty_session(),
            s.wf(),
    {
        let s = Session {
            outbound: Vec::new(),
            inbound: Vec::new(),
            unmatched: Vec::new(),
            connected: true,
        };
        proof {
            assert(s@.outbound =~= empty_session().outbound);
            assert(s@.inbound =~= empty_session().inbound);
            assert(s.unmatched.deep_view() =~= Seq::<(Seq<u8>, Seq<u8>)>::empty());
            assert(s@.unmatched =~= empty_session().unmatched);
        }
        s
    }

    /// Queues one encoded request for the connection's writer. Refused
    /// when the queue is full or the agent has disconnected; the caller
    /// surfaces that as an internal error.
    pub fn enqueue_request(&mut self, request: Vec<u8>) -> (ok: bool)
        requires
            old(self).wf(),
        ensures
            final(self).wf(),
            ok == (old(self)@.connected && old(self)@.outbound.len() < QUEUE_CAPACITY),
            ok ==> final(self)@ == (SessionView {
                outbound: old(self)@.outbound.push(request@),
                ..old(self)@
            }),
            !ok ==> final(self)@ == old(self)@,
    {
        if !self.connected || self.outbound.len() >= QUEUE_CAPACITY {
            return false;
        }
        let ghost d0 = self.outbound.deep_view();
        self.outbound.push(request);
        proof {
            assert(self.outbound.deep_view() =~~= d0.push(request@));
        }
        true
    }

    /// Takes the oldest queued request; the connection's writer sends
    /// it to the agent.
    pub fn pop_request(&mut self) -> (r: Option<Vec<u8>>)
        requires
            old(self).wf(),
        ensures
            final(self).wf(),
            old(self)@.outbound.len() == 0 ==> r is None && final(self)@ == old(self)@,
            old(self)@.outbound.len() > 0 ==> (r matches Some(m) && m@ == old(self)@.outbound[0]
                && final(self)@ == (SessionView {
                outbound: old(self)@.outbound.skip(1),
                ..old(self)@
            })),
    {
        if self.outbound.len() == 0 {
            return None;
        }
        let ghost d0 = self.outbound.deep_view();
        let m = self.outbound.remove(0);
        proof {
            assert(self.outbound.deep_view() =~= d0.skip(1));
        }
        Some(m)
    }

    /// Puts one decoded reply on the inbound queue. A full queue drops
    /// the reply: admission control, visible to the waiter only as its
    /// eventual timeout.
    pub fn push_reply(&mut self, id: Vec<u8>, payload: Vec<u8>) -> (ok: bool)
        requires
            old(self).wf(),
        ensures
            final(self).wf(),
            ok == (old(self)@.inbound.len() < QUEUE_CAPACITY),
            ok ==> final(self)@ == (SessionView {
                inbound: old(self)@.inbound.push((id@, payload@)),
                ..old(self)@
            }),
            !ok ==> final(self)@ == old(self)@,
    {
        if self.inbound.len() >= QUEUE_CAPACITY {
            return false;
        }
        let ghost d0 = self.inbound.deep_view();
        self.inbound.push((id, payload));
        proof {
            assert(self.inbound.deep_view() =~~= d0.push((id@, payload@)));
        }
        true
    }

    /// Records that the agent's control connection has gone; the
    /// registry entry stays, but later requests are refused.
    pub fn mark_disconnected(&mut self)
        requires
            old(self).wf(),
        ensures
            final(self).wf(),
            final(self)@ == (SessionView { connected: false, ..old(self)@ }),
    {
        self.connected = false;
    }

    /// One correlation step for the waiter of `rid`; see [`match_step`].
    pub fn match_response(&mut self, rid: &Vec<u8>) -> (r: Option<Vec<u8>>)
        requires
            old(self).wf(),
        ensures
            final(self).wf(),
            (final(self)@, r.deep_view()) == match_step(old(self)@, rid@),
    {
        if self.inbound.len() == 0 {
            return None;
        }
        let ghost d0 = self.inbound.deep_view();
        let (aid, payload) = self.inbound.remove(0);
        proof {
            assert(self.inbound.deep_view() =~= d0.skip(1));
        }
        if keys_eq(&aid, rid) {
            return Some(payload);
        }
        let ghost c0 = self.unmatched.deep_view();
        match find_key(&self.unmatched, &aid) {
            Some(i) => {
                proof {
                    lemma_assoc_update(c0, i as int, payload@);
                }
                self.unmatched[i] = (aid, payload);
                proof {
                    assert(self.unmatched.deep_view() =~~= c0.update(i as int, (c0[i as int].0, payload@)));
                }
            },
            None => {
                self.unmatched.push((aid, payload));
                proof {
                    assert(self.unmatched.deep_view() =~~= c0.push((aid@, payload@)));
                    assert(self.unmatched.deep_view().drop_last() =~= c0);
                }
            },
        }
        proof {
            assert(assoc_map(self.unmatched.deep_view()) =~= assoc_map(c0).insert(aid@, payload@));
        }
        match find_key(&self.unmatched, rid) {
            Some(i) => {
                proof {
                    lemma_assoc_value(self.unmatched.deep_view(), i as int);
                }
                let mut out: Vec<u8> = Vec::new();
                out.extend_from_slice(self.unmatched[i].1.as_slice());
                proof {
                    assert(out@ =~= self.unmatched.deep_view()[i as int].1);
                }
                Some(out)
            },
            None => {
                proof {
                    crate::kv::lemma_assoc_contains(self.unmatched.deep_view(), rid@);
                }
                None
            },
        }
    }
}

} // verus!
