//! The session registry: the relay's one endpoint-to-session table.
//! Entries are added when an agent connects and persist for the process
//! lifetime; a disconnected agent's entry stays, marked disconnected.
//! The registry also fronts the per-session operations, so that the
//! connection loops and the gateway tasks reach a session by its
//! endpoint alone.

use vstd::pervasive::VecAdditionalExecFns;
use vstd::prelude::*;

use crate::codec::{encode_handshake, handshake_of};
use crate::correlate::{await_step, await_step_spec, AwaitOutcome};
use crate::ids::{fresh_id, is_wire_id};
use crate::kv::{assoc_map, find_key, lemma_assoc_contains, lemma_assoc_update, lemma_assoc_value,
    unique_keys};
use crate::session::{empty_session, Session, SessionView, QUEUE_CAPACITY};

verus! {

/// Whether an encoded request could be handed to a session's queue.
#[derive(Clone, Copy, Debug, PartialEq, Eq, Structural)]
pub enum SendOutcome {
    /// Queued for the connection's writer.
    Sent,
    /// The queue is full or the agent has disconnected; the gateway
    /// answers with an internal error.
    Refused,
    /// No session is registered under the endpoint.
    NoSession,
}

/// The key/value pairs a registry holds, seen mathematically.
pub open spec fn entries_view(entries: Seq<(Vec<u8>, Session)>) -> Seq<(Seq<u8>, SessionView)> {
    Seq::new(entries.len(), |i: int| (entries[i].0@, entries[i].1@))
}

/// Endpoint-to-session table, one per relay process.
pub struct Registry {
    entries: Vec<(Vec<u8>, Session)>,
}

impl View for Registry {
    type V = Map<Seq<u8>, SessionView>;

    closed spec fn view(&self) -> Map<Seq<u8>, SessionView> {
        assoc_map(entries_view(self.entries@))
    }
}

/// Replacing one session, key kept, is an insert on the map view.
proof fn lemma_replace_at(v: Seq<(Seq<u8>, SessionView)>, i: int, sv: SessionView)
    requires
        unique_keys(v),
        0 <= i < v.len(),
    ensures
        unique_keys(v.update(i, (v[i].0, sv))),
        assoc_map(v.update(i, (v[i].0, sv))) == assoc_map(v).insert(v[i].0, sv),
        assoc_map(v).contains_key(v[i].0),
        assoc_map(v)[v[i].0] == v[i].1,
{
    lemma_assoc_update(v, i, sv);
    lemma_assoc_value(v, i);
    let w = v.update(i, (v[i].0, sv));
    assert forall|a: int, b: int| 0 <= a < b < w.len() implies (#[trigger] w[a]).0 != (
    #[trigger] w[b]).0 by {
        assert(v[a].0 != v[b].0);
        assert(w[a].0 == v[a].0 && w[b].0 == v[b].0);
    }
}

impl Registry {
    /// Holds between calls: endpoints distinct, every session well formed.
    pub closed spec fn wf(self) -> bool {
        &&& unique_keys(entries_view(self.entries@))
        &&& forall|i: int|
            0 <= i < self.entries@.len() ==> (#[trigger] self.entries@[i]).1.wf()
    }

    /// An empty registry.
    pub fn new() -> (r: Registry)
        ensures
            r@ == Map::<Seq<u8>, SessionView>::empty(),
            r.wf(),
    {
        let r = Registry { entries: Vec::new() };
        proof {
            assert(entries_view(r.entries@) =~= Seq::<(Seq<u8>, SessionView)>::empty());
        }
        r
    }

    /// Whether a session is registered under `endpoint`.
    pub fn contains_endpoint(&self, endpoint: &Vec<u8>) -> (r: bool)
        ensures
            r == self@.contains_key(endpoint@),
    {
        proof {
            lemma_assoc_contains(entries_view(self.entries@), endpoint@);
        }
        match find_key(&self.entries, endpoint) {
            Some(i) => {
                proof {
                    assert(entries_view(self.entries@)[i as int].0 == endpoint@);
                }
                true
            },
            None => {
                proof {
                    assert forall|j: int| 0 <= j < entries_view(self.entries@).len()
                        implies (#[trigger] entries_view(self.entries@)[j]).0 != endpoint@ by {
                        assert(self.entries@[j].0@ != endpoint@);
                    }
                }
                false
            },
        }
    }

    /// Registers `session` under `endpoint`. A repeated endpoint — the
    /// generator never repeats one — would replace the older entry, as
    /// a map insert does.
    pub fn register(&mut self, endpoint: Vec<u8>, session: Session)
        requires
            old(self).wf(),
            session.wf(),
        ensures
            final(self).wf(),
            final(self)@ == old(self)@.insert(endpoint@, session@),
    {
        let ghost v0 = entries_view(self.entries@);
        match find_key(&self.entries, &endpoint) {
            Some(i) => {
                proof {
                    lemma_replace_at(v0, i as int, session@);
                }
                self.entries.set(i, (endpoint, session));
                proof {
                    assert(entries_view(self.entries@) =~= v0.update(
                        i as int,
                        (v0[i as int].0, session@),
                    ));
                }
            },
            None => {
                self.entries.push((endpoint, session));
                proof {
                    let v1 = entries_view(self.entries@);
                    assert(v1.drop_last() =~= v0);
                    assert(v1.last() == (endpoint@, session@));
                    assert forall|a: int, b: int| 0 <= a < b < v1.len() implies (
                    #[trigger] v1[a]).0 != (#[trigger] v1[b]).0 by {
                        if b < v1.len() - 1 {
                            assert(v0[a].0 != v0[b].0);
                        } else {
                            assert(self.entries@[a].0@ != endpoint@);
                        }
                    }
                }
            },
        }
    }

    /// Opens a session for a newly connected agent: generates the
    /// endpoint, registers a fresh session under it, and returns the
    /// endpoint with the handshake to write to the agent.
    pub fn open_session(&mut self) -> (r: (Vec<u8>, Vec<u8>))
        requires
            old(self).wf(),
        ensures
            final(self).wf(),
            is_wire_id(r.0@),
            r.1@ == handshake_of(r.0@),
            final(self)@ == old(self)@.insert(r.0@, empty_session()),
    {
        let endpoint = fresh_id();
        let handshake = encode_handshake(&endpoint);
        let copy = crate::text::sub_bytes(&endpoint, 0, endpoint.len());
        proof {
            assert(copy@ =~= endpoint@);
        }
        let session = Session::new();
        self.register(copy, session);
        (endpoint, handshake)
    }

    /// Queues one encoded request for the agent behind `endpoint`.
    pub fn enqueue_request(&mut self, endpoint: &Vec<u8>, request: Vec<u8>) -> (r: SendOutcome)
        requires
            old(self).wf(),
        ensures
            final(self).wf(),
            (r == SendOutcome::NoSession) == !old(self)@.contains_key(endpoint@),
            !old(self)@.contains_key(endpoint@) ==> final(self)@ == old(self)@,
            old(self)@.contains_key(endpoint@) ==> ({
                let s = old(self)@[endpoint@];
                let ok = s.connected && s.outbound.len() < QUEUE_CAPACITY;
                &&& (r == SendOutcome::Sent) == ok
                &&& ok ==> final(self)@ == old(self)@.insert(
                    endpoint@,
                    (SessionView { outbound: s.outbound.push(request@), ..s }),
                )
                &&& !ok ==> final(self)@ == old(self)@
            }),
    {
        let ghost v0 = entries_view(self.entries@);
        proof {
            lemma_assoc_contains(v0, endpoint@);
        }
        match find_key(&self.entries, endpoint) {
            None => {
                proof {
                    assert forall|j: int| 0 <= j < v0.len() implies (#[trigger] v0[j]).0
                        != endpoint@ by {
                        assert(self.entries@[j].0@ != endpoint@);
                    }
                }
                SendOutcome::NoSession
            },
            Some(i) => {
                proof {
                    assert(v0[i as int].0 == endpoint@);
                    lemma_replace_at(v0, i as int, v0[i as int].1);
                }
                let mut pair: (Vec<u8>, Session) = (Vec::new(), Session::new());
                self.entries.set_and_swap(i, &mut pair);
                let (key, mut sess) = pair;
                let ok = sess.enqueue_request(request);
                let ghost sv = sess@;
                let mut back: (Vec<u8>, Session) = (key, sess);
                self.entries.set_and_swap(i, &mut back);
                proof {
                    lemma_replace_at(v0, i as int, sv);
                    assert(entries_view(self.entries@) =~= v0.update(
                        i as int,
                        (v0[i as int].0, sv),
                    ));
                    if !ok {
                        assert(v0.update(i as int, (v0[i as int].0, sv)) =~= v0);
                        assert(old(self)@.insert(endpoint@, sv) =~= old(self)@);
                    }
                }
                if ok {
                    SendOutcome::Sent
                } else {
                    SendOutcome::Refused
                }
            },
        }
    }

    /// Hands the connection's writer the oldest queued request for
    /// `endpoint`, if the session exists and has one.
    pub fn pop_request(&mut self, endpoint: &Vec<u8>) -> (r: Option<Vec<u8>>)
        requires
            old(self).wf(),
        ensures
            final(self).wf(),
            !old(self)@.contains_key(endpoint@) ==> r is None && final(self)@ == old(self)@,
            old(self)@.contains_key(endpoint@) ==> ({
                let s = old(self)@[endpoint@];
                &&& s.outbound.len() == 0 ==> r is None && final(self)@ == old(self)@
                &&& s.outbound.len() > 0 ==> (r matches Some(m) && m@ == s.outbound[0]
                    && final(self)@ == old(self)@.insert(
                    endpoint@,
                    (SessionView { outbound: s.outbound.skip(1), ..s }),
                ))
            }),
    {
        let ghost v0 = entries_view(self.entries@);
        proof {
            lemma_assoc_contains(v0, endpoint@);
        }
        match find_key(&self.entries, endpoint) {
            None => {
                proof {
                    assert forall|j: int| 0 <= j < v0.len() implies (#[trigger] v0[j]).0
                        != endpoint@ by {
                        assert(self.entries@[j].0@ != endpoint@);
                    }
                }
                None
            },
            Some(i) => {
                proof {
                    assert(v0[i as int].0 == endpoint@);
                    lemma_replace_at(v0, i as int, v0[i as int].1);
                }
                let mut pair: (Vec<u8>, Session) = (Vec::new(), Session::new());
                self.entries.set_and_swap(i, &mut pair);
                let (key, mut sess) = pair;
                let r = sess.pop_request();
                let ghost sv = sess@;
                let mut back: (Vec<u8>, Session) = (key, sess);
                self.entries.set_and_swap(i, &mut back);
                proof {
                    lemma_replace_at(v0, i as int, sv);
                    assert(entries_view(self.entries@) =~= v0.update(
                        i as int,
                        (v0[i as int].0, sv),
                    ));
                    if old(self)@[endpoint@].outbound.len() == 0 {
                        assert(v0.update(i as int, (v0[i as int].0, sv)) =~= v0);
                        assert(old(self)@.insert(endpoint@, sv) =~= old(self)@);
                    }
                }
                r
            },
        }
    }

    /// Puts one decoded reply on the inbound queue of `endpoint`'s
    /// session; a missing session or a full queue drops it.
    pub fn push_reply(&mut self, endpoint: &Vec<u8>, id: Vec<u8>, payload: Vec<u8>) -> (ok: bool)
        requires
            old(self).wf(),
        ensures
            final(self).wf(),
            !old(self)@.contains_key(endpoint@) ==> !ok && final(self)@ == old(self)@,
            old(self)@.contains_key(endpoint@) ==> ({
                let s = old(self)@[endpoint@];
                &&& ok == (s.inbound.len() < QUEUE_CAPACITY)
                &&& ok ==> final(self)@ == old(self)@.insert(
                    endpoint@,
                    (SessionView { inbound: s.inbound.push((id@, payload@)), ..s }),
                )
                &&& !ok ==> final(self)@ == old(self)@
            }),
    {
        let ghost v0 = entries_view(self.entries@);
        proof {
            lemma_assoc_contains(v0, endpoint@);
        }
        match find_key(&self.entries, endpoint) {
            None => {
                proof {
                    assert forall|j: int| 0 <= j < v0.len() implies (#[trigger] v0[j]).0
                        != endpoint@ by {
                        assert(self.entries@[j].0@ != endpoint@);
                    }
                }
                false
            },
            Some(i) => {
                proof {
                    assert(v0[i as int].0 == endpoint@);
                    lemma_replace_at(v0, i as int, v0[i as int].1);
                }
                let mut pair: (Vec<u8>, Session) = (Vec::new(), Session::new());
                self.entries.set_and_swap(i, &mut pair);
                let (key, mut sess) = pair;
                let ok = sess.push_reply(id, payload);
                let ghost sv = sess@;
                let mut back: (Vec<u8>, Session) = (key, sess);
                self.entries.set_and_swap(i, &mut back);
                proof {
                    lemma_replace_at(v0, i as int, sv);
                    assert(entries_view(self.entries@) =~= v0.update(
                        i as int,
                        (v0[i as int].0, sv),
                    ));
                    if !ok {
                        assert(v0.update(i as int, (v0[i as int].0, sv)) =~= v0);
                        assert(old(self)@.insert(endpoint@, sv) =~= old(self)@);
                    }
                }
                ok
            },
        }
    }

    /// Records that the agent behind `endpoint` has disconnected; its
    /// registry entry stays.
    pub fn mark_disconnected(&mut self, endpoint: &Vec<u8>)
        requires
            old(self).wf(),
        ensures
            final(self).wf(),
            !old(self)@.contains_key(endpoint@) ==> final(self)@ == old(self)@,
            old(self)@.contains_key(endpoint@) ==> final(self)@ == old(self)@.insert(
                endpoint@,
                (SessionView { connected: false, ..old(self)@[endpoint@] }),
            ),
    {
        let ghost v0 = entries_view(self.entries@);
        proof {
            lemma_assoc_contains(v0, endpoint@);
        }
        match find_key(&self.entries, endpoint) {
            None => {
                proof {
                    assert forall|j: int| 0 <= j < v0.len() implies (#[trigger] v0[j]).0
                        != endpoint@ by {
                        assert(self.entries@[j].0@ != endpoint@);
                    }
                }
            },
            Some(i) => {
                proof {
                    assert(v0[i as int].0 == endpoint@);
                    lemma_replace_at(v0, i as int, v0[i as int].1);
                }
                let mut pair: (Vec<u8>, Session) = (Vec::new(), Session::new());
                self.entries.set_and_swap(i, &mut pair);
                let (key, mut sess) = pair;
                sess.mark_disconnected();
                let ghost sv = sess@;
                let mut back: (Vec<u8>, Session) = (key, sess);
                self.entries.set_and_swap(i, &mut back);
                proof {
                    lemma_replace_at(v0, i as int, sv);
                    assert(entries_view(self.entries@) =~= v0.update(
                        i as int,
                        (v0[i as int].0, sv),
                    ));
                }
            },
        }
    }

    /// One poll of the waiter for `rid` on `endpoint`'s session; `None`
    /// when no session is registered there.
    pub fn await_reply_step(
        &mut self,
        endpoint: &Vec<u8>,
        rid: &Vec<u8>,
        elapsed_ms: u64,
        max_wait_ms: u64,
    ) -> (r: Option<AwaitOutcome>)
        requires
            old(self).wf(),
        ensures
            final(self).wf(),
            (r is None) == !old(self)@.contains_key(endpoint@),
            r is None ==> final(self)@ == old(self)@,
            r matches Some(o) ==> ({
                let (s2, ov) = await_step_spec(
                    old(self)@[endpoint@],
                    rid@,
                    elapsed_ms,
                    max_wait_ms,
                );
                o@ == ov && final(self)@ == old(self)@.insert(endpoint@, s2)
            }),
    {
        let ghost v0 = entries_view(self.entries@);
        proof {
            lemma_assoc_contains(v0, endpoint@);
        }
        match find_key(&self.entries, endpoint) {
            None => {
                proof {
                    assert forall|j: int| 0 <= j < v0.len() implies (#[trigger] v0[j]).0
                        != endpoint@ by {
                        assert(self.entries@[j].0@ != endpoint@);
                    }
                }
                None
            },
            Some(i) => {
                proof {
                    assert(v0[i as int].0 == endpoint@);
                    lemma_replace_at(v0, i as int, v0[i as int].1);
                }
                let mut pair: (Vec<u8>, Session) = (Vec::new(), Session::new());
                self.entries.set_and_swap(i, &mut pair);
                let (key, mut sess) = pair;
                let o = await_step(&mut sess, rid, elapsed_ms, max_wait_ms);
                let ghost sv = sess@;
                let mut back: (Vec<u8>, Session) = (key, sess);
                self.entries.set_and_swap(i, &mut back);
                proof {
                    lemma_replace_at(v0, i as int, sv);
                    assert(entries_view(self.entries@) =~= v0.update(
                        i as int,
                        (v0[i as int].0, sv),
                    ));
                }
                Some(o)
            },
        }
    }
}

} // verus!
