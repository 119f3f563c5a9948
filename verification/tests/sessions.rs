use suiro::correlate::{await_step, AwaitOutcome, MAX_WAIT_MS};
use suiro::registry::{Registry, SendOutcome};
use suiro::session::{Session, QUEUE_CAPACITY};

fn b(s: &str) -> Vec<u8> {
    s.as_bytes().to_vec()
}

#[test]
fn session_outbound_queue_is_fifo() {
    let mut s = Session::new();
    assert!(s.enqueue_request(b("one")));
    assert!(s.enqueue_request(b("two")));
    assert_eq!(s.pop_request(), Some(b("one")));
    assert_eq!(s.pop_request(), Some(b("two")));
    assert_eq!(s.pop_request(), None);
}

#[test]
fn session_outbound_queue_refuses_when_full() {
    let mut s = Session::new();
    for i in 0..QUEUE_CAPACITY {
        assert!(s.enqueue_request(b(&format!("m{}", i))));
    }
    assert!(!s.enqueue_request(b("overflow")));
    assert_eq!(s.pop_request(), Some(b("m0")));
    assert!(s.enqueue_request(b("fits again")));
}

#[test]
fn session_disconnected_refuses_requests() {
    let mut s = Session::new();
    s.mark_disconnected();
    assert!(!s.enqueue_request(b("late")));
}

#[test]
fn session_inbound_queue_drops_when_full() {
    let mut s = Session::new();
    for i in 0..QUEUE_CAPACITY {
        assert!(s.push_reply(b(&format!("id{}", i)), b("p")));
    }
    assert!(!s.push_reply(b("id-x"), b("p")));
}

#[test]
fn correlate_out_of_order_direct() {
    // Replies arrive out of order; each waiter polls while its own
    // reply heads the queue, and each receives its own payload.
    let mut s = Session::new();
    assert!(s.push_reply(b("id-2"), b("reply two")));
    assert!(s.push_reply(b("id-1"), b("reply one")));
    assert_eq!(s.match_response(&b("id-2")), Some(b("reply two")));
    assert_eq!(s.match_response(&b("id-1")), Some(b("reply one")));
}

#[test]
fn correlate_out_of_order_through_cache() {
    // The waiter of id-1 drains the reply to id-2 and publishes it;
    // the waiter of id-2 then finds it in the cache.
    let mut s = Session::new();
    assert!(s.push_reply(b("id-2"), b("reply two")));
    assert!(s.push_reply(b("id-1"), b("reply one")));
    assert_eq!(s.match_response(&b("id-1")), None);
    assert_eq!(s.match_response(&b("id-2")), Some(b("reply two")));
}

#[test]
fn correlate_empty_queue_skips_cache() {
    // A step that drains nothing consults no cache: the reply to id-1,
    // once published by the mismatch above, is found only by a step
    // that drained some message.
    let mut s = Session::new();
    assert!(s.push_reply(b("id-2"), b("reply two")));
    assert_eq!(s.match_response(&b("id-1")), None);
    assert_eq!(s.match_response(&b("id-1")), None);
    assert!(s.push_reply(b("id-3"), b("reply three")));
    // id-2 sits in the cache; draining id-3's reply uncovers it.
    assert_eq!(s.match_response(&b("id-2")), Some(b("reply two")));
}

#[test]
fn correlate_late_reply_is_never_misattributed() {
    // A reply for an old id must not answer a newer request.
    let mut s = Session::new();
    assert!(s.push_reply(b("id-old"), b("stale")));
    assert_eq!(s.match_response(&b("id-new")), None);
    assert_eq!(s.match_response(&b("id-new")), None);
}

#[test]
fn correlate_timeout_at_ceiling() {
    let mut s = Session::new();
    assert!(s.push_reply(b("id-1"), b("late reply")));
    match await_step(&mut s, &b("id-1"), MAX_WAIT_MS, MAX_WAIT_MS) {
        AwaitOutcome::TimedOut => {}
        _ => panic!("the ceiling must yield a timeout"),
    }
}

#[test]
fn correlate_reply_before_ceiling() {
    let mut s = Session::new();
    assert!(s.push_reply(b("id-1"), b("in time")));
    match await_step(&mut s, &b("id-1"), MAX_WAIT_MS - 100, MAX_WAIT_MS) {
        AwaitOutcome::Reply(p) => assert_eq!(p, b("in time")),
        _ => panic!("a queued reply before the ceiling must be delivered"),
    }
}

#[test]
fn correlate_pending_before_ceiling() {
    let mut s = Session::new();
    match await_step(&mut s, &b("id-1"), 0, MAX_WAIT_MS) {
        AwaitOutcome::Pending => {}
        _ => panic!("an empty queue before the ceiling means pending"),
    }
}

#[test]
fn registry_register_and_lookup() {
    let mut r = Registry::new();
    assert!(!r.contains_endpoint(&b("abc")));
    r.register(b("abc"), Session::new());
    assert!(r.contains_endpoint(&b("abc")));
    assert!(!r.contains_endpoint(&b("abd")));
}

#[test]
fn registry_open_session_registers_fresh_endpoint() {
    let mut r = Registry::new();
    let (endpoint, handshake) = r.open_session();
    assert_eq!(endpoint.len(), 22);
    assert!(r.contains_endpoint(&endpoint));
    let mut expected = b("connection\n");
    expected.extend_from_slice(&endpoint);
    assert_eq!(handshake, expected);

    let (endpoint2, _) = r.open_session();
    assert_ne!(endpoint, endpoint2);
}

#[test]
fn registry_enqueue_unknown_endpoint() {
    let mut r = Registry::new();
    assert_eq!(r.enqueue_request(&b("ghost"), b("msg")), SendOutcome::NoSession);
}

#[test]
fn registry_enqueue_and_pop() {
    let mut r = Registry::new();
    r.register(b("ep"), Session::new());
    assert_eq!(r.enqueue_request(&b("ep"), b("msg")), SendOutcome::Sent);
    assert_eq!(r.pop_request(&b("ep")), Some(b("msg")));
    assert_eq!(r.pop_request(&b("ep")), None);
    assert_eq!(r.pop_request(&b("ghost")), None);
}

#[test]
fn registry_disconnected_session_refuses() {
    let mut r = Registry::new();
    r.register(b("ep"), Session::new());
    r.mark_disconnected(&b("ep"));
    assert!(r.contains_endpoint(&b("ep")));
    assert_eq!(r.enqueue_request(&b("ep"), b("msg")), SendOutcome::Refused);
}

#[test]
fn registry_await_step_by_endpoint() {
    let mut r = Registry::new();
    r.register(b("ep"), Session::new());
    assert!(r.push_reply(&b("ep"), b("rid"), b("payload")));
    match r.await_reply_step(&b("ep"), &b("rid"), 0, MAX_WAIT_MS) {
        Some(AwaitOutcome::Reply(p)) => assert_eq!(p, b("payload")),
        _ => panic!("the queued reply must be delivered"),
    }
    assert!(r.await_reply_step(&b("ghost"), &b("rid"), 0, MAX_WAIT_MS).is_none());
}
