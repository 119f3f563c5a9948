use suiro::gateway::{plan_request, resolve_target, RoutePlan};
use suiro::registry::Registry;
use suiro::session::Session;
use suiro::Port;

fn b(s: &str) -> Vec<u8> {
    s.as_bytes().to_vec()
}

#[test]
fn gateway_resolve_without_referer() {
    let (ep, fwd) = resolve_target(&b("/abc/paco"), None);
    assert_eq!(ep, b("abc"));
    assert_eq!(fwd, b("/paco"));
}

#[test]
fn gateway_resolve_without_referer_deep_path() {
    let (ep, fwd) = resolve_target(&b("/abc/x/y/z"), None);
    assert_eq!(ep, b("abc"));
    assert_eq!(fwd, b("/x/y/z"));
}

#[test]
fn gateway_resolve_root_without_referer() {
    let (ep, fwd) = resolve_target(&b("/"), None);
    assert_eq!(ep, b(""));
    assert_eq!(fwd, b("/"));
}

#[test]
fn gateway_resolve_foreign_referer_keeps_path() {
    let referer = b("https://localhost:8080/abc");
    let (ep, fwd) = resolve_target(&b("/x/y"), Some(&referer));
    assert_eq!(ep, b("abc"));
    assert_eq!(fwd, b("/x/y"));
}

#[test]
fn gateway_resolve_matching_referer_strips_endpoint() {
    let referer = b("http://host/abc/page");
    let (ep, fwd) = resolve_target(&b("/abc/sub/file"), Some(&referer));
    assert_eq!(ep, b("abc"));
    assert_eq!(fwd, b("/sub/file"));
}

#[test]
fn gateway_resolve_short_referer_falls_back() {
    let referer = b("opaque");
    let (ep, fwd) = resolve_target(&b("/abc/x"), Some(&referer));
    assert_eq!(ep, b("abc"));
    assert_eq!(fwd, b("/x"));
}

#[test]
fn gateway_home_bypasses_sessions() {
    let empty = Registry::new();
    let plan = plan_request(
        &empty,
        &b("GET"),
        &b("/"),
        &b("HTTP/1.1"),
        &vec![],
        &b(""),
        false,
        None,
    );
    assert!(matches!(plan, RoutePlan::Home));

    let mut with_session = Registry::new();
    with_session.register(b("abc"), Session::new());
    let plan2 = plan_request(
        &with_session,
        &b("GET"),
        &b("/"),
        &b("HTTP/1.1"),
        &vec![],
        &b(""),
        false,
        None,
    );
    assert!(matches!(plan2, RoutePlan::Home));
}

#[test]
fn gateway_upgrade_is_rejected() {
    let mut r = Registry::new();
    r.register(b("abc"), Session::new());
    let plan = plan_request(
        &r,
        &b("GET"),
        &b("/abc/ws"),
        &b("HTTP/1.1"),
        &vec![(b("upgrade"), b("websocket"))],
        &b(""),
        true,
        None,
    );
    assert!(matches!(plan, RoutePlan::Reject));
}

#[test]
fn gateway_unknown_endpoint_is_not_found() {
    let r = Registry::new();
    let plan = plan_request(
        &r,
        &b("PUT"),
        &b("/unknown-endpoint/api/data"),
        &b("HTTP/1.1"),
        &vec![],
        &b(""),
        false,
        None,
    );
    assert!(matches!(plan, RoutePlan::NotFound));
}

#[test]
fn gateway_registered_endpoint_is_forwarded() {
    let mut r = Registry::new();
    let (endpoint, _) = r.open_session();
    let mut path = b("/");
    path.extend_from_slice(&endpoint);
    path.extend_from_slice(b("/api/data").as_slice());

    let plan = plan_request(
        &r,
        &b("GET"),
        &path,
        &b("HTTP/1.1"),
        &vec![(b("host"), b("example"))],
        &b(""),
        false,
        None,
    );
    match plan {
        RoutePlan::Forward { endpoint: ep, request_id, message } => {
            assert_eq!(ep, endpoint);
            assert_eq!(request_id.len(), 22);
            let mut expected = request_id.clone();
            expected.extend_from_slice(b("\nGET /api/data HTTP/1.1\nHost: example\n<<<EOF>>>").as_slice());
            assert_eq!(message, expected);
        }
        _ => panic!("a registered endpoint must be forwarded"),
    }
}

#[test]
fn gateway_forward_iff_registered() {
    let mut registered = Registry::new();
    registered.register(b("live"), Session::new());
    let unregistered = Registry::new();

    let plan_hit = plan_request(
        &registered,
        &b("GET"),
        &b("/live/x"),
        &b("HTTP/1.1"),
        &vec![],
        &b(""),
        false,
        None,
    );
    assert!(matches!(plan_hit, RoutePlan::Forward { .. }));

    let plan_miss = plan_request(
        &unregistered,
        &b("GET"),
        &b("/live/x"),
        &b("HTTP/1.1"),
        &vec![],
        &b(""),
        false,
        None,
    );
    assert!(matches!(plan_miss, RoutePlan::NotFound));
}

#[test]
fn gateway_fresh_ids_differ_between_requests() {
    let mut r = Registry::new();
    r.register(b("ep"), Session::new());
    let mk = |r: &Registry| {
        plan_request(r, &b("GET"), &b("/ep/x"), &b("HTTP/1.1"), &vec![], &b(""), false, None)
    };
    let (id1, id2) = match (mk(&r), mk(&r)) {
        (
            RoutePlan::Forward { request_id: a, .. },
            RoutePlan::Forward { request_id: b, .. },
        ) => (a, b),
        _ => panic!("both requests must be forwarded"),
    };
    assert_ne!(id1, id2);
}

#[test]
fn port_keeps_its_number() {
    assert_eq!(Port::new(8080).num, 8080);
    assert_eq!(Port::new(3040).num, 3040);
}
