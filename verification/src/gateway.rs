//! HTTP gateway decisions: resolving the target endpoint and forwarded
//! path from the request URI and the `Referer` header, and classifying
//! a request into the static home page, an upgrade rejection, an
//! unknown endpoint, or a forward to a registered session.
//!
//! Resolution: without a referer the endpoint is the first path segment
//! and the forwarded path the remainder. With a referer whose first
//! segment differs from the URI's, the referer names the endpoint and
//! the full current path is forwarded (a foreign top-level navigation);
//! with a matching referer the shared first segment is stripped (a
//! same-origin sub-resource fetch).

use vstd::prelude::*;

use crate::codec::{encode_request, render_request};
use crate::ids::{fresh_id, is_wire_id};
use crate::kv::keys_eq;
use crate::registry::Registry;
use crate::text::{
    drop_empty_parts, join_bytes, join_bytes_spec, nonempty_parts, split_bytes, split_bytes_spec,
    sub_bytes,
};

verus! {

broadcast use crate::kv::lemma_bytes_deep_view;

/// The path separator byte, `/`.
pub const SLASH: u8 = 47;

/// The bare root path, answered with the static home page.
pub open spec fn root_path() -> Seq<u8> {
    seq![SLASH]
}

/// Endpoint and forwarded path when no referer is present: the first
/// path segment, and the rest of the path behind a fresh `/`.
pub open spec fn resolve_plain_spec(path: Seq<u8>) -> (Seq<u8>, Seq<u8>) {
    let raw = split_bytes_spec(path, SLASH);
    if raw.len() < 2 {
        (Seq::empty(), seq![SLASH])
    } else {
        (raw[1], seq![SLASH] + join_bytes_spec(raw.skip(2), SLASH))
    }
}

/// Endpoint and forwarded path for a request. A referer is read as
/// `scheme://host/segment...`: its first path segment names the
/// endpoint. One without any path segment resolves like no referer at
/// all. A matching first URI segment is stripped from the forwarded
/// path; a differing one leaves the whole path, with empty segments
/// dropped either way.
pub open spec fn resolve_spec(path: Seq<u8>, referer: Option<Seq<u8>>) -> (Seq<u8>, Seq<u8>) {
    match referer {
        None => resolve_plain_spec(path),
        Some(r) => {
            let rr = split_bytes_spec(r, SLASH);
            if rr.len() < 4 {
                resolve_plain_spec(path)
            } else {
                let ref_ep = rr[3];
                let url = nonempty_parts(split_bytes_spec(path, SLASH));
                if url.len() == 0 || ref_ep != url[0] {
                    (ref_ep, seq![SLASH] + join_bytes_spec(url, SLASH))
                } else {
                    (ref_ep, seq![SLASH] + join_bytes_spec(url.skip(1), SLASH))
                }
            }
        },
    }
}

/// Joins path segments behind a leading `/`.
fn slash_join(parts: &Vec<Vec<u8>>) -> (r: Vec<u8>)
    ensures
        r@ == seq![SLASH] + join_bytes_spec(parts.deep_view(), SLASH),
{
    let mut r: Vec<u8> = Vec::new();
    r.push(SLASH);
    let joined = join_bytes(parts, SLASH);
    r.extend_from_slice(joined.as_slice());
    proof {
        assert(r@ =~= seq![SLASH] + join_bytes_spec(parts.deep_view(), SLASH));
    }
    r
}

/// Resolves endpoint and forwarded path without a referer.
fn resolve_plain(path: &Vec<u8>) -> (r: (Vec<u8>, Vec<u8>))
    ensures
        (r.0@, r.1@) == resolve_plain_spec(path@),
{
    let mut raw = split_bytes(path, SLASH);
    if raw.len() < 2 {
        let mut fwd: Vec<u8> = Vec::new();
        fwd.push(SLASH);
        let empty: Vec<u8> = Vec::new();
        proof {
            assert(fwd@ =~= seq![SLASH]);
            assert(empty@ =~= Seq::<u8>::empty());
        }
        return (empty, fwd);
    }
    let endpoint = sub_bytes(&raw[1], 0, raw[1].len());
    proof {
        assert(endpoint@ =~= raw.deep_view()[1]);
    }
    let ghost d0 = raw.deep_view();
    let tail = raw.split_off(2);
    proof {
        assert(tail.deep_view() =~~= d0.skip(2));
    }
    let fwd = slash_join(&tail);
    (endpoint, fwd)
}

/// Resolves endpoint and forwarded path from the request path and the
/// referer, when one is present.
pub fn resolve_target(path: &Vec<u8>, referer: Option<&Vec<u8>>) -> (r: (Vec<u8>, Vec<u8>))
    ensures
        ({
            let rv = match referer {
                Some(rf) => Some(rf@),
                None => None,
            };
            (r.0@, r.1@) == resolve_spec(path@, rv)
        }),
{
    let rf = match referer {
        None => {
            return resolve_plain(path);
        },
        Some(rf) => rf,
    };
    let rr = split_bytes(rf, SLASH);
    if rr.len() < 4 {
        return resolve_plain(path);
    }
    let ref_ep = sub_bytes(&rr[3], 0, rr[3].len());
    proof {
        assert(ref_ep@ =~= rr.deep_view()[3]);
    }
    let mut url = drop_empty_parts(split_bytes(path, SLASH));
    if url.len() == 0 || !keys_eq(&url[0], &ref_ep) {
        proof {
            if url.len() > 0 {
                assert(url.deep_view()[0] == url@[0]@);
            }
        }
        let fwd = slash_join(&url);
        (ref_ep, fwd)
    } else {
        let ghost d0 = url.deep_view();
        let tail = url.split_off(1);
        proof {
            assert(tail.deep_view() =~~= d0.skip(1));
            assert(url.deep_view()[0] == url@[0]@);
        }
        let fwd = slash_join(&tail);
        (ref_ep, fwd)
    }
}

/// What the gateway decides to do with one inbound HTTP request before
/// any session is touched.
pub enum RoutePlan {
    /// The bare `/` path: answer with the static home page.
    Home,
    /// A protocol-upgrade request: reject outright.
    Reject,
    /// No session is registered under the resolved endpoint.
    NotFound,
    /// Forward `message` to the session at `endpoint` and await the
    /// reply to `request_id`.
    Forward { endpoint: Vec<u8>, request_id: Vec<u8>, message: Vec<u8> },
}

/// Specification-level image of a [`RoutePlan`].
pub enum RoutePlanView {
    Home,
    Reject,
    NotFound,
    Forward { endpoint: Seq<u8>, request_id: Seq<u8>, message: Seq<u8> },
}

impl View for RoutePlan {
    type V = RoutePlanView;

    open spec fn view(&self) -> RoutePlanView {
        match self {
            RoutePlan::Home => RoutePlanView::Home,
            RoutePlan::Reject => RoutePlanView::Reject,
            RoutePlan::NotFound => RoutePlanView::NotFound,
            RoutePlan::Forward { endpoint, request_id, message } => RoutePlanView::Forward {
                endpoint: endpoint@,
                request_id: request_id@,
                message: message@,
            },
        }
    }
}

/// Classifies one inbound HTTP request against the registry and, for a
/// registered endpoint, renders the wire message under a fresh request
/// id. Requests to a registered endpoint are forwarded and all others
/// answered locally: an upgrade is rejected, the bare root serves the
/// home page, and an unregistered endpoint is not found, exactly in
/// that order.
pub fn plan_request(
    registry: &Registry,
    method: &Vec<u8>,
    path: &Vec<u8>,
    version: &Vec<u8>,
    headers: &Vec<(Vec<u8>, Vec<u8>)>,
    body: &Vec<u8>,
    has_upgrade: bool,
    referer: Option<&Vec<u8>>,
) -> (r: RoutePlan)
    ensures
        ({
            let rv = match referer {
                Some(rf) => Some(rf@),
                None => None,
            };
            let (ep, fwd) = resolve_spec(path@, rv);
            &&& (r@ is Reject) == has_upgrade
            &&& (r@ is Home) == (!has_upgrade && path@ == root_path())
            &&& (r@ is NotFound) == (!has_upgrade && path@ != root_path()
                && !registry@.contains_key(ep))
            &&& (r@ is Forward) == (!has_upgrade && path@ != root_path()
                && registry@.contains_key(ep))
            &&& r@ matches RoutePlanView::Forward { endpoint, request_id, message } ==> {
                &&& endpoint == ep
                &&& is_wire_id(request_id)
                &&& message == render_request(
                    request_id,
                    method@,
                    fwd,
                    version@,
                    headers.deep_view(),
                    body@,
                )
            }
        }),
{
    if has_upgrade {
        return RoutePlan::Reject;
    }
    if path.len() == 1 && path[0] == SLASH {
        proof {
            assert(path@ =~= root_path());
        }
        return RoutePlan::Home;
    }
    proof {
        assert(path@ != root_path()) by {
            if path@ == root_path() {
                assert(path@.len() == 1 && path@[0] == SLASH);
            }
        }
    }
    let (endpoint, fwd) = resolve_target(path, referer);
    if !registry.contains_endpoint(&endpoint) {
        return RoutePlan::NotFound;
    }
    let request_id = fresh_id();
    let message = encode_request(&request_id, method, &fwd, version, headers, body);
    RoutePlan::Forward { endpoint, request_id, message }
}

} // verus!
