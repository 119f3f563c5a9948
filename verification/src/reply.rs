//! From an agent's reply payload to the outgoing HTTP response.
//!
//! A reply payload is UTF-8 JSON `{statusCode, headers, body?}`: the
//! status an integer, the headers a non-empty object of strings, the
//! body, when present, base64 text. Status and headers are copied into
//! the response — except the hop-by-hop length header, which the
//! transport recomputes — and the body is the decoded base64 bytes. A
//! malformed reply maps to a concrete status: the framing sentinel and
//! an undecodable body to an internal error, everything else to the
//! bad-upstream-reply status.

use vstd::prelude::*;

use crate::codec::{epackfrag, epackfrag_bytes, is_valid_utf8};
use crate::kv::keys_eq;
use vstd::string::StringSliceAdditionalSpecFns;
use vstd::utf8::valid_utf8;

verus! {

broadcast use crate::kv::lemma_bytes_deep_view;

/// What the gateway hands back to the HTTP transport: a status, the
/// response headers in order, and the body bytes. The transport adds
/// the recomputed length header itself.
pub struct HttpOut {
    /// HTTP status code.
    pub status: u16,
    /// Response headers, in order.
    pub headers: Vec<(Vec<u8>, Vec<u8>)>,
    /// Response body.
    pub body: Vec<u8>,
}

/// Mathematical image of an [`HttpOut`].
#[verifier::ext_equal]
pub struct HttpOutView {
    pub status: u16,
    pub headers: Seq<(Seq<u8>, Seq<u8>)>,
    pub body: Seq<u8>,
}

impl View for HttpOut {
    type V = HttpOutView;

    open spec fn view(&self) -> HttpOutView {
        HttpOutView { status: self.status, headers: self.headers.deep_view(), body: self.body@ }
    }
}

/// Every relay-built response carries this one header.
pub open spec fn html_header() -> (Seq<u8>, Seq<u8>) {
    (("Content-type").spec_bytes(), ("text/html").spec_bytes())
}

/// A relay-built response: a status and a fixed HTML body.
pub open spec fn built_response(status: u16, body: Seq<u8>) -> HttpOutView {
    HttpOutView { status, headers: seq![html_header()], body }
}

/// `200` with the static home body, for the bare `/` path.
pub open spec fn home_response() -> HttpOutView {
    built_response(200, ("<h1>Home</h1>").spec_bytes())
}

/// `404` for an unknown endpoint or a protocol-upgrade request.
pub open spec fn not_found_response() -> HttpOutView {
    built_response(404, ("<h1>404 Not found</h1>").spec_bytes())
}

/// `500` for a refused send, an undecodable frame or body.
pub open spec fn internal_error_response() -> HttpOutView {
    built_response(500, ("<h1>500 Internal server error</h1>").spec_bytes())
}

/// `524` when no reply arrived within the wait ceiling.
pub open spec fn timeout_response() -> HttpOutView {
    built_response(524, ("<h1>524 A timeout error ocurred</h1>").spec_bytes())
}

/// `570` for a reply missing its status code or headers.
pub open spec fn bad_reply_response() -> HttpOutView {
    built_response(570, ("<h1>570 Agent bad response</h1>").spec_bytes())
}

fn built_out(status: u16, body: &str) -> (r: HttpOut)
    ensures
        r@ == built_response(status, body.spec_bytes()),
{
    let mut headers: Vec<(Vec<u8>, Vec<u8>)> = Vec::new();
    headers.push((
        vstd::slice::slice_to_vec(("Content-type").as_bytes()),
        vstd::slice::slice_to_vec(("text/html").as_bytes()),
    ));
    let r = HttpOut { status, headers, body: vstd::slice::slice_to_vec(body.as_bytes()) };
    proof {
        assert(r@.headers =~~= seq![html_header()]);
    }
    r
}

/// Builds the static home response.
pub fn home_out() -> (r: HttpOut)
    ensures
        r@ == home_response(),
{
    built_out(200, "<h1>Home</h1>")
}

/// Builds the not-found response.
pub fn not_found_out() -> (r: HttpOut)
    ensures
        r@ == not_found_response(),
{
    built_out(404, "<h1>404 Not found</h1>")
}

/// Builds the internal-error response.
pub fn internal_error_out() -> (r: HttpOut)
    ensures
        r@ == internal_error_response(),
{
    built_out(500, "<h1>500 Internal server error</h1>")
}

/// Builds the gateway-timeout response.
pub fn timeout_out() -> (r: HttpOut)
    ensures
        r@ == timeout_response(),
{
    built_out(524, "<h1>524 A timeout error ocurred</h1>")
}

/// Builds the bad-upstream-reply response.
pub fn bad_reply_out() -> (r: HttpOut)
    ensures
        r@ == bad_reply_response(),
{
    built_out(570, "<h1>570 Agent bad response</h1>")
}

/// What serde_json reads out of a reply payload: the outer `None` is an
/// unparseable document; inside stand the integer `statusCode`, the
/// `headers` object as ordered pairs with non-string values as `None`,
/// and the `body` string. Stated only as a name: a reply payload on
/// given bytes is checked through [`build_response`]'s callers, not here.
pub uninterp spec fn reply_fields_of(payload: Seq<u8>) -> Option<
    (Option<i64>, Option<Seq<(Seq<u8>, Option<Seq<u8>>)>>, Option<Seq<u8>>),
>;

/// Relies on serde_json: `from_slice` parses a JSON document, and
/// `Value::get`, `as_i64`, `as_object` and `as_str` read the named
/// members; with the default map (a sorted tree), what they return is a
/// function of the payload bytes alone.
#[verifier::external_body]
fn parse_reply_json(payload: &Vec<u8>) -> (r: Option<
    (Option<i64>, Option<Vec<(Vec<u8>, Option<Vec<u8>>)>>, Option<Vec<u8>>),
>)
    ensures
        r.deep_view() == reply_fields_of(payload@),
{
    let v: serde_json::Value = match serde_json::from_slice(payload) {
        Ok(v) => v,
        Err(_) => return None,
    };
    let status = v.get("statusCode").and_then(serde_json::Value::as_i64);
    let headers = v.get("headers").and_then(serde_json::Value::as_object).map(|m| {
        m.iter().map(|(k, x)| (k.clone().into_bytes(), x.as_str().map(|s| s.as_bytes().to_vec()))).collect()
    });
    let body = v.get("body").and_then(serde_json::Value::as_str).map(|s| s.as_bytes().to_vec());
    Some((status, headers, body))
}

/// What base64 decodes a text to, `None` for invalid base64. Stated
/// only as a name; a decode on given bytes is checked through
/// [`build_response`]'s callers.
pub uninterp spec fn b64_decode_of(text: Seq<u8>) -> Option<Seq<u8>>;

/// Relies on base64's `STANDARD` engine: `Engine::decode` with the
/// standard alphabet and padding; the result is a function of the input
/// text alone.
#[verifier::external_body]
fn b64_decode(text: &Vec<u8>) -> (r: Option<Vec<u8>>)
    ensures
        r.deep_view() == b64_decode_of(text@),
{
    base64::Engine::decode(&base64::engine::general_purpose::STANDARD, text.as_slice()).ok()
}

/// The status codes the relay will copy from a reply.
pub open spec fn copyable_status(st: Option<i64>) -> bool {
    st matches Some(v) && 100 <= v <= 999
}

/// The reply headers the response keeps: every one but the hop-by-hop
/// length header, whose value the transport recomputes.
pub open spec fn kept_headers(hs: Seq<(Seq<u8>, Option<Seq<u8>>)>) -> Seq<(Seq<u8>, Seq<u8>)>
    decreases hs.len(),
{
    if hs.len() == 0 {
        Seq::empty()
    } else {
        let kept = kept_headers(hs.drop_last());
        let k = hs.last().0;
        if k == ("Content-Length").spec_bytes() || k == ("content-length").spec_bytes() {
            kept
        } else {
            kept.push((k, hs.last().1->Some_0))
        }
    }
}

/// The response that a reply payload maps to. The framing sentinel and
/// an undecodable or non-text body give an internal error; a reply
/// whose status is missing or not one the relay can copy, whose headers
/// are missing, empty or not all strings, gives the bad-reply status;
/// everything else is the agent's own status, headers and decoded body.
pub open spec fn spec_build_response(payload: Seq<u8>) -> HttpOutView {
    if payload == epackfrag() {
        internal_error_response()
    } else {
        match reply_fields_of(payload) {
            None => bad_reply_response(),
            Some((st, hd, bd)) => {
                if !copyable_status(st) {
                    bad_reply_response()
                } else {
                    match hd {
                        None => bad_reply_response(),
                        Some(hs) => {
                            if hs.len() == 0 || (exists|i: int|
                                0 <= i < hs.len() && (#[trigger] hs[i]).1 is None) {
                                bad_reply_response()
                            } else {
                                match bd {
                                    None => HttpOutView {
                                        status: st->Some_0 as u16,
                                        headers: kept_headers(hs),
                                        body: Seq::empty(),
                                    },
                                    Some(text) => match b64_decode_of(text) {
                                        None => internal_error_response(),
                                        Some(bytes) => {
                                            if valid_utf8(bytes) {
                                                HttpOutView {
                                                    status: st->Some_0 as u16,
                                                    headers: kept_headers(hs),
                                                    body: bytes,
                                                }
                                            } else {
                                                internal_error_response()
                                            }
                                        },
                                    },
                                }
                            }
                        },
                    }
                }
            },
        }
    }
}

/// Builds the outgoing HTTP response from a reply payload.
#[verifier::loop_isolation(false)]
pub fn build_response(payload: &Vec<u8>) -> (r: HttpOut)
    ensures
        r@ == spec_build_response(payload@),
{
    let sentinel = epackfrag_bytes();
    if keys_eq(payload, &sentinel) {
        return internal_error_out();
    }
    let fields = parse_reply_json(payload);
    let (st, hd, bd) = match fields {
        None => {
            return bad_reply_out();
        },
        Some(f) => f,
    };
    let v: i64 = match st {
        None => {
            return bad_reply_out();
        },
        Some(v) => v,
    };
    if v < 100 || v > 999 {
        return bad_reply_out();
    }
    let status: u16 = v as u16;
    let hs: Vec<(Vec<u8>, Option<Vec<u8>>)> = match hd {
        None => {
            return bad_reply_out();
        },
        Some(h) => h,
    };
    if hs.len() == 0 {
        return bad_reply_out();
    }
    let skip_a = vstd::slice::slice_to_vec(("Content-Length").as_bytes());
    let skip_b = vstd::slice::slice_to_vec(("content-length").as_bytes());
    let mut headers: Vec<(Vec<u8>, Vec<u8>)> = Vec::new();
    let mut i: usize = 0;
    while i < hs.len()
        invariant
            0 <= i <= hs@.len(),
            skip_a@ == ("Content-Length").spec_bytes(),
            skip_b@ == ("content-length").spec_bytes(),
            forall|j: int| 0 <= j < i ==> (#[trigger] hs.deep_view()[j]).1 is Some,
            headers.deep_view() == kept_headers(hs.deep_view().take(i as int)),
        decreases hs@.len() - i,
    {
        let value: &Vec<u8> = match &hs[i].1 {
            None => {
                proof {
                    assert(hs.deep_view()[i as int].1 is None);
                }
                return bad_reply_out();
            },
            Some(v) => v,
        };
        proof {
            assert(hs.deep_view().take(i + 1).drop_last() =~= hs.deep_view().take(i as int));
            assert(hs.deep_view().take(i + 1).last() == hs.deep_view()[i as int]);
        }
        if !(keys_eq(&hs[i].0, &skip_a) || keys_eq(&hs[i].0, &skip_b)) {
            let key = crate::text::sub_bytes(&hs[i].0, 0, hs[i].0.len());
            let val = crate::text::sub_bytes(value, 0, value.len());
            let ghost d0 = headers.deep_view();
            proof {
                assert(key@ =~= hs.deep_view()[i as int].0);
                assert(val@ =~= hs.deep_view()[i as int].1->Some_0);
            }
            headers.push((key, val));
            proof {
                assert(headers.deep_view() =~~= d0.push(
                    (hs.deep_view()[i as int].0, hs.deep_view()[i as int].1->Some_0),
                ));
            }
        }
        i = i + 1;
    }
    proof {
        assert(hs.deep_view().take(i as int) =~= hs.deep_view());
        assert(!(exists|j: int| 0 <= j < hs.deep_view().len() && (#[trigger] hs.deep_view()[j]).1
            is None));
    }
    match bd {
        None => {
            let r = HttpOut { status, headers, body: Vec::new() };
            proof {
                assert(r@.body =~= Seq::<u8>::empty());
            }
            r
        },
        Some(text) => {
            match b64_decode(&text) {
                None => internal_error_out(),
                Some(bytes) => {
                    if is_valid_utf8(&bytes) {
                        HttpOut { status, headers, body: bytes }
                    } else {
                        internal_error_out()
                    }
                },
            }
        },
    }
}

} // verus!
