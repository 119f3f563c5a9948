use suiro::reply::{
    bad_reply_out, build_response, home_out, internal_error_out, not_found_out, timeout_out,
};

fn b(s: &str) -> Vec<u8> {
    s.as_bytes().to_vec()
}

fn header(out: &suiro::reply::HttpOut, key: &str) -> Option<Vec<u8>> {
    out.headers
        .iter()
        .find(|(k, _)| k == &b(key))
        .map(|(_, v)| v.clone())
}

#[test]
fn reply_round_trip() {
    // base64("hi") is "aGk=".
    let out = build_response(&b(r#"{"statusCode":200,"headers":{"X-Foo":"bar"},"body":"aGk="}"#));
    assert_eq!(out.status, 200);
    assert_eq!(header(&out, "X-Foo"), Some(b("bar")));
    assert_eq!(out.body, b("hi"));
}

#[test]
fn reply_without_body_is_empty() {
    let out = build_response(&b(r#"{"statusCode":204,"headers":{"X-A":"1"}}"#));
    assert_eq!(out.status, 204);
    assert_eq!(header(&out, "X-A"), Some(b("1")));
    assert_eq!(out.body, b(""));
}

#[test]
fn reply_length_header_is_stripped() {
    let out = build_response(&b(
        r#"{"statusCode":200,"headers":{"Content-Length":"5","X-A":"1","content-length":"5"}}"#,
    ));
    assert_eq!(out.status, 200);
    assert_eq!(header(&out, "X-A"), Some(b("1")));
    assert_eq!(header(&out, "Content-Length"), None);
    assert_eq!(header(&out, "content-length"), None);
}

#[test]
fn reply_missing_status_is_bad_reply() {
    let out = build_response(&b(r#"{"headers":{"X-A":"1"}}"#));
    assert_eq!(out.status, 570);
}

#[test]
fn reply_zero_status_is_bad_reply() {
    let out = build_response(&b(r#"{"statusCode":0,"headers":{"X-A":"1"}}"#));
    assert_eq!(out.status, 570);
}

#[test]
fn reply_uncopyable_status_is_bad_reply() {
    assert_eq!(build_response(&b(r#"{"statusCode":1000,"headers":{"X-A":"1"}}"#)).status, 570);
    assert_eq!(build_response(&b(r#"{"statusCode":99,"headers":{"X-A":"1"}}"#)).status, 570);
    assert_eq!(build_response(&b(r#"{"statusCode":-1,"headers":{"X-A":"1"}}"#)).status, 570);
}

#[test]
fn reply_missing_headers_is_bad_reply() {
    let out = build_response(&b(r#"{"statusCode":200}"#));
    assert_eq!(out.status, 570);
}

#[test]
fn reply_empty_headers_is_bad_reply() {
    let out = build_response(&b(r#"{"statusCode":200,"headers":{}}"#));
    assert_eq!(out.status, 570);
}

#[test]
fn reply_non_string_header_is_bad_reply() {
    let out = build_response(&b(r#"{"statusCode":200,"headers":{"X-A":5}}"#));
    assert_eq!(out.status, 570);
}

#[test]
fn reply_unparseable_json_is_bad_reply() {
    let out = build_response(&b("this is not json"));
    assert_eq!(out.status, 570);
}

#[test]
fn reply_invalid_base64_body_is_internal_error() {
    let out = build_response(&b(r#"{"statusCode":200,"headers":{"X-A":"1"},"body":"!!!"}"#));
    assert_eq!(out.status, 500);
    assert_eq!(out.body, b("<h1>500 Internal server error</h1>"));
}

#[test]
fn reply_non_text_decoded_body_is_internal_error() {
    // base64 of the bytes [0xff, 0xfe], which are not valid text.
    let out = build_response(&b(r#"{"statusCode":200,"headers":{"X-A":"1"},"body":"//4="}"#));
    assert_eq!(out.status, 500);
}

#[test]
fn reply_framing_sentinel_is_internal_error() {
    let out = build_response(&b("EPACKFRAG"));
    assert_eq!(out.status, 500);
    assert_eq!(out.body, b("<h1>500 Internal server error</h1>"));
}

#[test]
fn reply_builtin_responses() {
    let home = home_out();
    assert_eq!(home.status, 200);
    assert_eq!(home.body, b("<h1>Home</h1>"));
    assert_eq!(header(&home, "Content-type"), Some(b("text/html")));

    let nf = not_found_out();
    assert_eq!(nf.status, 404);
    assert_eq!(nf.body, b("<h1>404 Not found</h1>"));

    let ie = internal_error_out();
    assert_eq!(ie.status, 500);

    let to = timeout_out();
    assert_eq!(to.status, 524);
    assert_eq!(to.body, b("<h1>524 A timeout error ocurred</h1>"));

    let br = bad_reply_out();
    assert_eq!(br.status, 570);
    assert_eq!(br.body, b("<h1>570 Agent bad response</h1>"));
}
