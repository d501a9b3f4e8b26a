use secret_message::http::create_reply;
use secret_message::http::failure_response;
use secret_message::http::lookup_reply;
use secret_message::http::Response;
use secret_message::http::ServiceError;
use secret_message::http::{created_response, fetched_response};
use secret_message::id::MessageId;
use secret_message::json::parse_record_json;
use secret_message::json::render_record_json;
use secret_message::store::SecretMessage;
use secret_message::store::Store;

fn rec(value: u128, text: &str) -> SecretMessage {
    SecretMessage { id: MessageId { value }, message: text.as_bytes().to_vec() }
}

fn body_fields(r: &Response) -> (String, String) {
    let v: serde_json::Value = serde_json::from_slice(&r.body).unwrap();
    (
        v.get("id").unwrap().as_str().unwrap().to_string(),
        v.get("message").unwrap().as_str().unwrap().to_string(),
    )
}

#[test]
fn rendered_body_is_exact() {
    let body = render_record_json(&rec(0xff, "hello"));
    assert_eq!(
        String::from_utf8(body).unwrap(),
        "{\"id\":\"00000000-0000-0000-0000-0000000000ff\",\"message\":\"hello\"}"
    );
}

#[test]
fn created_response_is_201_json() {
    let r = created_response(&rec(0xff, "hello"));
    assert_eq!(r.status, 201);
    assert_eq!(r.content_type, b"application/json".to_vec());
    let (id, message) = body_fields(&r);
    assert_eq!(id, "00000000-0000-0000-0000-0000000000ff");
    assert_eq!(message, "hello");
}

#[test]
fn fetched_response_is_200_json() {
    let r = fetched_response(&rec(1, "kept"));
    assert_eq!(r.status, 200);
    assert_eq!(r.content_type, b"application/json".to_vec());
    let (_, message) = body_fields(&r);
    assert_eq!(message, "kept");
}

#[test]
fn escaped_payload_deserializes_unchanged() {
    let tricky = "a \"quoted\" back\\slash\nnew line\ttab";
    let r = created_response(&rec(2, tricky));
    let (_, message) = body_fields(&r);
    assert_eq!(message, tricky);
}

#[test]
fn unicode_payload_deserializes_unchanged() {
    let tricky = "héllo wörld — ≠";
    let r = created_response(&rec(3, tricky));
    let (_, message) = body_fields(&r);
    assert_eq!(message, tricky);
}

#[test]
fn failure_responses_carry_status_and_json_error() {
    let cases = [
        (ServiceError::MalformedId, 400, "malformed id"),
        (ServiceError::NotFound, 404, "not found"),
        (ServiceError::StorageUnavailable, 503, "storage unavailable"),
    ];
    for (e, status, text) in cases {
        let r = failure_response(e);
        assert_eq!(r.status, status);
        assert_eq!(String::from_utf8(r.content_type).unwrap(), "application/json");
        let v: serde_json::Value = serde_json::from_slice(&r.body).unwrap();
        assert_eq!(v.get("error").unwrap().as_str().unwrap(), text);
    }
}

#[test]
fn create_reply_takes_the_returned_row() {
    let r = create_reply(vec![rec(5, "made")]);
    assert_eq!(r.status, 201);
    let (id, message) = body_fields(&r);
    assert_eq!(id, "00000000-0000-0000-0000-000000000005");
    assert_eq!(message, "made");
}

#[test]
fn create_reply_without_row_is_storage_failure() {
    let r = create_reply(Vec::new());
    assert_eq!(r.status, 503);
    let v: serde_json::Value = serde_json::from_slice(&r.body).unwrap();
    assert_eq!(v.get("error").unwrap().as_str().unwrap(), "storage unavailable");
}

#[test]
fn lookup_reply_without_row_is_not_found() {
    let r = lookup_reply(Vec::new());
    assert_eq!(r.status, 404);
    let v: serde_json::Value = serde_json::from_slice(&r.body).unwrap();
    assert_eq!(v.get("error").unwrap().as_str().unwrap(), "not found");
}

#[test]
fn create_then_lookup_serves_identical_bodies() {
    // the example exchange: a create answered 201, then a lookup of the
    // returned identifier answered 200 with the identical body
    let mut store = Store::new();
    let id = MessageId { value: 0x42 };
    let created = store.insert(id, b"hello".to_vec()).unwrap();
    let post = create_reply(vec![created]);
    assert_eq!(post.status, 201);
    let found = store.lookup(id).unwrap();
    let get = lookup_reply(vec![found]);
    assert_eq!(get.status, 200);
    assert_eq!(post.body, get.body);
    let (got_id, message) = body_fields(&get);
    assert_eq!(got_id, "00000000-0000-0000-0000-000000000042");
    assert_eq!(message, "hello");
}

#[test]
fn never_inserted_uuid_is_never_served() {
    let store = Store::new();
    let zero = MessageId { value: 0 };
    assert!(store.lookup(zero).is_err());
    let r = lookup_reply(Vec::new());
    assert_ne!(r.status, 200);
    assert_ne!(r.status, 201);
}

#[test]
fn parse_inverts_render() {
    let source = rec(0x42, "a \"quoted\" back\\slash\nline");
    let body = render_record_json(&source);
    let (id, message) = parse_record_json(&body).unwrap();
    assert_eq!(id, source.id);
    assert_eq!(message, source.message);
}

#[test]
fn parse_accepts_only_rendered_bodies() {
    assert!(parse_record_json(b"").is_none());
    assert!(parse_record_json(b"{}").is_none());
    assert!(parse_record_json(b"{\"id\":\"not-a-uuid\",\"message\":\"x\"}").is_none());
    // an upper-case identifier is not the canonical rendering
    assert!(parse_record_json(
        b"{\"id\":\"00000000-0000-0000-0000-0000000000FF\",\"message\":\"x\"}"
    )
    .is_none());
    // an escape this library never emits
    assert!(parse_record_json(
        b"{\"id\":\"00000000-0000-0000-0000-0000000000ff\",\"message\":\"\\u0041\"}"
    )
    .is_none());
    // a truncated body
    assert!(parse_record_json(
        b"{\"id\":\"00000000-0000-0000-0000-0000000000ff\",\"message\":\"x"
    )
    .is_none());
    // the exact rendering is accepted
    let (id, message) = parse_record_json(
        b"{\"id\":\"00000000-0000-0000-0000-0000000000ff\",\"message\":\"x\"}",
    )
    .unwrap();
    assert_eq!(id, MessageId { value: 0xff });
    assert_eq!(message, b"x".to_vec());
}
