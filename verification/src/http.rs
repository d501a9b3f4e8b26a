//! HTTP replies of the two handlers.
//!
//! A handler ends in one of a few replies: a record created (201), a
//! record fetched (200), or a structured failure — a malformed
//! identifier (400), no record under the identifier (404), or storage
//! out of reach (503). Every reply carries `application/json` and a
//! JSON body: the record's own body on success, a small error object
//! otherwise. The functions here build those replies from plain
//! values; the unverified binary only copies them into the web
//! framework's response type.

use crate::json::record_json;
use crate::json::QUOTE;
use crate::store::SecretMessage;
use vstd::prelude::*;

verus! {

/// A request that ended without a record.
#[derive(Clone, Copy, PartialEq, Eq, Structural, Debug)]
pub enum ServiceError {
    /// The path segment is not a well-formed identifier text.
    MalformedId,
    /// No record is bound to the identifier.
    NotFound,
    /// The pool or the database refused the query.
    StorageUnavailable,
}

/// The status of each failure: 400, 404 or 503.
pub open spec fn status_of(e: ServiceError) -> u16 {
    match e {
        ServiceError::MalformedId => 400,
        ServiceError::NotFound => 404,
        ServiceError::StorageUnavailable => 503,
    }
}

/// The bytes of `application/json`.
pub open spec fn content_type_json() -> Seq<u8> {
    seq![
        0x61,
        0x70,
        0x70,
        0x6c,
        0x69,
        0x63,
        0x61,
        0x74,
        0x69,
        0x6f,
        0x6e,
        0x2f,
        0x6a,
        0x73,
        0x6f,
        0x6e,
    ]
}

/// The short phrase naming each failure.
pub open spec fn error_text(e: ServiceError) -> Seq<u8> {
    match e {
        // "malformed id"
        ServiceError::MalformedId => seq![
            0x6d,
            0x61,
            0x6c,
            0x66,
            0x6f,
            0x72,
            0x6d,
            0x65,
            0x64,
            0x20,
            0x69,
            0x64,
        ],
        // "not found"
        ServiceError::NotFound => seq![0x6e, 0x6f, 0x74, 0x20, 0x66, 0x6f, 0x75, 0x6e, 0x64],
        // "storage unavailable"
        ServiceError::StorageUnavailable => seq![
            0x73,
            0x74,
            0x6f,
            0x72,
            0x61,
            0x67,
            0x65,
            0x20,
            0x75,
            0x6e,
            0x61,
            0x76,
            0x61,
            0x69,
            0x6c,
            0x61,
            0x62,
            0x6c,
            0x65,
        ],
    }
}

/// The failure body: `{"error":"<phrase>"}`.
pub open spec fn error_json(e: ServiceError) -> Seq<u8> {
    seq![0x7b, QUOTE, 0x65, 0x72, 0x72, 0x6f, 0x72, QUOTE, 0x3a, QUOTE] + error_text(e) + seq![
        QUOTE,
        0x7d,
    ]
}

/// One HTTP reply: a status, the content type, and the body.
pub struct Response {
    pub status: u16,
    pub content_type: Vec<u8>,
    pub body: Vec<u8>,
}

/// Whether a reply is the successful serving of a record: a success
/// status, the JSON content type, and the record's own body.
pub open spec fn serves_record(r: Response, rec: SecretMessage) -> bool {
    &&& (r.status == 200 || r.status == 201)
    &&& r.content_type@ == content_type_json()
    &&& r.body@ == record_json(rec.id, rec.message@)
}

/// The bytes of `application/json`, as every reply carries them.
pub fn content_type_bytes() -> (r: Vec<u8>)
    ensures
        r@ == content_type_json(),
{
    let mut out: Vec<u8> = Vec::new();
    out.push(0x61);
    out.push(0x70);
    out.push(0x70);
    out.push(0x6c);
    out.push(0x69);
    out.push(0x63);
    out.push(0x61);
    out.push(0x74);
    out.push(0x69);
    out.push(0x6f);
    out.push(0x6e);
    out.push(0x2f);
    out.push(0x6a);
    out.push(0x73);
    out.push(0x6f);
    out.push(0x6e);
    proof {
        assert(out@ =~= content_type_json());
    }
    out
}

/// The 201 reply that serves a freshly created record.
pub fn created_response(rec: &SecretMessage) -> (r: Response)
    ensures
        r.status == 201,
        r.content_type@ == content_type_json(),
        r.body@ == record_json(rec.id, rec.message@),
        serves_record(r, *rec),
{
    Response {
        status: 201,
        content_type: content_type_bytes(),
        body: crate::json::render_record_json(rec),
    }
}

/// The 200 reply that serves a fetched record.
pub fn fetched_response(rec: &SecretMessage) -> (r: Response)
    ensures
        r.status == 200,
        r.content_type@ == content_type_json(),
        r.body@ == record_json(rec.id, rec.message@),
        serves_record(r, *rec),
{
    Response {
        status: 200,
        content_type: content_type_bytes(),
        body: crate::json::render_record_json(rec),
    }
}

/// The structured failure reply: the failure's status and its small
/// JSON error body, never a success status.
pub fn failure_response(e: ServiceError) -> (r: Response)
    ensures
        r.status == status_of(e),
        r.status != 200 && r.status != 201,
        r.content_type@ == content_type_json(),
        r.body@ == error_json(e),
{
    let mut out: Vec<u8> = Vec::new();
    out.push(0x7b);
    out.push(QUOTE);
    out.push(0x65);
    out.push(0x72);
    out.push(0x72);
    out.push(0x6f);
    out.push(0x72);
    out.push(QUOTE);
    out.push(0x3a);
    out.push(QUOTE);
    let status: u16;
    match e {
        ServiceError::MalformedId => {
            status = 400;
            out.push(0x6d);
            out.push(0x61);
            out.push(0x6c);
            out.push(0x66);
            out.push(0x6f);
            out.push(0x72);
            out.push(0x6d);
            out.push(0x65);
            out.push(0x64);
            out.push(0x20);
            out.push(0x69);
            out.push(0x64);
        },
        ServiceError::NotFound => {
            status = 404;
            out.push(0x6e);
            out.push(0x6f);
            out.push(0x74);
            out.push(0x20);
            out.push(0x66);
            out.push(0x6f);
            out.push(0x75);
            out.push(0x6e);
            out.push(0x64);
        },
        ServiceError::StorageUnavailable => {
            status = 503;
            out.push(0x73);
            out.push(0x74);
            out.push(0x6f);
            out.push(0x72);
            out.push(0x61);
            out.push(0x67);
            out.push(0x65);
            out.push(0x20);
            out.push(0x75);
            out.push(0x6e);
            out.push(0x61);
            out.push(0x76);
            out.push(0x61);
            out.push(0x69);
            out.push(0x6c);
            out.push(0x61);
            out.push(0x62);
            out.push(0x6c);
            out.push(0x65);
        },
    }
    out.push(QUOTE);
    out.push(0x7d);
    proof {
        assert(out@ =~= error_json(e));
    }
    Response { status, content_type: content_type_bytes(), body: out }
}

/// The create handler's reply once the insert query has answered: the
/// returned row as a 201, or — when the statement surprisingly
/// returned no row — the storage failure.
pub fn create_reply(rows: Vec<SecretMessage>) -> (r: Response)
    ensures
        r.content_type@ == content_type_json(),
        rows@.len() > 0 ==> r.status == 201 && r.body@ == record_json(
            rows@.last().id,
            rows@.last().message@,
        ),
        rows@.len() == 0 ==> r.status == 503 && r.body@ == error_json(
            ServiceError::StorageUnavailable,
        ),
{
    match crate::store::last_row(rows) {
        Some(rec) => created_response(&rec),
        None => failure_response(ServiceError::StorageUnavailable),
    }
}

/// The lookup handler's reply once the select query has answered: the
/// matching row as a 200, or the not-found failure when no row
/// matched — never a record under any other identifier.
pub fn lookup_reply(rows: Vec<SecretMessage>) -> (r: Response)
    ensures
        r.content_type@ == content_type_json(),
        rows@.len() > 0 ==> r.status == 200 && r.body@ == record_json(
            rows@.last().id,
            rows@.last().message@,
        ),
        rows@.len() == 0 ==> r.status == 404 && r.body@ == error_json(ServiceError::NotFound),
{
    match crate::store::last_row(rows) {
        Some(rec) => fetched_response(&rec),
        None => failure_response(ServiceError::NotFound),
    }
}

/// Bodies never collide: a record's body differs from every failure
/// body, so a reader of a reply cannot take a failure for a record.
pub proof fn lemma_bodies_distinct(id: crate::id::MessageId, m: Seq<u8>, e: ServiceError)
    ensures
        record_json(id, m) != error_json(e),
{
    let r: Seq<u8> = record_json(id, m);
    let f: Seq<u8> = error_json(e);
    crate::id::lemma_id_text_valid(id);
    assert(r.len() >= 58);
    assert(r[2] == 0x69);
    if r == f {
        assert(f[2] == 0x65);
        assert(false);
    }
}

} // verus!
