use secret_message::id::MessageId;
use secret_message::store::InsertError;
use secret_message::store::LookupError;
use secret_message::store::SecretMessage;
use secret_message::store::Store;
use secret_message::store::{last_row, secret_message_from_row};

fn msg(text: &str) -> Vec<u8> {
    text.as_bytes().to_vec()
}

#[test]
fn round_trip() {
    let mut store = Store::new();
    let id = MessageId { value: 0x1234_5678_9abc_def0 };
    let rec = store.insert(id, msg("hello")).unwrap();
    assert_eq!(rec.id, id);
    assert_eq!(rec.message, msg("hello"));
    let found = store.lookup(id).unwrap();
    assert_eq!(found.id, id);
    assert_eq!(found.message, msg("hello"));
}

#[test]
fn empty_message_round_trips() {
    let mut store = Store::new();
    let id = MessageId { value: 7 };
    let rec = store.insert(id, msg("")).unwrap();
    assert_eq!(rec.message, Vec::<u8>::new());
    let found = store.lookup(id).unwrap();
    assert_eq!(found.message, Vec::<u8>::new());
}

#[test]
fn identical_payloads_distinct_ids() {
    let mut store = Store::new();
    let a = store.insert(MessageId { value: 1 }, msg("same")).unwrap();
    let b = store.insert(MessageId { value: 2 }, msg("same")).unwrap();
    assert_ne!(a.id, b.id);
    assert_eq!(store.lookup(a.id).unwrap().message, msg("same"));
    assert_eq!(store.lookup(b.id).unwrap().message, msg("same"));
}

#[test]
fn duplicate_id_is_refused() {
    let mut store = Store::new();
    store.insert(MessageId { value: 9 }, msg("first")).unwrap();
    let refused = store.insert(MessageId { value: 9 }, msg("second"));
    assert_eq!(refused.unwrap_err(), InsertError::DuplicateId);
    // the stored record is untouched
    assert_eq!(store.lookup(MessageId { value: 9 }).unwrap().message, msg("first"));
    assert_eq!(store.count(), 1);
}

#[test]
fn lookup_of_absent_id_is_not_found() {
    let mut store = Store::new();
    store.insert(MessageId { value: 3 }, msg("kept")).unwrap();
    let absent = store.lookup(MessageId { value: 0 });
    assert_eq!(absent.unwrap_err(), LookupError::NotFound);
}

#[test]
fn many_creates_no_lost_writes() {
    let mut store = Store::new();
    let n: u128 = 50;
    for i in 0..n {
        let payload = msg(&format!("payload {}", i));
        store.insert(MessageId { value: i }, payload).unwrap();
    }
    assert_eq!(store.count(), 50);
    for i in 0..n {
        let found = store.lookup(MessageId { value: i }).unwrap();
        assert_eq!(found.message, msg(&format!("payload {}", i)));
    }
}

#[test]
fn row_conversion_is_identity() {
    let rec = secret_message_from_row(MessageId { value: 11 }, msg("row"));
    assert_eq!(rec.id, MessageId { value: 11 });
    assert_eq!(rec.message, msg("row"));
}

#[test]
fn last_row_takes_the_last() {
    let rows = vec![
        SecretMessage { id: MessageId { value: 1 }, message: msg("a") },
        SecretMessage { id: MessageId { value: 2 }, message: msg("b") },
    ];
    let rec = last_row(rows).unwrap();
    assert_eq!(rec.id, MessageId { value: 2 });
    assert_eq!(rec.message, msg("b"));
    assert!(last_row(Vec::new()).is_none());
}
