use secret_message::id::format_id;
use secret_message::id::parse_id;
use secret_message::id::MessageId;

#[test]
fn format_is_hyphenated_lowercase_hex() {
    let id = MessageId { value: 0x1234_5678_9abc_def0_0fed_cba9_8765_4321 };
    let text = format_id(&id);
    assert_eq!(String::from_utf8(text).unwrap(), "12345678-9abc-def0-0fed-cba987654321");
}

#[test]
fn format_pads_with_zeros() {
    let id = MessageId { value: 0xff };
    let text = format_id(&id);
    assert_eq!(String::from_utf8(text).unwrap(), "00000000-0000-0000-0000-0000000000ff");
}

#[test]
fn parse_inverts_format() {
    let id = MessageId { value: 0xdead_beef_0000_0001_8000_0000_ffff_aaaa };
    let parsed = parse_id(&format_id(&id)).unwrap();
    assert_eq!(parsed, id);
}

#[test]
fn parse_accepts_upper_case() {
    let parsed = parse_id(b"12345678-9ABC-DEF0-0FED-CBA987654321").unwrap();
    assert_eq!(parsed, MessageId { value: 0x1234_5678_9abc_def0_0fed_cba9_8765_4321 });
}

#[test]
fn parse_rejects_malformed_texts() {
    assert!(parse_id(b"").is_none());
    assert!(parse_id(b"12345678").is_none());
    // a separator out of place
    assert!(parse_id(b"123456789-abc-def0-0fed-cba98765432").is_none());
    // a digit that is not hexadecimal
    assert!(parse_id(b"1234567g-9abc-def0-0fed-cba987654321").is_none());
    // one byte too long
    assert!(parse_id(b"12345678-9abc-def0-0fed-cba9876543210").is_none());
}

#[test]
fn format_agrees_with_uuid_crate() {
    let values: [u128; 4] = [
        0,
        0xff,
        0x1234_5678_9abc_def0_0fed_cba9_8765_4321,
        u128::MAX,
    ];
    for v in values {
        let ours = String::from_utf8(format_id(&MessageId { value: v })).unwrap();
        let theirs = uuid::Uuid::from_u128(v).hyphenated().to_string();
        assert_eq!(ours, theirs);
    }
}

#[test]
fn parse_agrees_with_uuid_crate() {
    let u = uuid::Uuid::new_v4();
    let text = u.hyphenated().to_string();
    let parsed = parse_id(text.as_bytes()).unwrap();
    assert_eq!(parsed.value, u.as_u128());
}
