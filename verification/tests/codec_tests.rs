use worklog::codec::{decode_entries, decode_entry, encode_entries, encode_entry};
use worklog::entry::Entry;

fn sample(id: &str, message: &str, date: &str) -> Entry {
    Entry::from_date(
        &Some(String::from(id)),
        &String::from(date),
        &String::from(message),
    )
}

#[test]
fn test_encode_entry_exact() {
    let e = sample(
        "c1a69488-d452-4f23-9567-b81138b04096",
        "new entry",
        "2019-01-01",
    );
    assert_eq!(
        encode_entry(&e),
        "{\"id\":\"c1a69488-d452-4f23-9567-b81138b04096\",\"message\":\"new entry\",\"time_created\":\"2019-01-01\"}"
    );
}

#[test]
fn test_round_trip_plain() {
    let e = sample(
        "c1a69488-d452-4f23-9567-b81138b04096",
        "new entry",
        "2019-01-01",
    );
    let d = decode_entry(&encode_entry(&e)).unwrap();
    assert_eq!(d.id, e.id);
    assert_eq!(d.message, e.message);
    assert_eq!(d.time_created, e.time_created);
}

#[test]
fn test_round_trip_escapes() {
    let e = sample(
        "c1a69488-d452-4f23-9567-b81138b04096",
        "a \"quoted\" back\\slash and\nnewline\ttab \u{1} control",
        "2019-01-01",
    );
    let s = encode_entry(&e);
    assert!(!s.contains('\n'));
    assert!(s.contains("\\n"));
    assert!(s.contains("\\\""));
    assert!(s.contains("\\u0001"));
    let d = decode_entry(&s).unwrap();
    assert_eq!(d.message, e.message);
}

#[test]
fn test_decode_rejects_invalid_text() {
    assert!(decode_entry("not json").is_err());
    assert!(decode_entry("").is_err());
    assert!(decode_entry("{\"id\":\"c1a69488-d452-4f23-9567-b81138b04096\"}").is_err());
    assert!(decode_entry("{\"message\":\"m\",\"time_created\":\"2019-01-01\"}").is_err());
}

#[test]
fn test_decode_rejects_bad_uuid() {
    assert!(
        decode_entry("{\"id\":\"not-a-uuid\",\"message\":\"m\",\"time_created\":\"2019-01-01\"}")
            .is_err()
    );
}

#[test]
fn test_decode_rejects_trailing_text() {
    let e = sample(
        "c1a69488-d452-4f23-9567-b81138b04096",
        "m",
        "2019-01-01",
    );
    let mut s = encode_entry(&e);
    s.push_str("extra");
    assert!(decode_entry(&s).is_err());
}

#[test]
fn test_from_json() {
    let d = Entry::from_json(
        "{\"id\":\"c1a69488-d452-4f23-9567-b81138b04096\",\"message\":\"new entry\",\"time_created\":\"2019-01-01\"}",
    )
    .unwrap();
    assert_eq!(d.message, "new entry");
    assert!(Entry::from_json("{broken").is_err());
}

#[test]
fn test_encode_entries_exact() {
    let a = sample("c1a69488-d452-4f23-9567-b81138b04096", "a", "2019-01-01");
    let b = sample("11111111-2222-3333-4444-555555555555", "b", "2019-01-02");
    assert_eq!(encode_entries(&vec![]), "[]");
    assert_eq!(
        encode_entries(&vec![a.clone(), b.clone()]),
        format!("[{},{}]", encode_entry(&a), encode_entry(&b))
    );
}

#[test]
fn test_decode_entries_round_trip() {
    let a = sample("c1a69488-d452-4f23-9567-b81138b04096", "a", "2019-01-01");
    let b = sample("11111111-2222-3333-4444-555555555555", "b\nwith newline", "2019-01-02");
    let body = encode_entries(&vec![a.clone(), b.clone()]);
    let ws = decode_entries(&body).unwrap();
    assert_eq!(ws.len(), 2);
    assert_eq!(ws[0].id.as_deref(), Some(a.id.as_str()));
    assert_eq!(ws[0].message, a.message);
    assert_eq!(ws[1].message, b.message);
    assert_eq!(ws[1].time_created, b.time_created);

    assert_eq!(decode_entries("[]").unwrap().len(), 0);
}

#[test]
fn test_decode_entries_optional_id() {
    let ws = decode_entries("[{\"message\":\"m\",\"time_created\":\"2019-01-01\"}]").unwrap();
    assert_eq!(ws.len(), 1);
    assert!(ws[0].id.is_none());
}

#[test]
fn test_decode_entries_rejects_malformed() {
    assert!(decode_entries("").is_err());
    assert!(decode_entries("[").is_err());
    assert!(decode_entries("[{]").is_err());
    assert!(decode_entries("[{\"message\":\"m\",\"time_created\":\"d\"},]").is_err());
    assert!(decode_entries("{\"message\":\"m\",\"time_created\":\"d\"}").is_err());
}

#[test]
fn test_decode_normalizes_uppercase_uuid() {
    // the same 128-bit identifier in either spelling is the same fact:
    // ids are stored in one canonical lowercase form
    let d = decode_entry(
        "{\"id\":\"C1A69488-D452-4F23-9567-B81138B04096\",\"message\":\"m\",\"time_created\":\"2019-01-01\"}",
    )
    .unwrap();
    assert_eq!(d.id, "c1a69488-d452-4f23-9567-b81138b04096");
}

#[test]
fn test_decode_trims_message() {
    let d = decode_entry(
        "{\"id\":\"c1a69488-d452-4f23-9567-b81138b04096\",\"message\":\"  padded  \",\"time_created\":\"2019-01-01\"}",
    )
    .unwrap();
    assert_eq!(d.message, "padded");
}

#[test]
fn test_decode_accepts_backspace_and_formfeed_escapes() {
    let d = decode_entry(
        "{\"id\":\"c1a69488-d452-4f23-9567-b81138b04096\",\"message\":\"a\\bz\\fy\",\"time_created\":\"2019-01-01\"}",
    )
    .unwrap();
    assert_eq!(d.message, "a\u{8}z\u{c}y");
}

#[test]
fn test_decode_accepts_short_and_u_escapes() {
    let d = decode_entry(
        "{\"id\":\"c1a69488-d452-4f23-9567-b81138b04096\",\"message\":\"a\\tb\\u0001c\\\\d\\\"e\",\"time_created\":\"2019-01-01\"}",
    )
    .unwrap();
    assert_eq!(d.message, "a\tb\u{1}c\\d\"e");
}
