use worklog::entry::Entry;

#[test]
fn wlog_test_new_entry() {
    let e = Entry::now(&String::from("new entry"));

    let dt = chrono::Local::now();
    let date = dt.format("%Y-%m-%d").to_string();
    assert_eq!("new entry", e.message);
    assert_eq!(date, e.time_created);
}

#[test]
fn test_new_entry_from_past() {
    let e = Entry::from_past(&String::from("2019-01-01"), &String::from("new entry"));

    assert_eq!("new entry", e.message);
    assert_eq!("2019-01-01", e.time_created);
}

#[test]
fn lib_test_new_entry() {
    let e = Entry::now(&String::from("new entry"));

    let dt = chrono::Local::now();
    let date = dt.format("%Y-%m-%d").to_string();
    assert_eq!("new entry", e.message);
    assert_eq!(date, e.time_created);
}

#[test]
fn test_new_entry_from_date_with_id() {
    let e = Entry::from_date(
        &Some(String::from("c1a69488-d452-4f23-9567-b81138b04096")),
        &String::from("2019-01-01"),
        &String::from("new entry"),
    );

    assert_eq!("c1a69488-d452-4f23-9567-b81138b04096", e.id);
    assert_eq!("new entry", e.message);
    assert_eq!("2019-01-01", e.time_created);
}

#[test]
fn test_new_entry_from_date_without_id() {
    let e = Entry::from_date(
        &None,
        &String::from("2019-01-01"),
        &String::from("new entry"),
    );

    assert_eq!("new entry", e.message);
    assert_eq!("2019-01-01", e.time_created);
}

#[test]
fn test_now_assigns_textual_uuid() {
    let e = Entry::now(&String::from("x"));
    assert!(worklog::ids::is_uuid_str(&e.id));
    assert_eq!(e.id.len(), 36);
}

#[test]
fn test_now_trims_message() {
    let e = Entry::now(&String::from("  padded message \t"));
    assert_eq!("padded message", e.message);
}

#[test]
fn test_distinct_ids_for_distinct_entries() {
    let a = Entry::now(&String::from("a"));
    let b = Entry::now(&String::from("b"));
    assert_ne!(a.id, b.id);
}

#[test]
fn test_trim_matches_std() {
    for s in [
        "  a b\t",
        "\u{2028}x\u{3000}",
        "\r\nhi\u{85}",
        "no-trim",
        " \u{00a0}spaced\u{202f} ",
        "",
        "   ",
    ] {
        assert_eq!(worklog::text::trim_spaces(s), s.trim());
    }
}
