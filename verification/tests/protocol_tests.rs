use worklog::codec::encode_entry;
use worklog::entry::Entry;
use worklog::protocol::handle_line;
use worklog::store::Wlog;

fn sample(id: &str, message: &str, date: &str) -> Entry {
    Entry::from_date(
        &Some(String::from(id)),
        &String::from(date),
        &String::from(message),
    )
}

#[test]
fn test_ping() {
    let mut store = Wlog::new();
    let lines = handle_line(&mut store, "PING").unwrap();
    assert_eq!(lines, vec!["PONG\n".to_string()]);
}

#[test]
fn test_unknown_command_keeps_connection_usable() {
    let mut store = Wlog::new();
    let lines = handle_line(&mut store, "FOO").unwrap();
    assert_eq!(lines, vec!["Error: Unknown command FOO\n".to_string()]);
    let lines = handle_line(&mut store, "PING").unwrap();
    assert_eq!(lines, vec!["PONG\n".to_string()]);
}

#[test]
fn test_empty_line_is_broken_connection() {
    let mut store = Wlog::new();
    assert!(handle_line(&mut store, "").is_none());
    assert_eq!(store.find_all().len(), 0);
}

#[test]
fn test_log_command() {
    let mut store = Wlog::new();
    let lines = handle_line(&mut store, "LOG did the thing").unwrap();
    assert_eq!(lines, vec!["LOGGED did the thing\n".to_string()]);
    let all = store.find_all();
    assert_eq!(all.len(), 1);
    assert_eq!(all[0].message, "did the thing");
    let today = chrono::Local::now().format("%Y-%m-%d").to_string();
    assert_eq!(all[0].time_created, today);
}

#[test]
fn test_import_and_duplicate_import() {
    let mut store = Wlog::new();
    let e = sample("c1a69488-d452-4f23-9567-b81138b04096", "imported", "2024-01-01");
    let cmd = format!("IMPORT {}", encode_entry(&e));
    assert_eq!(
        handle_line(&mut store, &cmd).unwrap(),
        vec!["OK\n".to_string()]
    );
    assert_eq!(
        handle_line(&mut store, &cmd).unwrap(),
        vec!["OK\n".to_string()]
    );
    assert_eq!(store.find_all().len(), 1);
    assert_eq!(store.find_by_id(&e.id).len(), 1);
}

#[test]
fn test_concurrent_imports_same_id_store_one_copy() {
    // Two connections race on one encoded entry; under the store's lock
    // their merges run in some order, which this plays out.
    let mut store = Wlog::new();
    let e = sample("c1a69488-d452-4f23-9567-b81138b04096", "raced", "2024-01-01");
    let cmd = format!("IMPORT {}", encode_entry(&e));
    let first = handle_line(&mut store, &cmd).unwrap();
    let second = handle_line(&mut store, &cmd).unwrap();
    assert_eq!(first, vec!["OK\n".to_string()]);
    assert_eq!(second, vec!["OK\n".to_string()]);
    assert_eq!(store.find_by_id(&e.id).len(), 1);
}

#[test]
fn test_import_stores_trimmed_message_and_canonical_id() {
    let mut store = Wlog::new();
    let cmd = "IMPORT {\"id\":\"C1A69488-D452-4F23-9567-B81138B04096\",\"message\":\" padded \",\"time_created\":\"2024-01-01\"}";
    assert_eq!(handle_line(&mut store, cmd).unwrap(), vec!["OK\n".to_string()]);
    let all = store.find_all();
    assert_eq!(all.len(), 1);
    assert_eq!(all[0].id, "c1a69488-d452-4f23-9567-b81138b04096");
    assert_eq!(all[0].message, "padded");
}

#[test]
fn test_import_malformed_entry() {
    let mut store = Wlog::new();
    let lines = handle_line(&mut store, "IMPORT {broken").unwrap();
    assert_eq!(lines, vec!["Error: Malformed entry\n".to_string()]);
    assert_eq!(store.find_all().len(), 0);
    assert_eq!(
        handle_line(&mut store, "PING").unwrap(),
        vec!["PONG\n".to_string()]
    );
}

#[test]
fn test_dump_and_dump_from() {
    let mut store = Wlog::new();
    let a = sample("c1a69488-d452-4f23-9567-b81138b04096", "first", "2024-01-01");
    let b = sample("11111111-2222-3333-4444-555555555555", "second", "2024-01-02");
    for e in [&a, &b] {
        let cmd = format!("IMPORT {}", encode_entry(e));
        handle_line(&mut store, &cmd).unwrap();
    }

    let filtered = handle_line(&mut store, "DUMP FROM 2024-01-01").unwrap();
    assert_eq!(filtered, vec![format!("{}\n", encode_entry(&a))]);

    let dump = handle_line(&mut store, "DUMP").unwrap();
    assert_eq!(
        dump,
        vec![
            format!("IMPORT {}\n", encode_entry(&a)),
            format!("IMPORT {}\n", encode_entry(&b)),
            "\n".to_string(),
        ]
    );
}

#[test]
fn test_dump_from_joins_with_commas() {
    let mut store = Wlog::new();
    let a = sample("c1a69488-d452-4f23-9567-b81138b04096", "first", "2024-01-01");
    let b = sample("11111111-2222-3333-4444-555555555555", "second", "2024-01-01");
    for e in [&a, &b] {
        let cmd = format!("IMPORT {}", encode_entry(e));
        handle_line(&mut store, &cmd).unwrap();
    }
    let filtered = handle_line(&mut store, "DUMP FROM 2024-01-01").unwrap();
    assert_eq!(
        filtered,
        vec![format!("{},{}\n", encode_entry(&a), encode_entry(&b))]
    );
}

#[test]
fn test_dump_of_empty_store() {
    let mut store = Wlog::new();
    assert_eq!(handle_line(&mut store, "DUMP").unwrap(), vec!["\n".to_string()]);
    assert_eq!(
        handle_line(&mut store, "DUMP FROM 2024-01-01").unwrap(),
        vec!["\n".to_string()]
    );
}

#[test]
fn test_handle_line_with_pins_id_and_date() {
    let mut store = Wlog::new();
    let lines = worklog::protocol::handle_line_with(
        &mut store,
        "LOG hi",
        "c1a69488-d452-4f23-9567-b81138b04096".to_string(),
        "2024-01-01".to_string(),
    )
    .unwrap();
    assert_eq!(lines, vec!["LOGGED hi\n".to_string()]);
    let all = store.find_all();
    assert_eq!(all.len(), 1);
    assert_eq!(all[0].id, "c1a69488-d452-4f23-9567-b81138b04096");
    assert_eq!(all[0].time_created, "2024-01-01");
    assert_eq!(all[0].message, "hi");
}

#[test]
fn test_log_with_empty_message_is_still_accepted() {
    let mut store = Wlog::new();
    let lines = handle_line(&mut store, "LOG ").unwrap();
    assert_eq!(lines, vec!["LOGGED \n".to_string()]);
    assert_eq!(store.find_all().len(), 1);
    assert_eq!(store.find_all()[0].message, "");
}
