use worklog::entry::Entry;
use worklog::store::Wlog;

fn sample(id: &str, message: &str, date: &str) -> Entry {
    Entry::from_date(
        &Some(String::from(id)),
        &String::from(date),
        &String::from(message),
    )
}

#[test]
fn test_sync_is_idempotent() {
    let mut store = Wlog::new();
    let e = sample("c1a69488-d452-4f23-9567-b81138b04096", "once", "2019-01-01");
    assert!(store.sync(&e));
    assert!(!store.sync(&e));
    assert_eq!(store.find_all().len(), 1);
    assert_eq!(store.find_by_id(&e.id).len(), 1);
    assert_eq!(store.find_by_id(&e.id)[0].message, "once");
}

#[test]
fn test_sync_same_id_stores_one_copy() {
    let mut store = Wlog::new();
    let first = sample("c1a69488-d452-4f23-9567-b81138b04096", "first", "2019-01-01");
    let second = sample("c1a69488-d452-4f23-9567-b81138b04096", "second", "2020-05-05");
    assert!(store.sync(&first));
    assert!(!store.sync(&second));
    let held = store.find_by_id("c1a69488-d452-4f23-9567-b81138b04096");
    assert_eq!(held.len(), 1);
    assert_eq!(held[0].message, "first");
}

#[test]
fn test_sync_all_counts_new_entries() {
    let mut store = Wlog::new();
    let a = sample("c1a69488-d452-4f23-9567-b81138b04096", "a", "2019-01-01");
    let b = sample("11111111-2222-3333-4444-555555555555", "b", "2019-01-02");
    assert!(store.sync(&a));
    let n = store.sync_all(&vec![a.clone(), b.clone(), b.clone()]);
    assert_eq!(n, 1);
    assert_eq!(store.find_all().len(), 2);
}

#[test]
fn test_log_and_find_by_date() {
    let mut store = Wlog::new();
    let a = sample("c1a69488-d452-4f23-9567-b81138b04096", "a", "2024-01-01");
    let b = sample("11111111-2222-3333-4444-555555555555", "b", "2024-01-02");
    store.log(&a);
    store.log(&b);
    let hits = store.find_by_date("2024-01-01");
    assert_eq!(hits.len(), 1);
    assert_eq!(hits[0].message, "a");
    assert_eq!(store.find_by_date("2024-01-03").len(), 0);
}

#[test]
fn test_find_all_keeps_insertion_order() {
    let mut store = Wlog::new();
    let a = sample("c1a69488-d452-4f23-9567-b81138b04096", "first", "2024-01-01");
    let b = sample("11111111-2222-3333-4444-555555555555", "second", "2024-01-01");
    store.log(&a);
    store.log(&b);
    let all = store.find_all();
    assert_eq!(all.len(), 2);
    assert_eq!(all[0].message, "first");
    assert_eq!(all[1].message, "second");
}

#[test]
fn test_find_by_message_substring() {
    let mut store = Wlog::new();
    let a = sample("c1a69488-d452-4f23-9567-b81138b04096", "wrote the report", "2024-01-01");
    let b = sample("11111111-2222-3333-4444-555555555555", "lunch break", "2024-01-01");
    store.log(&a);
    store.log(&b);
    let hits = store.find_by_message("report");
    assert_eq!(hits.len(), 1);
    assert_eq!(hits[0].message, "wrote the report");
    assert_eq!(store.find_by_message("").len(), 2);
    assert_eq!(store.find_by_message("absent").len(), 0);
}

#[test]
fn test_exists_by_id() {
    let mut store = Wlog::new();
    let a = sample("c1a69488-d452-4f23-9567-b81138b04096", "a", "2024-01-01");
    assert!(!store.exists_by_id(&a.id));
    store.log(&a);
    assert!(store.exists_by_id(&a.id));
    assert!(!store.exists_by_id("11111111-2222-3333-4444-555555555555"));
}
