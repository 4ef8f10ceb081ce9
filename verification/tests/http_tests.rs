use worklog::codec::encode_entries;
use worklog::entry::Entry;
use worklog::http::{apply_pull, check_auth, handle_pull, handle_push, PushOutcome};
use worklog::store::Wlog;

fn sample(id: &str, message: &str, date: &str) -> Entry {
    Entry::from_date(
        &Some(String::from(id)),
        &String::from(date),
        &String::from(message),
    )
}

fn ids_of(store: &Wlog) -> Vec<String> {
    let mut ids: Vec<String> = store.find_all().into_iter().map(|e| e.id).collect();
    ids.sort();
    ids
}

#[test]
fn test_check_auth_exact_match() {
    assert!(check_auth(Some("SECRET-REDACTED"), "SECRET-REDACTED"));
    assert!(!check_auth(Some("wrong"), "SECRET-REDACTED"));
    assert!(!check_auth(Some(""), "SECRET-REDACTED"));
    assert!(!check_auth(None, "SECRET-REDACTED"));
}

#[test]
fn test_push_unauthorized_leaves_store_unchanged() {
    let mut store = Wlog::new();
    let a = sample("c1a69488-d452-4f23-9567-b81138b04096", "kept out", "2024-01-01");
    let body = encode_entries(&vec![a]);

    let r = handle_push(&mut store, Some("wrong"), "SECRET-REDACTED", &body);
    assert_eq!(r, PushOutcome::Unauthorized);
    assert_eq!(store.find_all().len(), 0);

    let r = handle_push(&mut store, None, "SECRET-REDACTED", &body);
    assert_eq!(r, PushOutcome::Unauthorized);
    assert_eq!(store.find_all().len(), 0);

    assert!(handle_pull(&store, Some("wrong"), "SECRET-REDACTED").is_none());
}

#[test]
fn test_push_malformed_body_leaves_store_unchanged() {
    let mut store = Wlog::new();
    let r = handle_push(&mut store, Some("s"), "s", "not an array");
    assert_eq!(r, PushOutcome::MalformedBody);
    assert_eq!(store.find_all().len(), 0);
}

#[test]
fn test_push_duplicates_still_accepted() {
    let mut store = Wlog::new();
    let a = sample("c1a69488-d452-4f23-9567-b81138b04096", "twice", "2024-01-01");
    let body = encode_entries(&vec![a.clone(), a.clone()]);
    let r = handle_push(&mut store, Some("s"), "s", &body);
    assert_eq!(r, PushOutcome::Accepted);
    assert_eq!(store.find_all().len(), 1);
    let r = handle_push(&mut store, Some("s"), "s", &body);
    assert_eq!(r, PushOutcome::Accepted);
    assert_eq!(store.find_all().len(), 1);
}

#[test]
fn test_push_assigns_fresh_id_when_absent() {
    let mut store = Wlog::new();
    let body = "[{\"message\":\"no id yet\",\"time_created\":\"2024-01-01\"}]";
    let r = handle_push(&mut store, Some("s"), "s", body);
    assert_eq!(r, PushOutcome::Accepted);
    let all = store.find_all();
    assert_eq!(all.len(), 1);
    assert!(worklog::ids::is_uuid_str(&all[0].id));
    assert_eq!(all[0].message, "no id yet");
}

#[test]
fn test_push_stores_trimmed_message_and_canonical_id() {
    let mut store = Wlog::new();
    let body = "[{\"id\":\"C1A69488-D452-4F23-9567-B81138B04096\",\"message\":\"  padded message \",\"time_created\":\"2024-01-01\"}]";
    assert_eq!(
        handle_push(&mut store, Some("s"), "s", body),
        PushOutcome::Accepted
    );
    let all = store.find_all();
    assert_eq!(all.len(), 1);
    assert_eq!(all[0].id, "c1a69488-d452-4f23-9567-b81138b04096");
    assert_eq!(all[0].message, "padded message");

    // the other spelling of the same identifier is a duplicate, not a new fact
    let body2 = "[{\"id\":\"c1a69488-d452-4f23-9567-b81138b04096\",\"message\":\"again\",\"time_created\":\"2024-01-02\"}]";
    assert_eq!(
        handle_push(&mut store, Some("s"), "s", body2),
        PushOutcome::Accepted
    );
    assert_eq!(store.find_all().len(), 1);
    assert_eq!(store.find_all()[0].message, "padded message");
}

#[test]
fn test_pull_trims_messages() {
    let mut store = Wlog::new();
    let body = "[{\"id\":\"c1a69488-d452-4f23-9567-b81138b04096\",\"message\":\"\\t tabbed \",\"time_created\":\"2024-01-01\"}]";
    let fresh = apply_pull(&mut store, body).unwrap();
    assert_eq!(fresh, 1);
    assert_eq!(store.find_all()[0].message, "tabbed");
}

#[test]
fn test_push_pull_cycle_converges() {
    let mut a = Wlog::new();
    let mut b = Wlog::new();
    let a1 = sample("c1a69488-d452-4f23-9567-b81138b04096", "a1", "2024-01-01");
    let a2 = sample("11111111-2222-3333-4444-555555555555", "a2", "2024-01-02");
    let b1 = sample("22222222-3333-4444-5555-666666666666", "b1", "2024-01-03");
    a.log(&a1);
    a.log(&a2);
    b.log(&b1);

    // A pushes its whole log to B, then pulls B's whole log.
    let push_body = encode_entries(&a.find_all());
    assert_eq!(
        handle_push(&mut b, Some("s"), "s", &push_body),
        PushOutcome::Accepted
    );
    let pull_body = handle_pull(&b, Some("s"), "s").unwrap();
    let fresh = apply_pull(&mut a, &pull_body).unwrap();
    assert_eq!(fresh, 1);

    let mut want = vec![a1.id.clone(), a2.id.clone(), b1.id.clone()];
    want.sort();
    assert_eq!(ids_of(&a), want);
    assert_eq!(ids_of(&b), want);
    assert_eq!(a.find_all().len(), 3);
    assert_eq!(b.find_all().len(), 3);
}

#[test]
fn test_apply_pull_rejects_missing_id() {
    let mut store = Wlog::new();
    let body = "[{\"message\":\"m\",\"time_created\":\"2024-01-01\"}]";
    assert!(apply_pull(&mut store, body).is_err());
    assert_eq!(store.find_all().len(), 0);
    assert!(apply_pull(&mut store, "garbage").is_err());
}

#[test]
fn test_pull_body_is_the_encoded_store() {
    let mut store = Wlog::new();
    let a = sample("c1a69488-d452-4f23-9567-b81138b04096", "a", "2024-01-01");
    store.log(&a);
    let body = handle_pull(&store, Some("s"), "s").unwrap();
    assert_eq!(body, encode_entries(&store.find_all()));
}
