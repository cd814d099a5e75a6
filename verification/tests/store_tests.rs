use rs_archiver::storage::AttachmentStatus::{
    FailedPermanent, FailedRetryable, SkippedTooSmall, Uploaded,
};
use rs_archiver::storage::{
    max_attempts_setting, parse_u32, AttachmentKey, AttachmentState, AttachmentStatus, Entry,
    Store, DEFAULT_MAX_ATTEMPTS,
};

fn create_entry(uidl: &str, attch_name: &str, status: AttachmentStatus, attemps: u8) -> Entry {
    Entry {
        state: AttachmentState {
            status: status,
            attempts: attemps as u32,
        },
        key: AttachmentKey {
            uidl: uidl.into(),
            attachment: attch_name.into(),
        },
    }
}

fn key(uidl: &str, name: &str) -> AttachmentKey {
    AttachmentKey {
        uidl: uidl.into(),
        attachment: name.into(),
    }
}

#[test]
fn test_is_uploadable() {
    let entry_vec = vec![
        create_entry("A", "A.pdf", Uploaded, 1),
        create_entry("B", "B.pdf", SkippedTooSmall, 1),
        create_entry("C", "C.pdf", FailedRetryable, 1),
        create_entry("D", "D.pdf", FailedRetryable, 9),
        create_entry("E", "E.pdf", FailedPermanent, 1),
    ];

    let path = String::from("test.json");
    let store = Store::from_entries(entry_vec, path, 2);

    assert_eq!(
        store.is_uploadable(&AttachmentKey {
            uidl: "nwe".into(),
            attachment: "new-file.pdf".into()
        }),
        true
    );
    assert_eq!(
        store.is_uploadable(&AttachmentKey {
            uidl: "A".into(),
            attachment: "A.pdf".into()
        }),
        false
    );
    assert_eq!(
        store.is_uploadable(&AttachmentKey {
            uidl: "B".into(),
            attachment: "B.pdf".into()
        }),
        false
    );
    assert_eq!(
        store.is_uploadable(&AttachmentKey {
            uidl: "C".into(),
            attachment: "C.pdf".into()
        }),
        true
    );
    assert_eq!(
        store.is_uploadable(&AttachmentKey {
            uidl: "D".into(),
            attachment: "D.pdf".into()
        }),
        false
    );
    assert_eq!(
        store.is_uploadable(&AttachmentKey {
            uidl: "E".into(),
            attachment: "E.pdf".into()
        }),
        false
    );
}

#[test]
fn new_store_is_empty_and_everything_uploadable() {
    let store = Store::new("state.json".to_string(), 3);
    assert!(store.is_empty());
    assert_eq!(store.path(), "state.json");
    assert_eq!(store.max_attch_attempts(), 3);
    assert!(store.is_uploadable(&key("1", "a.pdf")));
    assert!(store.state_of(&key("1", "a.pdf")).is_none());
}

#[test]
fn record_outcome_counts_attempts() {
    let mut store = Store::new("state.json".to_string(), 10);
    store.record_outcome(key("A", "A.pdf"), Uploaded);
    assert!(!store.is_empty());
    let s = store.state_of(&key("A", "A.pdf")).unwrap();
    assert_eq!(s.status, Uploaded);
    assert_eq!(s.attempts, 1);
    store.record_outcome(key("A", "A.pdf"), SkippedTooSmall);
    let s = store.state_of(&key("A", "A.pdf")).unwrap();
    assert_eq!(s.status, SkippedTooSmall);
    assert_eq!(s.attempts, 2);
    assert!(!store.is_uploadable(&key("A", "A.pdf")));
}

#[test]
fn retryable_failure_becomes_permanent_at_limit() {
    let mut store = Store::new("state.json".to_string(), 2);
    store.record_outcome(key("C", "C.pdf"), FailedRetryable);
    let s = store.state_of(&key("C", "C.pdf")).unwrap();
    assert_eq!(s.status, FailedRetryable);
    assert_eq!(s.attempts, 1);
    assert!(store.is_uploadable(&key("C", "C.pdf")));
    store.record_outcome(key("C", "C.pdf"), FailedRetryable);
    let s = store.state_of(&key("C", "C.pdf")).unwrap();
    assert_eq!(s.status, FailedPermanent);
    assert_eq!(s.attempts, 2);
    assert!(!store.is_uploadable(&key("C", "C.pdf")));
}

#[test]
fn zero_limit_gives_up_at_first_retryable_failure() {
    let mut store = Store::new("state.json".to_string(), 0);
    assert!(store.is_uploadable(&key("Z", "z.pdf")));
    store.record_outcome(key("Z", "z.pdf"), FailedRetryable);
    assert_eq!(store.state_of(&key("Z", "z.pdf")).unwrap().status, FailedPermanent);
}

#[test]
fn retryable_at_limit_from_loaded_state_is_not_uploadable() {
    let store = Store::from_entries(vec![create_entry("D", "D.pdf", FailedRetryable, 2)], "s".to_string(), 2);
    assert!(!store.is_uploadable(&key("D", "D.pdf")));
    let store = Store::from_entries(vec![create_entry("D", "D.pdf", FailedRetryable, 1)], "s".to_string(), 2);
    assert!(store.is_uploadable(&key("D", "D.pdf")));
}

#[test]
fn record_outcome_leaves_other_attachments() {
    let mut store = Store::from_entries(
        vec![create_entry("A", "A.pdf", Uploaded, 1), create_entry("A", "B.pdf", FailedRetryable, 1)],
        "s".to_string(),
        5,
    );
    store.record_outcome(key("A", "B.pdf"), Uploaded);
    let a = store.state_of(&key("A", "A.pdf")).unwrap();
    assert_eq!((a.status, a.attempts), (Uploaded, 1));
    let b = store.state_of(&key("A", "B.pdf")).unwrap();
    assert_eq!((b.status, b.attempts), (Uploaded, 2));
    assert_eq!(store.entries().len(), 2);
}

#[test]
fn later_loaded_entry_wins() {
    let store = Store::from_entries(
        vec![
            create_entry("A", "A.pdf", Uploaded, 1),
            create_entry("A", "A.pdf", FailedRetryable, 3),
        ],
        "s".to_string(),
        5,
    );
    let s = store.state_of(&key("A", "A.pdf")).unwrap();
    assert_eq!((s.status, s.attempts), (FailedRetryable, 3));
    assert_eq!(store.entries().len(), 1);
}

#[test]
fn saved_entries_reload_to_same_states() {
    let mut store = Store::new("s".to_string(), 3);
    store.record_outcome(key("1", "x"), Uploaded);
    store.record_outcome(key("2", "y"), FailedRetryable);
    store.record_outcome(key("2", "y"), FailedRetryable);
    let saved = store.entries();
    let loaded = Store::from_entries(saved, "s".to_string(), 3);
    for k in [key("1", "x"), key("2", "y"), key("3", "z")] {
        let a = store.state_of(&k).map(|s| (s.status, s.attempts));
        let b = loaded.state_of(&k).map(|s| (s.status, s.attempts));
        assert_eq!(a, b);
    }
    assert_eq!(loaded.state_of(&key("2", "y")).unwrap().attempts, 2);
}

#[test]
fn fully_resolved_messages() {
    let store = Store::from_entries(
        vec![
            create_entry("M", "a", Uploaded, 1),
            create_entry("M", "b", SkippedTooSmall, 1),
            create_entry("M", "c", FailedPermanent, 4),
            create_entry("M", "d", FailedRetryable, 1),
            create_entry("N", "a", Uploaded, 1),
        ],
        "s".to_string(),
        5,
    );
    let names = |v: &[&str]| v.iter().map(|s| s.to_string()).collect::<Vec<String>>();
    assert!(store.message_is_fully_resolved("M", &names(&["a", "b", "c"])));
    assert!(!store.message_is_fully_resolved("M", &names(&["a", "d"])));
    assert!(!store.message_is_fully_resolved("M", &names(&["a", "unknown"])));
    assert!(!store.message_is_fully_resolved("O", &names(&["a"])));
    assert!(store.message_is_fully_resolved("N", &names(&["a"])));
    assert!(store.message_is_fully_resolved("M", &names(&[])));
}

#[test]
fn reads_attempt_limits() {
    assert_eq!(parse_u32("42"), Some(42));
    assert_eq!(parse_u32("+7"), Some(7));
    assert_eq!(parse_u32("007"), Some(7));
    assert_eq!(parse_u32("4294967295"), Some(u32::MAX));
    assert_eq!(parse_u32("4294967296"), None);
    assert_eq!(parse_u32("99999999999999999999"), None);
    assert_eq!(parse_u32(""), None);
    assert_eq!(parse_u32("+"), None);
    assert_eq!(parse_u32("-1"), None);
    assert_eq!(parse_u32(" 1"), None);
    assert_eq!(parse_u32("1a"), None);
    assert_eq!(parse_u32("٣"), None);
    assert_eq!(max_attempts_setting(None), DEFAULT_MAX_ATTEMPTS);
    assert_eq!(max_attempts_setting(Some("3")), 3);
    assert_eq!(max_attempts_setting(Some("three")), 10);
    for s in ["0", "12", "+5", "x", "", "4294967296", "-3"] {
        assert_eq!(parse_u32(s), s.parse::<u32>().ok());
    }
}
