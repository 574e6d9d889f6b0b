use trash::cache::{Cache, Entry, Key, KeySelector, VersionPredicate};
use trash::error::Error;

fn key(name: &str, origin: &str) -> Key {
    Key::new(String::from(name), String::from(origin))
}

fn entry(name: &str, origin: &str, uuid: &str, versions: &[&str]) -> Entry {
    Entry::new(
        key(name, origin),
        String::from(uuid),
        versions.iter().map(|v| String::from(*v)).collect(),
    )
}

#[test]
fn push_same_key_accumulates_history_in_call_order() {
    let mut cache = Cache::new();
    let (uuid1, v1) = cache.push(String::from("a.txt"), String::from("/tmp/a.txt"));
    let (uuid2, v2) = cache.push(String::from("a.txt"), String::from("/tmp/a.txt"));
    let (uuid3, v3) = cache.push(String::from("a.txt"), String::from("/tmp/a.txt"));
    assert_eq!(uuid1, uuid2);
    assert_eq!(uuid1, uuid3);
    let entries = cache.entries();
    assert_eq!(entries.len(), 1);
    let history = entries[0].history();
    assert_eq!(history.len(), 3);
    assert_eq!(history[0], v1);
    assert_eq!(history[1], v2);
    assert_eq!(history[2], v3);
    assert_eq!(entries[0].key().name().as_str(), "a.txt");
    assert_eq!(entries[0].key().origin().as_str(), "/tmp/a.txt");
}

#[test]
fn push_distinct_origins_makes_distinct_entries() {
    let mut cache = Cache::new();
    let (u1, _) = cache.push(String::from("a.txt"), String::from("/tmp/a.txt"));
    let (u2, _) = cache.push(String::from("a.txt"), String::from("/home/a.txt"));
    assert_ne!(u1, u2);
    assert_eq!(cache.entries().len(), 2);
}

#[test]
fn fresh_container_ids_look_like_uuids() {
    let mut cache = Cache::new();
    let (uuid, _) = cache.push(String::from("a"), String::from("/a"));
    assert_eq!(uuid.chars().count(), 36);
}

#[test]
fn pop_all_by_name_removes_every_match() {
    let mut cache = Cache::new();
    cache.push(String::from("a.txt"), String::from("/tmp/a.txt"));
    cache.push(String::from("a.txt"), String::from("/home/a.txt"));
    cache.push(String::from("b.txt"), String::from("/tmp/b.txt"));
    let popped = cache
        .pop(KeySelector::ByName(String::from("a.txt")), VersionPredicate::All)
        .unwrap();
    assert_eq!(popped.len(), 2);
    assert!(popped.iter().all(|(emptied, _)| *emptied));
    let entries = cache.entries();
    assert_eq!(entries.len(), 1);
    assert!(entries.iter().all(|e| e.key().name().as_str() != "a.txt"));
}

#[test]
fn pop_with_unmatched_predicate_fails_and_changes_nothing() {
    let mut cache = Cache::new();
    let (_, v) = cache.push(String::from("a.txt"), String::from("/tmp/a.txt"));
    let r = cache.pop(KeySelector::ByName(String::from("nope")), VersionPredicate::All);
    assert!(matches!(r, Err(Error::MissingTargetPredicate)));
    assert_eq!(cache.entries().len(), 1);
    assert_eq!(cache.entries()[0].history()[0], v);
}

#[test]
fn pop_newest_takes_last_appended_not_textual_maximum() {
    let e = entry("a.txt", "/tmp/a.txt", "container", &["t1", "t10", "t2"]);
    let mut cache = Cache::from_entries(vec![e]);
    let popped = cache
        .pop(KeySelector::ByName(String::from("a.txt")), VersionPredicate::Newest)
        .unwrap();
    assert_eq!(popped.len(), 1);
    let (emptied, snapshot) = &popped[0];
    assert!(!emptied);
    assert_eq!(snapshot.history().len(), 1);
    assert_eq!(snapshot.history()[0].as_str(), "t2");
    let remaining = cache.entries();
    assert_eq!(remaining[0].history().len(), 2);
    assert_eq!(remaining[0].history()[0].as_str(), "t1");
    assert_eq!(remaining[0].history()[1].as_str(), "t10");
}

#[test]
fn pop_specific_removes_every_equal_version() {
    let e = entry("a.txt", "/tmp/a.txt", "container", &["v", "x", "v"]);
    let mut cache = Cache::from_entries(vec![e]);
    let popped = cache
        .pop(
            KeySelector::ByName(String::from("a.txt")),
            VersionPredicate::Specific(String::from("v")),
        )
        .unwrap();
    let (emptied, snapshot) = &popped[0];
    assert!(!emptied);
    assert_eq!(snapshot.history().len(), 2);
    assert_eq!(snapshot.history()[0].as_str(), "v");
    assert_eq!(snapshot.history()[1].as_str(), "v");
    assert_eq!(cache.entries()[0].history().len(), 1);
    assert_eq!(cache.entries()[0].history()[0].as_str(), "x");
}

#[test]
fn pop_specific_matching_no_version_keeps_entry_with_empty_snapshot() {
    let e = entry("a.txt", "/tmp/a.txt", "container", &["v1"]);
    let mut cache = Cache::from_entries(vec![e]);
    let popped = cache
        .pop(
            KeySelector::ByName(String::from("a.txt")),
            VersionPredicate::Specific(String::from("missing")),
        )
        .unwrap();
    let (emptied, snapshot) = &popped[0];
    assert!(!emptied);
    assert_eq!(snapshot.history().len(), 0);
    assert_eq!(cache.entries().len(), 1);
}

#[test]
fn pop_by_name_and_origin_narrows_to_one_entry() {
    let e1 = entry("a.txt", "/tmp/a.txt", "c1", &["v1"]);
    let e2 = entry("a.txt", "/home/a.txt", "c2", &["v2"]);
    let mut cache = Cache::from_entries(vec![e1, e2]);
    let popped = cache
        .pop(
            KeySelector::ByNameAndOrigin(String::from("a.txt"), String::from("/home/a.txt")),
            VersionPredicate::All,
        )
        .unwrap();
    assert_eq!(popped.len(), 1);
    assert_eq!(popped[0].1.uuid().as_str(), "c2");
    assert_eq!(cache.entries().len(), 1);
    assert_eq!(cache.entries()[0].uuid().as_str(), "c1");
}

#[test]
fn emptied_entries_leave_in_index_order() {
    let e1 = entry("a", "/a", "c1", &["v1"]);
    let e2 = entry("b", "/b", "c2", &["v2"]);
    let e3 = entry("c", "/c", "c3", &["v3"]);
    let mut cache = Cache::from_entries(vec![e1, e2, e3]);
    let popped = cache.pop(KeySelector::Any, VersionPredicate::All).unwrap();
    assert_eq!(popped.len(), 3);
    assert_eq!(popped[0].1.uuid().as_str(), "c1");
    assert_eq!(popped[1].1.uuid().as_str(), "c2");
    assert_eq!(popped[2].1.uuid().as_str(), "c3");
    assert_eq!(cache.entries().len(), 0);
}

#[test]
fn entry_push_and_pop_work_standalone() {
    let mut e = entry("a", "/a", "c", &["v1", "v2"]);
    e.push(String::from("v3"));
    assert_eq!(e.history().len(), 3);
    let removed = e.pop(&VersionPredicate::Newest);
    assert_eq!(removed.len(), 1);
    assert_eq!(removed[0].as_str(), "v3");
    let drained = e.pop(&VersionPredicate::All);
    assert_eq!(drained.len(), 2);
    assert_eq!(e.history().len(), 0);
}

#[test]
fn keys_compare_structurally() {
    assert!(key("a", "/a") == key("a", "/a"));
    assert!(key("a", "/a") != key("a", "/b"));
    assert!(key("a", "/a") != key("b", "/a"));
}
