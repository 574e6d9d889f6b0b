use trash::cache::Cache;
use trash::error::Error;
use trash::pattern::Pattern;
use trash::settings::Settings;
use trash::trash::{base_name, join_path, RestoreStep, Trash};

fn fresh_trash() -> Trash {
    Trash::new(Cache::new(), Settings::new(false, false), String::from("/home/user/.trash/data"))
}

#[test]
fn delete_plans_the_container_and_destination() {
    let mut t = fresh_trash();
    let action = t.delete(String::from("a.txt"), String::from("/tmp/a.txt"));
    assert_eq!(
        action.container_dir,
        format!("/home/user/.trash/data/{}", action.uuid)
    );
    assert_eq!(
        action.destination,
        format!("{}/{}", action.container_dir, action.version)
    );
    assert_eq!(t.entries().len(), 1);
    assert_eq!(t.entries()[0].history().len(), 1);
}

#[test]
fn delete_twice_then_restore_newest_then_all_empties_the_entry() {
    let mut t = fresh_trash();
    let first = t.delete(String::from("a.txt"), String::from("/tmp/a.txt"));
    let second = t.delete(String::from("a.txt"), String::from("/tmp/a.txt"));
    assert_eq!(first.uuid, second.uuid);
    assert_eq!(t.entries().len(), 1);
    assert_eq!(t.entries()[0].history().len(), 2);

    // No version selector: only the most recent version comes back, to the
    // origin path itself.
    let steps = t.restore(String::from("a.txt"), None, None).unwrap();
    assert_eq!(steps.len(), 1);
    match &steps[0] {
        RestoreStep::Move { source, destination, version } => {
            assert_eq!(version, &second.version);
            assert_eq!(source, &second.destination);
            assert_eq!(destination.as_str(), "/tmp/a.txt");
        },
        _ => panic!("expected a move"),
    }
    assert_eq!(t.entries().len(), 1);
    assert_eq!(t.entries()[0].history().len(), 1);

    // Restoring all remaining versions drains the entry; its container
    // directory is removed after its moves.
    let steps = t
        .restore(String::from("a.txt"), None, Some(String::from("all")))
        .unwrap();
    assert_eq!(steps.len(), 2);
    match &steps[0] {
        RestoreStep::Move { destination, version, .. } => {
            assert_eq!(version, &first.version);
            assert_eq!(destination.as_str(), "/tmp/a.txt");
        },
        _ => panic!("expected a move"),
    }
    match &steps[1] {
        RestoreStep::RemoveDir(dir) => assert_eq!(dir, &first.container_dir),
        _ => panic!("expected a directory removal"),
    }
    assert_eq!(t.entries().len(), 0);
}

#[test]
fn restore_without_origin_restores_every_entry_with_the_name() {
    // Two origins share a file name: both entries stay distinct, and a
    // restore that names no origin pops the newest version of each,
    // sending it back to its own origin.
    let mut t = fresh_trash();
    t.delete(String::from("a.txt"), String::from("/tmp/a.txt"));
    t.delete(String::from("a.txt"), String::from("/home/a.txt"));
    assert_eq!(t.entries().len(), 2);

    let steps = t.restore(String::from("a.txt"), None, None).unwrap();
    assert_eq!(steps.len(), 4);
    let mut destinations = Vec::new();
    for step in &steps {
        if let RestoreStep::Move { destination, .. } = step {
            destinations.push(destination.clone());
        }
    }
    assert_eq!(destinations.len(), 2);
    assert_eq!(destinations[0].as_str(), "/tmp/a.txt");
    assert_eq!(destinations[1].as_str(), "/home/a.txt");
    assert_eq!(t.entries().len(), 0);
}

#[test]
fn restore_with_origin_narrows_to_one_entry() {
    let mut t = fresh_trash();
    t.delete(String::from("a.txt"), String::from("/tmp/a.txt"));
    t.delete(String::from("a.txt"), String::from("/home/a.txt"));
    let steps = t
        .restore(String::from("a.txt"), Some(String::from("/home/a.txt")), None)
        .unwrap();
    assert_eq!(steps.len(), 2);
    assert_eq!(t.entries().len(), 1);
    assert_eq!(t.entries()[0].key().origin().as_str(), "/tmp/a.txt");
}

#[test]
fn restoring_several_versions_at_once_disambiguates_destinations() {
    let mut t = fresh_trash();
    let first = t.delete(String::from("a.txt"), String::from("/tmp/a.txt"));
    let second = t.delete(String::from("a.txt"), String::from("/tmp/a.txt"));
    let steps = t
        .restore(String::from("a.txt"), None, Some(String::from("all")))
        .unwrap();
    assert_eq!(steps.len(), 3);
    match &steps[0] {
        RestoreStep::Move { destination, .. } => {
            assert_eq!(destination, &format!("/tmp/a.txt_{}", first.version));
        },
        _ => panic!("expected a move"),
    }
    match &steps[1] {
        RestoreStep::Move { destination, .. } => {
            assert_eq!(destination, &format!("/tmp/a.txt_{}", second.version));
        },
        _ => panic!("expected a move"),
    }
    assert!(matches!(&steps[2], RestoreStep::RemoveDir(_)));
}

#[test]
fn restore_of_an_unknown_name_fails_and_changes_nothing() {
    let mut t = fresh_trash();
    t.delete(String::from("a.txt"), String::from("/tmp/a.txt"));
    let r = t.restore(String::from("b.txt"), None, None);
    assert!(matches!(r, Err(Error::MissingTargetPredicate)));
    assert_eq!(t.entries().len(), 1);
}

#[test]
fn restore_accepts_the_newest_selector_by_name() {
    let mut t = fresh_trash();
    t.delete(String::from("a.txt"), String::from("/tmp/a.txt"));
    t.delete(String::from("a.txt"), String::from("/tmp/a.txt"));
    let steps = t
        .restore(String::from("a.txt"), None, Some(String::from("newest")))
        .unwrap();
    assert_eq!(steps.len(), 1);
    assert_eq!(t.entries()[0].history().len(), 1);
}

#[test]
fn restore_with_exact_version_takes_just_that_version() {
    let mut t = fresh_trash();
    let first = t.delete(String::from("a.txt"), String::from("/tmp/a.txt"));
    t.delete(String::from("a.txt"), String::from("/tmp/a.txt"));
    let steps = t
        .restore(String::from("a.txt"), None, Some(first.version.clone()))
        .unwrap();
    assert_eq!(steps.len(), 1);
    match &steps[0] {
        RestoreStep::Move { version, .. } => assert_eq!(version, &first.version),
        _ => panic!("expected a move"),
    }
}

#[test]
fn list_filters_by_pattern_in_index_order() {
    let mut t = fresh_trash();
    t.delete(String::from("a.txt"), String::from("/tmp/a.txt"));
    t.delete(String::from("b.log"), String::from("/tmp/b.log"));
    t.delete(String::from("c.txt"), String::from("/tmp/c.txt"));

    let all = t.list(&Pattern::new("").unwrap());
    assert_eq!(all.len(), 3);

    let txt = t.list(&Pattern::new("txt$").unwrap());
    assert_eq!(txt.len(), 2);
    assert_eq!(txt[0].key().name().as_str(), "a.txt");
    assert_eq!(txt[1].key().name().as_str(), "c.txt");
}

#[test]
fn bad_patterns_are_reported_as_pattern_errors() {
    assert!(matches!(Pattern::new("("), Err(Error::InvalidRegex(_))));
    let p = Pattern::new("a+").unwrap();
    assert_eq!(p.as_str(), "a+");
    assert!(p.is_match("baa"));
    assert!(!p.is_match("b"));
}

#[test]
fn empty_returns_every_container_directory_and_clears_the_index() {
    let mut t = fresh_trash();
    let a = t.delete(String::from("a.txt"), String::from("/tmp/a.txt"));
    let b = t.delete(String::from("b.txt"), String::from("/tmp/b.txt"));
    let dirs = t.empty().unwrap();
    assert_eq!(dirs.len(), 2);
    assert_eq!(dirs[0], a.container_dir);
    assert_eq!(dirs[1], b.container_dir);
    assert_eq!(t.entries().len(), 0);
}

#[test]
fn empty_on_an_empty_trash_fails() {
    let mut t = fresh_trash();
    assert!(matches!(t.empty(), Err(Error::MissingTargetPredicate)));
}

#[test]
fn unicode_helper_follows_the_setting() {
    let plain = Trash::new(Cache::new(), Settings::new(false, false), String::from("/d"));
    assert_eq!(plain.unicode("\u{2022}", "*"), "*");
    let fancy = Trash::new(Cache::new(), Settings::new(true, false), String::from("/d"));
    assert_eq!(fancy.unicode("\u{2022}", "*"), "\u{2022}");
}

#[test]
fn join_path_inserts_one_separator() {
    assert_eq!(join_path("/a/b", "c").as_str(), "/a/b/c");
}

#[test]
fn base_name_takes_the_last_component() {
    assert_eq!(base_name("/tmp/a.txt").unwrap().as_str(), "a.txt");
    assert_eq!(base_name("a.txt").unwrap().as_str(), "a.txt");
    assert!(base_name("/tmp/").is_none());
    assert!(base_name("/").is_none());
    assert!(base_name("").is_none());
}

#[test]
fn commit_and_reload_carries_the_whole_trash_state() {
    let mut t = fresh_trash();
    t.delete(String::from("a.txt"), String::from("/tmp/a.txt"));
    t.delete(String::from("b.txt"), String::from("/tmp/b.txt"));
    let text = t.end();
    let reloaded = Cache::load(text.as_str()).unwrap();
    assert_eq!(reloaded.entries().len(), 2);
    assert_eq!(reloaded.entries()[0].key().name().as_str(), "a.txt");
    assert_eq!(reloaded.entries()[1].key().name().as_str(), "b.txt");
}
