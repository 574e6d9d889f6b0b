use trash::cache::{Cache, Entry, Key};
use trash::error::Error;

fn entry(name: &str, origin: &str, uuid: &str, versions: &[&str]) -> Entry {
    Entry::new(
        Key::new(String::from(name), String::from(origin)),
        String::from(uuid),
        versions.iter().map(|v| String::from(*v)).collect(),
    )
}

fn assert_same_contents(a: &Cache, b: &Cache) {
    let ea = a.entries();
    let eb = b.entries();
    assert_eq!(ea.len(), eb.len());
    for i in 0..ea.len() {
        assert_eq!(ea[i].key().name(), eb[i].key().name());
        assert_eq!(ea[i].key().origin(), eb[i].key().origin());
        assert_eq!(ea[i].uuid(), eb[i].uuid());
        assert_eq!(ea[i].history(), eb[i].history());
    }
}

#[test]
fn commit_then_load_reproduces_the_index() {
    let cache = Cache::from_entries(vec![
        entry("a.txt", "/tmp/a.txt", "cont-1", &["2019-01-01 10:00:00 UTC", "v2"]),
        entry("b.txt", "/home/user/b.txt", "cont-2", &["only"]),
    ]);
    let text = cache.end();
    let reloaded = Cache::load(text.as_str()).unwrap();
    assert_same_contents(&cache, &reloaded);
}

#[test]
fn round_trip_keeps_escaped_characters() {
    let hairy_origin = "/tmp/we\"ird\\name\nwith\tcontrols";
    let cache = Cache::from_entries(vec![entry("we\"ird", hairy_origin, "c", &["v\\1"])]);
    let text = cache.end();
    let reloaded = Cache::load(text.as_str()).unwrap();
    assert_same_contents(&cache, &reloaded);
    assert_eq!(reloaded.entries()[0].key().origin().as_str(), hairy_origin);
}

#[test]
fn empty_index_renders_as_an_empty_list() {
    let cache = Cache::new();
    assert_eq!(cache.end().as_str(), "[]");
    let reloaded = Cache::load("[]").unwrap();
    assert_eq!(reloaded.entries().len(), 0);
}

#[test]
fn rendered_document_shape_is_compact_json() {
    let cache = Cache::from_entries(vec![entry("a", "/a", "c", &["v1", "v2"])]);
    assert_eq!(
        cache.end().as_str(),
        "[{\"key\":{\"name\":\"a\",\"origin\":\"/a\"},\"uuid\":\"c\",\"history\":[\"v1\",\"v2\"]}]",
    );
}

#[test]
fn rendered_document_is_json_other_readers_accept() {
    let cache = Cache::from_entries(vec![
        entry("a.txt", "/tmp/a\"x", "cont-1", &["v1", "v2"]),
        entry("b", "/b", "cont-2", &["w"]),
    ]);
    let text = cache.end();
    let value: serde_json::Value = serde_json::from_str(text.as_str()).unwrap();
    let list = value.as_array().unwrap();
    assert_eq!(list.len(), 2);
    assert_eq!(list[0]["key"]["name"].as_str().unwrap(), "a.txt");
    assert_eq!(list[0]["key"]["origin"].as_str().unwrap(), "/tmp/a\"x");
    assert_eq!(list[0]["uuid"].as_str().unwrap(), "cont-1");
    assert_eq!(list[0]["history"][1].as_str().unwrap(), "v2");
    assert_eq!(list[1]["history"][0].as_str().unwrap(), "w");
}

#[test]
fn missing_or_empty_document_means_an_empty_index() {
    assert_eq!(Cache::load("").unwrap().entries().len(), 0);
}

#[test]
fn document_ending_too_early_means_an_empty_index() {
    assert_eq!(Cache::load("[").unwrap().entries().len(), 0);
    assert_eq!(Cache::load("[{\"key\"").unwrap().entries().len(), 0);
}

#[test]
fn malformed_document_reports_line_and_column() {
    match Cache::load("x") {
        Err(Error::InvalidJSON(line, column)) => {
            assert_eq!(line, 1);
            assert_eq!(column, 1);
        },
        _ => panic!("expected a syntax failure"),
    }
    match Cache::load("[}") {
        Err(Error::InvalidJSON(line, column)) => {
            assert_eq!(line, 1);
            assert_eq!(column, 2);
        },
        _ => panic!("expected a syntax failure"),
    }
}

#[test]
fn malformed_document_position_points_at_the_offender() {
    // The entry list may not hold raw whitespace; the newline itself is
    // the first offending character, on line one, column two.
    match Cache::load("[\nnope]") {
        Err(Error::InvalidJSON(line, column)) => {
            assert_eq!(line, 1);
            assert_eq!(column, 2);
        },
        _ => panic!("expected a syntax failure"),
    }
}

#[test]
fn duplicate_keys_are_malformed() {
    let one = "{\"key\":{\"name\":\"a\",\"origin\":\"/a\"},\"uuid\":\"c1\",\"history\":[\"v\"]}";
    let two = "{\"key\":{\"name\":\"a\",\"origin\":\"/a\"},\"uuid\":\"c2\",\"history\":[\"w\"]}";
    let text = format!("[{},{}]", one, two);
    assert!(matches!(Cache::load(text.as_str()), Err(Error::InvalidJSON(_, _))));
}

#[test]
fn empty_history_is_malformed() {
    let text = "[{\"key\":{\"name\":\"a\",\"origin\":\"/a\"},\"uuid\":\"c\",\"history\":[]}]";
    assert!(matches!(Cache::load(text), Err(Error::InvalidJSON(_, _))));
}

#[test]
fn trailing_text_is_malformed() {
    assert!(matches!(Cache::load("[] "), Err(Error::InvalidJSON(_, _))));
}

#[test]
fn short_escapes_decode_like_other_json_writers_emit_them() {
    // Documents written by other JSON writers may use the short escapes.
    let text = "[{\"key\":{\"name\":\"a\\tb\\nc\",\"origin\":\"\\/a\"},\"uuid\":\"c\",\"history\":[\"v\\r\"]}]";
    let cache = Cache::load(text).unwrap();
    assert_eq!(cache.entries()[0].key().name().as_str(), "a\tb\nc");
    assert_eq!(cache.entries()[0].key().origin().as_str(), "/a");
    assert_eq!(cache.entries()[0].history()[0].as_str(), "v\r");
}

#[test]
fn unicode_escapes_decode_to_control_characters() {
    let text = "[{\"key\":{\"name\":\"a\\u0009b\",\"origin\":\"/a\"},\"uuid\":\"c\",\"history\":[\"v\"]}]";
    let cache = Cache::load(text).unwrap();
    assert_eq!(cache.entries()[0].key().name().as_str(), "a\tb");
}
