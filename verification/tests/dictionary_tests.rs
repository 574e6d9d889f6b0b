use trash::dictionary::{Category, Dictionary, KeyQuery, ValueQuery};

#[test]
fn push_files_values_under_their_key() {
    let mut d: Dictionary<u64, String> = Dictionary::new();
    d.push(1, String::from("one"));
    d.push(2, String::from("two"));
    d.push(1, String::from("uno"));
    let ones = d.values(&KeyQuery::Is(1));
    assert_eq!(ones.len(), 2);
    assert_eq!(ones[0].as_str(), "one");
    assert_eq!(ones[1].as_str(), "uno");
    let twos = d.values(&KeyQuery::Is(2));
    assert_eq!(twos.len(), 1);
    assert_eq!(twos[0].as_str(), "two");
}

#[test]
fn contains_key_sees_exactly_the_filed_keys() {
    let mut d: Dictionary<u64, u64> = Dictionary::new();
    assert!(!d.contains_key(&KeyQuery::Any));
    d.push(7, 70);
    assert!(d.contains_key(&KeyQuery::Any));
    assert!(d.contains_key(&KeyQuery::Is(7)));
    assert!(!d.contains_key(&KeyQuery::Is(8)));
}

#[test]
fn pop_removes_whole_categories_and_returns_matching_values() {
    let mut d: Dictionary<u64, u64> = Dictionary::new();
    d.push(1, 10);
    d.push(1, 11);
    d.push(2, 20);
    let taken = d.pop(&KeyQuery::Is(1), &ValueQuery::Any);
    assert_eq!(taken, vec![10, 11]);
    assert!(!d.contains_key(&KeyQuery::Is(1)));
    assert!(d.contains_key(&KeyQuery::Is(2)));
}

#[test]
fn pop_with_a_value_query_filters_what_comes_back() {
    let mut d: Dictionary<u64, u64> = Dictionary::new();
    d.push(1, 10);
    d.push(1, 11);
    d.push(1, 10);
    // The category leaves in full, but only the selected values are handed
    // back.
    let taken = d.pop(&KeyQuery::Is(1), &ValueQuery::Is(10));
    assert_eq!(taken, vec![10, 10]);
    assert!(!d.contains_key(&KeyQuery::Is(1)));
}

#[test]
fn pop_everything_drains_the_store_in_order() {
    let mut d: Dictionary<u64, u64> = Dictionary::new();
    d.push(2, 20);
    d.push(1, 10);
    let taken = d.pop(&KeyQuery::Any, &ValueQuery::Any);
    assert_eq!(taken, vec![20, 10]);
    assert!(!d.contains_key(&KeyQuery::Any));
}

#[test]
fn values_of_every_key_come_in_insertion_order() {
    let mut d: Dictionary<u64, String> = Dictionary::new();
    d.push(2, String::from("b"));
    d.push(1, String::from("a"));
    d.push(2, String::from("c"));
    let all = d.values(&KeyQuery::Any);
    let texts: Vec<&str> = all.iter().map(|s| s.as_str()).collect();
    assert_eq!(texts, vec!["b", "c", "a"]);
}

#[test]
fn category_push_pop_and_accessors() {
    let mut c: Category<u64, u64> = Category::new(5, vec![1, 2, 1]);
    assert_eq!(*c.key(), 5);
    assert!(c.is(&5));
    assert!(!c.is(&6));
    c.push(3);
    assert_eq!(c.values(), vec![1, 2, 1, 3]);
    let taken = c.pop(&ValueQuery::Is(1));
    assert_eq!(taken, vec![1, 1]);
    assert_eq!(c.values(), vec![2, 3]);
    let rest = c.pop(&ValueQuery::Any);
    assert_eq!(rest, vec![2, 3]);
    assert_eq!(c.values().len(), 0);
}
