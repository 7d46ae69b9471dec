use json_pretty::utf8_order::key_precedes;
use json_pretty::{Json, Object};
use std::collections::BTreeMap;

fn keys_of(object: &Object) -> Vec<String> {
    let mut keys = Vec::new();
    let mut place = 0;
    while let Some((key, _)) = object.nth(place) {
        keys.push(key.clone());
        place += 1;
    }
    keys
}

fn number_of(doc: &Json) -> i32 {
    match doc {
        Json::Number(n) => *n,
        _ => panic!("not a number"),
    }
}

#[test]
fn new_object_is_empty() {
    let object = Object::new();
    assert_eq!(object.len(), 0);
    assert!(object.nth(0).is_none());
}

#[test]
fn insert_returns_nothing_for_a_new_key() {
    let mut object = Object::new();
    assert!(object.insert("a".to_string(), Json::Number(1)).is_none());
    assert!(object.insert("b".to_string(), Json::Number(2)).is_none());
    assert_eq!(object.len(), 2);
}

#[test]
fn insert_under_a_key_that_is_there_replaces_the_member() {
    let mut object = Object::new();
    object.insert("k".to_string(), Json::Number(1));
    object.insert("j".to_string(), Json::Number(5));
    let previous = object.insert("k".to_string(), Json::Number(2));
    assert_eq!(number_of(&previous.unwrap()), 1);
    assert_eq!(object.len(), 2);
    let previous = object.insert("k".to_string(), Json::Number(3));
    assert_eq!(number_of(&previous.unwrap()), 2);
    assert_eq!(object.len(), 2);
    assert_eq!(
        Json::Dict(object).to_string(),
        "{\n  \"j\": 5,\n  \"k\": 3\n}"
    );
}

#[test]
fn entries_come_in_ascending_order_of_keys() {
    let mut object = Object::new();
    for (i, key) in ["pear", "apple", "fig", "banana", "cherry"].iter().enumerate() {
        object.insert(key.to_string(), Json::Number(i as i32));
    }
    assert_eq!(
        keys_of(&object),
        vec!["apple", "banana", "cherry", "fig", "pear"]
    );
    let (key, value) = object.nth(3).unwrap();
    assert_eq!(key, "fig");
    assert_eq!(number_of(value), 2);
    assert!(object.nth(5).is_none());
    assert!(object.nth(usize::MAX).is_none());
}

#[test]
fn keys_are_listed_in_ascending_order() {
    let mut object = Object::new();
    object.insert("b".to_string(), Json::Number(2));
    object.insert("c".to_string(), Json::Number(3));
    object.insert("a".to_string(), Json::Number(1));
    assert_eq!(
        Json::Dict(object).to_string(),
        "{\n  \"a\": 1,\n  \"b\": 2,\n  \"c\": 3\n}"
    );
}

#[test]
fn a_key_comes_after_its_own_beginning() {
    let mut object = Object::new();
    for key in ["ab", "", "abc", "a", "b"] {
        object.insert(key.to_string(), Json::Null);
    }
    assert_eq!(keys_of(&object), vec!["", "a", "ab", "abc", "b"]);
}

#[test]
fn capitals_come_before_small_letters() {
    let mut object = Object::new();
    for key in ["a", "B", "b", "A", "_", "1"] {
        object.insert(key.to_string(), Json::Null);
    }
    assert_eq!(keys_of(&object), vec!["1", "A", "B", "_", "a", "b"]);
}

#[test]
fn keys_beyond_ascii_are_ordered_by_their_characters() {
    let mut object = Object::new();
    for key in ["\u{e9}", "z", "\u{1f600}", "\u{4e16}", "e", "\u{ffff}", "\u{7ff}"] {
        object.insert(key.to_string(), Json::Null);
    }
    assert_eq!(
        keys_of(&object),
        vec!["e", "z", "\u{e9}", "\u{7ff}", "\u{4e16}", "\u{ffff}", "\u{1f600}"]
    );
}

#[test]
fn keys_are_not_escaped() {
    let mut object = Object::new();
    object.insert("a\"b".to_string(), Json::Number(1));
    object.insert("c, d".to_string(), Json::Number(2));
    assert_eq!(
        Json::Dict(object).to_string(),
        "{\n  \"a\"b\": 1,\n  \"c, d\": 2\n}"
    );
}

#[test]
fn order_agrees_with_a_sorted_map_of_the_standard_library() {
    let keys = [
        "delta", "alpha", "", "Alpha", "alp", "alpha0", "\u{e9}t\u{e9}", "zeta", "Zeta", "10",
        "9", "a b", "a-b", "a_b", "\u{4e16}\u{754c}", "~", " ", "alpha", "zeta",
    ];
    let mut ours = Object::new();
    let mut theirs: BTreeMap<String, i32> = BTreeMap::new();
    for (i, key) in keys.iter().enumerate() {
        let ours_previous = ours.insert(key.to_string(), Json::Number(i as i32));
        let theirs_previous = theirs.insert(key.to_string(), i as i32);
        assert_eq!(ours_previous.map(|p| number_of(&p)), theirs_previous);
        assert_eq!(ours.len(), theirs.len());
    }
    let mut place = 0;
    for (key, value) in theirs.iter() {
        let (our_key, our_value) = ours.nth(place).unwrap();
        assert_eq!(our_key, key);
        assert_eq!(number_of(our_value), *value);
        place += 1;
    }
    assert!(ours.nth(place).is_none());
}

#[test]
fn many_keys_in_any_order() {
    let mut forward = Object::new();
    let mut backward = Object::new();
    let mut shuffled = Object::new();
    let n: usize = 200;
    for i in 0..n {
        forward.insert(format!("key{:03}", i), Json::Number(i as i32));
        let j = n - 1 - i;
        backward.insert(format!("key{:03}", j), Json::Number(j as i32));
        let k = (i * 73) % n;
        shuffled.insert(format!("key{:03}", k), Json::Number(k as i32));
    }
    assert_eq!(forward.len(), n);
    assert_eq!(backward.len(), n);
    assert_eq!(shuffled.len(), n);
    let expected: Vec<String> = (0..n).map(|i| format!("key{:03}", i)).collect();
    assert_eq!(keys_of(&forward), expected);
    assert_eq!(keys_of(&backward), expected);
    assert_eq!(keys_of(&shuffled), expected);
    let text = Json::Dict(forward).to_string();
    assert_eq!(text, Json::Dict(backward).to_string());
    assert_eq!(text, Json::Dict(shuffled).to_string());
}

#[test]
fn key_precedes_is_the_order_of_strings() {
    let samples = [
        "", "a", "A", "aa", "ab", "b", "ba", "abc", "abd", "\u{e9}", "z", "\u{4e16}",
        "\u{1f600}", "\u{7f}", "\u{80}", "0", "10", "9", " ",
    ];
    for a in samples.iter() {
        for b in samples.iter() {
            assert_eq!(key_precedes(a, b), a < b);
        }
    }
}

#[test]
fn key_precedes_examples() {
    assert!(key_precedes("a", "b"));
    assert!(!key_precedes("b", "a"));
    assert!(!key_precedes("a", "a"));
    assert!(key_precedes("", "a"));
    assert!(!key_precedes("", ""));
    assert!(key_precedes("a", "ab"));
    assert!(!key_precedes("ab", "a"));
    assert!(key_precedes("Z", "a"));
    assert!(key_precedes("z", "\u{e9}"));
}
