use json_in_type::object::{
    write_object, write_object_entry, JSONObject, JSONObjectEnd, JSONObjectEntry,
    ToJSONObject,
};
use json_in_type::JSONValue;
use std::collections::HashMap;

#[test]
fn test_empty() {
    assert_eq!("{}", JSONObjectEnd.to_json_string());
    assert_eq!("{}", JSONObjectEnd {}.to_json_string());
}

#[test]
fn test_single_pair() {
    assert_eq!(
        r#"{"x":{}}"#,
        JSONObjectEntry { key: "x", value: JSONObjectEnd {}, next: JSONObjectEnd {} }
            .to_json_string()
    );
    // With a trailing comma:
    assert_eq!(
        r#"{"x":{}}"#,
        JSONObjectEntry { key: "x", value: JSONObjectEnd {}, next: JSONObjectEnd {}, }
            .to_json_string()
    );
}

#[test]
fn test_two_pairs() {
    assert_eq!(
        r#"{"x":{},"y":{}}"#,
        JSONObjectEntry {
            key: "x",
            value: JSONObjectEnd {},
            next: JSONObjectEntry { key: "y", value: JSONObjectEnd {}, next: JSONObjectEnd {} },
        }
        .to_json_string()
    );
}

#[test]
fn test_nested() {
    assert_eq!(
        r#"{"x":{"y":{}}}"#,
        JSONObjectEntry {
            key: "x",
            value: JSONObjectEntry { key: "y", value: JSONObjectEnd {}, next: JSONObjectEnd {} },
            next: JSONObjectEnd {},
        }
        .to_json_string()
    );
}

#[test]
fn test_dynamic_keys() {
    let x = "x";
    let y = String::from("y");
    assert_eq!(
        r#"{"x":{"y":{}}}"#,
        JSONObjectEntry {
            key: x,
            value: JSONObjectEntry { key: y, value: JSONObjectEnd {}, next: JSONObjectEnd {} },
            next: JSONObjectEnd {},
        }
        .to_json_string()
    );
}

#[test]
fn test_hashmap() {
    let mut map = HashMap::new();
    map.insert("x", 1);
    map.insert("y", 2);
    // The order in which the keys are serialized is not guaranteed
    let expected = vec![r#"{"x":1,"y":2}"#, r#"{"y":2,"x":1}"#];
    assert!(expected.contains(&&map.to_json_string()[..]));
    let text = String::from_utf8(map.to_json_buffer()).unwrap();
    assert!(expected.contains(&&text[..]));
}

#[test]
fn empty_and_single_hashmap() {
    let mut map: HashMap<String, bool> = HashMap::new();
    assert_eq!(b"{}".to_vec(), map.to_json_buffer());
    map.insert(String::from("a\"b"), true);
    let mut buffer: Vec<u8> = Vec::new();
    map.write_json(&mut buffer).unwrap();
    assert_eq!(br#"{"a\"b":true}"#.to_vec(), buffer);
    assert_eq!(br#"[{"a\"b":true}]"#.to_vec(), vec![map].to_json_buffer());
}

#[test]
fn pairs_in_a_vector() {
    let my_obj = ToJSONObject(vec![("x", 1), ("y", 2)]);
    assert_eq!("{\"x\":1,\"y\":2}", my_obj.to_json_string());
    let none: ToJSONObject<char, u8> = ToJSONObject(vec![]);
    assert_eq!("{}", none.to_json_string());
    assert_eq!("{\"k\":null}", ToJSONObject(vec![('k', ())]).to_json_string());
}

#[test]
fn one_entry() {
    let mut buffer: Vec<u8> = Vec::new();
    write_object_entry(&mut buffer, &"key", &vec![1, 2]).unwrap();
    assert_eq!(b"\"key\":[1,2]".to_vec(), buffer);
}

#[test]
fn pairs_from_an_iterator() {
    let pairs = vec![("a", 1u8), ("b", 2u8), ("c", 3u8)];
    let mut iter = pairs.iter();
    let mut buffer: Vec<u8> = Vec::new();
    write_object(&mut buffer, &mut iter).unwrap();
    assert_eq!(br#"{"a":1,"b":2,"c":3}"#.to_vec(), buffer);
    let mut again: Vec<u8> = Vec::new();
    write_object(&mut again, &mut iter).unwrap();
    assert_eq!(b"{}".to_vec(), again);
}

#[test]
fn ending_of_an_object_chain() {
    let chain = JSONObjectEntry { key: "x", value: 1, next: JSONObjectEnd {} };
    let mut buffer: Vec<u8> = Vec::new();
    chain.write_json_ending(&mut buffer, false).unwrap();
    assert_eq!(br#","x":1}"#.to_vec(), buffer);
    let mut buffer: Vec<u8> = Vec::new();
    chain.write_json_ending(&mut buffer, true).unwrap();
    assert_eq!(br#"{"x":1}"#.to_vec(), buffer);
    let mut buffer: Vec<u8> = Vec::new();
    chain.write_json_full(&mut buffer).unwrap();
    assert_eq!(br#"{"x":1}"#.to_vec(), buffer);
    let mut buffer: Vec<u8> = Vec::new();
    JSONObjectEnd {}.write_json_ending(&mut buffer, false).unwrap();
    assert_eq!(b"}".to_vec(), buffer);
    let mut buffer: Vec<u8> = Vec::new();
    JSONObjectEnd {}.write_json_ending(&mut buffer, true).unwrap();
    assert_eq!(b"{}".to_vec(), buffer);
}

#[test]
fn chains_and_pairs_agree() {
    let chain = JSONObjectEntry {
        key: "x",
        value: 1,
        next: JSONObjectEntry { key: "y", value: 2, next: JSONObjectEnd {} },
    };
    assert_eq!(chain.to_json_buffer(), ToJSONObject(vec![("x", 1), ("y", 2)]).to_json_buffer());
}

fn level<V: JSONValue>(value: V) -> JSONObjectEntry<&'static str, V, JSONObjectEnd> {
    JSONObjectEntry { key: "nested", value, next: JSONObjectEnd {} }
}

#[test]
fn eight_levels_of_nesting() {
    let n: u8 = 5;
    let innermost = JSONObjectEntry { key: "value", value: n, next: JSONObjectEnd {} };
    let obj = level(level(level(level(level(level(level(innermost)))))));
    let text = obj.to_json_string();
    assert_eq!(
        r#"{"nested":{"nested":{"nested":{"nested":{"nested":{"nested":{"nested":{"value":5}}}}}}}}"#,
        text
    );
    assert_eq!(8, text.matches('{').count());
    assert_eq!(8, text.matches('}').count());
    assert!(!text.contains(' '));
}
