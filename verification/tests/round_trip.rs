use json_in_type::list::{JSONListElem, JSONListEnd};
use json_in_type::object::{JSONObjectEnd, JSONObjectEntry};
use json_in_type::JSONValue;

fn read_i64(text: &str) -> i64 {
    serde_json::from_str(text).unwrap()
}

fn read_u64(text: &str) -> u64 {
    serde_json::from_str(text).unwrap()
}

fn read_string(text: &str) -> String {
    serde_json::from_str(text).unwrap()
}

#[test]
fn integers_are_read_back() {
    let signed: [i64; 9] = [0, 1, -1, 9, 10, -10, 1234567890, i64::MAX, i64::MIN];
    for n in signed.iter() {
        assert_eq!(*n, read_i64(&n.to_json_string()));
    }
    let unsigned: [u64; 6] = [0, 7, 99, 100, 1234567890123456789, u64::MAX];
    for n in unsigned.iter() {
        assert_eq!(*n, read_u64(&n.to_json_string()));
    }
    for n in -300i32..300 {
        assert_eq!(n as i64, read_i64(&n.to_json_string()));
        assert_eq!(n.to_string(), n.to_json_string());
    }
}

#[test]
fn control_characters_are_read_back() {
    for c in 0u8..0x80 {
        let text = String::from_utf8(vec![b'a', c, b'z']).unwrap();
        assert_eq!(text, read_string(&text.to_json_string()));
        let single = c as char;
        assert_eq!(single.to_string(), read_string(&single.to_json_string()));
    }
}

#[test]
fn strings_are_read_back() {
    let texts = [
        "",
        "Hello, world!",
        "\"",
        "\\",
        "\\\"\\",
        "\t\t\n",
        "I ❤️ \"pépé\" \n backslash: \\!!!\n",
        "\u{7f}\u{80}\u{7ff}\u{800}\u{ffff}\u{10000}\u{10ffff}",
        "0123456789abcdef0123456789abcdef\0",
        "quote at sixteen\"and after",
        "éééééééé\\éééééééé\nééééééééé",
    ];
    for text in texts.iter() {
        assert_eq!(*text, read_string(&text.to_json_string()));
        assert_eq!(*text, read_string(&String::from(*text).to_json_string()));
    }
}

#[test]
fn long_strings_are_read_back() {
    let source = String::from("0123456789abcdef\u{2a6a5}\"\\\u{1}").repeat(1000);
    assert_eq!(source, read_string(&source.to_json_string()));
}

#[test]
fn composites_are_read_back() {
    let list = JSONListElem::new(1, JSONListElem::new(true, JSONListElem::new("hello", JSONListEnd {})));
    let value: serde_json::Value = serde_json::from_str(&list.to_json_string()).unwrap();
    assert_eq!(Some(1), value[0].as_i64());
    assert_eq!(Some(true), value[1].as_bool());
    assert_eq!(Some("hello"), value[2].as_str());
    assert_eq!(3, value.as_array().unwrap().len());

    let object = JSONObjectEntry {
        key: "a\"b",
        value: vec![Some(1u8), None],
        next: JSONObjectEntry { key: 'k', value: (), next: JSONObjectEnd {} },
    };
    let value: serde_json::Value = serde_json::from_str(&object.to_json_string()).unwrap();
    assert_eq!(Some(1), value["a\"b"][0].as_i64());
    assert!(value["a\"b"][1].is_null());
    assert!(value["k"].is_null());
    assert_eq!(2, value.as_object().unwrap().len());
}
