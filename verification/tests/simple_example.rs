use json_in_type::list::{JSONListElem, JSONListEnd};
use json_in_type::object::{JSONObjectEnd, JSONObjectEntry};
use json_in_type::JSONValue;

#[test]
fn simple_example_test_simple_json() {
    let obj = JSONObjectEntry {
        key: "void",
        value: (),
        next: JSONObjectEntry {
            key: "list",
            value: JSONListElem::new(1, JSONListElem::new(2, JSONListElem::new(3, JSONListEnd {}))),
            next: JSONObjectEntry { key: "hello", value: "world", next: JSONObjectEnd {} },
        },
    };
    let mut buf: Vec<u8> = vec![];
    obj.write_json(&mut buf).unwrap();
    assert_eq!(
        br#"{"void":null,"list":[1,2,3],"hello":"world"}"#.to_vec(),
        buf
    );
}
