use json_in_type::record::{
    ident_to_litbytes, write_fields, write_named_fields, write_unnamed_fields, write_variants,
    write_variants_checked,
    Fields,
};
use json_in_type::{JSONValue, Sink, SinkError};

fn names(names: &[&str]) -> Vec<String> {
    names.iter().map(|name| String::from(*name)).collect()
}

#[allow(dead_code)]
struct MyObject {
    void: (),
    list: Vec<u8>,
    hello: String,
}

impl JSONValue for MyObject {
    fn write_json<W: Sink>(&self, w: &mut W) -> Result<(), SinkError> {
        let writes = write_fields(&Fields::Named(names(&["void", "list", "hello"])));
        w.write_all(&writes.literals[0])?;
        self.void.write_json(w)?;
        w.write_all(&writes.literals[1])?;
        self.list.write_json(w)?;
        w.write_all(&writes.literals[2])?;
        self.hello.write_json(w)?;
        w.write_all(&writes.end)
    }
}

#[test]
fn derive_test_simple_json() {
    let obj = MyObject {
        void: (),
        list: vec![1, 2, 3],
        hello: String::from("world"),
    };
    assert_eq!(
        r#"{"void":null,"list":[1,2,3],"hello":"world"}"#,
        obj.to_json_string()
    );
}

#[allow(dead_code)]
struct WrapperStruct(u8, u8);

impl JSONValue for WrapperStruct {
    fn write_json<W: Sink>(&self, w: &mut W) -> Result<(), SinkError> {
        let writes = write_fields(&Fields::Unnamed(2));
        w.write_all(&writes.literals[0])?;
        self.0.write_json(w)?;
        w.write_all(&writes.literals[1])?;
        self.1.write_json(w)?;
        w.write_all(&writes.end)
    }
}

#[test]
fn test_wrapperstruct() {
    let obj = WrapperStruct(9, 4);
    assert_eq!("[9,4]", obj.to_json_string());
}

#[allow(dead_code)]
enum Val {
    A,
    B,
    C,
}

impl JSONValue for Val {
    fn write_json<W: Sink>(&self, w: &mut W) -> Result<(), SinkError> {
        let variants = write_variants(&names(&["A", "B", "C"]));
        match self {
            Val::A => w.write_all(&variants[0]),
            Val::B => w.write_all(&variants[1]),
            Val::C => w.write_all(&variants[2]),
        }
    }
}

#[test]
fn test_enum() {
    let obj = Val::C;
    assert_eq!(r#"{"C":true}"#, obj.to_json_string());
}

struct Nothing;

impl JSONValue for Nothing {
    fn write_json<W: Sink>(&self, w: &mut W) -> Result<(), SinkError> {
        w.write_all(&write_fields(&Fields::Unit).end)
    }
}

#[test]
fn records_without_fields() {
    assert_eq!("null", Nothing.to_json_string());
    let named = write_fields(&Fields::Named(Vec::new()));
    assert!(named.literals.is_empty());
    assert_eq!(b"{}".to_vec(), named.end);
    let unnamed = write_fields(&Fields::Unnamed(0));
    assert!(unnamed.literals.is_empty());
    assert_eq!(b"[]".to_vec(), unnamed.end);
    let unit = write_fields(&Fields::Unit);
    assert!(unit.literals.is_empty());
    assert_eq!(b"null".to_vec(), unit.end);
}

#[test]
fn pieces_before_the_fields() {
    assert_eq!(b"{\"a\":".to_vec(), ident_to_litbytes("a", true));
    assert_eq!(b",\"a\":".to_vec(), ident_to_litbytes("a", false));
    let named = write_named_fields(&names(&["x", "long_name"]));
    assert_eq!(vec![b"{\"x\":".to_vec(), b",\"long_name\":".to_vec()], named.literals);
    assert_eq!(b"}".to_vec(), named.end);
    let unnamed = write_unnamed_fields(3);
    assert_eq!(vec![b"[".to_vec(), b",".to_vec(), b",".to_vec()], unnamed.literals);
    assert_eq!(b"]".to_vec(), unnamed.end);
    assert_eq!(
        vec![b"{\"On\":true}".to_vec(), b"{\"Off\":true}".to_vec()],
        write_variants(&names(&["On", "Off"]))
    );
}

#[test]
fn variants_with_data_are_refused() {
    let units = vec![(String::from("On"), Fields::Unit), (String::from("Off"), Fields::Unit)];
    assert_eq!(
        Some(vec![b"{\"On\":true}".to_vec(), b"{\"Off\":true}".to_vec()]),
        write_variants_checked(&units)
    );
    assert_eq!(Some(Vec::new()), write_variants_checked(&Vec::new()));
    let tuple = vec![(String::from("A"), Fields::Unit), (String::from("B"), Fields::Unnamed(1))];
    assert_eq!(None, write_variants_checked(&tuple));
    let named =
        vec![(String::from("A"), Fields::Named(vec![String::from("x")])), (String::from("B"), Fields::Unit)];
    assert_eq!(None, write_variants_checked(&named));
    let empty_tuple = vec![(String::from("A"), Fields::Unnamed(0))];
    assert_eq!(None, write_variants_checked(&empty_tuple));
}
