use json_in_type::base_types::{write_double_bits, write_single_bits, JSONfalse, JSONtrue};
use json_in_type::{JSONValue, Sink, SinkError};

/// A double: the library gets its bits and its shortest decimal text.
struct Double(f64);

impl JSONValue for Double {
    fn write_json<W: Sink>(&self, w: &mut W) -> Result<(), SinkError> {
        let mut buffer = ryu_ecmascript::Buffer::new();
        let shortest = if self.0.is_finite() { buffer.format(self.0) } else { "" };
        write_double_bits(self.0.to_bits(), shortest, w)
    }
}

/// A float: the library gets its bits and its shortest decimal text.
struct Single(f32);

impl JSONValue for Single {
    fn write_json<W: Sink>(&self, w: &mut W) -> Result<(), SinkError> {
        let mut buffer = ryu_ecmascript::Buffer::new();
        let shortest = if self.0.is_finite() { buffer.format(self.0) } else { "" };
        write_single_bits(self.0.to_bits(), shortest, w)
    }
}

#[test]
fn test_float() {
    assert_eq!("-1234567890", Double(-1234567890 as f64).to_json_string());
    assert_eq!("null", Double(f64::NAN).to_json_string());
    assert_eq!("null", Double(f64::NEG_INFINITY).to_json_string());
}

#[test]
fn floats_in_a_list() {
    assert_eq!(
        "[1,2.5,null,0.1,1e+21,-0.000001,5e-324,1.7976931348623157e+308]",
        vec![
            Double(1.0),
            Double(2.5),
            Double(f64::INFINITY),
            Double(0.1),
            Double(1e21),
            Double(-0.000001),
            Double(f64::from_bits(1)),
            Double(f64::MAX),
        ]
        .to_json_string()
    );
    assert_eq!(
        "[0.1,null,null,null,3.4028235e+38]",
        vec![
            Single(0.1),
            Single(f32::NAN),
            Single(f32::INFINITY),
            Single(f32::NEG_INFINITY),
            Single(f32::MAX),
        ]
        .to_json_string()
    );
}

#[test]
fn floats_that_are_not_finite_are_null_whatever_their_text() {
    let patterns: [u64; 5] = [
        0x7ff0_0000_0000_0000,
        0xfff0_0000_0000_0000,
        0x7ff8_0000_0000_0000,
        0x7ff0_0000_0000_0001,
        0xffff_ffff_ffff_ffff,
    ];
    for bits in patterns.iter() {
        assert!(!f64::from_bits(*bits).is_finite());
        let mut buffer: Vec<u8> = Vec::new();
        write_double_bits(*bits, "12.5", &mut buffer).unwrap();
        assert_eq!(b"null".to_vec(), buffer);
    }
    let finite: [u64; 4] = [0, 1, 0x7fef_ffff_ffff_ffff, 0x8000_0000_0000_0000];
    for bits in finite.iter() {
        assert!(f64::from_bits(*bits).is_finite());
        let mut buffer: Vec<u8> = Vec::new();
        write_double_bits(*bits, "12.5", &mut buffer).unwrap();
        assert_eq!(b"12.5".to_vec(), buffer);
    }
    let mut buffer: Vec<u8> = Vec::new();
    write_single_bits(0x7f80_0000, "1", &mut buffer).unwrap();
    write_single_bits(0x7f7f_ffff, "1", &mut buffer).unwrap();
    assert_eq!(b"null1".to_vec(), buffer);
}

#[test]
fn finite_floats_are_read_back() {
    let values = [0.0, -0.0, 1.0, 0.1, 1e21, 1e-7, 123456.789, f64::MAX, f64::MIN_POSITIVE, 5e-324];
    for x in values.iter() {
        let read: f64 = serde_json::from_str(&Double(*x).to_json_string()).unwrap();
        assert_eq!(*x, read);
    }
}

#[test]
fn test_int() {
    assert_eq!("-1234567890", (-1234567890 as i32).to_json_string());
    assert_eq!("1234567890123456789", 1234567890123456789u64.to_json_string());
}

#[test]
fn test_bool() {
    assert_eq!("true", true.to_json_string());
    assert_eq!("false", false.to_json_string());
}

#[test]
fn zero_sized_booleans() {
    assert_eq!("true", JSONtrue.to_json_string());
    assert_eq!("false", JSONfalse.to_json_string());
    assert_eq!(0, ::std::mem::size_of_val(&JSONtrue));
    assert_eq!(0, ::std::mem::size_of_val(&JSONfalse));
}

#[test]
fn null_and_option() {
    assert_eq!("null", ().to_json_string());
    assert_eq!("null", (None as Option<u8>).to_json_string());
    assert_eq!("7", Some(7u8).to_json_string());
    assert_eq!("null", Some(()).to_json_string());
}

#[test]
fn integers_of_every_width() {
    assert_eq!("0", 0u8.to_json_string());
    assert_eq!("255", u8::MAX.to_json_string());
    assert_eq!("-128", i8::MIN.to_json_string());
    assert_eq!("65535", u16::MAX.to_json_string());
    assert_eq!("-32768", i16::MIN.to_json_string());
    assert_eq!("4294967295", u32::MAX.to_json_string());
    assert_eq!("-2147483648", i32::MIN.to_json_string());
    assert_eq!("18446744073709551615", u64::MAX.to_json_string());
    assert_eq!("-9223372036854775808", i64::MIN.to_json_string());
    assert_eq!("340282366920938463463374607431768211455", u128::MAX.to_json_string());
    assert_eq!("-170141183460469231731687303715884105728", i128::MIN.to_json_string());
    assert_eq!("10", 10usize.to_json_string());
    assert_eq!("-10", (-10isize).to_json_string());
    assert_eq!("100", 100i128.to_json_string());
}

#[test]
fn references_and_boxes_are_transparent() {
    let n: u32 = 42;
    assert_eq!("42", (&n).to_json_string());
    assert_eq!("42", (&&n).to_json_string());
    assert_eq!("42", Box::new(n).to_json_string());
    assert_eq!("\"x\"", Box::new("x").to_json_string());
    assert_eq!(b"42".to_vec(), n.to_json_buffer());
}
