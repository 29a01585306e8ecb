use json_in_type::object::{JSONObjectEnd, JSONObjectEntry};
use json_in_type::sink::write_byte;
use json_in_type::string::{write_json_nosimd, write_json_nosimd_prevalidated, write_json_simd};
use json_in_type::utils::FormatterWriter;
use json_in_type::{JSONValue, Sink, SinkError};

/// A sink that takes so many bytes and then fails.
struct Limited {
    taken: Vec<u8>,
    room: usize,
    calls: usize,
}

impl Sink for Limited {
    fn write_all(&mut self, buf: &[u8]) -> Result<(), SinkError> {
        self.calls += 1;
        if buf.len() > self.room {
            return Err(SinkError::Other);
        }
        self.room -= buf.len();
        self.taken.extend_from_slice(buf);
        Ok(())
    }
}

/// A value that emits bytes that are no text.
struct Malformed;

impl JSONValue for Malformed {
    fn write_json<W: Sink>(&self, w: &mut W) -> Result<(), SinkError> {
        w.write_all(&[b'"', 0xff, b'"'])
    }
}

#[test]
fn a_failure_of_the_sink_is_handed_on() {
    let value = vec!["abc", "def", "ghi"];
    let whole = value.to_json_buffer();
    for room in 0..whole.len() {
        let mut sink = Limited { taken: Vec::new(), room, calls: 0 };
        assert_eq!(Err(SinkError::Other), value.write_json(&mut sink));
        assert!(whole.starts_with(&sink.taken));
    }
    let mut sink = Limited { taken: Vec::new(), room: whole.len(), calls: 0 };
    assert_eq!(Ok(()), value.write_json(&mut sink));
    assert_eq!(whole, sink.taken);
}

#[test]
fn a_failure_stops_the_writing() {
    let object = JSONObjectEntry { key: "k", value: 1u8, next: JSONObjectEnd {} };
    let mut sink = Limited { taken: Vec::new(), room: 0, calls: 0 };
    assert_eq!(Err(SinkError::Other), object.write_json(&mut sink));
    assert_eq!(1, sink.calls);
}

#[test]
fn a_clean_text_is_written_in_one_piece() {
    let text = String::from("x").repeat(1000);
    let mut sink = Limited { taken: Vec::new(), room: 2000, calls: 0 };
    assert_eq!(Ok(()), text.write_json(&mut sink));
    assert_eq!(3, sink.calls);
    assert_eq!(1002, sink.taken.len());
}

#[test]
fn malformed_bytes_are_refused_as_invalid_data() {
    let mut writer = FormatterWriter::new();
    assert_eq!(Err(SinkError::InvalidData), Malformed.write_json(&mut writer));
    assert_eq!("", writer.0);
    let mut buffer: Vec<u8> = Vec::new();
    assert_eq!(Ok(()), Malformed.write_json(&mut buffer));
    assert_eq!(vec![b'"', 0xff, b'"'], buffer);
}

#[test]
fn single_bytes() {
    let mut buffer: Vec<u8> = vec![1, 2];
    assert_eq!(Ok(()), write_byte(&mut buffer, b','));
    assert_eq!(vec![1, 2, b','], buffer);
    assert_eq!(Ok(()), buffer.write_all(b"ab"));
    assert_eq!(vec![1, 2, b',', b'a', b'b'], buffer);
}

/// A sink that refuses every chunk with the error it is made with.
struct Refusing(SinkError);

impl Sink for Refusing {
    fn write_all(&mut self, _buf: &[u8]) -> Result<(), SinkError> {
        Err(self.0)
    }
}

#[test]
fn the_error_of_the_sink_comes_back_unchanged() {
    for error in [SinkError::Other, SinkError::InvalidData].iter() {
        assert_eq!(Err(*error), "text".write_json(&mut Refusing(*error)));
        assert_eq!(Err(*error), 'c'.write_json(&mut Refusing(*error)));
        assert_eq!(Err(*error), 12u8.write_json(&mut Refusing(*error)));
        assert_eq!(Err(*error), vec![1, 2].write_json(&mut Refusing(*error)));
        assert_eq!(Err(*error), ().write_json(&mut Refusing(*error)));
        let object = JSONObjectEntry { key: "k", value: true, next: JSONObjectEnd {} };
        assert_eq!(Err(*error), object.write_json(&mut Refusing(*error)));
    }
}

#[test]
fn a_byte_buffer_takes_bytes_that_are_no_text() {
    let mut buffer: Vec<u8> = Vec::new();
    assert_eq!(Ok(()), write_json_nosimd(&[0x80, b'"', 0xff], &mut buffer));
    assert_eq!(vec![0x80, b'\\', b'"', 0xff], buffer);
    let mut buffer: Vec<u8> = Vec::new();
    assert_eq!(Ok(()), write_json_nosimd_prevalidated(&[b'a', 0xc3, b'\n', 0xff], 1, 2, &mut buffer));
    assert_eq!(vec![0xc3, b'\\', b'n', 0xff], buffer);
    let mut buffer: Vec<u8> = Vec::new();
    assert_eq!(Ok(()), write_json_simd(&[0xff; 40], &mut buffer));
    assert_eq!(vec![0xff; 40], buffer);
    let mut writer = FormatterWriter::new();
    assert_eq!(Err(SinkError::InvalidData), write_json_nosimd(&[0x80], &mut writer));
}
