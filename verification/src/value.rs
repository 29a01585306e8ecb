//! The contract that every encodable value meets.
use vstd::prelude::*;
use vstd::utf8::{decode_utf8, encode_utf8, encode_utf8_decode_utf8};
use crate::sink::{wrote, Sink, SinkError};
use crate::utils::FormatterWriter;

verus! {

/// A value that can be serialized to JSON.
///
/// A type that is verified states its JSON text (`json`) and sets
/// `obeys_json_spec`. A type that only implements `write_json` keeps the
/// defaults, and nothing is claimed of what it writes.
pub trait JSONValue {
    /// True of a type whose `write_json` writes exactly what `json` says.
    open spec fn obeys_json_spec() -> bool {
        false
    }

    /// True of a type whose `write_json` goes through on every sink that
    /// takes all UTF-8 text. It holds of every type that writes what `json`
    /// says, and of a type, such as a hash map, whose text is well-formed but
    /// cannot be stated beforehand.
    open spec fn always_writes_text() -> bool {
        Self::obeys_json_spec()
    }

    /// The JSON text of the value: no leading or trailing whitespace.
    open spec fn json(&self) -> Seq<u8> {
        Seq::<u8>::empty()
    }

    /// Writes the value as JSON to the given sink. It fails only where the
    /// sink fails, and a sink that takes all UTF-8 text never does.
    fn write_json<W: Sink>(&self, w: &mut W) -> (r: Result<(), SinkError>)
        ensures
            Self::obeys_json_spec() && W::obeys_sink_spec() ==> wrote(
                &*old(w),
                &*final(w),
                r,
                self.json(),
                true,
            ),
            Self::always_writes_text() && W::obeys_sink_spec() && old(w).accepts_utf8() ==> r
                is Ok,
    ;

    /// Returns the value formatted as a JSON string.
    fn to_json_string(&self) -> (r: String)
        requires
            Self::always_writes_text(),
        ensures
            Self::obeys_json_spec() ==> encode_utf8(r@) == self.json(),
            Self::obeys_json_spec() ==> r@ == decode_utf8(self.json()),
    {
        let mut writer = FormatterWriter::new();
        match self.write_json(&mut writer) {
            Ok(()) => {
                proof {
                    if Self::obeys_json_spec() {
                        assert(writer.written() =~= self.json());
                        encode_utf8_decode_utf8(writer.0@);
                    }
                }
                writer.0
            },
            Err(_) => vstd::pervasive::unreached(),
        }
    }

    /// Returns a buffer that holds the bytes of the value's JSON text.
    fn to_json_buffer(&self) -> (r: Vec<u8>)
        ensures
            Self::obeys_json_spec() ==> r@ == self.json(),
    {
        let mut buffer: Vec<u8> = Vec::with_capacity(512);
        let _ = self.write_json(&mut buffer);
        proof {
            if Self::obeys_json_spec() {
                assert(buffer@ =~= self.json());
            }
        }
        buffer
    }
}

/// A value behind a shared reference encodes as the value itself.
impl<'a, S: JSONValue + ?Sized> JSONValue for &'a S {
    open spec fn always_writes_text() -> bool {
        S::always_writes_text()
    }

    open spec fn obeys_json_spec() -> bool {
        S::obeys_json_spec()
    }

    open spec fn json(&self) -> Seq<u8> {
        (**self).json()
    }

    fn write_json<W: Sink>(&self, w: &mut W) -> (r: Result<(), SinkError>) {
        (**self).write_json(w)
    }
}

/// A boxed value encodes as the value itself.
impl<S: JSONValue + ?Sized> JSONValue for Box<S> {
    open spec fn always_writes_text() -> bool {
        S::always_writes_text()
    }

    open spec fn obeys_json_spec() -> bool {
        S::obeys_json_spec()
    }

    open spec fn json(&self) -> Seq<u8> {
        (**self).json()
    }

    fn write_json<W: Sink>(&self, w: &mut W) -> (r: Result<(), SinkError>) {
        (**self).write_json(w)
    }
}

/// Encapsulates a `JSONValue` and gives it the conversions of a finished
/// text: to a string, as formatting does it, and to a byte buffer.
pub struct JSON<T: JSONValue>(pub T);

impl<T: JSONValue> JSON<T> {
    /// Writes the value's JSON text to the text stream behind `f`.
    pub fn fmt(&self, f: &mut FormatterWriter) -> (r: Result<(), SinkError>)
        ensures
            T::obeys_json_spec() ==> r is Ok,
            T::obeys_json_spec() ==> final(f).written() == old(f).written() + self.0.json(),
    {
        self.0.write_json(f)
    }

    /// The value's JSON text, as formatting the value yields it.
    pub fn to_string(&self) -> (r: String)
        ensures
            T::obeys_json_spec() ==> encode_utf8(r@) == self.0.json(),
            T::obeys_json_spec() ==> r@ == decode_utf8(self.0.json()),
    {
        let mut writer = FormatterWriter::new();
        let _ = self.fmt(&mut writer);
        proof {
            if T::obeys_json_spec() {
                assert(writer.written() =~= self.0.json());
                encode_utf8_decode_utf8(writer.0@);
            }
        }
        writer.0
    }
}

/// What the conversion to a byte buffer yields is stated on `from` itself, by
/// the buffer's contents.
impl<T: JSONValue> vstd::std_specs::convert::FromSpecImpl<JSON<T>> for Vec<u8> {
    open spec fn obeys_from_spec() -> bool {
        false
    }

    open spec fn from_spec(json: JSON<T>) -> Vec<u8> {
        vstd::pervasive::arbitrary()
    }
}

impl<T: JSONValue> From<JSON<T>> for Vec<u8> {
    /// The bytes of the value's JSON text.
    fn from(json: JSON<T>) -> (r: Vec<u8>)
        ensures
            T::obeys_json_spec() ==> r@ == json.0.json(),
    {
        json.0.to_json_buffer()
    }
}

} // verus!
