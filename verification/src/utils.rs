//! Useful tools when working with the types in this crate.
use vstd::prelude::*;
use vstd::string::StringExecFns;
use vstd::utf8::{decode_utf8, decode_utf8_encode_utf8, encode_utf8, valid_utf8};
use crate::sink::{Sink, SinkError};

verus! {

/// `std::str::from_utf8`: the text that the bytes encode, where they are
/// well-formed UTF-8, and nothing where they are not.
#[verifier::external_body]
fn str_from_utf8<'a>(bytes: &'a [u8]) -> (r: Option<&'a str>)
    ensures
        r is Some <==> valid_utf8(bytes@),
        r matches Some(s) ==> s@ == decode_utf8(bytes@),
{
    std::str::from_utf8(bytes).ok()
}

/// The UTF-8 encoding of two texts, one behind the other, is the encoding of
/// the first followed by the encoding of the second.
pub proof fn lemma_encode_utf8_concat(a: Seq<char>, b: Seq<char>)
    ensures
        encode_utf8(a + b) == encode_utf8(a) + encode_utf8(b),
    decreases a.len(),
{
    if a.len() == 0 {
        assert(a + b =~= b);
        assert(encode_utf8(a) + encode_utf8(b) =~= encode_utf8(b));
    } else {
        assert((a + b).drop_first() =~= a.drop_first() + b);
        assert((a + b)[0] == a[0]);
        lemma_encode_utf8_concat(a.drop_first(), b);
        assert(encode_utf8(a + b) =~= encode_utf8(a) + encode_utf8(b));
    }
}

/// Turns a text stream into a byte sink. It holds the text that has been
/// written to it, and takes bytes only where they are well-formed UTF-8. It
/// keeps in mind, for the proofs alone, with which errors it has refused
/// chunks.
pub struct FormatterWriter(pub String, pub Ghost<Seq<SinkError>>);

impl FormatterWriter {
    /// A writer that holds no text yet.
    pub fn new() -> (r: FormatterWriter)
        ensures
            r.0@ == Seq::<char>::empty(),
            r.written() == Seq::<u8>::empty(),
            r.refused().len() == 0,
    {
        FormatterWriter(String::new(), Ghost(Seq::empty()))
    }

    /// Takes `buf` as text where it is well-formed UTF-8 and hands back its
    /// length; refuses it as invalid data where it is not, and then the text
    /// stays as it was.
    pub fn write(&mut self, buf: &[u8]) -> (r: Result<usize, SinkError>)
        ensures
            valid_utf8(buf@) ==> r == Ok::<usize, SinkError>(buf.len()),
            valid_utf8(buf@) ==> final(self).0@ == old(self).0@ + decode_utf8(buf@),
            valid_utf8(buf@) ==> final(self).refused() == old(self).refused(),
            !valid_utf8(buf@) ==> r == Err::<usize, SinkError>(SinkError::InvalidData),
            !valid_utf8(buf@) ==> final(self).0@ == old(self).0@,
            !valid_utf8(buf@) ==> final(self).refused() == old(self).refused().push(
                SinkError::InvalidData,
            ),
    {
        match str_from_utf8(buf) {
            Some(buf_str) => {
                self.0.append(buf_str);
                Ok(buf.len())
            },
            None => {
                self.1 = Ghost(self.1@.push(SinkError::InvalidData));
                Err(SinkError::InvalidData)
            },
        }
    }

    /// Does nothing: the text stream flushes on its own terms.
    pub fn flush(&mut self) -> (r: Result<(), SinkError>)
        ensures
            r is Ok,
            *final(self) == *old(self),
    {
        Ok(())
    }
}

impl Sink for FormatterWriter {
    open spec fn obeys_sink_spec() -> bool {
        true
    }

    /// The UTF-8 bytes of the text taken so far.
    open spec fn written(&self) -> Seq<u8> {
        encode_utf8(self.0@)
    }

    open spec fn accepts_all(&self) -> bool {
        false
    }

    open spec fn accepts_utf8(&self) -> bool {
        true
    }

    /// One `InvalidData` for each chunk that was refused.
    open spec fn refused(&self) -> Seq<SinkError> {
        self.1@
    }

    fn write_all(&mut self, buf: &[u8]) -> (r: Result<(), SinkError>)
        ensures
            r is Ok <==> valid_utf8(buf@),
            r is Err ==> r == Err::<(), SinkError>(SinkError::InvalidData),
            r is Err ==> final(self).0@ == old(self).0@,
    {
        proof {
            if valid_utf8(buf@) {
                lemma_encode_utf8_concat(self.0@, decode_utf8(buf@));
                decode_utf8_encode_utf8(buf@);
            }
        }
        match self.write(buf) {
            Ok(_) => Ok(()),
            Err(e) => Err(e),
        }
    }
}

} // verus!
