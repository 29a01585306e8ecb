//! Byte sinks: the destinations that JSON text is written to.
use vstd::prelude::*;
use vstd::utf8::{partial_valid_utf8, partial_valid_utf8_extend_ascii_block, valid_utf8};

verus! {

/// Why a sink refused a chunk of bytes.
#[derive(Debug, Clone, Copy, PartialEq, Eq, Structural)]
pub enum SinkError {
    /// The chunk was not well-formed UTF-8 and the sink only forwards text.
    InvalidData,
    /// The destination behind the sink reported a failure.
    Other,
}

/// A destination that accepts a sequence of bytes and may fail.
///
/// A sink that is verified states what it holds (`written`), what it never
/// refuses (`accepts_all`, `accepts_utf8`) and which chunks it has refused
/// (`refused`), and sets `obeys_sink_spec`. A sink that only implements
/// `write_all` keeps the defaults, and nothing is claimed of it.
pub trait Sink {
    /// True of a type of sink whose `write_all` keeps to what `written` and
    /// `accepts_utf8` say.
    open spec fn obeys_sink_spec() -> bool {
        false
    }

    /// Every byte that the sink has accepted so far, in order.
    open spec fn written(&self) -> Seq<u8> {
        Seq::<u8>::empty()
    }

    /// True of a sink that never refuses a chunk, whatever its bytes.
    open spec fn accepts_all(&self) -> bool {
        false
    }

    /// True of a sink that never refuses a chunk of well-formed UTF-8.
    open spec fn accepts_utf8(&self) -> bool {
        false
    }

    /// The errors with which the sink has refused chunks so far, one for
    /// each refusal, in order.
    open spec fn refused(&self) -> Seq<SinkError> {
        Seq::<SinkError>::empty()
    }

    /// Appends the whole of `buf` to the sink, or fails.
    fn write_all(&mut self, buf: &[u8]) -> (r: Result<(), SinkError>)
        ensures
            Self::obeys_sink_spec() ==> {
                &&& final(self).accepts_all() == old(self).accepts_all()
                &&& final(self).accepts_utf8() == old(self).accepts_utf8()
                &&& old(self).written().is_prefix_of(final(self).written())
                &&& final(self).written().is_prefix_of(old(self).written() + buf@)
                &&& r is Ok ==> final(self).written() == old(self).written() + buf@
                &&& r is Ok ==> final(self).refused() == old(self).refused()
                &&& r matches Err(e) ==> final(self).refused() == old(self).refused().push(e)
                &&& old(self).accepts_all() || (old(self).accepts_utf8() && valid_utf8(buf@))
                    ==> r is Ok
            },
    ;
}

/// True when two states of a sink differ at most in what the sink holds:
/// what it never refuses, and what it has refused, are the same.
pub open spec fn same_answers<W: Sink + ?Sized>(before: &W, after: &W) -> bool {
    &&& after.accepts_all() == before.accepts_all()
    &&& after.accepts_utf8() == before.accepts_utf8()
    &&& after.refused() == before.refused()
}

/// What holds of a sink behind a call that is to append `text` to it and
/// has handed back `r`.
///
/// - What the sink never refuses is as before.
/// - What the sink held before is still there, and what has come behind it
///   is the beginning of `text`: nothing else has been written, whether the
///   call went through or not.
/// - Where the call went through, the sink holds what it held, then all of
///   `text`, and has refused no chunk.
/// - Where the call failed, the sink has refused one chunk, and the error
///   of the call is the error of that refusal: the call fails only where
///   the sink fails, it stops at the first failure, and it hands the failure
///   on unchanged.
/// - Where the sink takes every chunk, or takes all UTF-8 text while the
///   text to write is UTF-8 (`owed`), the call went through.
pub open spec fn wrote<W: Sink + ?Sized>(
    before: &W,
    after: &W,
    r: Result<(), SinkError>,
    text: Seq<u8>,
    owed: bool,
) -> bool {
    &&& after.accepts_all() == before.accepts_all()
    &&& after.accepts_utf8() == before.accepts_utf8()
    &&& before.written().is_prefix_of(after.written())
    &&& after.written().is_prefix_of(before.written() + text)
    &&& r is Ok ==> after.written() =~= before.written() + text
    &&& r is Ok ==> after.refused() == before.refused()
    &&& r matches Err(e) ==> after.refused() == before.refused().push(e)
    &&& before.accepts_all() || (before.accepts_utf8() && owed) ==> r is Ok
}

/// A growable byte buffer takes every chunk.
impl Sink for Vec<u8> {
    open spec fn obeys_sink_spec() -> bool {
        true
    }

    open spec fn written(&self) -> Seq<u8> {
        self@
    }

    open spec fn accepts_all(&self) -> bool {
        true
    }

    open spec fn accepts_utf8(&self) -> bool {
        true
    }

    open spec fn refused(&self) -> Seq<SinkError> {
        Seq::<SinkError>::empty()
    }

    fn write_all(&mut self, buf: &[u8]) -> (r: Result<(), SinkError>)
        ensures
            r is Ok,
    {
        self.extend_from_slice(buf);
        Ok(())
    }
}

/// True when every byte of `text` is below 0x80.
pub open spec fn is_ascii_bytes(text: Seq<u8>) -> bool {
    forall|i: int| 0 <= i < text.len() ==> #[trigger] text[i] < 0x80
}

/// Text made of ASCII bytes alone is well-formed UTF-8.
pub proof fn lemma_ascii_is_utf8(text: Seq<u8>)
    requires
        is_ascii_bytes(text),
    ensures
        valid_utf8(text),
{
    assert(text.subrange(0, 0) =~= Seq::<u8>::empty());
    assert(partial_valid_utf8(text, 0));
    partial_valid_utf8_extend_ascii_block(text, 0, text.len() as int);
    assert(text.subrange(0, text.len() as int) =~= text);
}

/// A text with less behind it is a prefix of the same text with more behind
/// it.
pub proof fn lemma_prefix_within(before: Seq<u8>, part: Seq<u8>, text: Seq<u8>)
    requires
        part.is_prefix_of(text),
    ensures
        (before + part).is_prefix_of(before + text),
{
    assert((before + part) =~= (before + text).subrange(0, (before + part).len() as int));
}

/// A prefix of a prefix is a prefix.
pub proof fn lemma_prefix_transitive(a: Seq<u8>, b: Seq<u8>, c: Seq<u8>)
    requires
        a.is_prefix_of(b),
        b.is_prefix_of(c),
    ensures
        a.is_prefix_of(c),
{
    assert(a =~= c.subrange(0, a.len() as int));
}

/// A text is a prefix of itself with more behind it.
pub proof fn lemma_prefix_of_concat(a: Seq<u8>, b: Seq<u8>)
    ensures
        a.is_prefix_of(a + b),
{
    assert(a =~= (a + b).subrange(0, a.len() as int));
}

/// Writes one ASCII byte.
pub fn write_byte<W: Sink>(w: &mut W, byte: u8) -> (r: Result<(), SinkError>)
    requires
        byte < 0x80,
    ensures
        W::obeys_sink_spec() ==> wrote(&*old(w), &*final(w), r, seq![byte], true),
{
    let chunk: [u8; 1] = [byte];
    proof {
        lemma_ascii_is_utf8(chunk@);
        assert(chunk@ =~= seq![byte]);
        assert(old(w).written() + chunk@ =~= old(w).written().push(byte));
    }
    w.write_all(chunk.as_slice())
}

} // verus!
