//! Serialization to JSON strings like `"hello world \n"`.
use vstd::prelude::*;
use vstd::utf8::{encode_utf8, encode_utf8_valid_utf8, valid_utf8};
use crate::escape::{
    escape_text, escaped, hex_digit, is_clean, lemma_escape_text_ascii, lemma_escaped_clean,
    lemma_escaped_concat, lemma_split_at_ascii, lemma_string_round_trip, needs_escape,
    parse_string, string_text,
};
use crate::sink::{
    lemma_prefix_of_concat, lemma_prefix_transitive, lemma_prefix_within, write_byte, wrote, Sink,
    SinkError, same_answers};
use crate::value::JSONValue;

verus! {

/// The number of bytes that the encoder tests at once.
pub const BLOCK_SIZE: usize = 16;

/// A byte that has to be written as an escape sequence.
pub struct EscapeChar(pub u8);

/// The hexadecimal digit of a value below sixteen.
fn hex_char(d: u8) -> (r: u8)
    requires
        d < 16,
    ensures
        r == hex_digit(d as nat),
        r < 0x80,
{
    if d < 10 {
        '0' as u8 + d
    } else {
        'a' as u8 + (d - 10)
    }
}

impl EscapeChar {
    /// Writes the escape sequence of the byte.
    pub fn write<W: Sink>(&self, w: &mut W) -> (r: Result<(), SinkError>)
        ensures
            W::obeys_sink_spec() ==> wrote(&*old(w), &*final(w), r, escape_text(self.0), true),
    {
        let c = self.0;
        proof {
            lemma_escape_text_ascii(c);
        }
        if c == '"' as u8 {
            let text: [u8; 2] = ['\\' as u8, '"' as u8];
            assert(text@ =~= escape_text(c));
            w.write_all(text.as_slice())
        } else if c == '\\' as u8 {
            let text: [u8; 2] = ['\\' as u8, '\\' as u8];
            assert(text@ =~= escape_text(c));
            w.write_all(text.as_slice())
        } else if c == '\n' as u8 {
            let text: [u8; 2] = ['\\' as u8, 'n' as u8];
            assert(text@ =~= escape_text(c));
            w.write_all(text.as_slice())
        } else if c == '\r' as u8 {
            let text: [u8; 2] = ['\\' as u8, 'r' as u8];
            assert(text@ =~= escape_text(c));
            w.write_all(text.as_slice())
        } else if c == '\t' as u8 {
            let text: [u8; 2] = ['\\' as u8, 't' as u8];
            assert(text@ =~= escape_text(c));
            w.write_all(text.as_slice())
        } else {
            let text: [u8; 6] = [
                '\\' as u8,
                'u' as u8,
                '0' as u8,
                '0' as u8,
                hex_char(c / 16),
                hex_char(c % 16),
            ];
            assert(text@ =~= escape_text(c));
            w.write_all(text.as_slice())
        }
    }
}

/// Tells whether a byte has to be escaped, and hands back its escape if so.
pub fn json_escaped_char(c: u8) -> (r: Option<EscapeChar>)
    ensures
        r is Some <==> needs_escape(c),
        r matches Some(e) ==> e.0 == c,
{
    if c > 0x1F && c != '"' as u8 && c != '\\' as u8 && c != 0x7F {
        None
    } else {
        Some(EscapeChar(c))
    }
}

/// Finds the first byte that needs an escape from `from` up to `to`; hands
/// back `to` where there is none.
fn first_escape(bytes: &[u8], from: usize, to: usize) -> (at: usize)
    requires
        from <= to <= bytes.len(),
    ensures
        from <= at <= to,
        is_clean(bytes@, from as int, at as int),
        at < to ==> needs_escape(bytes[at as int]),
{
    let mut at: usize = from;
    while at < to
        invariant
            from <= at <= to <= bytes.len(),
            is_clean(bytes@, from as int, at as int),
        decreases to - at,
    {
        if json_escaped_char(bytes[at]).is_some() {
            return at;
        }
        at += 1;
    }
    at
}

/// The byte at place `k` of a word that holds eight bytes, the first lowest.
spec fn byte_of(word: u64, k: u64) -> u64 {
    (word >> (8 * k)) & 0xff
}

/// `needs_escape`, of a byte held in a word.
spec fn byte_needs_escape(c: u64) -> bool {
    c < 0x20 || c == 0x22 || c == 0x5c || c == 0x7f
}

/// The high bit of each byte of `word` that is zero, and no other bit.
spec fn zero_bytes(word: u64) -> u64 {
    !((((word & 0x7f7f_7f7f_7f7f_7f7f) + 0x7f7f_7f7f_7f7f_7f7f) as u64) | word
        | 0x7f7f_7f7f_7f7f_7f7f)
}

/// The high bit of each byte of `word` that needs an escape, and no other
/// bit: a byte is below 0x20 where its three high bits are zero, and it is a
/// quote, a backslash or DEL where it differs from that byte in no bit.
spec fn escape_marks(word: u64) -> u64 {
    zero_bytes(word & 0xe0e0_e0e0_e0e0_e0e0) | zero_bytes(word ^ 0x2222_2222_2222_2222)
        | zero_bytes(word ^ 0x5c5c_5c5c_5c5c_5c5c) | zero_bytes(word ^ 0x7f7f_7f7f_7f7f_7f7f)
}

/// A word has no mark exactly where none of its eight bytes needs an escape.
proof fn lemma_escape_marks(word: u64)
    by (bit_vector)
    ensures
        escape_marks(word) == 0 <==> !byte_needs_escape(byte_of(word, 0)) && !byte_needs_escape(
            byte_of(word, 1),
        ) && !byte_needs_escape(byte_of(word, 2)) && !byte_needs_escape(byte_of(word, 3))
            && !byte_needs_escape(byte_of(word, 4)) && !byte_needs_escape(byte_of(word, 5))
            && !byte_needs_escape(byte_of(word, 6)) && !byte_needs_escape(byte_of(word, 7)),
{
}

/// Adding 0x7f to the low seven bits of each byte carries into no other byte.
proof fn lemma_no_carry(word: u64)
    by (bit_vector)
    ensures
        (word & 0x7f7f_7f7f_7f7f_7f7f) + 0x7f7f_7f7f_7f7f_7f7f <= 0xfefe_fefe_fefe_fefe,
{
}

/// Eight bytes put into one word can be taken out of it again.
proof fn lemma_packed(b0: u8, b1: u8, b2: u8, b3: u8, b4: u8, b5: u8, b6: u8, b7: u8)
    by (bit_vector)
    ensures
        ({
            let word = (b0 as u64) | (b1 as u64) << 8 | (b2 as u64) << 16 | (b3 as u64) << 24 | (
            b4 as u64) << 32 | (b5 as u64) << 40 | (b6 as u64) << 48 | (b7 as u64) << 56;
            &&& byte_of(word, 0) == b0 as u64
            &&& byte_of(word, 1) == b1 as u64
            &&& byte_of(word, 2) == b2 as u64
            &&& byte_of(word, 3) == b3 as u64
            &&& byte_of(word, 4) == b4 as u64
            &&& byte_of(word, 5) == b5 as u64
            &&& byte_of(word, 6) == b6 as u64
            &&& byte_of(word, 7) == b7 as u64
        }),
{
}

/// Puts the eight bytes from `at` on into one word, the first lowest.
fn load_word(bytes: &[u8], at: usize) -> (word: u64)
    requires
        at + 8 <= bytes.len(),
    ensures
        forall|k: u64| 0 <= k < 8 ==> #[trigger] byte_of(word, k) == bytes[at + k] as u64,
{
    proof {
        lemma_packed(
            bytes[at as int],
            bytes[at + 1],
            bytes[at + 2],
            bytes[at + 3],
            bytes[at + 4],
            bytes[at + 5],
            bytes[at + 6],
            bytes[at + 7],
        );
    }
    (bytes[at] as u64) | (bytes[at + 1] as u64) << 8 | (bytes[at + 2] as u64) << 16 | (bytes[at
        + 3] as u64) << 24 | (bytes[at + 4] as u64) << 32 | (bytes[at + 5] as u64) << 40 | (bytes[at
        + 6] as u64) << 48 | (bytes[at + 7] as u64) << 56
}

/// Tests eight bytes at once: tells whether none of the bytes of `word`
/// needs an escape.
fn word_is_clean(word: u64) -> (clean: bool)
    ensures
        clean <==> forall|k: u64| 0 <= k < 8 ==> !byte_needs_escape(#[trigger] byte_of(word, k)),
{
    proof {
        lemma_escape_marks(word);
        lemma_no_carry(word & 0xe0e0_e0e0_e0e0_e0e0);
        lemma_no_carry(word ^ 0x2222_2222_2222_2222);
        lemma_no_carry(word ^ 0x5c5c_5c5c_5c5c_5c5c);
        lemma_no_carry(word ^ 0x7f7f_7f7f_7f7f_7f7f);
    }
    let low: u64 = 0x7f7f_7f7f_7f7f_7f7f;
    let control = word & 0xe0e0_e0e0_e0e0_e0e0;
    let quote = word ^ 0x2222_2222_2222_2222;
    let backslash = word ^ 0x5c5c_5c5c_5c5c_5c5c;
    let del = word ^ 0x7f7f_7f7f_7f7f_7f7f;
    let marks = !(((control & low) + low) | control | low) | !(((quote & low) + low) | quote | low)
        | !(((backslash & low) + low) | backslash | low) | !(((del & low) + low) | del | low);
    assert(marks == escape_marks(word));
    marks == 0
}

/// Tests a block of `BLOCK_SIZE` bytes at once: tells whether none of the
/// bytes from `at` on needs an escape.
fn block_is_clean(bytes: &[u8], at: usize) -> (clean: bool)
    requires
        at + BLOCK_SIZE <= bytes.len(),
    ensures
        clean <==> is_clean(bytes@, at as int, at + BLOCK_SIZE),
{
    let first = load_word(bytes, at);
    let second = load_word(bytes, at + 8);
    let first_clean = word_is_clean(first);
    let clean = first_clean && word_is_clean(second);
    proof {
        if clean {
            assert forall|i: int| at <= i < at + BLOCK_SIZE implies !needs_escape(
                #[trigger] bytes@[i],
            ) by {
                if i < at + 8 {
                    let k = (i - at) as u64;
                    assert(byte_of(first, k) == bytes[at + k] as u64);
                } else {
                    let k = (i - at - 8) as u64;
                    assert(byte_of(second, k) == bytes[at + 8 + k] as u64);
                }
            }
        } else if !first_clean {
            let k = choose|k: u64| 0 <= k < 8 && byte_needs_escape(#[trigger] byte_of(first, k));
            assert(needs_escape(bytes@[at + k]));
        } else {
            let k = choose|k: u64| 0 <= k < 8 && byte_needs_escape(#[trigger] byte_of(second, k));
            assert(needs_escape(bytes@[at + 8 + k]));
        }
    }
    clean
}

/// Two texts that agree once the same text is put behind each are equal.
proof fn lemma_cancel_suffix(a: Seq<u8>, b: Seq<u8>, tail: Seq<u8>)
    requires
        a + tail == b + tail,
    ensures
        a == b,
{
    assert((a + tail).len() == a.len() + tail.len());
    assert((b + tail).len() == b.len() + tail.len());
    assert(a =~= (a + tail).subrange(0, a.len() as int));
    assert(b =~= (b + tail).subrange(0, b.len() as int));
}

/// One step of the invariant that the escaping loops keep: what has been
/// written, followed by the clean bytes that wait from `start` on, is the
/// escaped text of everything from `origin` up to `at`.
spec fn pending(
    obeys: bool,
    before: Seq<u8>,
    now: Seq<u8>,
    bytes: Seq<u8>,
    origin: int,
    start: int,
    at: int,
) -> bool {
    &&& origin <= start <= at <= bytes.len()
    &&& is_clean(bytes, start, at)
    &&& obeys ==> now + bytes.subrange(start, at) == before + escaped(bytes.subrange(origin, at))
}

/// A clean byte joins the bytes that wait.
proof fn lemma_pending_skip(
    obeys: bool,
    before: Seq<u8>,
    now: Seq<u8>,
    bytes: Seq<u8>,
    origin: int,
    start: int,
    at: int,
)
    requires
        0 <= origin,
        pending(obeys, before, now, bytes, origin, start, at),
        at < bytes.len(),
        !needs_escape(bytes[at]),
    ensures
        pending(obeys, before, now, bytes, origin, start, at + 1),
{
    let whole = bytes.subrange(origin, at + 1);
    assert(whole.drop_last() =~= bytes.subrange(origin, at));
    assert(whole.last() == bytes[at]);
    assert(bytes.subrange(start, at + 1) =~= bytes.subrange(start, at) + seq![bytes[at]]);
    if obeys {
        assert(now + bytes.subrange(start, at + 1) =~= (now + bytes.subrange(start, at)) + seq![
            bytes[at],
        ]);
        assert(before + escaped(whole) =~= (before + escaped(bytes.subrange(origin, at))) + seq![
            bytes[at],
        ]);
    }
}

/// Once the waiting bytes and the escape of the byte at `at` are written,
/// nothing waits and the text is done up to `at + 1`.
proof fn lemma_pending_flush(
    obeys: bool,
    before: Seq<u8>,
    now: Seq<u8>,
    bytes: Seq<u8>,
    origin: int,
    start: int,
    at: int,
)
    requires
        0 <= origin,
        pending(obeys, before, now, bytes, origin, start, at),
        at < bytes.len(),
        needs_escape(bytes[at]),
    ensures
        pending(
            obeys,
            before,
            now + bytes.subrange(start, at) + escape_text(bytes[at]),
            bytes,
            origin,
            at + 1,
            at + 1,
        ),
{
    let whole = bytes.subrange(origin, at + 1);
    assert(whole.drop_last() =~= bytes.subrange(origin, at));
    assert(whole.last() == bytes[at]);
    assert(bytes.subrange(at + 1, at + 1) =~= Seq::<u8>::empty());
    if obeys {
        assert(before + escaped(whole) =~= (before + escaped(bytes.subrange(origin, at)))
            + escape_text(bytes[at]));
        assert(now + bytes.subrange(start, at) + escape_text(bytes[at]) + bytes.subrange(
            at + 1,
            at + 1,
        ) =~= before + escaped(whole));
    }
}

/// While clean bytes wait from `start` on, what has been written is the
/// escaped text of everything before `start`.
proof fn lemma_pending_written(
    obeys: bool,
    before: Seq<u8>,
    now: Seq<u8>,
    bytes: Seq<u8>,
    origin: int,
    start: int,
    at: int,
)
    requires
        0 <= origin,
        obeys,
        pending(obeys, before, now, bytes, origin, start, at),
    ensures
        now == before + escaped(bytes.subrange(origin, start)),
{
    let done = bytes.subrange(origin, start);
    let waited = bytes.subrange(start, at);
    assert(bytes.subrange(origin, at) =~= done + waited);
    lemma_escaped_concat(done, waited);
    assert forall|i: int| 0 <= i < waited.len() implies !needs_escape(#[trigger] waited[i]) by {
        assert(waited[i] == bytes[start + i]);
    }
    lemma_escaped_clean(waited);
    assert((before + escaped(done)) + waited =~= before + (escaped(done) + waited));
    lemma_cancel_suffix(now, before + escaped(done), waited);
}

/// Clean bytes behind a text that is written up to `start` wait.
proof fn lemma_pending_wait(
    obeys: bool,
    before: Seq<u8>,
    now: Seq<u8>,
    bytes: Seq<u8>,
    origin: int,
    start: int,
    at: int,
)
    requires
        0 <= origin <= start <= at <= bytes.len(),
        is_clean(bytes, start, at),
        obeys ==> now == before + escaped(bytes.subrange(origin, start)),
    ensures
        pending(obeys, before, now, bytes, origin, start, at),
{
    let done = bytes.subrange(origin, start);
    let waited = bytes.subrange(start, at);
    assert(bytes.subrange(origin, at) =~= done + waited);
    lemma_escaped_concat(done, waited);
    assert forall|i: int| 0 <= i < waited.len() implies !needs_escape(#[trigger] waited[i]) by {
        assert(waited[i] == bytes[start + i]);
    }
    lemma_escaped_clean(waited);
    assert((before + escaped(done)) + waited =~= before + (escaped(done) + waited));
}

/// What has been written, and the bytes that wait behind it, stay within
/// the escaped text of everything from `origin` up to any later place.
proof fn lemma_pending_within(
    before: Seq<u8>,
    now: Seq<u8>,
    bytes: Seq<u8>,
    origin: int,
    start: int,
    at: int,
    end: int,
)
    requires
        0 <= origin,
        pending(true, before, now, bytes, origin, start, at),
        at <= end <= bytes.len(),
    ensures
        (now + bytes.subrange(start, at)).is_prefix_of(
            before + escaped(bytes.subrange(origin, end)),
        ),
        now.is_prefix_of(before + escaped(bytes.subrange(origin, end))),
{
    let done = bytes.subrange(origin, at);
    let rest = bytes.subrange(at, end);
    assert(bytes.subrange(origin, end) =~= done + rest);
    lemma_escaped_concat(done, rest);
    lemma_prefix_of_concat(escaped(done), escaped(rest));
    lemma_prefix_within(before, escaped(done), escaped(done) + escaped(rest));
    lemma_prefix_of_concat(now, bytes.subrange(start, at));
    lemma_prefix_transitive(
        now,
        now + bytes.subrange(start, at),
        before + escaped(bytes.subrange(origin, end)),
    );
}

/// Escapes `bytes` from `current_index` up to `end`. The bytes from
/// `char_index_to_write` up to `current_index` hold nothing to escape and have
/// not been written yet. Each escape is written behind the bytes that wait
/// before it. Hands back the index from which bytes still wait: they are
/// written by the caller, with what follows them.
#[verifier::rlimit(50)]
fn write_escapes<W: Sink>(
    bytes: &[u8],
    char_index_to_write: usize,
    current_index: usize,
    end: usize,
    w: &mut W,
) -> (r: Result<usize, SinkError>)
    requires
        char_index_to_write <= current_index <= end <= bytes.len(),
        is_clean(bytes@, char_index_to_write as int, current_index as int),
    ensures
        r matches Ok(start) ==> char_index_to_write <= start <= end && is_clean(
            bytes@,
            start as int,
            end as int,
        ),
        r matches Ok(start) ==> (valid_utf8(
            bytes@.subrange(char_index_to_write as int, bytes.len() as int),
        ) ==> valid_utf8(bytes@.subrange(start as int, bytes.len() as int))),
        W::obeys_sink_spec() ==> {
            &&& final(w).accepts_all() == old(w).accepts_all()
            &&& final(w).accepts_utf8() == old(w).accepts_utf8()
            &&& old(w).written().is_prefix_of(final(w).written())
            &&& r matches Ok(start) ==> final(w).written() + bytes@.subrange(
                start as int,
                end as int,
            ) == old(w).written() + escaped(bytes@.subrange(char_index_to_write as int, end as int))
            &&& final(w).written().is_prefix_of(
                old(w).written() + escaped(
                    bytes@.subrange(char_index_to_write as int, end as int),
                ),
            )
            &&& r is Ok ==> final(w).refused() == old(w).refused()
            &&& r matches Err(e) ==> final(w).refused() == old(w).refused().push(e)
            &&& old(w).accepts_all() || (old(w).accepts_utf8() && valid_utf8(
                bytes@.subrange(char_index_to_write as int, bytes.len() as int),
            )) ==> r is Ok
        },
{
    let ghost origin = char_index_to_write as int;
    let ghost len = bytes.len() as int;
    let ghost text = valid_utf8(bytes@.subrange(origin, len));
    let mut start: usize = char_index_to_write;
    let mut at: usize = current_index;
    proof {
        assert(escaped(bytes@.subrange(origin, at as int)) == bytes@.subrange(origin, at as int))
            by {
            let run = bytes@.subrange(origin, at as int);
            assert forall|i: int| 0 <= i < run.len() implies !needs_escape(#[trigger] run[i]) by {
                assert(run[i] == bytes@[origin + i]);
            }
            lemma_escaped_clean(run);
        }
    }
    while at < end
        invariant
            0 <= origin <= start <= at <= end <= bytes.len(),
            origin == char_index_to_write,
            len == bytes.len(),
            W::obeys_sink_spec() ==> same_answers(&*old(w), &*w),
            W::obeys_sink_spec() ==> old(w).written().is_prefix_of(w.written()),
            pending(
                W::obeys_sink_spec(),
                old(w).written(),
                w.written(),
                bytes@,
                origin,
                start as int,
                at as int,
            ),
            text == valid_utf8(bytes@.subrange(origin, len)),
            text ==> valid_utf8(bytes@.subrange(start as int, len)),
        decreases end - at,
    {
        let c = bytes[at];
        if let Some(escape) = json_escaped_char(c) {
            let ghost tail = bytes@.subrange(start as int, len);
            proof {
                lemma_pending_flush(
                    W::obeys_sink_spec(),
                    old(w).written(),
                    w.written(),
                    bytes@,
                    origin,
                    start as int,
                    at as int,
                );
                if W::obeys_sink_spec() {
                    lemma_pending_within(
                        old(w).written(),
                        w.written(),
                        bytes@,
                        origin,
                        start as int,
                        at as int,
                        end as int,
                    );
                    lemma_pending_within(
                        old(w).written(),
                        w.written() + bytes@.subrange(start as int, at as int) + escape_text(
                            bytes@[at as int],
                        ),
                        bytes@,
                        origin,
                        at + 1,
                        at + 1,
                        end as int,
                    );
                }
                if text {
                    assert(tail[at - start] == bytes@[at as int]);
                    lemma_split_at_ascii(tail, at - start);
                    assert(tail.subrange(0, at - start) =~= bytes@.subrange(
                        start as int,
                        at as int,
                    ));
                    assert(tail.subrange(at - start + 1, tail.len() as int) =~= bytes@.subrange(
                        at + 1,
                        len,
                    ));
                }
            }
            w.write_all(&bytes[start..at])?;
            escape.write(w)?;
            start = at + 1;
        } else {
            proof {
                lemma_pending_skip(
                    W::obeys_sink_spec(),
                    old(w).written(),
                    w.written(),
                    bytes@,
                    origin,
                    start as int,
                    at as int,
                );
            }
        }
        at += 1;
    }
    proof {
        if W::obeys_sink_spec() {
            lemma_pending_within(
                old(w).written(),
                w.written(),
                bytes@,
                origin,
                start as int,
                at as int,
                end as int,
            );
        }
    }
    Ok(start)
}

/// Escapes `bytes` from `current_index` to the end and writes all that is
/// still to write. The bytes from `char_index_to_write` up to `current_index`
/// are known to hold nothing to escape and have not been written yet.
pub fn write_json_nosimd_prevalidated<W: Sink>(
    bytes: &[u8],
    char_index_to_write: usize,
    current_index: usize,
    w: &mut W,
) -> (r: Result<(), SinkError>)
    requires
        char_index_to_write <= current_index <= bytes.len(),
        is_clean(bytes@, char_index_to_write as int, current_index as int),
    ensures
        W::obeys_sink_spec() ==> wrote(
            &*old(w),
            &*final(w),
            r,
            escaped(bytes@.subrange(char_index_to_write as int, bytes.len() as int)),
            valid_utf8(bytes@.subrange(char_index_to_write as int, bytes.len() as int)),
        ),
{
    let start = write_escapes(bytes, char_index_to_write, current_index, bytes.len(), w)?;
    w.write_all(&bytes[start..bytes.len()])
}

/// Escapes a text byte by byte.
pub fn write_json_nosimd<W: Sink>(bytes: &[u8], w: &mut W) -> (r: Result<(), SinkError>)
    ensures
        W::obeys_sink_spec() ==> wrote(
            &*old(w),
            &*final(w),
            r,
            escaped(bytes@),
            valid_utf8(bytes@),
        ),
{
    assert(bytes@.subrange(0, bytes.len() as int) =~= bytes@);
    write_json_nosimd_prevalidated(bytes, 0, 0, w)
}

/// Clean bytes behind those that wait join them.
proof fn lemma_pending_extend(
    obeys: bool,
    before: Seq<u8>,
    now: Seq<u8>,
    bytes: Seq<u8>,
    start: int,
    at: int,
    end: int,
)
    requires
        pending(obeys, before, now, bytes, 0, start, at),
        at <= end <= bytes.len(),
        is_clean(bytes, at, end),
    ensures
        pending(obeys, before, now, bytes, 0, start, end),
{
    if obeys {
        lemma_pending_written(true, before, now, bytes, 0, start, at);
    }
    lemma_pending_wait(obeys, before, now, bytes, 0, start, end);
}

/// What the escaping of the bytes from `start` up to `end` adds to what has
/// been written stays within the escaped text of all the bytes, and is all
/// of it where `end` is the end of the bytes.
proof fn lemma_block_within(
    before: Seq<u8>,
    now: Seq<u8>,
    bytes: Seq<u8>,
    start: int,
    at: int,
    end: int,
)
    requires
        pending(true, before, now, bytes, 0, start, at),
        at <= end <= bytes.len(),
    ensures
        (now + escaped(bytes.subrange(start, end))).is_prefix_of(before + escaped(bytes)),
        end == bytes.len() ==> now + escaped(bytes.subrange(start, end)) == before + escaped(bytes),
        before.is_prefix_of(now),
{
    lemma_pending_written(true, before, now, bytes, 0, start, at);
    let done = bytes.subrange(0, start);
    let run = bytes.subrange(start, end);
    let rest = bytes.subrange(end, bytes.len() as int);
    assert(bytes =~= (done + run) + rest);
    lemma_escaped_concat(done + run, rest);
    lemma_escaped_concat(done, run);
    lemma_prefix_of_concat(escaped(done) + escaped(run), escaped(rest));
    lemma_prefix_within(before, escaped(done) + escaped(run), escaped(bytes));
    assert(now + escaped(run) =~= before + (escaped(done) + escaped(run)));
    lemma_prefix_of_concat(before, escaped(done));
    if end == bytes.len() {
        assert(rest =~= Seq::<u8>::empty());
        assert(escaped(rest) =~= Seq::<u8>::empty());
        assert(now + escaped(run) =~= before + escaped(bytes));
    }
}

/// Once the bytes from `start` up to `end` are escaped, and the bytes from
/// `next` on wait, the text is done up to `next`.
proof fn lemma_block_written(
    before: Seq<u8>,
    now: Seq<u8>,
    after: Seq<u8>,
    bytes: Seq<u8>,
    start: int,
    at: int,
    next: int,
    end: int,
)
    requires
        pending(true, before, now, bytes, 0, start, at),
        at <= end <= bytes.len(),
        start <= next <= end,
        is_clean(bytes, next, end),
        after + bytes.subrange(next, end) == now + escaped(bytes.subrange(start, end)),
    ensures
        pending(true, before, after, bytes, 0, next, end),
{
    lemma_pending_written(true, before, now, bytes, 0, start, at);
    let done = bytes.subrange(0, start);
    let run = bytes.subrange(start, end);
    assert(bytes.subrange(0, end) =~= done + run);
    lemma_escaped_concat(done, run);
    assert(after + bytes.subrange(next, end) =~= before + escaped(bytes.subrange(0, end)));
}

/// Escapes a text block by block. A block of `BLOCK_SIZE` bytes is tested
/// as two words of eight bytes. A block that holds nothing to escape is
/// passed over as a whole and joins the bytes that wait to be written in one
/// piece; only a block with a byte to escape is gone through byte by byte.
#[verifier::rlimit(50)]
pub fn write_json_simd<W: Sink>(bytes: &[u8], w: &mut W) -> (r: Result<(), SinkError>)
    ensures
        W::obeys_sink_spec() ==> wrote(
            &*old(w),
            &*final(w),
            r,
            escaped(bytes@),
            valid_utf8(bytes@),
        ),
{
    let len = bytes.len();
    let mut char_index_to_write: usize = 0;
    let mut current_index: usize = 0;
    let ghost obeys = W::obeys_sink_spec();
    let ghost before = w.written();
    proof {
        assert(bytes@.subrange(0, len as int) =~= bytes@);
        assert(bytes@.subrange(0, 0) =~= Seq::<u8>::empty());
        assert(before =~= before + escaped(bytes@.subrange(0, 0)));
        lemma_pending_wait(obeys, before, before, bytes@, 0, 0, 0);
    }
    while len - current_index >= BLOCK_SIZE
        invariant
            len == bytes.len(),
            char_index_to_write <= current_index <= len,
            obeys == W::obeys_sink_spec(),
            before == old(w).written(),
            obeys ==> same_answers(&*old(w), &*w),
            pending(
                obeys,
                before,
                w.written(),
                bytes@,
                0,
                char_index_to_write as int,
                current_index as int,
            ),
            valid_utf8(bytes@) ==> valid_utf8(
                bytes@.subrange(char_index_to_write as int, len as int),
            ),
        decreases len - current_index,
    {
        let chunk_end = current_index + BLOCK_SIZE;
        let needs_write_at = if block_is_clean(bytes, current_index) {
            chunk_end
        } else {
            first_escape(bytes, current_index, chunk_end)
        };
        let ghost start = char_index_to_write as int;
        let ghost now = w.written();
        if needs_write_at != chunk_end {
            proof {
                if obeys {
                    lemma_block_within(
                        before,
                        now,
                        bytes@,
                        start,
                        current_index as int,
                        chunk_end as int,
                    );
                }
            }
            match write_escapes(bytes, char_index_to_write, needs_write_at, chunk_end, w) {
                Ok(next) => {
                    proof {
                        if obeys {
                            lemma_block_written(
                                before,
                                now,
                                w.written(),
                                bytes@,
                                start,
                                current_index as int,
                                next as int,
                                chunk_end as int,
                            );
                        }
                    }
                    char_index_to_write = next;
                },
                Err(e) => {
                    proof {
                        if obeys {
                            lemma_prefix_transitive(
                                w.written(),
                                now + escaped(bytes@.subrange(start, chunk_end as int)),
                                before + escaped(bytes@),
                            );
                            lemma_prefix_transitive(before, now, w.written());
                        }
                    }
                    return Err(e);
                },
            }
        } else {
            proof {
                lemma_pending_extend(
                    obeys,
                    before,
                    now,
                    bytes@,
                    start,
                    current_index as int,
                    chunk_end as int,
                );
            }
        }
        current_index = chunk_end;
    }
    let ghost now = w.written();
    proof {
        if obeys {
            lemma_block_within(
                before,
                now,
                bytes@,
                char_index_to_write as int,
                current_index as int,
                len as int,
            );
        }
    }
    let r = write_json_nosimd_prevalidated(bytes, char_index_to_write, current_index, w);
    proof {
        if obeys {
            lemma_prefix_transitive(before, now, w.written());
        }
    }
    r
}

/// Escapes a text, block by block.
pub fn write_json_common<W: Sink>(s: &str, w: &mut W) -> (r: Result<(), SinkError>)
    ensures
        W::obeys_sink_spec() ==> wrote(&*old(w), &*final(w), r, escaped(encode_utf8(s@)), true),
{
    proof {
        encode_utf8_valid_utf8(s@);
    }
    write_json_simd(s.as_bytes(), w)
}

/// `char::encode_utf8` of std: the one to four bytes that encode the
/// character in UTF-8.
#[verifier::external_body]
fn char_utf8(c: char) -> (bytes: Vec<u8>)
    ensures
        bytes@ == encode_utf8(seq![c]),
{
    let mut buffer: [u8; 4] = [0; 4];
    c.encode_utf8(&mut buffer).as_bytes().to_vec()
}

/// Implemented by types that can be serialized to a JSON string.
///
/// Only such a type can be the key of a JSON object.
pub trait JSONString: JSONValue {

}

/// A reference to a string-like value is string-like.
impl<'a, S: JSONString + ?Sized> JSONString for &'a S {

}

/// A character is a string of one character.
impl JSONValue for char {
    open spec fn obeys_json_spec() -> bool {
        true
    }

    open spec fn json(&self) -> Seq<u8> {
        string_text(encode_utf8(seq![*self]))
    }

    fn write_json<W: Sink>(&self, w: &mut W) -> (r: Result<(), SinkError>) {
        let bytes = char_utf8(*self);
        proof {
            encode_utf8_valid_utf8(seq![*self]);
        }
        write_byte(w, '"' as u8)?;
        write_json_nosimd(bytes.as_slice(), w)?;
        write_byte(w, '"' as u8)
    }
}

impl JSONString for char {

}

impl<'a> JSONValue for &'a str {
    open spec fn obeys_json_spec() -> bool {
        true
    }

    open spec fn json(&self) -> Seq<u8> {
        string_text(encode_utf8((*self)@))
    }

    fn write_json<W: Sink>(&self, w: &mut W) -> (r: Result<(), SinkError>) {
        write_byte(w, '"' as u8)?;
        write_json_common(*self, w)?;
        write_byte(w, '"' as u8)
    }
}

impl<'a> JSONString for &'a str {

}

impl JSONValue for String {
    open spec fn obeys_json_spec() -> bool {
        true
    }

    open spec fn json(&self) -> Seq<u8> {
        string_text(encode_utf8(self@))
    }

    fn write_json<W: Sink>(&self, w: &mut W) -> (r: Result<(), SinkError>) {
        self.as_str().write_json(w)
    }
}

impl JSONString for String {

}

/// The JSON text of a string is a string literal, and a JSON parser reads
/// the string back from it.
pub proof fn lemma_str_is_read_back(s: &str)
    ensures
        s.json() == string_text(encode_utf8(s@)),
        parse_string(s.json()) == Some(encode_utf8(s@)),
{
    lemma_string_round_trip(encode_utf8(s@));
}

/// The JSON text of a character is a string literal, and a JSON parser reads
/// the character back from it.
pub proof fn lemma_char_is_read_back(c: char)
    ensures
        parse_string(c.json()) == Some(encode_utf8(seq![c])),
{
    lemma_string_round_trip(encode_utf8(seq![c]));
}

} // verus!
