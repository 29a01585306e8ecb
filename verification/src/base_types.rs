//! Serialization of numbers, booleans and null.
use vstd::prelude::*;
use vstd::utf8::{encode_utf8, encode_utf8_valid_utf8, valid_utf8};
use crate::sink::{is_ascii_bytes, lemma_ascii_is_utf8, wrote, Sink, SinkError};
use crate::value::JSONValue;

verus! {

/// The literal `null`.
pub open spec fn null_text() -> Seq<u8> {
    seq!['n' as u8, 'u' as u8, 'l' as u8, 'l' as u8]
}

/// The literal `true`.
pub open spec fn true_text() -> Seq<u8> {
    seq!['t' as u8, 'r' as u8, 'u' as u8, 'e' as u8]
}

/// The literal `false`.
pub open spec fn false_text() -> Seq<u8> {
    seq!['f' as u8, 'a' as u8, 'l' as u8, 's' as u8, 'e' as u8]
}

/// The unit value is JSON's `null`.
impl JSONValue for () {
    open spec fn obeys_json_spec() -> bool {
        true
    }

    open spec fn json(&self) -> Seq<u8> {
        null_text()
    }

    fn write_json<W: Sink>(&self, w: &mut W) -> (r: Result<(), SinkError>) {
        let text: [u8; 4] = ['n' as u8, 'u' as u8, 'l' as u8, 'l' as u8];
        proof {
            assert(text@ =~= null_text());
            lemma_ascii_is_utf8(text@);
        }
        w.write_all(text.as_slice())
    }
}

impl JSONValue for bool {
    open spec fn obeys_json_spec() -> bool {
        true
    }

    open spec fn json(&self) -> Seq<u8> {
        if *self {
            true_text()
        } else {
            false_text()
        }
    }

    fn write_json<W: Sink>(&self, w: &mut W) -> (r: Result<(), SinkError>) {
        if *self {
            let text: [u8; 4] = ['t' as u8, 'r' as u8, 'u' as u8, 'e' as u8];
            proof {
                assert(text@ =~= true_text());
                lemma_ascii_is_utf8(text@);
            }
            w.write_all(text.as_slice())
        } else {
            let text: [u8; 5] = ['f' as u8, 'a' as u8, 'l' as u8, 's' as u8, 'e' as u8];
            proof {
                assert(text@ =~= false_text());
                lemma_ascii_is_utf8(text@);
            }
            w.write_all(text.as_slice())
        }
    }
}

/// The value `true` as a type of its own, which takes no space in memory.
#[allow(non_camel_case_types)]
pub struct JSONtrue;

impl JSONValue for JSONtrue {
    open spec fn obeys_json_spec() -> bool {
        true
    }

    open spec fn json(&self) -> Seq<u8> {
        true_text()
    }

    fn write_json<W: Sink>(&self, w: &mut W) -> (r: Result<(), SinkError>) {
        true.write_json(w)
    }
}

/// The value `false` as a type of its own, which takes no space in memory.
#[allow(non_camel_case_types)]
pub struct JSONfalse;

impl JSONValue for JSONfalse {
    open spec fn obeys_json_spec() -> bool {
        true
    }

    open spec fn json(&self) -> Seq<u8> {
        false_text()
    }

    fn write_json<W: Sink>(&self, w: &mut W) -> (r: Result<(), SinkError>) {
        false.write_json(w)
    }
}

/// An absent value is `null`; a present one encodes as itself.
impl<T: JSONValue> JSONValue for Option<T> {
    open spec fn always_writes_text() -> bool {
        T::always_writes_text()
    }

    open spec fn obeys_json_spec() -> bool {
        T::obeys_json_spec()
    }

    open spec fn json(&self) -> Seq<u8> {
        match self {
            Some(value) => value.json(),
            None => null_text(),
        }
    }

    fn write_json<W: Sink>(&self, w: &mut W) -> (r: Result<(), SinkError>) {
        if let Some(value) = self {
            value.write_json(w)
        } else {
            ().write_json(w)
        }
    }
}

/// The ASCII digit for a value below ten.
pub open spec fn digit(d: nat) -> u8
    recommends
        d < 10,
{
    ('0' as u8 + d) as u8
}

/// The decimal digits of a natural number, most significant first, without
/// leading zeros.
pub open spec fn nat_text(n: nat) -> Seq<u8>
    decreases n,
{
    if n < 10 {
        seq![digit(n)]
    } else {
        nat_text(n / 10).push(digit(n % 10))
    }
}

/// The canonical decimal text of an integer: a minus sign if it is negative,
/// then its digits.
pub open spec fn int_text(n: int) -> Seq<u8> {
    if n < 0 {
        seq!['-' as u8] + nat_text((-n) as nat)
    } else {
        nat_text(n as nat)
    }
}

/// Decimal digits are ASCII.
pub proof fn lemma_nat_text_ascii(n: nat)
    ensures
        is_ascii_bytes(nat_text(n)),
        nat_text(n).len() >= 1,
    decreases n,
{
    if n >= 10 {
        lemma_nat_text_ascii(n / 10);
    }
}

/// The text of an integer is ASCII, hence well-formed UTF-8.
pub proof fn lemma_int_text_utf8(n: int)
    ensures
        is_ascii_bytes(int_text(n)),
        valid_utf8(int_text(n)),
{
    if n < 0 {
        lemma_nat_text_ascii((-n) as nat);
    } else {
        lemma_nat_text_ascii(n as nat);
    }
    lemma_ascii_is_utf8(int_text(n));
}

/// True of the ASCII digits.
pub open spec fn is_digit(b: u8) -> bool {
    '0' as u8 <= b <= '9' as u8
}

/// The number that a run of decimal digits stands for.
pub open spec fn digits_value(text: Seq<u8>) -> nat
    decreases text.len(),
{
    if text.len() == 0 {
        0
    } else {
        (digits_value(text.drop_last()) * 10 + (text.last() - '0' as u8)) as nat
    }
}

/// True of the digits of a JSON number without sign, fraction or exponent:
/// at least one digit, and no leading zero before another digit.
pub open spec fn is_json_digits(text: Seq<u8>) -> bool {
    &&& text.len() >= 1
    &&& forall|i: int| 0 <= i < text.len() ==> is_digit(#[trigger] text[i])
    &&& text.len() == 1 || text[0] != '0' as u8
}

/// What a JSON parser reads from the text of an integer: its value, or
/// nothing where the text is no JSON integer.
pub open spec fn parse_int(text: Seq<u8>) -> Option<int> {
    if text.len() > 0 && text[0] == '-' as u8 {
        let digits = text.subrange(1, text.len() as int);
        if is_json_digits(digits) {
            Some(-(digits_value(digits) as int))
        } else {
            None
        }
    } else if is_json_digits(text) {
        Some(digits_value(text) as int)
    } else {
        None
    }
}

/// The digits of a natural number are JSON digits that stand for it.
pub proof fn lemma_nat_text_parses(n: nat)
    ensures
        is_json_digits(nat_text(n)),
        digits_value(nat_text(n)) == n,
        n > 0 ==> nat_text(n)[0] != '0' as u8,
    decreases n,
{
    let text = nat_text(n);
    if n < 10 {
        assert(text.drop_last() =~= Seq::<u8>::empty());
        assert(digits_value(text.drop_last()) == 0);
    } else {
        lemma_nat_text_parses(n / 10);
        let front = nat_text(n / 10);
        assert(text.drop_last() =~= front);
        assert(text.last() == digit(n % 10));
        assert(text[0] == front[0]);
        assert forall|i: int| 0 <= i < text.len() implies is_digit(#[trigger] text[i]) by {
            if i < front.len() {
                assert(text[i] == front[i]);
            }
        }
    }
}

/// Every integer is read back from its text: a JSON parser that is given
/// the text of `n` yields `n`.
pub proof fn lemma_int_round_trip(n: int)
    ensures
        parse_int(int_text(n)) == Some(n),
{
    if n < 0 {
        let digits = nat_text((-n) as nat);
        lemma_nat_text_parses((-n) as nat);
        assert(int_text(n).subrange(1, int_text(n).len() as int) =~= digits);
    } else {
        lemma_nat_text_parses(n as nat);
    }
}

/// `itoa::write` on a `u64` and an empty byte buffer: the buffer then holds
/// the integer's decimal digits.
#[verifier::external_body]
fn itoa_u64(value: u64) -> (text: Vec<u8>)
    ensures
        text@ == int_text(value as int),
{
    let mut text: Vec<u8> = Vec::new();
    let _ = itoa::write(&mut text, value);
    text
}

/// `itoa::write` on an `i64` and an empty byte buffer: the buffer then holds
/// a minus sign where the integer is negative, and the decimal digits of its
/// magnitude.
#[verifier::external_body]
fn itoa_i64(value: i64) -> (text: Vec<u8>)
    ensures
        text@ == int_text(value as int),
{
    let mut text: Vec<u8> = Vec::new();
    let _ = itoa::write(&mut text, value);
    text
}

/// `itoa::write` on a `u128` and an empty byte buffer: the buffer then holds
/// the integer's decimal digits.
#[verifier::external_body]
fn itoa_u128(value: u128) -> (text: Vec<u8>)
    ensures
        text@ == int_text(value as int),
{
    let mut text: Vec<u8> = Vec::new();
    let _ = itoa::write(&mut text, value);
    text
}

/// `itoa::write` on an `i128` and an empty byte buffer: the buffer then
/// holds a minus sign where the integer is negative, and the decimal digits
/// of its magnitude.
#[verifier::external_body]
fn itoa_i128(value: i128) -> (text: Vec<u8>)
    ensures
        text@ == int_text(value as int),
{
    let mut text: Vec<u8> = Vec::new();
    let _ = itoa::write(&mut text, value);
    text
}

/// Writes the decimal text of the integer `value`.
fn write_int_text<W: Sink>(text: Vec<u8>, w: &mut W, Ghost(value): Ghost<int>) -> (r: Result<
    (),
    SinkError,
>)
    requires
        text@ == int_text(value),
    ensures
        W::obeys_sink_spec() ==> wrote(&*old(w), &*final(w), r, int_text(value), true),
{
    proof {
        lemma_int_text_utf8(value);
    }
    w.write_all(text.as_slice())
}

impl JSONValue for i8 {
    open spec fn obeys_json_spec() -> bool {
        true
    }

    open spec fn json(&self) -> Seq<u8> {
        int_text(*self as int)
    }

    fn write_json<W: Sink>(&self, w: &mut W) -> (r: Result<(), SinkError>) {
        write_int_text(itoa_i64(*self as i64), w, Ghost(*self as int))
    }
}

impl JSONValue for i16 {
    open spec fn obeys_json_spec() -> bool {
        true
    }

    open spec fn json(&self) -> Seq<u8> {
        int_text(*self as int)
    }

    fn write_json<W: Sink>(&self, w: &mut W) -> (r: Result<(), SinkError>) {
        write_int_text(itoa_i64(*self as i64), w, Ghost(*self as int))
    }
}

impl JSONValue for i32 {
    open spec fn obeys_json_spec() -> bool {
        true
    }

    open spec fn json(&self) -> Seq<u8> {
        int_text(*self as int)
    }

    fn write_json<W: Sink>(&self, w: &mut W) -> (r: Result<(), SinkError>) {
        write_int_text(itoa_i64(*self as i64), w, Ghost(*self as int))
    }
}

impl JSONValue for i64 {
    open spec fn obeys_json_spec() -> bool {
        true
    }

    open spec fn json(&self) -> Seq<u8> {
        int_text(*self as int)
    }

    fn write_json<W: Sink>(&self, w: &mut W) -> (r: Result<(), SinkError>) {
        write_int_text(itoa_i64(*self), w, Ghost(*self as int))
    }
}

impl JSONValue for i128 {
    open spec fn obeys_json_spec() -> bool {
        true
    }

    open spec fn json(&self) -> Seq<u8> {
        int_text(*self as int)
    }

    fn write_json<W: Sink>(&self, w: &mut W) -> (r: Result<(), SinkError>) {
        write_int_text(itoa_i128(*self), w, Ghost(*self as int))
    }
}

impl JSONValue for isize {
    open spec fn obeys_json_spec() -> bool {
        true
    }

    open spec fn json(&self) -> Seq<u8> {
        int_text(*self as int)
    }

    fn write_json<W: Sink>(&self, w: &mut W) -> (r: Result<(), SinkError>) {
        write_int_text(itoa_i64(*self as i64), w, Ghost(*self as int))
    }
}

impl JSONValue for u8 {
    open spec fn obeys_json_spec() -> bool {
        true
    }

    open spec fn json(&self) -> Seq<u8> {
        int_text(*self as int)
    }

    fn write_json<W: Sink>(&self, w: &mut W) -> (r: Result<(), SinkError>) {
        write_int_text(itoa_u64(*self as u64), w, Ghost(*self as int))
    }
}

impl JSONValue for u16 {
    open spec fn obeys_json_spec() -> bool {
        true
    }

    open spec fn json(&self) -> Seq<u8> {
        int_text(*self as int)
    }

    fn write_json<W: Sink>(&self, w: &mut W) -> (r: Result<(), SinkError>) {
        write_int_text(itoa_u64(*self as u64), w, Ghost(*self as int))
    }
}

impl JSONValue for u32 {
    open spec fn obeys_json_spec() -> bool {
        true
    }

    open spec fn json(&self) -> Seq<u8> {
        int_text(*self as int)
    }

    fn write_json<W: Sink>(&self, w: &mut W) -> (r: Result<(), SinkError>) {
        write_int_text(itoa_u64(*self as u64), w, Ghost(*self as int))
    }
}

impl JSONValue for u64 {
    open spec fn obeys_json_spec() -> bool {
        true
    }

    open spec fn json(&self) -> Seq<u8> {
        int_text(*self as int)
    }

    fn write_json<W: Sink>(&self, w: &mut W) -> (r: Result<(), SinkError>) {
        write_int_text(itoa_u64(*self), w, Ghost(*self as int))
    }
}

impl JSONValue for u128 {
    open spec fn obeys_json_spec() -> bool {
        true
    }

    open spec fn json(&self) -> Seq<u8> {
        int_text(*self as int)
    }

    fn write_json<W: Sink>(&self, w: &mut W) -> (r: Result<(), SinkError>) {
        write_int_text(itoa_u128(*self), w, Ghost(*self as int))
    }
}

impl JSONValue for usize {
    open spec fn obeys_json_spec() -> bool {
        true
    }

    open spec fn json(&self) -> Seq<u8> {
        int_text(*self as int)
    }

    fn write_json<W: Sink>(&self, w: &mut W) -> (r: Result<(), SinkError>) {
        write_int_text(itoa_u64(*self as u64), w, Ghost(*self as int))
    }
}

/// True of the bits of a double-precision number that is finite: the eleven
/// bits of its exponent are not all set. The other patterns are the two
/// infinities and the values that are no number.
pub open spec fn is_finite_double(bits: u64) -> bool {
    (bits >> 52) & 0x7ff != 0x7ff
}

/// True of the bits of a single-precision number that is finite: the eight
/// bits of its exponent are not all set.
pub open spec fn is_finite_single(bits: u32) -> bool {
    (bits >> 23) & 0xff != 0xff
}

/// The JSON text of a floating-point number: its shortest decimal text that
/// reads back as the same number where it is finite, and `null` where it is
/// not, since JSON has no literal for such a value.
pub open spec fn float_text(finite: bool, shortest: Seq<char>) -> Seq<u8> {
    if finite {
        encode_utf8(shortest)
    } else {
        null_text()
    }
}

/// Writes a double-precision number that is given by its bits. `shortest` is
/// the shortest decimal text that reads back as the number; it is not looked
/// at where the number is not finite.
pub fn write_double_bits<W: Sink>(bits: u64, shortest: &str, w: &mut W) -> (r: Result<
    (),
    SinkError,
>)
    ensures
        W::obeys_sink_spec() ==> wrote(
            &*old(w),
            &*final(w),
            r,
            float_text(is_finite_double(bits), shortest@),
            true,
        ),
{
    if (bits >> 52) & 0x7ff != 0x7ff {
        proof {
            encode_utf8_valid_utf8(shortest@);
        }
        w.write_all(shortest.as_bytes())
    } else {
        ().write_json(w)
    }
}

/// Writes a single-precision number that is given by its bits. `shortest` is
/// the shortest decimal text that reads back as the number; it is not looked
/// at where the number is not finite.
pub fn write_single_bits<W: Sink>(bits: u32, shortest: &str, w: &mut W) -> (r: Result<
    (),
    SinkError,
>)
    ensures
        W::obeys_sink_spec() ==> wrote(
            &*old(w),
            &*final(w),
            r,
            float_text(is_finite_single(bits), shortest@),
            true,
        ),
{
    if (bits >> 23) & 0xff != 0xff {
        proof {
            encode_utf8_valid_utf8(shortest@);
        }
        w.write_all(shortest.as_bytes())
    } else {
        ().write_json(w)
    }
}

/// A floating-point number that is not finite is written as `null`,
/// whatever text comes with it.
pub proof fn lemma_non_finite_is_null(bits: u64, shortest: Seq<char>)
    requires
        !is_finite_double(bits),
    ensures
        float_text(is_finite_double(bits), shortest) == null_text(),
{
}

} // verus!
