//! Serialization to JSON lists like `[0,true,"x"]`.
use vstd::prelude::*;
use vstd::std_specs::iter::IteratorSpec;
use vstd::utf8::{valid_utf8, valid_utf8_concat};
use crate::sink::{
    lemma_ascii_is_utf8, lemma_prefix_of_concat, lemma_prefix_transitive, lemma_prefix_within,
    same_answers, write_byte, wrote, Sink, SinkError,
};
use crate::value::JSONValue;

verus! {

/// The texts of `items`, in order, with a comma between each two.
pub open spec fn separated(items: Seq<Seq<u8>>) -> Seq<u8>
    decreases items.len(),
{
    if items.len() == 0 {
        Seq::<u8>::empty()
    } else if items.len() == 1 {
        items[0]
    } else {
        separated(items.drop_last()) + seq![',' as u8] + items.last()
    }
}

/// The JSON array that holds the given texts as its elements.
pub open spec fn array_text(items: Seq<Seq<u8>>) -> Seq<u8> {
    seq!['[' as u8] + separated(items) + seq![']' as u8]
}

/// What follows the first element of a JSON array: every further element
/// behind a comma, then the closing bracket.
pub open spec fn array_ending(items: Seq<Seq<u8>>) -> Seq<u8> {
    if items.len() == 0 {
        seq![']' as u8]
    } else {
        seq![',' as u8] + separated(items) + seq![']' as u8]
    }
}

/// The JSON texts of a sequence of values.
pub open spec fn texts<J: JSONValue>(items: Seq<J>) -> Seq<Seq<u8>> {
    items.map_values(|x: J| x.json())
}

/// One more text behind others comes behind a comma.
pub proof fn lemma_separated_push(items: Seq<Seq<u8>>, last: Seq<u8>)
    ensures
        separated(items.push(last)) == if items.len() == 0 {
            last
        } else {
            separated(items) + seq![',' as u8] + last
        },
{
    assert(items.push(last).drop_last() =~= items);
}

/// One text before others stands before a comma.
pub proof fn lemma_separated_first(first: Seq<u8>, rest: Seq<Seq<u8>>)
    ensures
        separated(seq![first] + rest) == if rest.len() == 0 {
            first
        } else {
            first + seq![',' as u8] + separated(rest)
        },
    decreases rest.len(),
{
    let all = seq![first] + rest;
    if rest.len() == 0 {
        assert(all =~= seq![first]);
    } else {
        assert(all.drop_last() =~= seq![first] + rest.drop_last());
        assert(all.last() == rest.last());
        lemma_separated_first(first, rest.drop_last());
        if rest.len() == 1 {
            assert(rest.drop_last().len() == 0);
            assert(separated(all) =~= first + seq![',' as u8] + separated(rest));
        } else {
            assert(separated(all) =~= first + seq![',' as u8] + separated(rest));
        }
    }
}

/// An array is its opening bracket, its first element, and the ending that
/// the other elements make.
pub proof fn lemma_array_first(first: Seq<u8>, rest: Seq<Seq<u8>>)
    ensures
        array_text(seq![first] + rest) == seq!['[' as u8] + first + array_ending(rest),
{
    lemma_separated_first(first, rest);
    assert(array_text(seq![first] + rest) =~= seq!['[' as u8] + first + array_ending(rest));
}

/// The ending of a chain that starts with `first` is a comma, `first`, and
/// the ending that the other elements make.
pub proof fn lemma_ending_first(first: Seq<u8>, rest: Seq<Seq<u8>>)
    ensures
        array_ending(seq![first] + rest) == seq![',' as u8] + first + array_ending(rest),
{
    lemma_separated_first(first, rest);
    assert(array_ending(seq![first] + rest) =~= seq![',' as u8] + first + array_ending(rest));
}

/// The array without elements is `[]`.
pub proof fn lemma_empty_array()
    ensures
        array_text(Seq::<Seq<u8>>::empty()) == seq!['[' as u8, ']' as u8],
{
    assert(array_text(Seq::<Seq<u8>>::empty()) =~= seq!['[' as u8, ']' as u8]);
}

/// Texts of well-formed UTF-8 with commas between them are well-formed UTF-8.
pub proof fn lemma_separated_utf8(items: Seq<Seq<u8>>)
    requires
        forall|i: int| 0 <= i < items.len() ==> valid_utf8(#[trigger] items[i]),
    ensures
        valid_utf8(separated(items)),
    decreases items.len(),
{
    if items.len() >= 2 {
        let front = items.drop_last();
        assert forall|i: int| 0 <= i < front.len() implies valid_utf8(#[trigger] front[i]) by {
            assert(front[i] == items[i]);
        }
        lemma_separated_utf8(front);
        lemma_ascii_is_utf8(seq![',' as u8]);
        valid_utf8_concat(separated(front), seq![',' as u8]);
        valid_utf8_concat(separated(front) + seq![',' as u8], items.last());
    } else if items.len() == 1 {
        assert(valid_utf8(items[0]));
    }
}

/// An array of well-formed elements is well-formed UTF-8.
pub proof fn lemma_array_utf8(items: Seq<Seq<u8>>)
    requires
        forall|i: int| 0 <= i < items.len() ==> valid_utf8(#[trigger] items[i]),
    ensures
        valid_utf8(array_text(items)),
        valid_utf8(array_ending(items)),
{
    lemma_separated_utf8(items);
    lemma_ascii_is_utf8(seq!['[' as u8]);
    lemma_ascii_is_utf8(seq![']' as u8]);
    lemma_ascii_is_utf8(seq![',' as u8]);
    valid_utf8_concat(seq!['[' as u8], separated(items));
    valid_utf8_concat(seq!['[' as u8] + separated(items), seq![']' as u8]);
    valid_utf8_concat(seq![',' as u8], separated(items));
    valid_utf8_concat(seq![',' as u8] + separated(items), seq![']' as u8]);
}

/// Texts that are separated by commas, and behind them more texts, are
/// the first with their commas, a comma, and the others with theirs.
pub proof fn lemma_separated_concat(a: Seq<Seq<u8>>, b: Seq<Seq<u8>>)
    ensures
        separated(a + b) == if a.len() == 0 {
            separated(b)
        } else if b.len() == 0 {
            separated(a)
        } else {
            separated(a) + seq![',' as u8] + separated(b)
        },
    decreases b.len(),
{
    if a.len() == 0 {
        assert(a + b =~= b);
    } else if b.len() == 0 {
        assert(a + b =~= a);
    } else {
        let front = b.drop_last();
        assert((a + b).drop_last() =~= a + front);
        assert((a + b).last() == b.last());
        lemma_separated_concat(a, front);
        if front.len() == 0 {
            assert(b =~= seq![b.last()]);
            assert(separated(a + b) =~= separated(a) + seq![',' as u8] + separated(b));
        } else {
            assert(separated(a + b) =~= separated(a) + seq![',' as u8] + separated(b));
        }
    }
}

/// While a bracketed list of texts is written, what has been written stays
/// within the whole: behind `before` and the opening bracket, the texts
/// `done` with their commas, then a comma and `item`, are a prefix of the
/// list of `done`, `item` and `rest` between its brackets.
pub proof fn lemma_within_brackets(
    before: Seq<u8>,
    open: u8,
    close: u8,
    done: Seq<Seq<u8>>,
    item: Seq<u8>,
    rest: Seq<Seq<u8>>,
)
    ensures
        ({
            let whole = before + (seq![open] + separated(done.push(item) + rest) + seq![close]);
            let so_far = before + seq![open] + separated(done);
            &&& done.len() == 0 ==> (so_far + item).is_prefix_of(whole)
            &&& done.len() > 0 ==> so_far.push(',' as u8).is_prefix_of(whole)
            &&& done.len() > 0 ==> (so_far.push(',' as u8) + item).is_prefix_of(whole)
        }),
{
    let whole = before + (seq![open] + separated(done.push(item) + rest) + seq![close]);
    let so_far = before + seq![open] + separated(done);
    let taken = done.push(item);
    lemma_separated_concat(taken, rest);
    lemma_separated_push(done, item);
    let head = before + seq![open] + separated(taken);
    assert(head.is_prefix_of(whole)) by {
        if rest.len() == 0 {
            assert(whole =~= head + seq![close]);
            lemma_prefix_of_concat(head, seq![close]);
        } else {
            assert(whole =~= head + (seq![',' as u8] + separated(rest) + seq![close]));
            lemma_prefix_of_concat(head, seq![',' as u8] + separated(rest) + seq![close]);
        }
    }
    if done.len() == 0 {
        assert(so_far + item =~= head);
    } else {
        assert(so_far.push(',' as u8) + item =~= head);
        lemma_prefix_of_concat(so_far.push(',' as u8), item);
        lemma_prefix_transitive(so_far.push(',' as u8), head, whole);
    }
}

/// What stands behind the first part of a sequence is a tail of the whole.
pub proof fn lemma_suffix_behind<A>(front: Seq<A>, back: Seq<A>)
    ensures
        back.is_suffix_of(front + back),
{
    let whole = front + back;
    assert(back =~= whole.subrange(whole.len() - back.len(), whole.len() as int));
}

/// The element that a stream has taken from its iterator and not written
/// yet, as a sequence of one or none.
pub open spec fn waiting<J>(next: Option<J>) -> Seq<J> {
    match next {
        Some(x) => seq![x],
        None => Seq::<J>::empty(),
    }
}

/// What is gone from a sequence of which `after` is the tail that is left.
pub open spec fn gone<A>(before: Seq<A>, after: Seq<A>) -> Seq<A> {
    before.take(before.len() - after.len())
}

/// The texts before the last, with their commas, are the beginning of all
/// the texts with theirs.
pub proof fn lemma_separated_grows(items: Seq<Seq<u8>>)
    requires
        items.len() > 0,
    ensures
        separated(items.drop_last()).is_prefix_of(separated(items)),
{
    let front = items.drop_last();
    assert(items =~= front.push(items.last()));
    lemma_separated_push(front, items.last());
    if front.len() == 0 {
        assert(separated(front) =~= Seq::<u8>::empty());
        assert(separated(front) =~= separated(items).subrange(0, 0));
    } else {
        lemma_prefix_of_concat(separated(front), seq![',' as u8] + items.last());
        assert(separated(items) =~= separated(front) + (seq![',' as u8] + items.last()));
    }
}

/// What stands before an element of a list: nothing before the first, a
/// comma before each other.
pub open spec fn lead(first: bool) -> Seq<u8> {
    if first {
        Seq::<u8>::empty()
    } else {
        seq![',' as u8]
    }
}

/// Writes an element of a list, behind a comma unless it is the first.
fn write_element<J: JSONValue, W: Sink>(item: &J, first: bool, w: &mut W) -> (r: Result<
    (),
    SinkError,
>)
    ensures
        J::obeys_json_spec() && W::obeys_sink_spec() ==> wrote(
            &*old(w),
            &*final(w),
            r,
            lead(first) + item.json(),
            true,
        ),
{
    if first {
        proof {
            assert(lead(first) + item.json() =~= item.json());
        }
        item.write_json(w)
    } else {
        write_byte(w, ',' as u8)?;
        item.write_json(w)
    }
}

/// While a bracketed list is written element by element, what is written
/// with one more element is the list so far with that element, and stays
/// within the whole list.
pub proof fn lemma_stream_step(
    before: Seq<u8>,
    open: u8,
    close: u8,
    done: Seq<Seq<u8>>,
    item: Seq<u8>,
    rest: Seq<Seq<u8>>,
)
    ensures
        ({
            let start = before + seq![open];
            let whole = before + (seq![open] + separated(done.push(item) + rest) + seq![close]);
            &&& (start + separated(done)) + (lead(done.len() == 0) + item) == start + separated(
                done.push(item),
            )
            &&& (start + separated(done.push(item))).is_prefix_of(whole)
        }),
{
    let start = before + seq![open];
    lemma_within_brackets(before, open, close, done, item, rest);
    lemma_separated_push(done, item);
    if done.len() == 0 {
        assert(separated(done) =~= Seq::<u8>::empty());
        assert((start + separated(done)) + (lead(true) + item) =~= start + item);
        assert(start + separated(done) + item =~= start + item);
    } else {
        assert((start + separated(done)) + (lead(false) + item) =~= start + separated(
            done.push(item),
        ));
        assert((start + separated(done)).push(',' as u8) + item =~= start + separated(
            done.push(item),
        ));
    }
}

/// Writes a stream as a JSON array. The stream is an iterator and, in
/// `next`, the element that has been taken from the iterator and has not
/// been written yet. An element leaves `next` only when it has been written
/// in full: where the sink fails, the element that was about to be written
/// stays in `next`, and no element is lost.
#[verifier::rlimit(80)]
pub fn write_stream<J, I, W>(iter: &mut I, next: &mut Option<J>, w: &mut W) -> (r: Result<
    (),
    SinkError,
>)
    where
        I: Iterator<Item = J>,
        J: JSONValue,
        W: Sink,

    requires
        (*old(iter)).obeys_prophetic_iter_laws(),
        (*old(iter)).decrease() is Some,
    ensures
        (*final(iter)).obeys_prophetic_iter_laws(),
        (*final(iter)).decrease() is Some,
        (waiting(*final(next)) + (*final(iter)).remaining()).is_suffix_of(
            waiting(*old(next)) + (*old(iter)).remaining(),
        ),
        r is Ok ==> *final(next) is None && (*final(iter)).remaining().len() == 0,
        J::obeys_json_spec() && W::obeys_sink_spec() ==> wrote(
            &*old(w),
            &*final(w),
            r,
            array_text(texts(waiting(*old(next)) + (*old(iter)).remaining())),
            true,
        ),
        J::obeys_json_spec() && W::obeys_sink_spec() ==> ({
            let before = waiting(*old(next)) + (*old(iter)).remaining();
            let after = waiting(*final(next)) + (*final(iter)).remaining();
            ||| (old(w).written() + seq!['[' as u8] + separated(
                texts(gone(before, after)),
            )).is_prefix_of(final(w).written())
            ||| {
                &&& final(w).written() == old(w).written()
                &&& *final(next) == *old(next)
                &&& (*final(iter)).remaining() == (*old(iter)).remaining()
            }
        }),
{
    let ghost obeys = J::obeys_json_spec() && W::obeys_sink_spec();
    let ghost all = waiting(*next) + (*iter).remaining();
    let ghost whole = old(w).written() + array_text(texts(all));
    let ghost start = old(w).written() + seq!['[' as u8];
    proof {
        lemma_suffix_behind(Seq::<J>::empty(), all);
        lemma_prefix_of_concat(start, separated(texts(all)) + seq![']' as u8]);
        assert(whole =~= start + (separated(texts(all)) + seq![']' as u8]));
        assert(gone(all, all) =~= Seq::<J>::empty());
        assert(texts(Seq::<J>::empty()) =~= Seq::<Seq<u8>>::empty());
        assert(start + separated(Seq::<Seq<u8>>::empty()) =~= start);
    }
    match write_byte(w, '[' as u8) {
        Ok(()) => {},
        Err(e) => {
            proof {
                if obeys {
                    let now = w.written();
                    if now.len() == old(w).written().len() {
                        assert(now =~= old(w).written());
                    } else {
                        assert(now =~= start);
                        lemma_prefix_of_concat(start, Seq::<u8>::empty());
                        assert(start + Seq::<u8>::empty() =~= start);
                    }
                }
            }
            return Err(e);
        },
    }
    let ghost mut done: Seq<J> = Seq::empty();
    proof {
        assert(all =~= done + (waiting(*next) + (*iter).remaining()));
        if obeys {
            assert(w.written() =~= start + separated(texts(done)));
        }
    }
    let mut first = true;
    loop
        invariant
            (*iter).obeys_prophetic_iter_laws(),
            (*iter).decrease() is Some,
            obeys == (J::obeys_json_spec() && W::obeys_sink_spec()),
            obeys ==> same_answers(&*old(w), &*w),
            whole == old(w).written() + array_text(texts(all)),
            start == old(w).written() + seq!['[' as u8],
            first == (done.len() == 0),
            all == done + (waiting(*next) + (*iter).remaining()),
            all == waiting(*old(next)) + (*old(iter)).remaining(),
            obeys ==> w.written() == start + separated(texts(done)),
        ensures
            *next is None,
            (*iter).remaining().len() == 0,
            (*iter).obeys_prophetic_iter_laws(),
            (*iter).decrease() is Some,
            obeys ==> same_answers(&*old(w), &*w),
            all == waiting(*old(next)) + (*old(iter)).remaining(),
            all == done,
            obeys ==> w.written() == start + separated(texts(all)),
        decreases (*iter).decrease()->0, waiting(*next).len(),
    {
        if next.is_none() {
            let ghost pending = (*iter).remaining();
            let drawn = iter.next();
            proof {
                assert(waiting(drawn) + (*iter).remaining() =~= pending);
                assert(waiting(*next) + pending =~= pending);
            }
            *next = drawn;
        }
        let ghost rest = (*iter).remaining();
        proof {
            lemma_suffix_behind(done, waiting(*next) + rest);
            assert(gone(all, waiting(*next) + rest) =~= done);
        }
        if next.is_none() {
            proof {
                assert(all =~= done);
            }
            break ;
        }
        let ghost x = next->0;
        let ghost mid = w.written();
        proof {
            assert(all =~= done.push(x) + rest);
            assert(texts(all) =~= texts(done).push(x.json()) + texts(rest));
            assert(texts(done.push(x)) =~= texts(done).push(x.json()));
            lemma_stream_step(
                old(w).written(),
                '[' as u8,
                ']' as u8,
                texts(done),
                x.json(),
                texts(rest),
            );
        }
        let r = match next.as_ref() {
            Some(item) => write_element(item, first, w),
            None => Ok(()),
        };
        match r {
            Ok(()) => {},
            Err(e) => {
                proof {
                    if obeys {
                        lemma_prefix_of_concat(old(w).written(), seq!['[' as u8] + separated(
                            texts(done),
                        ));
                        assert(mid =~= old(w).written() + (seq!['[' as u8] + separated(
                            texts(done),
                        )));
                        lemma_prefix_transitive(old(w).written(), mid, w.written());
                        lemma_prefix_transitive(
                            w.written(),
                            mid + (lead(first) + x.json()),
                            whole,
                        );
                    }
                }
                return Err(e);
            },
        }
        proof {
            done = done.push(x);
        }
        *next = None;
        first = false;
        proof {
            assert(all =~= done + (waiting(*next) + (*iter).remaining()));
        }
    }
    let ghost mid = w.written();
    proof {
        assert(gone(all, waiting(*next) + (*iter).remaining()) =~= all);
        lemma_suffix_behind(all, waiting(*next) + (*iter).remaining());
        if obeys {
            lemma_prefix_of_concat(old(w).written(), seq!['[' as u8] + separated(texts(all)));
            assert(mid =~= old(w).written() + (seq!['[' as u8] + separated(texts(all))));
            assert(whole =~= mid + seq![']' as u8]);
        }
    }
    let r = write_byte(w, ']' as u8);
    proof {
        if obeys {
            lemma_prefix_transitive(old(w).written(), mid, w.written());
        }
    }
    r
}

/// Writes what an iterator yields as a JSON array, and leaves the iterator
/// exhausted. An element is taken from the iterator only when the bracket
/// or the element before it has been written. Where the sink fails, the
/// elements that are gone from the iterator have been written in full, but
/// for the last of them, which was about to be written and cannot be put
/// back: to lose none, keep it in a `JSONStream`.
pub fn write_json_iterator<J, I, W>(iter: &mut I, w: &mut W) -> (r: Result<(), SinkError>)
    where
        I: Iterator<Item = J>,
        J: JSONValue,
        W: Sink,

    requires
        (*old(iter)).obeys_prophetic_iter_laws(),
        (*old(iter)).decrease() is Some,
    ensures
        (*final(iter)).obeys_prophetic_iter_laws(),
        (*final(iter)).decrease() is Some,
        (*final(iter)).remaining().is_suffix_of((*old(iter)).remaining()),
        r is Ok ==> (*final(iter)).remaining().len() == 0,
        J::obeys_json_spec() && W::obeys_sink_spec() ==> wrote(
            &*old(w),
            &*final(w),
            r,
            array_text(texts((*old(iter)).remaining())),
            true,
        ),
        J::obeys_json_spec() && W::obeys_sink_spec() ==> ({
            let taken = gone((*old(iter)).remaining(), (*final(iter)).remaining());
            taken.len() > 0 ==> (old(w).written() + seq!['[' as u8] + separated(
                texts(taken.drop_last()),
            )).is_prefix_of(final(w).written())
        }),
{
    let ghost all = (*iter).remaining();
    let mut next: Option<J> = None;
    proof {
        assert(waiting(next) + all =~= all);
    }
    let r = write_stream(iter, &mut next, w);
    proof {
        lemma_suffix_without_waiting(all, (*iter).remaining(), next);
        if J::obeys_json_spec() && W::obeys_sink_spec() {
            lemma_taken_but_last(
                all,
                (*iter).remaining(),
                next,
                old(w).written(),
                w.written(),
            );
        }
    }
    r
}

/// What is left behind an element that waits is a tail of the whole too.
proof fn lemma_suffix_without_waiting<J>(all: Seq<J>, rest: Seq<J>, next: Option<J>)
    requires
        (waiting(next) + rest).is_suffix_of(all),
    ensures
        rest.is_suffix_of(all),
{
    let after = waiting(next) + rest;
    assert(rest =~= after.subrange(after.len() - rest.len(), after.len() as int));
    assert(rest =~= all.subrange(all.len() - rest.len(), all.len() as int));
}

/// Where all that is gone from a stream has been written in full, all that
/// is gone from its iterator has been, but for the element that waits.
proof fn lemma_taken_but_last<J: JSONValue>(
    all: Seq<J>,
    rest: Seq<J>,
    next: Option<J>,
    before: Seq<u8>,
    now: Seq<u8>,
)
    requires
        (waiting(next) + rest).is_suffix_of(all),
        ({
            let after = waiting(next) + rest;
            ||| (before + seq!['[' as u8] + separated(texts(gone(all, after)))).is_prefix_of(now)
            ||| now == before && next is None && rest == all
        }),
    ensures
        ({
            let taken = gone(all, rest);
            taken.len() > 0 ==> (before + seq!['[' as u8] + separated(
                texts(taken.drop_last()),
            )).is_prefix_of(now)
        }),
{
    let after = waiting(next) + rest;
    let written = gone(all, after);
    let taken = gone(all, rest);
    let start = before + seq!['[' as u8];
    if taken.len() > 0 {
        assert(!(next is None && rest == all));
        if next is Some {
            assert(taken.drop_last() =~= written);
        } else {
            assert(after =~= rest);
            assert(taken =~= written);
            assert(texts(taken).drop_last() =~= texts(taken.drop_last()));
            lemma_separated_grows(texts(taken));
            lemma_prefix_within(
                start,
                separated(texts(taken.drop_last())),
                separated(texts(taken)),
            );
            lemma_prefix_transitive(
                start + separated(texts(taken.drop_last())),
                start + separated(texts(taken)),
                now,
            );
        }
    }
}

/// A stream: an iterator that is serialized while it is drawn from, and the
/// element that has been drawn and not written yet. Serializing the stream
/// consumes it: a second serialization yields what the first has left, which
/// is `[]` once the first has gone through. Where the sink fails, no element
/// is lost: the one that was about to be written stays in the stream.
#[verifier::reject_recursive_types(J)]
pub struct JSONStream<J: JSONValue, I: Iterator<Item = J>> {
    /// Where the elements come from.
    pub iter: I,
    /// The element that has been taken from `iter` and not written yet.
    pub next: Option<J>,
}

impl<J: JSONValue, I: Iterator<Item = J>> JSONStream<J, I> {
    /// A stream of what `iter` yields.
    pub fn new(iter: I) -> (r: JSONStream<J, I>)
        ensures
            r.iter == iter,
            r.next is None,
    {
        JSONStream { iter, next: None }
    }

    /// Writes what the stream still holds as a JSON array, and leaves the
    /// stream empty. Where the sink fails, every element that is gone from
    /// the stream has been written in full.
    pub fn write_json<W: Sink>(&mut self, w: &mut W) -> (r: Result<(), SinkError>)
        requires
            old(self).iter.obeys_prophetic_iter_laws(),
            old(self).iter.decrease() is Some,
        ensures
            final(self).iter.obeys_prophetic_iter_laws(),
            final(self).iter.decrease() is Some,
            (waiting(final(self).next) + final(self).iter.remaining()).is_suffix_of(
                waiting(old(self).next) + old(self).iter.remaining(),
            ),
            r is Ok ==> final(self).next is None && final(self).iter.remaining().len() == 0,
            J::obeys_json_spec() && W::obeys_sink_spec() ==> wrote(
                &*old(w),
                &*final(w),
                r,
                array_text(texts(waiting(old(self).next) + old(self).iter.remaining())),
                true,
            ),
            J::obeys_json_spec() && W::obeys_sink_spec() ==> ({
                let before = waiting(old(self).next) + old(self).iter.remaining();
                let after = waiting(final(self).next) + final(self).iter.remaining();
                ||| (old(w).written() + seq!['[' as u8] + separated(
                    texts(gone(before, after)),
                )).is_prefix_of(final(w).written())
                ||| {
                    &&& final(w).written() == old(w).written()
                    &&& final(self).next == old(self).next
                    &&& final(self).iter.remaining() == old(self).iter.remaining()
                }
            }),
    {
        write_stream(&mut self.iter, &mut self.next, w)
    }
}

/// The texts that references to values yield are the texts of the values.
pub proof fn lemma_texts_of_refs<T: JSONValue>(items: Seq<T>)
    ensures
        texts::<&T>(items.as_ref()) == texts::<T>(items),
{
    assert(texts::<&T>(items.as_ref()) =~= texts::<T>(items));
}

/// A vector is the JSON array of its elements, in order.
impl<T: JSONValue> JSONValue for Vec<T> {
    open spec fn obeys_json_spec() -> bool {
        T::obeys_json_spec()
    }

    open spec fn json(&self) -> Seq<u8> {
        array_text(texts(self@))
    }

    fn write_json<W: Sink>(&self, w: &mut W) -> (r: Result<(), SinkError>) {
        let items = self.as_slice();
        let mut iter = items.iter();
        proof {
            vstd::std_specs::slice::axiom_spec_slice_iter(items);
            lemma_texts_of_refs(self@);
        }
        write_json_iterator(&mut iter, w)
    }
}

/// Wraps a vector and makes it serializable as a JSON list.
pub struct ToJSONList<T: JSONValue>(pub Vec<T>);

impl<T: JSONValue> JSONValue for ToJSONList<T> {
    open spec fn obeys_json_spec() -> bool {
        T::obeys_json_spec()
    }

    open spec fn json(&self) -> Seq<u8> {
        array_text(texts(self.0@))
    }

    fn write_json<W: Sink>(&self, w: &mut W) -> (r: Result<(), SinkError>) {
        self.0.write_json(w)
    }
}

/// A list whose length and element types are fixed by its type: a chain of
/// `JSONListElem` links that ends in `JSONListEnd`.
///
/// The JSON text of a chain is the array of its `items`.
pub trait JSONList: JSONValue {
    /// The JSON texts of the elements, first to last.
    open spec fn items(&self) -> Seq<Seq<u8>> {
        Seq::<Seq<u8>>::empty()
    }

    /// Writes the chain as the rest of an array whose first element has been
    /// written: each element behind a comma, then the closing bracket.
    fn write_json_ending<W: Sink>(&self, w: &mut W) -> (r: Result<(), SinkError>)
        ensures
            Self::obeys_json_spec() && W::obeys_sink_spec() ==> wrote(
                &*old(w),
                &*final(w),
                r,
                array_ending(self.items()),
                true,
            ),
    ;
}

/// A link of a chain: one element and the rest of the chain.
pub struct JSONListElem<T: JSONValue, U: JSONList> {
    elem: T,
    next: U,
}

impl<T: JSONValue, U: JSONList> JSONListElem<T, U> {
    /// The texts of the link's element and of those that follow it.
    pub closed spec fn chain_items(&self) -> Seq<Seq<u8>> {
        seq![self.elem.json()] + self.next.items()
    }

    /// Puts `elem` in front of the chain `next`.
    pub fn new(elem: T, next: U) -> (r: JSONListElem<T, U>)
        ensures
            r.items() == seq![elem.json()] + next.items(),
            r.json() == array_text(seq![elem.json()] + next.items()),
    {
        JSONListElem { elem, next }
    }
}

impl<T: JSONValue, U: JSONList> JSONList for JSONListElem<T, U> {
    open spec fn items(&self) -> Seq<Seq<u8>> {
        self.chain_items()
    }

    fn write_json_ending<W: Sink>(&self, w: &mut W) -> (r: Result<(), SinkError>) {
        proof {
            lemma_ending_first(self.elem.json(), self.next.items());
        }
        write_byte(w, ',' as u8)?;
        self.elem.write_json(w)?;
        self.next.write_json_ending(w)
    }
}

impl<T: JSONValue, U: JSONList> JSONValue for JSONListElem<T, U> {
    open spec fn obeys_json_spec() -> bool {
        T::obeys_json_spec() && U::obeys_json_spec()
    }

    open spec fn json(&self) -> Seq<u8> {
        array_text(self.chain_items())
    }

    fn write_json<W: Sink>(&self, w: &mut W) -> (r: Result<(), SinkError>) {
        proof {
            lemma_array_first(self.elem.json(), self.next.items());
        }
        write_byte(w, '[' as u8)?;
        self.elem.write_json(w)?;
        self.next.write_json_ending(w)
    }
}

/// The end of a chain, and the empty list where it stands alone.
pub struct JSONListEnd;

impl JSONList for JSONListEnd {
    open spec fn items(&self) -> Seq<Seq<u8>> {
        Seq::<Seq<u8>>::empty()
    }

    fn write_json_ending<W: Sink>(&self, w: &mut W) -> (r: Result<(), SinkError>) {
        write_byte(w, ']' as u8)
    }
}

impl JSONValue for JSONListEnd {
    open spec fn obeys_json_spec() -> bool {
        true
    }

    open spec fn json(&self) -> Seq<u8> {
        seq!['[' as u8, ']' as u8]
    }

    fn write_json<W: Sink>(&self, w: &mut W) -> (r: Result<(), SinkError>) {
        let text: [u8; 2] = ['[' as u8, ']' as u8];
        proof {
            lemma_ascii_is_utf8(text@);
        }
        w.write_all(text.as_slice())
    }
}

/// The text of a chain is the JSON array of its elements.
pub proof fn lemma_chain_is_array<T: JSONValue, U: JSONList>(chain: &JSONListElem<T, U>)
    ensures
        chain.json() == array_text(chain.items()),
{
}

/// The end of a chain alone is the empty list: its text is exactly `[]`.
pub proof fn lemma_end_alone_is_empty_list(end: &JSONListEnd)
    ensures
        end.json() == seq!['[' as u8, ']' as u8],
        end.json() == array_text(end.items()),
{
    lemma_empty_array();
}

/// A stream that has been read to its end is written as `[]`: this is what
/// a second serialization of the same stream yields.
pub proof fn lemma_exhausted_stream_is_empty_list<J: JSONValue>(remaining: Seq<J>)
    requires
        remaining.len() == 0,
    ensures
        array_text(texts(remaining)) == seq!['[' as u8, ']' as u8],
{
    assert(texts(remaining) =~= Seq::<Seq<u8>>::empty());
    lemma_empty_array();
}

/// A chain that starts with a link and a vector that hold the same elements
/// in the same order have the same JSON text, byte for byte.
pub proof fn lemma_chain_matches_vec<T: JSONValue, U: JSONList, E: JSONValue>(
    chain: &JSONListElem<T, U>,
    list: &Vec<E>,
)
    requires
        chain.items() == texts(list@),
    ensures
        chain.json() == list.json(),
{
}

/// The empty chain and the empty vector have the same JSON text, `[]`.
pub proof fn lemma_empty_chain_matches_vec<E: JSONValue>(chain: &JSONListEnd, list: &Vec<E>)
    requires
        chain.items() == texts(list@),
    ensures
        chain.json() == list.json(),
        chain.json() == seq!['[' as u8, ']' as u8],
{
    assert(texts(list@).len() == 0);
    assert(texts(list@) =~= Seq::<Seq<u8>>::empty());
    lemma_empty_array();
}

} // verus!
