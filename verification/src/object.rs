//! Serialization to JSON objects like `{"x":1,"y":null}`.
use std::collections::HashMap;
use std::hash::RandomState;
use vstd::prelude::*;
use vstd::std_specs::hash::{builds_valid_hashers, obeys_key_model};
use vstd::std_specs::iter::IteratorSpec;
use vstd::utf8::{encode_utf8, valid_utf8, valid_utf8_concat};
use crate::list::{
    gone, lead, lemma_separated_first, lemma_separated_grows, lemma_separated_utf8,
    lemma_stream_step, lemma_suffix_behind, separated, waiting,
};
use crate::sink::{
    lemma_ascii_is_utf8, lemma_prefix_of_concat, lemma_prefix_transitive, lemma_prefix_within,
    same_answers, write_byte, wrote, Sink, SinkError,
};
use crate::string::JSONString;
use crate::utils::FormatterWriter;
use crate::value::JSONValue;

verus! {

/// One member of a JSON object: the key, a colon, the value.
pub open spec fn member_text(key: Seq<u8>, value: Seq<u8>) -> Seq<u8> {
    key + seq![':' as u8] + value
}

/// The JSON object that holds the given members.
pub open spec fn object_text(members: Seq<Seq<u8>>) -> Seq<u8> {
    seq!['{' as u8] + separated(members) + seq!['}' as u8]
}

/// What follows the first member of a JSON object: every further member
/// behind a comma, then the closing brace.
pub open spec fn object_ending(members: Seq<Seq<u8>>) -> Seq<u8> {
    if members.len() == 0 {
        seq!['}' as u8]
    } else {
        seq![',' as u8] + separated(members) + seq!['}' as u8]
    }
}

/// The member texts of a sequence of key-value pairs.
pub open spec fn member_texts<K: JSONString, V: JSONValue>(pairs: Seq<(K, V)>) -> Seq<Seq<u8>> {
    pairs.map_values(|p: (K, V)| member_text(p.0.json(), p.1.json()))
}

/// An object is its opening brace, its first member, and the ending that the
/// other members make.
pub proof fn lemma_object_first(first: Seq<u8>, rest: Seq<Seq<u8>>)
    ensures
        object_text(seq![first] + rest) == seq!['{' as u8] + first + object_ending(rest),
        object_ending(seq![first] + rest) == seq![',' as u8] + first + object_ending(rest),
{
    lemma_separated_first(first, rest);
    assert(object_text(seq![first] + rest) =~= seq!['{' as u8] + first + object_ending(rest));
    assert(object_ending(seq![first] + rest) =~= seq![',' as u8] + first + object_ending(rest));
}

/// The object without members is `{}`.
pub proof fn lemma_empty_object()
    ensures
        object_text(Seq::<Seq<u8>>::empty()) == seq!['{' as u8, '}' as u8],
{
    assert(object_text(Seq::<Seq<u8>>::empty()) =~= seq!['{' as u8, '}' as u8]);
}

/// A member made of a well-formed key and a well-formed value is well-formed
/// UTF-8.
pub proof fn lemma_member_utf8(key: Seq<u8>, value: Seq<u8>)
    requires
        valid_utf8(key),
        valid_utf8(value),
    ensures
        valid_utf8(member_text(key, value)),
{
    lemma_ascii_is_utf8(seq![':' as u8]);
    valid_utf8_concat(key, seq![':' as u8]);
    valid_utf8_concat(key + seq![':' as u8], value);
}

/// An object of well-formed members is well-formed UTF-8.
pub proof fn lemma_object_utf8(members: Seq<Seq<u8>>)
    requires
        forall|i: int| 0 <= i < members.len() ==> valid_utf8(#[trigger] members[i]),
    ensures
        valid_utf8(object_text(members)),
{
    lemma_separated_utf8(members);
    lemma_ascii_is_utf8(seq!['{' as u8]);
    lemma_ascii_is_utf8(seq!['}' as u8]);
    valid_utf8_concat(seq!['{' as u8], separated(members));
    valid_utf8_concat(seq!['{' as u8] + separated(members), seq!['}' as u8]);
}

/// Writes a single key-value pair.
pub fn write_object_entry<W, K, V>(w: &mut W, key: &K, value: &V) -> (r: Result<(), SinkError>)
    where
        W: Sink,
        K: JSONString,
        V: JSONValue,

    ensures
        K::obeys_json_spec() && V::obeys_json_spec() && W::obeys_sink_spec() ==> wrote(
            &*old(w),
            &*final(w),
            r,
            member_text(key.json(), value.json()),
            true,
        ),
{
    key.write_json(w)?;
    write_byte(w, ':' as u8)?;
    let r = value.write_json(w);
    proof {
        assert(old(w).written() + key.json() + seq![':' as u8] + value.json() =~= old(w).written()
            + member_text(key.json(), value.json()));
    }
    r
}

/// The member texts of pairs that are given by reference.
pub open spec fn pair_texts<K: JSONString, V: JSONValue>(pairs: Seq<&(K, V)>) -> Seq<Seq<u8>> {
    member_texts(pairs.unref())
}

/// Writes a member of an object, behind a comma unless it is the first.
fn write_member<W, K, V>(w: &mut W, pair: &(K, V), first: bool) -> (r: Result<(), SinkError>)
    where
        W: Sink,
        K: JSONString,
        V: JSONValue,

    ensures
        K::obeys_json_spec() && V::obeys_json_spec() && W::obeys_sink_spec() ==> wrote(
            &*old(w),
            &*final(w),
            r,
            lead(first) + member_text(pair.0.json(), pair.1.json()),
            true,
        ),
{
    if first {
        proof {
            assert(lead(first) + member_text(pair.0.json(), pair.1.json()) =~= member_text(
                pair.0.json(),
                pair.1.json(),
            ));
        }
        write_object_entry(w, &pair.0, &pair.1)
    } else {
        write_byte(w, ',' as u8)?;
        write_object_entry(w, &pair.0, &pair.1)
    }
}

/// Writes pairs as a JSON object. The pairs are those of an iterator and, in
/// `next`, the pair that has been taken from the iterator and has not been
/// written yet. A pair leaves `next` only when it has been written in full.
#[verifier::rlimit(80)]
fn write_pairs<'a, W, K, V, I>(
    w: &mut W,
    iter: &mut I,
    next: &mut Option<&'a (K, V)>,
) -> (r: Result<(), SinkError>)
    where
        W: Sink,
        K: JSONString,
        V: JSONValue,
        V: 'a,
        K: 'a,
        I: Iterator<Item = &'a (K, V)>,

    requires
        (*old(iter)).obeys_prophetic_iter_laws(),
        (*old(iter)).decrease() is Some,
    ensures
        (*final(iter)).obeys_prophetic_iter_laws(),
        (*final(iter)).decrease() is Some,
        (waiting(*final(next)) + (*final(iter)).remaining()).is_suffix_of(
            waiting(*old(next)) + (*old(iter)).remaining(),
        ),
        r is Ok ==> *final(next) is None && (*final(iter)).remaining().len() == 0,
        K::obeys_json_spec() && V::obeys_json_spec() && W::obeys_sink_spec() ==> wrote(
            &*old(w),
            &*final(w),
            r,
            object_text(pair_texts(waiting(*old(next)) + (*old(iter)).remaining())),
            true,
        ),
        K::obeys_json_spec() && V::obeys_json_spec() && W::obeys_sink_spec() ==> ({
            let before = waiting(*old(next)) + (*old(iter)).remaining();
            let after = waiting(*final(next)) + (*final(iter)).remaining();
            ||| (old(w).written() + seq!['{' as u8] + separated(
                pair_texts(gone(before, after)),
            )).is_prefix_of(final(w).written())
            ||| {
                &&& final(w).written() == old(w).written()
                &&& *final(next) == *old(next)
                &&& (*final(iter)).remaining() == (*old(iter)).remaining()
            }
        }),
{
    let ghost obeys = K::obeys_json_spec() && V::obeys_json_spec() && W::obeys_sink_spec();
    let ghost all = waiting(*next) + (*iter).remaining();
    let ghost whole = old(w).written() + object_text(pair_texts(all));
    let ghost start = old(w).written() + seq!['{' as u8];
    proof {
        lemma_suffix_behind(Seq::<&'a (K, V)>::empty(), all);
        lemma_prefix_of_concat(start, separated(pair_texts(all)) + seq!['}' as u8]);
        assert(whole =~= start + (separated(pair_texts(all)) + seq!['}' as u8]));
        assert(gone(all, all) =~= Seq::<&'a (K, V)>::empty());
        assert(pair_texts(Seq::<&'a (K, V)>::empty()) =~= Seq::<Seq<u8>>::empty());
        assert(start + separated(Seq::<Seq<u8>>::empty()) =~= start);
    }
    match write_byte(w, '{' as u8) {
        Ok(()) => {},
        Err(e) => {
            proof {
                if obeys {
                    let now = w.written();
                    if now.len() == old(w).written().len() {
                        assert(now =~= old(w).written());
                    } else {
                        assert(now =~= start);
                        lemma_prefix_of_concat(start, Seq::<u8>::empty());
                        assert(start + Seq::<u8>::empty() =~= start);
                    }
                }
            }
            return Err(e);
        },
    }
    let ghost mut done: Seq<&'a (K, V)> = Seq::empty();
    proof {
        assert(all =~= done + (waiting(*next) + (*iter).remaining()));
        if obeys {
            assert(w.written() =~= start + separated(pair_texts(done)));
        }
    }
    let mut first = true;
    loop
        invariant
            (*iter).obeys_prophetic_iter_laws(),
            (*iter).decrease() is Some,
            obeys == (K::obeys_json_spec() && V::obeys_json_spec() && W::obeys_sink_spec()),
            obeys ==> same_answers(&*old(w), &*w),
            whole == old(w).written() + object_text(pair_texts(all)),
            start == old(w).written() + seq!['{' as u8],
            first == (done.len() == 0),
            all == done + (waiting(*next) + (*iter).remaining()),
            all == waiting(*old(next)) + (*old(iter)).remaining(),
            obeys ==> w.written() == start + separated(pair_texts(done)),
        ensures
            *next is None,
            (*iter).remaining().len() == 0,
            (*iter).obeys_prophetic_iter_laws(),
            (*iter).decrease() is Some,
            obeys ==> same_answers(&*old(w), &*w),
            all == waiting(*old(next)) + (*old(iter)).remaining(),
            all == done,
            obeys ==> w.written() == start + separated(pair_texts(all)),
        decreases (*iter).decrease()->0, waiting(*next).len(),
    {
        if next.is_none() {
            let ghost pending = (*iter).remaining();
            let drawn = iter.next();
            proof {
                assert(waiting(drawn) + (*iter).remaining() =~= pending);
                assert(waiting(*next) + pending =~= pending);
            }
            *next = drawn;
        }
        let ghost rest = (*iter).remaining();
        proof {
            lemma_suffix_behind(done, waiting(*next) + rest);
            assert(gone(all, waiting(*next) + rest) =~= done);
        }
        if next.is_none() {
            proof {
                assert(all =~= done);
            }
            break ;
        }
        let ghost x = next->0;
        let ghost mid = w.written();
        proof {
            assert(all =~= done.push(x) + rest);
            let member = member_text(x.0.json(), x.1.json());
            assert(pair_texts(all) =~= pair_texts(done).push(member) + pair_texts(rest));
            assert(pair_texts(done.push(x)) =~= pair_texts(done).push(member));
            lemma_stream_step(
                old(w).written(),
                '{' as u8,
                '}' as u8,
                pair_texts(done),
                member_text(x.0.json(), x.1.json()),
                pair_texts(rest),
            );
        }
        let r = match next.as_ref() {
            Some(item) => write_member(w, *item, first),
            None => Ok(()),
        };
        match r {
            Ok(()) => {},
            Err(e) => {
                proof {
                    if obeys {
                        lemma_prefix_of_concat(old(w).written(), seq!['{' as u8] + separated(
                            pair_texts(done),
                        ));
                        assert(mid =~= old(w).written() + (seq!['{' as u8] + separated(
                            pair_texts(done),
                        )));
                        lemma_prefix_transitive(old(w).written(), mid, w.written());
                        lemma_prefix_transitive(
                            w.written(),
                            mid + (lead(first) + member_text(x.0.json(), x.1.json())),
                            whole,
                        );
                    }
                }
                return Err(e);
            },
        }
        proof {
            done = done.push(x);
        }
        *next = None;
        first = false;
        proof {
            assert(all =~= done + (waiting(*next) + (*iter).remaining()));
        }
    }
    let ghost mid = w.written();
    proof {
        assert(gone(all, waiting(*next) + (*iter).remaining()) =~= all);
        lemma_suffix_behind(all, waiting(*next) + (*iter).remaining());
        if obeys {
            lemma_prefix_of_concat(old(w).written(), seq!['{' as u8] + separated(pair_texts(all)));
            assert(mid =~= old(w).written() + (seq!['{' as u8] + separated(pair_texts(all))));
            assert(whole =~= mid + seq!['}' as u8]);
        }
    }
    let r = write_byte(w, '}' as u8);
    proof {
        if obeys {
            lemma_prefix_transitive(old(w).written(), mid, w.written());
        }
    }
    r
}

/// What is left behind a pair that waits is a tail of the whole too.
proof fn lemma_suffix_without_waiting<J>(all: Seq<J>, rest: Seq<J>, next: Option<J>)
    requires
        (waiting(next) + rest).is_suffix_of(all),
    ensures
        rest.is_suffix_of(all),
{
    let after = waiting(next) + rest;
    assert(rest =~= after.subrange(after.len() - rest.len(), after.len() as int));
    assert(rest =~= all.subrange(all.len() - rest.len(), all.len() as int));
}

/// Where all the pairs that are gone have been written in full but for the
/// one that waits, all that are gone from the iterator have been, but for
/// the last.
proof fn lemma_taken_but_last<K: JSONString, V: JSONValue>(
    all: Seq<&(K, V)>,
    rest: Seq<&(K, V)>,
    next: Option<&(K, V)>,
    before: Seq<u8>,
    now: Seq<u8>,
)
    requires
        (waiting(next) + rest).is_suffix_of(all),
        ({
            let after = waiting(next) + rest;
            ||| (before + seq!['{' as u8] + separated(pair_texts(gone(all, after)))).is_prefix_of(
                now,
            )
            ||| now == before && next is None && rest == all
        }),
    ensures
        ({
            let taken = gone(all, rest);
            taken.len() > 0 ==> (before + seq!['{' as u8] + separated(
                pair_texts(taken.drop_last()),
            )).is_prefix_of(now)
        }),
{
    let after = waiting(next) + rest;
    let written = gone(all, after);
    let taken = gone(all, rest);
    let start = before + seq!['{' as u8];
    if taken.len() > 0 {
        assert(!(next is None && rest == all));
        if next is Some {
            assert(taken.drop_last() =~= written);
        } else {
            assert(after =~= rest);
            assert(taken =~= written);
            assert(pair_texts(taken).drop_last() =~= pair_texts(taken.drop_last()));
            lemma_separated_grows(pair_texts(taken));
            lemma_prefix_within(
                start,
                separated(pair_texts(taken.drop_last())),
                separated(pair_texts(taken)),
            );
            lemma_prefix_transitive(
                start + separated(pair_texts(taken.drop_last())),
                start + separated(pair_texts(taken)),
                now,
            );
        }
    }
}

/// Writes the key-value pairs that an iterator yields as a JSON object, and
/// leaves the iterator exhausted. A pair is taken from the iterator only
/// when the brace or the pair before it has been written. Where the sink
/// fails, the pairs that are gone from the iterator have been written in
/// full, but for the last of them, which was about to be written and cannot
/// be put back.
pub fn write_object<'a, W, K, V, I>(w: &mut W, iter: &mut I) -> (r: Result<(), SinkError>)
    where
        W: Sink,
        K: JSONString,
        V: JSONValue,
        V: 'a,
        K: 'a,
        I: Iterator<Item = &'a (K, V)>,

    requires
        (*old(iter)).obeys_prophetic_iter_laws(),
        (*old(iter)).decrease() is Some,
    ensures
        (*final(iter)).obeys_prophetic_iter_laws(),
        (*final(iter)).decrease() is Some,
        (*final(iter)).remaining().is_suffix_of((*old(iter)).remaining()),
        r is Ok ==> (*final(iter)).remaining().len() == 0,
        K::obeys_json_spec() && V::obeys_json_spec() && W::obeys_sink_spec() ==> wrote(
            &*old(w),
            &*final(w),
            r,
            object_text(member_texts((*old(iter)).remaining().unref())),
            true,
        ),
        K::obeys_json_spec() && V::obeys_json_spec() && W::obeys_sink_spec() ==> ({
            let taken = gone((*old(iter)).remaining(), (*final(iter)).remaining());
            taken.len() > 0 ==> (old(w).written() + seq!['{' as u8] + separated(
                pair_texts(taken.drop_last()),
            )).is_prefix_of(final(w).written())
        }),
{
    let ghost all = (*iter).remaining();
    let mut next: Option<&'a (K, V)> = None;
    proof {
        assert(waiting(next) + all =~= all);
    }
    let r = write_pairs(w, iter, &mut next);
    proof {
        lemma_suffix_without_waiting(all, (*iter).remaining(), next);
        if K::obeys_json_spec() && V::obeys_json_spec() && W::obeys_sink_spec() {
            lemma_taken_but_last(all, (*iter).remaining(), next, old(w).written(), w.written());
        }
    }
    r
}

/// Wraps a vector of key-value pairs and makes it serializable as a JSON
/// object, with the members in the vector's order.
pub struct ToJSONObject<K: JSONString, V: JSONValue>(pub Vec<(K, V)>);

impl<K: JSONString, V: JSONValue> JSONValue for ToJSONObject<K, V> {
    open spec fn obeys_json_spec() -> bool {
        K::obeys_json_spec() && V::obeys_json_spec()
    }

    open spec fn json(&self) -> Seq<u8> {
        object_text(member_texts(self.0@))
    }

    fn write_json<W: Sink>(&self, w: &mut W) -> (r: Result<(), SinkError>) {
        let pairs = self.0.as_slice();
        let mut iter = pairs.iter();
        proof {
            vstd::std_specs::slice::axiom_spec_slice_iter(pairs);
            assert(self.0@.as_ref().unref() =~= self.0@);
        }
        write_object(w, &mut iter)
    }
}

/// True when `order` holds every entry of `map` exactly once.
pub open spec fn is_walk<K, V>(order: Seq<(K, V)>, map: Map<K, V>) -> bool {
    &&& forall|i: int|
        0 <= i < order.len() ==> map.contains_key((#[trigger] order[i]).0) && map[order[i].0]
            == order[i].1
    &&& forall|i: int, j: int|
        0 <= i < j < order.len() ==> (#[trigger] order[i]).0 != (#[trigger] order[j]).0
    &&& forall|k: K|
        map.contains_key(k) ==> exists|i: int|
            0 <= i < order.len() && (#[trigger] order[i]).0 == k
}

/// `HashMap::iter` of std, with what it yields gathered in a vector, in the
/// order in which the map hands the entries out. Where the keys keep the
/// laws of equality and hashing that a hash map builds on, these are the
/// entries of the map, each once; of other keys nothing is said here. The
/// order is the map's own and may differ from one map to the next.
#[verifier::external_body]
fn hashmap_entries<'a, K, V>(map: &'a HashMap<K, V>) -> (entries: Vec<(&'a K, &'a V)>)
    ensures
        obeys_key_model::<K>() && builds_valid_hashers::<RandomState>() ==> is_walk(
            entries@.unref(),
            map@,
        ),
{
    map.iter().collect()
}

/// Serializes a hash map to a JSON object. The order of the members is not
/// guaranteed, so the map has no JSON text that could be stated beforehand:
/// `obeys_json_spec` keeps its default, and what is written is stated here.
/// It is an object of some members; where the keys keep the laws of equality
/// and hashing, the members are the entries of the map, each once.
impl<K: JSONString, V: JSONValue> JSONValue for HashMap<K, V> {
    open spec fn always_writes_text() -> bool {
        K::obeys_json_spec() && V::obeys_json_spec()
    }

    fn write_json<W: Sink>(&self, w: &mut W) -> (r: Result<(), SinkError>)
        ensures
            K::obeys_json_spec() && V::obeys_json_spec() && W::obeys_sink_spec() ==> exists|
                order: Seq<(K, V)>,
            |
                {
                    &&& wrote(
                        &*old(w),
                        &*final(w),
                        r,
                        object_text(#[trigger] member_texts(order)),
                        true,
                    )
                    &&& obeys_key_model::<K>() && builds_valid_hashers::<RandomState>()
                        ==> is_walk(order, self@)
                },
    {
        let entries = hashmap_entries(self);
        let pairs = entries.as_slice();
        let mut iter = pairs.iter();
        proof {
            vstd::std_specs::slice::axiom_spec_slice_iter(pairs);
            assert(entries@.as_ref().unref() =~= entries@);
            assert(member_texts::<&K, &V>(entries@) =~= member_texts::<K, V>(entries@.unref()));
        }
        write_object(w, &mut iter)
    }

    /// Returns the map formatted as a JSON string: an object of some
    /// members, which are the entries of the map where its keys keep the laws
    /// of equality and hashing.
    fn to_json_string(&self) -> (r: String)
        ensures
            exists|order: Seq<(K, V)>|
                {
                    &&& encode_utf8(r@) == object_text(#[trigger] member_texts(order))
                    &&& obeys_key_model::<K>() && builds_valid_hashers::<RandomState>()
                        ==> is_walk(order, self@)
                },
    {
        let mut writer = FormatterWriter::new();
        match self.write_json(&mut writer) {
            Ok(()) => writer.0,
            Err(_) => vstd::pervasive::unreached(),
        }
    }

    /// Returns a buffer that holds the map as a JSON object of some members,
    /// which are the entries of the map where its keys keep the laws of
    /// equality and hashing.
    fn to_json_buffer(&self) -> (r: Vec<u8>)
        ensures
            K::obeys_json_spec() && V::obeys_json_spec() ==> exists|order: Seq<(K, V)>|
                {
                    &&& r@ == object_text(#[trigger] member_texts(order))
                    &&& obeys_key_model::<K>() && builds_valid_hashers::<RandomState>()
                        ==> is_walk(order, self@)
                },
    {
        let mut buffer: Vec<u8> = Vec::with_capacity(512);
        let _ = self.write_json(&mut buffer);
        buffer
    }
}

/// An object whose members are fixed by its type: a chain of
/// `JSONObjectEntry` links that ends in `JSONObjectEnd`.
///
/// The JSON text of a chain is the object of its `members`.
pub trait JSONObject: JSONValue {
    /// The texts of the members, first to last.
    open spec fn members(&self) -> Seq<Seq<u8>> {
        Seq::<Seq<u8>>::empty()
    }

    /// Writes the chain as a whole object where `first` is set, and else as
    /// the rest of an object whose first member has been written.
    fn write_json_ending<W: Sink>(&self, w: &mut W, first: bool) -> (r: Result<(), SinkError>)
        ensures
            Self::obeys_json_spec() && W::obeys_sink_spec() ==> wrote(
                &*old(w),
                &*final(w),
                r,
                if first {
                    object_text(self.members())
                } else {
                    object_ending(self.members())
                },
                true,
            ),
    ;

    /// Writes the chain as a whole object.
    fn write_json_full<W: Sink>(&self, w: &mut W) -> (r: Result<(), SinkError>)
        ensures
            Self::obeys_json_spec() && W::obeys_sink_spec() ==> wrote(
                &*old(w),
                &*final(w),
                r,
                object_text(self.members()),
                true,
            ),
    {
        self.write_json_ending(w, true)
    }
}

/// A link of a chain: one member and the rest of the chain.
pub struct JSONObjectEntry<K: JSONString, V: JSONValue, U: JSONObject> {
    pub key: K,
    pub value: V,
    pub next: U,
}

impl<K: JSONString, V: JSONValue, U: JSONObject> JSONObjectEntry<K, V, U> {
    /// The texts of the link's member and of those that follow it.
    pub open spec fn chain_members(&self) -> Seq<Seq<u8>> {
        seq![member_text(self.key.json(), self.value.json())] + self.next.members()
    }

    /// Writes the link's member behind an opening brace where `first` is
    /// set, and else behind a comma; then the rest of the chain.
    fn write_chain<W: Sink>(&self, w: &mut W, first: bool) -> (r: Result<(), SinkError>)
        ensures
            K::obeys_json_spec() && V::obeys_json_spec() && U::obeys_json_spec()
                && W::obeys_sink_spec() ==> wrote(
                &*old(w),
                &*final(w),
                r,
                if first {
                    object_text(self.chain_members())
                } else {
                    object_ending(self.chain_members())
                },
                true,
            ),
    {
        proof {
            lemma_object_first(
                member_text(self.key.json(), self.value.json()),
                self.next.members(),
            );
        }
        write_byte(w, if first { '{' as u8 } else { ',' as u8 })?;
        self.key.write_json(w)?;
        write_byte(w, ':' as u8)?;
        self.value.write_json(w)?;
        let r = self.next.write_json_ending(w, false);
        proof {
            let open = seq![if first { '{' as u8 } else { ',' as u8 }];
            assert(old(w).written() + open + self.key.json() + seq![':' as u8] + self.value.json()
                + object_ending(self.next.members()) =~= old(w).written() + (open + member_text(
                self.key.json(),
                self.value.json(),
            ) + object_ending(self.next.members())));
        }
        r
    }
}

impl<K: JSONString, V: JSONValue, U: JSONObject> JSONObject for JSONObjectEntry<K, V, U> {
    open spec fn members(&self) -> Seq<Seq<u8>> {
        self.chain_members()
    }

    fn write_json_ending<W: Sink>(&self, w: &mut W, first: bool) -> (r: Result<(), SinkError>) {
        self.write_chain(w, first)
    }
}

impl<K: JSONString, V: JSONValue, U: JSONObject> JSONValue for JSONObjectEntry<K, V, U> {
    open spec fn obeys_json_spec() -> bool {
        K::obeys_json_spec() && V::obeys_json_spec() && U::obeys_json_spec()
    }

    open spec fn json(&self) -> Seq<u8> {
        object_text(self.chain_members())
    }

    fn write_json<W: Sink>(&self, w: &mut W) -> (r: Result<(), SinkError>) {
        self.write_chain(w, true)
    }
}

/// The end of a chain, and the empty object where it stands alone.
pub struct JSONObjectEnd;

impl JSONObject for JSONObjectEnd {
    open spec fn members(&self) -> Seq<Seq<u8>> {
        Seq::<Seq<u8>>::empty()
    }

    fn write_json_ending<W: Sink>(&self, w: &mut W, first: bool) -> (r: Result<(), SinkError>) {
        if first {
            let text: [u8; 2] = ['{' as u8, '}' as u8];
            proof {
                lemma_ascii_is_utf8(text@);
                lemma_empty_object();
            }
            w.write_all(text.as_slice())
        } else {
            write_byte(w, '}' as u8)
        }
    }
}

impl JSONValue for JSONObjectEnd {
    open spec fn obeys_json_spec() -> bool {
        true
    }

    open spec fn json(&self) -> Seq<u8> {
        seq!['{' as u8, '}' as u8]
    }

    fn write_json<W: Sink>(&self, w: &mut W) -> (r: Result<(), SinkError>) {
        let text: [u8; 2] = ['{' as u8, '}' as u8];
        proof {
            lemma_ascii_is_utf8(text@);
        }
        w.write_all(text.as_slice())
    }
}

/// The text of a chain is the JSON object of its members.
pub proof fn lemma_chain_is_object<K: JSONString, V: JSONValue, U: JSONObject>(
    chain: &JSONObjectEntry<K, V, U>,
)
    ensures
        chain.json() == object_text(chain.members()),
        chain.members() == seq![member_text(chain.key.json(), chain.value.json())]
            + chain.next.members(),
{
}

/// The end of a chain alone is the empty object: its text is exactly `{}`.
pub proof fn lemma_end_alone_is_empty_object(end: &JSONObjectEnd)
    ensures
        end.json() == seq!['{' as u8, '}' as u8],
        end.json() == object_text(end.members()),
{
    lemma_empty_object();
}

/// A chain that starts with a link and a vector of pairs that hold the same
/// members in the same order have the same JSON text, byte for byte.
pub proof fn lemma_chain_matches_pairs<K, V, U, K2, V2>(
    chain: &JSONObjectEntry<K, V, U>,
    pairs: &ToJSONObject<K2, V2>,
)
    where
        K: JSONString,
        V: JSONValue,
        U: JSONObject,
        K2: JSONString,
        V2: JSONValue,

    requires
        chain.members() == member_texts(pairs.0@),
    ensures
        chain.json() == pairs.json(),
{
}

/// The empty chain and the empty vector of pairs have the same JSON text,
/// `{}`.
pub proof fn lemma_empty_chain_matches_pairs<K: JSONString, V: JSONValue>(
    chain: &JSONObjectEnd,
    pairs: &ToJSONObject<K, V>,
)
    requires
        chain.members() == member_texts(pairs.0@),
    ensures
        chain.json() == pairs.json(),
        chain.json() == seq!['{' as u8, '}' as u8],
{
    assert(member_texts(pairs.0@).len() == 0);
    assert(member_texts(pairs.0@) =~= Seq::<Seq<u8>>::empty());
    lemma_empty_object();
}

} // verus!
