//! What the writer of a record type emits.
//!
//! A record type is described by its fields, an enumeration by its variants.
//! The `write_json` of such a type writes a fixed piece of text before each
//! field, calls `write_json` on the field, and writes a fixed piece of text
//! at the end. This module computes those pieces from the description, and
//! proves that what comes out is the JSON object (for named fields) or the
//! JSON array (for unnamed fields) of the fields, in their order.
use vstd::prelude::*;
use vstd::utf8::encode_utf8;
use crate::base_types::{null_text, true_text};
use crate::list::{array_text, lemma_separated_push, separated};
use crate::object::{member_text, object_text};
use crate::escape::{is_clean, lemma_escaped_clean, string_text};

verus! {

/// The fields of a record type.
pub enum Fields {
    /// Fields with names, as in `struct S { a: A, b: B }`.
    Named(Vec<String>),
    /// So many fields without names, as in `struct S(A, B)`.
    Unnamed(usize),
    /// No fields at all, as in `struct S;`.
    Unit,
}

/// The fixed pieces of text that the writer of a record type emits:
/// `literals[i]` before the field `i`, and `end` behind the last field.
pub struct FieldWrites {
    pub literals: Vec<Vec<u8>>,
    pub end: Vec<u8>,
}

impl FieldWrites {
    /// The pieces before the fields, as plain texts.
    pub open spec fn literal_texts(&self) -> Seq<Seq<u8>> {
        self.literals@.map_values(|piece: Vec<u8>| piece@)
    }
}

/// The pieces as plain texts: those before the fields, and the one at the
/// end.
impl View for FieldWrites {
    type V = (Seq<Seq<u8>>, Seq<u8>);

    open spec fn view(&self) -> (Seq<Seq<u8>>, Seq<u8>) {
        (self.literal_texts(), self.end@)
    }
}

/// What the writer of a record with the given fields writes at the end.
pub open spec fn end_literal(fields: Fields) -> Seq<u8> {
    match fields {
        Fields::Named(names) => if names.len() == 0 {
            seq!['{' as u8, '}' as u8]
        } else {
            seq!['}' as u8]
        },
        Fields::Unnamed(count) => if count == 0 {
            seq!['[' as u8, ']' as u8]
        } else {
            seq![']' as u8]
        },
        Fields::Unit => null_text(),
    }
}

/// The pieces that the writer of a record with the given fields writes
/// before the fields.
pub open spec fn field_literals(fields: Fields) -> Seq<Seq<u8>> {
    match fields {
        Fields::Named(names) => named_literals(name_texts(names@)),
        Fields::Unnamed(count) => unnamed_literals(count as nat),
        Fields::Unit => Seq::<Seq<u8>>::empty(),
    }
}

/// What stands before the value of the member named `ident`: an opening
/// brace where the member is the first and else a comma, then the name in
/// quotes, then a colon.
pub open spec fn key_literal(ident: Seq<char>, first: bool) -> Seq<u8> {
    seq![if first { '{' as u8 } else { ',' as u8 }, '"' as u8] + encode_utf8(ident) + seq![
        '"' as u8,
        ':' as u8,
    ]
}

/// What stands before an element of an array: the opening bracket where the
/// element is the first and else a comma.
pub open spec fn element_literal(first: bool) -> Seq<u8> {
    seq![if first { '[' as u8 } else { ',' as u8 }]
}

/// The pieces before the fields of a record with the given field names.
pub open spec fn named_literals(names: Seq<Seq<char>>) -> Seq<Seq<u8>> {
    Seq::new(names.len(), |i: int| key_literal(names[i], i == 0))
}

/// The pieces before so many fields without names.
pub open spec fn unnamed_literals(count: nat) -> Seq<Seq<u8>> {
    Seq::new(count, |i: int| element_literal(i == 0))
}

/// The names, as sequences of characters.
pub open spec fn name_texts(names: Seq<String>) -> Seq<Seq<char>> {
    names.map_values(|name: String| name@)
}

/// What a writer emits that writes `literals[i]` and the text of the field
/// `i` in turn, and `end` at the end.
pub open spec fn emitted(literals: Seq<Seq<u8>>, fields: Seq<Seq<u8>>, end: Seq<u8>) -> Seq<u8> {
    interleaved(literals, fields) + end
}

/// Each piece followed by the text of its field, one pair after the other.
pub open spec fn interleaved(literals: Seq<Seq<u8>>, fields: Seq<Seq<u8>>) -> Seq<u8>
    decreases literals.len(),
{
    if literals.len() == 0 || fields.len() != literals.len() {
        Seq::<u8>::empty()
    } else {
        interleaved(literals.drop_last(), fields.drop_last()) + literals.last() + fields.last()
    }
}

/// The members that named fields with the given texts make.
pub open spec fn named_members(names: Seq<Seq<char>>, fields: Seq<Seq<u8>>) -> Seq<Seq<u8>> {
    Seq::new(names.len(), |i: int| member_text(string_text(encode_utf8(names[i])), fields[i]))
}

/// True of a name that can stand between quotes as it is.
pub open spec fn is_plain_name(name: Seq<char>) -> bool {
    is_clean(encode_utf8(name), 0, encode_utf8(name).len() as int)
}

/// The piece before the member named `ident`.
pub fn ident_to_litbytes(ident: &str, first: bool) -> (r: Vec<u8>)
    ensures
        r@ == key_literal(ident@, first),
{
    let mut obj_key: Vec<u8> = Vec::new();
    obj_key.push(if first { '{' as u8 } else { ',' as u8 });
    obj_key.push('"' as u8);
    let name = ident.as_bytes();
    let ghost head = obj_key@;
    obj_key.extend_from_slice(name);
    assert(obj_key@ =~= head + name@);
    obj_key.push('"' as u8);
    obj_key.push(':' as u8);
    assert(obj_key@ =~= key_literal(ident@, first));
    obj_key
}

/// The pieces that the writer of a record with named fields emits: the name
/// of each field before its value, and the closing brace. A record without
/// fields is `{}`.
pub fn write_named_fields(fields_named: &Vec<String>) -> (r: FieldWrites)
    ensures
        r.literal_texts() == named_literals(name_texts(fields_named@)),
        r.end@ == if fields_named.len() == 0 {
            seq!['{' as u8, '}' as u8]
        } else {
            seq!['}' as u8]
        },
{
    let mut names: Vec<Vec<u8>> = Vec::new();
    let mut i: usize = 0;
    while i < fields_named.len()
        invariant
            i <= fields_named.len(),
            names.len() == i,
            forall|j: int|
                0 <= j < i ==> (#[trigger] names@[j])@ == key_literal(fields_named@[j]@, j == 0),
        decreases fields_named.len() - i,
    {
        names.push(ident_to_litbytes(fields_named[i].as_str(), i == 0));
        i += 1;
    }
    let end: Vec<u8> = if fields_named.len() == 0 {
        vec!['{' as u8, '}' as u8]
    } else {
        vec!['}' as u8]
    };
    let r = FieldWrites { literals: names, end };
    assert(r.literal_texts() =~= named_literals(name_texts(fields_named@)));
    assert(r.end@ =~= if fields_named.len() == 0 {
        seq!['{' as u8, '}' as u8]
    } else {
        seq!['}' as u8]
    });
    r
}

/// The pieces that the writer of a record with unnamed fields emits: the
/// opening bracket before the first value, a comma before each other, and
/// the closing bracket. A record without fields is `[]`.
pub fn write_unnamed_fields(count: usize) -> (r: FieldWrites)
    ensures
        r.literal_texts() == unnamed_literals(count as nat),
        r.end@ == if count == 0 {
            seq!['[' as u8, ']' as u8]
        } else {
            seq![']' as u8]
        },
{
    let mut commas: Vec<Vec<u8>> = Vec::new();
    let mut i: usize = 0;
    while i < count
        invariant
            i <= count,
            commas.len() == i,
            forall|j: int| 0 <= j < i ==> (#[trigger] commas@[j])@ == element_literal(j == 0),
        decreases count - i,
    {
        let piece: Vec<u8> = vec![if i == 0 { '[' as u8 } else { ',' as u8 }];
        assert(piece@ =~= element_literal(i == 0));
        commas.push(piece);
        i += 1;
    }
    let end: Vec<u8> = if count == 0 {
        vec!['[' as u8, ']' as u8]
    } else {
        vec![']' as u8]
    };
    let r = FieldWrites { literals: commas, end };
    assert(r.literal_texts() =~= unnamed_literals(count as nat));
    assert(r.end@ =~= if count == 0 {
        seq!['[' as u8, ']' as u8]
    } else {
        seq![']' as u8]
    });
    r
}

/// The pieces that the writer of a record emits. A record without fields of
/// either kind is `null`.
pub fn write_fields(fields: &Fields) -> (r: FieldWrites)
    ensures
        match fields {
            Fields::Named(names) => {
                &&& r.literal_texts() == named_literals(name_texts(names@))
                &&& r.end@ == if names.len() == 0 {
                    seq!['{' as u8, '}' as u8]
                } else {
                    seq!['}' as u8]
                }
            },
            Fields::Unnamed(count) => {
                &&& r.literal_texts() == unnamed_literals(*count as nat)
                &&& r.end@ == if *count == 0 {
                    seq!['[' as u8, ']' as u8]
                } else {
                    seq![']' as u8]
                }
            },
            Fields::Unit => r.literal_texts().len() == 0 && r.end@ == null_text(),
        },
        r@ == (field_literals(*fields), end_literal(*fields)),
{
    match fields {
        Fields::Named(fields_named) => write_named_fields(fields_named),
        Fields::Unnamed(count) => write_unnamed_fields(*count),
        Fields::Unit => {
            let end: Vec<u8> = vec!['n' as u8, 'u' as u8, 'l' as u8, 'l' as u8];
            assert(end@ =~= null_text());
            let r = FieldWrites { literals: Vec::new(), end };
            assert(r.literal_texts() =~= Seq::<Seq<u8>>::empty());
            r
        },
    }
}

/// The text of a variant without data: an object whose one member has the
/// variant's name as its key and `true` as its value.
pub open spec fn variant_text(ident: Seq<char>) -> Seq<u8> {
    key_literal(ident, true) + true_text() + seq!['}' as u8]
}

/// The texts that the writer of an enumeration emits, one for each of its
/// variants. Only variants without data have a text.
pub fn write_variants(idents: &Vec<String>) -> (r: Vec<Vec<u8>>)
    ensures
        r.len() == idents.len(),
        forall|i: int| 0 <= i < r.len() ==> (#[trigger] r@[i])@ == variant_text(idents@[i]@),
{
    let mut variants_json: Vec<Vec<u8>> = Vec::new();
    let mut i: usize = 0;
    while i < idents.len()
        invariant
            i <= idents.len(),
            variants_json.len() == i,
            forall|j: int|
                0 <= j < i ==> (#[trigger] variants_json@[j])@ == variant_text(idents@[j]@),
        decreases idents.len() - i,
    {
        let mut text = ident_to_litbytes(idents[i].as_str(), true);
        let ghost head = text@;
        let rest: [u8; 5] = ['t' as u8, 'r' as u8, 'u' as u8, 'e' as u8, '}' as u8];
        text.extend_from_slice(rest.as_slice());
        assert(text@ =~= head + rest@);
        assert(text@ =~= variant_text(idents@[i as int]@));
        variants_json.push(text);
        i += 1;
    }
    variants_json
}

/// The texts that the writer of an enumeration emits, one for each of its
/// variants, each of which is given by its name and its fields. A variant
/// that carries data has no text: an enumeration with such a variant is
/// refused as a whole.
pub fn write_variants_checked(variants: &Vec<(String, Fields)>) -> (r: Option<Vec<Vec<u8>>>)
    ensures
        r is None <==> exists|i: int|
            0 <= i < variants.len() && !((#[trigger] variants@[i]).1 is Unit),
        r matches Some(texts) ==> {
            &&& texts.len() == variants.len()
            &&& forall|i: int|
                0 <= i < texts.len() ==> (#[trigger] texts@[i])@ == variant_text(
                    variants@[i].0@,
                )
        },
{
    let mut variants_json: Vec<Vec<u8>> = Vec::new();
    let mut i: usize = 0;
    while i < variants.len()
        invariant
            i <= variants.len(),
            variants_json.len() == i,
            forall|j: int| 0 <= j < i ==> (#[trigger] variants@[j]).1 is Unit,
            forall|j: int|
                0 <= j < i ==> (#[trigger] variants_json@[j])@ == variant_text(variants@[j].0@),
        decreases variants.len() - i,
    {
        match &variants[i].1 {
            Fields::Unit => {},
            _ => {
                assert(!(variants@[i as int].1 is Unit));
                return None;
            },
        }
        let mut text = ident_to_litbytes(variants[i].0.as_str(), true);
        let ghost head = text@;
        let rest: [u8; 5] = ['t' as u8, 'r' as u8, 'u' as u8, 'e' as u8, '}' as u8];
        text.extend_from_slice(rest.as_slice());
        assert(text@ =~= head + rest@);
        assert(text@ =~= variant_text(variants@[i as int].0@));
        variants_json.push(text);
        i += 1;
    }
    Some(variants_json)
}

/// What the writer of a record with named fields emits is the JSON object
/// whose members are the fields, in their order, each under its name.
pub proof fn lemma_named_fields_make_object(names: Seq<Seq<char>>, fields: Seq<Seq<u8>>)
    requires
        fields.len() == names.len(),
        forall|i: int| 0 <= i < names.len() ==> is_plain_name(#[trigger] names[i]),
    ensures
        emitted(
            named_literals(names),
            fields,
            if names.len() == 0 {
                seq!['{' as u8, '}' as u8]
            } else {
                seq!['}' as u8]
            },
        ) == object_text(named_members(names, fields)),
    decreases names.len(),
{
    let literals = named_literals(names);
    let members = named_members(names, fields);
    if names.len() == 0 {
        assert(object_text(members) =~= seq!['{' as u8, '}' as u8]);
        assert(interleaved(literals, fields) =~= Seq::<u8>::empty());
    } else {
        lemma_named_prefix(names, fields, names.len() as int);
        assert(names.subrange(0, names.len() as int) =~= names);
        assert(fields.subrange(0, names.len() as int) =~= fields);
    }
}

/// The first `n` named fields make the opening brace and the first `n`
/// members with commas between them.
proof fn lemma_named_prefix(names: Seq<Seq<char>>, fields: Seq<Seq<u8>>, n: int)
    requires
        fields.len() == names.len(),
        1 <= n <= names.len(),
        forall|i: int| 0 <= i < names.len() ==> is_plain_name(#[trigger] names[i]),
    ensures
        interleaved(named_literals(names.subrange(0, n)), fields.subrange(0, n)) == seq![
            '{' as u8,
        ] + separated(named_members(names.subrange(0, n), fields.subrange(0, n))),
    decreases n,
{
    let some_names = names.subrange(0, n);
    let some_fields = fields.subrange(0, n);
    let literals = named_literals(some_names);
    let members = named_members(some_names, some_fields);
    let name = names[n - 1];
    let key = encode_utf8(name);
    assert(some_names[n - 1] == name);
    assert(is_plain_name(name));
    lemma_escaped_clean(key);
    let member = member_text(string_text(key), fields[n - 1]);
    assert(members.last() == member);
    assert(literals.last() == key_literal(name, n == 1));
    assert(some_fields.last() == fields[n - 1]);
    if n == 1 {
        assert(literals.drop_last() =~= Seq::<Seq<u8>>::empty());
        assert(interleaved(literals.drop_last(), some_fields.drop_last()) =~= Seq::<u8>::empty());
        assert(members =~= seq![member]);
        assert(key_literal(name, true) + fields[0] =~= seq!['{' as u8] + member);
        assert(interleaved(literals, some_fields) =~= seq!['{' as u8] + separated(members));
    } else {
        lemma_named_prefix(names, fields, n - 1);
        let fewer_names = names.subrange(0, n - 1);
        let fewer_fields = fields.subrange(0, n - 1);
        assert(literals.drop_last() =~= named_literals(fewer_names));
        assert(some_fields.drop_last() =~= fewer_fields);
        let fewer_members = named_members(fewer_names, fewer_fields);
        assert(members =~= fewer_members.push(member));
        lemma_separated_push(fewer_members, member);
        assert(key_literal(name, false) + fields[n - 1] =~= seq![',' as u8] + member);
        assert(interleaved(literals, some_fields) =~= seq!['{' as u8] + separated(members));
    }
}

/// What the writer of a record with unnamed fields emits is the JSON array
/// of the fields, in their order.
pub proof fn lemma_unnamed_fields_make_array(fields: Seq<Seq<u8>>)
    ensures
        emitted(
            unnamed_literals(fields.len()),
            fields,
            if fields.len() == 0 {
                seq!['[' as u8, ']' as u8]
            } else {
                seq![']' as u8]
            },
        ) == array_text(fields),
{
    if fields.len() == 0 {
        assert(array_text(fields) =~= seq!['[' as u8, ']' as u8]);
        assert(interleaved(unnamed_literals(0), fields) =~= Seq::<u8>::empty());
    } else {
        lemma_unnamed_prefix(fields, fields.len() as int);
        assert(fields.subrange(0, fields.len() as int) =~= fields);
    }
}

/// The first `n` unnamed fields make the opening bracket and the first `n`
/// elements with commas between them.
proof fn lemma_unnamed_prefix(fields: Seq<Seq<u8>>, n: int)
    requires
        1 <= n <= fields.len(),
    ensures
        interleaved(unnamed_literals(n as nat), fields.subrange(0, n)) == seq!['[' as u8]
            + separated(fields.subrange(0, n)),
    decreases n,
{
    let some_fields = fields.subrange(0, n);
    let literals = unnamed_literals(n as nat);
    assert(literals.last() == element_literal(n == 1));
    assert(some_fields.last() == fields[n - 1]);
    if n == 1 {
        assert(literals.drop_last() =~= Seq::<Seq<u8>>::empty());
        assert(interleaved(literals.drop_last(), some_fields.drop_last()) =~= Seq::<u8>::empty());
        assert(some_fields =~= seq![fields[0]]);
        assert(interleaved(literals, some_fields) =~= seq!['[' as u8] + separated(some_fields));
    } else {
        lemma_unnamed_prefix(fields, n - 1);
        let fewer_fields = fields.subrange(0, n - 1);
        assert(literals.drop_last() =~= unnamed_literals((n - 1) as nat));
        assert(some_fields.drop_last() =~= fewer_fields);
        assert(some_fields =~= fewer_fields.push(fields[n - 1]));
        lemma_separated_push(fewer_fields, fields[n - 1]);
        assert(interleaved(literals, some_fields) =~= seq!['[' as u8] + separated(some_fields));
    }
}

/// The text of a variant without data is the JSON object with the one member
/// `"Name":true`.
pub proof fn lemma_variant_is_object(ident: Seq<char>)
    requires
        is_plain_name(ident),
    ensures
        variant_text(ident) == object_text(
            seq![member_text(string_text(encode_utf8(ident)), true_text())],
        ),
{
    lemma_escaped_clean(encode_utf8(ident));
    let member = member_text(string_text(encode_utf8(ident)), true_text());
    assert(separated(seq![member]) == member);
    assert(variant_text(ident) =~= object_text(seq![member]));
}

} // verus!
