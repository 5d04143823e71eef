//! Encoding a Cap'n Proto value as JSON text.
//!
//! The value is given as a [`Value`]: what a dynamic reader of the message
//! holds, with each field's name and annotations beside it. The text is the
//! one the C++ codec writes, annotations included: `$Json.name` renames,
//! `$Json.flatten` splices a struct's members into its parent's object, and
//! `$Json.discriminator` writes a union's active member as a sibling field.
use vstd::prelude::*;
use crate::data::{base64_encoded, base64_encode_to, hex_encoded, hex_encode_to};
use crate::error::{Error, ErrorModel, ErrorOf};
use crate::json::{Json, JsonValue, members_view};
use crate::options::{
    Annotation, AnnotationModel, DataEncoding, DiscriminatorOptions, EncodingOptions, OptionsModel,
    annotations_view, default_options, discriminator_view, field_options,
};
use crate::strbuf::push_char;
use crate::writer::{
    decimal, json_text, key_text, members_text, quoted, separator, write_int, write_key, write_literal,
    write_members, write_separator, write_string, write_uint, write_value,
};

verus! {

/// An enumerant of an enum type.
#[derive(Debug)]
pub struct Enumerant {
    /// Its name in the schema.
    pub name: String,
    /// Its annotations.
    pub annotations: Vec<Annotation>,
}

/// A field of a struct value: the field's schema, and its value if it is set.
#[derive(Debug)]
pub struct Member {
    /// The field's name in the schema.
    pub name: String,
    /// The field's annotations.
    pub annotations: Vec<Annotation>,
    /// Whether the field's type, looking through lists, is `Data`.
    pub element_is_data: bool,
    /// The field's value; `None` when it is unset (a null pointer).
    pub value: Option<Value>,
}

/// A struct value.
#[derive(Debug)]
pub struct StructValue {
    /// The `$Json.discriminator` on the struct's declaration, if any.
    pub discriminator: Option<DiscriminatorOptions>,
    /// Its fields outside the union, in schema order.
    pub fields: Vec<Member>,
    /// The active member of its union, if it has one.
    pub union_member: Option<Box<Member>>,
}

/// A Cap'n Proto value, as the encoder reads it.
#[derive(Debug)]
pub enum Value {
    Void,
    Bool(bool),
    /// `Int8`, `Int16` or `Int32`.
    Int(i64),
    /// `UInt8`, `UInt16` or `UInt32`.
    UInt(u64),
    Int64(i64),
    UInt64(u64),
    /// `Float32` or `Float64`, as the JSON text that stands for it.
    Float(String),
    /// An enum value: its ordinal, and its enumerant where the schema has one.
    Enum(u16, Option<Enumerant>),
    Text(String),
    Data(Vec<u8>),
    Struct(StructValue),
    List(Vec<Value>),
    AnyPointer,
    Capability,
    /// The JSON that a custom codec gave for the value.
    Custom(JsonValue),
}

/// What writing a value gives: its text and whether its enclosing object is
/// still empty after it, or an error.
pub type Step = Result<(Seq<char>, bool), ErrorModel>;

/// `t` followed by the text of `r`.
pub open spec fn after_text(t: Seq<char>, r: Step) -> Step {
    match r {
        Ok((t2, f)) => Ok((t + t2, f)),
        Err(e) => Err(e),
    }
}

/// The first `$Json.name` among `anns`.
pub open spec fn first_name(anns: Seq<AnnotationModel>) -> Option<Seq<char>>
    decreases anns.len(),
{
    if anns.len() == 0 {
        None
    } else {
        match anns[0] {
            AnnotationModel::Name(n) => Some(n),
            _ => first_name(anns.drop_first()),
        }
    }
}

/// An enumerant's name in JSON: its first `$Json.name`, else its name.
pub open spec fn enumerant_name(e: Enumerant) -> Seq<char> {
    match first_name(annotations_view(e.annotations@)) {
        Some(n) => n,
        None => e.name@,
    }
}

/// Bytes as decimal numbers separated by commas.
pub open spec fn bytes_text(d: Seq<u8>) -> Seq<char>
    decreases d.len(),
{
    if d.len() == 0 {
        seq![]
    } else {
        bytes_text(d.drop_last()) + separator(d.len() == 1) + decimal(d.last() as int)
    }
}

/// The text of a `Data` value under an encoding.
pub open spec fn data_text(d: Seq<u8>, enc: DataEncoding) -> Seq<char> {
    match enc {
        DataEncoding::Default => seq!['['] + bytes_text(d) + seq![']'],
        DataEncoding::Base64 => seq!['"'] + base64_encoded(d) + seq!['"'],
        DataEncoding::Hex => seq!['"'] + hex_encoded(d) + seq!['"'],
    }
}

/// The text of a custom codec's JSON: a flattened value must be an object,
/// whose members continue the enclosing object under the flatten prefix.
pub open spec fn custom_text(j: Json, meta: OptionsModel, first: bool) -> Step {
    match meta.flatten {
        Some(p) => match j {
            Json::Object(ms) => Ok((members_text(ms, meta.prefix + p, first), first && ms.len() == 0)),
            _ => Err(ErrorOf::FlattenNotObject(meta.name)),
        },
        None => Ok((json_text(j), first)),
    }
}

/// The text of a value written with options `meta`, in an object in which
/// `first` says whether nothing has been written yet.
pub open spec fn value_text(v: Value, meta: OptionsModel, first: bool) -> Step
    decreases v,
{
    match v {
        Value::Void => Ok((seq!['n', 'u', 'l', 'l'], first)),
        Value::Bool(b) => Ok(
            (
                if b {
                    seq!['t', 'r', 'u', 'e']
                } else {
                    seq!['f', 'a', 'l', 's', 'e']
                },
                first,
            ),
        ),
        Value::Int(i) => Ok((decimal(i as int), first)),
        Value::UInt(u) => Ok((decimal(u as int), first)),
        Value::Int64(i) => Ok((seq!['"'] + decimal(i as int) + seq!['"'], first)),
        Value::UInt64(u) => Ok((seq!['"'] + decimal(u as int) + seq!['"'], first)),
        Value::Float(t) => Ok((t@, first)),
        Value::Enum(ordinal, e) => Ok(
            (
                match e {
                    Some(e) => quoted(enumerant_name(e)),
                    None => decimal(ordinal as int),
                },
                first,
            ),
        ),
        Value::Text(s) => Ok((quoted(s@), first)),
        Value::Data(d) => Ok((data_text(d@, meta.data_encoding), first)),
        Value::Struct(sv) => object_text(sv, meta, first),
        Value::List(items) => match list_text(items@, meta) {
            Ok(t) => Ok((seq!['['] + t + seq![']'], first)),
            Err(e) => Err(e),
        },
        Value::AnyPointer => Err(ErrorOf::AnyPointerNotRepresentable),
        Value::Capability => Err(ErrorOf::CapabilityNotRepresentable),
        Value::Custom(j) => custom_text(j@, meta, first),
    }
}

/// The elements of a list, separated by commas; each is written with the
/// list field's options, in an object of its own.
pub open spec fn list_text(items: Seq<Value>, meta: OptionsModel) -> Result<Seq<char>, ErrorModel>
    decreases items,
{
    if items.len() == 0 {
        Ok(seq![])
    } else {
        match list_text(items.drop_last(), meta) {
            Err(e) => Err(e),
            Ok(t) => match value_text(items.last(), meta, true) {
                Err(e) => Err(e),
                Ok((t2, _)) => Ok(t + separator(items.len() == 1) + t2),
            },
        }
    }
}

/// The text of a field outside the union: nothing when it is unset, else
/// its key (unless it is flattened) and its value.
pub open spec fn member_text(m: Member, fp: Seq<char>, first: bool) -> Step
    decreases m,
{
    match m.value {
        None => Ok((seq![], first)),
        Some(v) => match field_options(fp, m.name@, annotations_view(m.annotations@), m.element_is_data) {
            Err(e) => Err(e),
            Ok(fo) => if fo.flatten is None {
                after_text(separator(first) + key_text(fp, fo.name), value_text(v, fo, false))
            } else {
                value_text(v, fo, first)
            },
        },
    }
}

/// The fields outside the union, in order.
pub open spec fn members_fold(ms: Seq<Member>, fp: Seq<char>, first: bool) -> Step
    decreases ms,
{
    if ms.len() == 0 {
        Ok((seq![], first))
    } else {
        match members_fold(ms.drop_last(), fp, first) {
            Err(e) => Err(e),
            Ok((t, f)) => after_text(t, member_text(ms.last(), fp, f)),
        }
    }
}

/// The discriminator options in effect: those of the field, else those of
/// the struct's declaration.
pub open spec fn effective_discriminator(
    meta: OptionsModel,
    sv: StructValue,
) -> Option<(Option<Seq<char>>, Option<Seq<char>>)> {
    match meta.discriminator {
        Some(d) => Some(d),
        None => match sv.discriminator {
            Some(d) => Some(discriminator_view(d)),
            None => None,
        },
    }
}

/// The key under which a union's discriminator is written: the
/// discriminator's name, else the flattened struct's own name; none for an
/// unflattened struct whose discriminator has no name.
pub open spec fn discriminator_key(
    disc: Option<(Option<Seq<char>>, Option<Seq<char>>)>,
    flatten: bool,
    struct_name: Seq<char>,
) -> Option<Seq<char>> {
    match disc {
        Some((Some(n), _)) => Some(n),
        Some((None, _)) => if flatten {
            Some(struct_name)
        } else {
            None
        },
        None => None,
    }
}

/// The key under which the active member's value is written: the
/// discriminator's value name, else the member's own name.
pub open spec fn union_value_key(
    disc: Option<(Option<Seq<char>>, Option<Seq<char>>)>,
    member_name: Seq<char>,
) -> Seq<char> {
    match disc {
        Some((_, Some(vn))) => vn,
        _ => member_name,
    }
}

/// The text of the union's active member `u`. With a discriminator key, the
/// member's name is written under it, and a `Void` member writes nothing
/// more; the member's value goes under [`union_value_key`].
pub open spec fn union_text(
    u: Member,
    disc: Option<(Option<Seq<char>>, Option<Seq<char>>)>,
    fp: Seq<char>,
    flatten: bool,
    struct_name: Seq<char>,
    first: bool,
) -> Step
    decreases u,
{
    match field_options(fp, u.name@, annotations_view(u.annotations@), u.element_is_data) {
        Err(e) => Err(e),
        Ok(uo) => match u.value {
            None => Ok((seq![], first)),
            Some(val) => {
                let dname = discriminator_key(disc, flatten, struct_name);
                let value_name = union_value_key(disc, uo.name);
                let dt = match dname {
                    Some(dn) => separator(first) + key_text(fp, dn) + quoted(uo.name),
                    None => seq![],
                };
                let f1 = if dname is Some {
                    false
                } else {
                    first
                };
                if dname is Some && val is Void {
                    Ok((dt, f1))
                } else if uo.flatten is None {
                    after_text(dt + separator(f1) + key_text(fp, value_name), value_text(val, uo, false))
                } else {
                    after_text(dt, value_text(val, uo, f1))
                }
            },
        },
    }
}

/// The text of a struct's union part: its active member, if any.
pub open spec fn union_step(
    um: Option<Box<Member>>,
    disc: Option<(Option<Seq<char>>, Option<Seq<char>>)>,
    fp: Seq<char>,
    flatten: bool,
    struct_name: Seq<char>,
    first: bool,
) -> Step
    decreases um,
{
    match um {
        Some(u) => union_text(*u, disc, fp, flatten, struct_name, first),
        None => Ok((seq![], first)),
    }
}

/// The text of a struct: an object of its own, or, when flattened, members
/// that continue the enclosing object under the flatten prefix.
pub open spec fn object_text(sv: StructValue, meta: OptionsModel, first: bool) -> Step
    decreases sv,
{
    let flatten = meta.flatten is Some;
    let fp = match meta.flatten {
        Some(p) => meta.prefix + p,
        None => Seq::empty(),
    };
    let f0 = if flatten {
        first
    } else {
        true
    };
    match members_fold(sv.fields@, fp, f0) {
        Err(e) => Err(e),
        Ok((mt, f1)) => {
            match union_step(sv.union_member, effective_discriminator(meta, sv), fp, flatten, meta.name, f1) {
                Err(e) => Err(e),
                Ok((ut, f2)) => if flatten {
                    Ok((mt + ut, f2))
                } else {
                    Ok((seq!['{'] + mt + ut + seq!['}'], first))
                },
            }
        },
    }
}

/// The JSON text of a message whose root is `v`.
pub open spec fn message_text(v: Value) -> Result<Seq<char>, ErrorModel> {
    if !(v is Struct) {
        Err(ErrorOf::TopLevelNotStruct)
    } else {
        match value_text(v, default_options(), true) {
            Ok((t, _)) => Ok(t),
            Err(e) => Err(e),
        }
    }
}

/// What a writer did, against what `spec` says it should have: on success
/// the text appended and the new `first` flag, on failure the error.
pub open spec fn wrote(
    r: Result<(), Error>,
    spec: Step,
    before: Seq<char>,
    after: Seq<char>,
    first_after: bool,
) -> bool {
    match (r, spec) {
        (Ok(()), Ok((t, f))) => after == before + t && first_after == f,
        (Err(e), Err(m)) => e@ == m,
        _ => false,
    }
}

/// An enumerant's name in JSON.
pub(crate) fn enumerant_json_name(e: &Enumerant) -> (r: &String)
    ensures
        r@ == enumerant_name(*e),
{
    let ghost anns = annotations_view(e.annotations@);
    let mut i: usize = 0;
    assert(anns.skip(0) =~= anns);
    while i < e.annotations.len()
        invariant
            i <= e.annotations.len(),
            anns == annotations_view(e.annotations@),
            first_name(anns) == first_name(anns.skip(i as int)),
        decreases e.annotations.len() - i,
    {
        assert(anns.skip(i as int)[0] == e.annotations@[i as int]@);
        assert(anns.skip(i as int).drop_first() =~= anns.skip(i + 1));
        if let Annotation::Name(n) = &e.annotations[i] {
            return n;
        }
        i = i + 1;
    }
    assert(anns.skip(i as int).len() == 0);
    &e.name
}

/// Writes bytes as decimal numbers separated by commas.
fn write_bytes(out: &mut String, d: &Vec<u8>)
    ensures
        final(out)@ == old(out)@ + bytes_text(d@),
{
    let mut i: usize = 0;
    assert(d@.take(0) =~= Seq::<u8>::empty());
    while i < d.len()
        invariant
            i <= d.len(),
            out@ == old(out)@ + bytes_text(d@.take(i as int)),
        decreases d.len() - i,
    {
        if i > 0 {
            push_char(out, ',');
        }
        write_uint(out, d[i] as u64);
        assert(d@.take(i + 1).drop_last() =~= d@.take(i as int));
        assert(out@ =~= old(out)@ + bytes_text(d@.take(i + 1)));
        i = i + 1;
    }
    assert(d@.take(i as int) =~= d@);
}

/// Writes a `Data` value under an encoding.
pub fn write_data(out: &mut String, d: &Vec<u8>, enc: DataEncoding)
    ensures
        final(out)@ == old(out)@ + data_text(d@, enc),
{
    match enc {
        DataEncoding::Default => {
            push_char(out, '[');
            write_bytes(out, d);
            push_char(out, ']');
        },
        DataEncoding::Base64 => {
            push_char(out, '"');
            base64_encode_to(out, d.as_slice());
            push_char(out, '"');
        },
        DataEncoding::Hex => {
            push_char(out, '"');
            hex_encode_to(out, d.as_slice());
            push_char(out, '"');
        },
    }
    assert(out@ =~= old(out)@ + data_text(d@, enc));
}

/// The member-name prefix inside a struct written with options `meta`.
pub(crate) fn field_prefix(meta: &EncodingOptions) -> (r: String)
    ensures
        r@ == match meta@.flatten {
            Some(p) => meta@.prefix + p,
            None => Seq::empty(),
        },
{
    match &meta.flatten {
        Some(f) => {
            let mut p = meta.prefix.clone();
            write_literal(&mut p, f.prefix.as_str());
            p
        },
        None => String::new(),
    }
}

/// Writes the JSON that a custom codec gave for a value; a flattened value
/// that is not an object is refused before anything is written.
pub fn write_json_value(out: &mut String, j: &JsonValue, meta: &EncodingOptions, first: &mut bool) -> (r: Result<
    (),
    Error,
>)
    ensures
        wrote(r, custom_text(j@, meta@, *old(first)), old(out)@, final(out)@, *final(first)),
        r is Err ==> final(out)@ == old(out)@ && *final(first) == *old(first),
{
    match &meta.flatten {
        Some(_) => {
            match j {
                JsonValue::Object(ms) => {
                    proof {
                        crate::json::lemma_members_view(ms@);
                    }
                    let p = field_prefix(meta);
                    write_members(out, ms, p.as_str(), first);
                    Ok(())
                },
                _ => Err(ErrorOf::FlattenNotObject(meta.name.clone())),
            }
        },
        None => {
            write_value(out, j);
            Ok(())
        },
    }
}

/// Writes a value with options `meta`, in an object in which `first` says
/// whether nothing has been written yet.
pub fn serialize_value(out: &mut String, v: &Value, meta: &EncodingOptions, first: &mut bool) -> (r: Result<
    (),
    Error,
>)
    ensures
        wrote(r, value_text(*v, meta@, *old(first)), old(out)@, final(out)@, *final(first)),
        r is Err && (*v is AnyPointer || *v is Capability || *v is Custom) ==> final(out)@ == old(out)@
            && *final(first) == *old(first),
    decreases v, 3int,
{
    match v {
        Value::Void => {
            write_literal(out, "null");
            proof { reveal_strlit("null"); }
            assert(out@ =~= old(out)@ + seq!['n', 'u', 'l', 'l']);
            Ok(())
        },
        Value::Bool(b) => {
            if *b {
                write_literal(out, "true");
                proof { reveal_strlit("true"); }
                assert(out@ =~= old(out)@ + seq!['t', 'r', 'u', 'e']);
            } else {
                write_literal(out, "false");
                proof { reveal_strlit("false"); }
                assert(out@ =~= old(out)@ + seq!['f', 'a', 'l', 's', 'e']);
            }
            Ok(())
        },
        Value::Int(i) => {
            write_int(out, *i);
            Ok(())
        },
        Value::UInt(u) => {
            write_uint(out, *u);
            assert(decimal(*u as int) == crate::writer::decimal_digits(*u as nat));
            Ok(())
        },
        Value::Int64(i) => {
            push_char(out, '"');
            write_int(out, *i);
            push_char(out, '"');
            assert(out@ =~= old(out)@ + (seq!['"'] + decimal(*i as int) + seq!['"']));
            Ok(())
        },
        Value::UInt64(u) => {
            push_char(out, '"');
            write_uint(out, *u);
            push_char(out, '"');
            assert(out@ =~= old(out)@ + (seq!['"'] + decimal(*u as int) + seq!['"']));
            Ok(())
        },
        Value::Float(t) => {
            write_literal(out, t.as_str());
            Ok(())
        },
        Value::Enum(ordinal, e) => {
            match e {
                Some(e) => {
                    let name = enumerant_json_name(e);
                    write_string(out, name.as_str());
                },
                None => {
                    write_uint(out, *ordinal as u64);
                    assert(decimal(*ordinal as int) == crate::writer::decimal_digits(*ordinal as nat));
                },
            }
            Ok(())
        },
        Value::Text(s) => {
            write_string(out, s.as_str());
            Ok(())
        },
        Value::Data(d) => {
            write_data(out, d, meta.data_encoding);
            Ok(())
        },
        Value::Struct(sv) => write_object(out, sv, meta, first),
        Value::List(items) => {
            let r = write_array(out, items, meta);
            proof {
                if r is Ok {
                    let t = list_text(items@, meta@)->Ok_0;
                    assert(out@ =~= old(out)@ + (seq!['['] + t + seq![']']));
                }
            }
            r
        },
        Value::AnyPointer => Err(ErrorOf::AnyPointerNotRepresentable),
        Value::Capability => Err(ErrorOf::CapabilityNotRepresentable),
        Value::Custom(j) => write_json_value(out, j, meta, first),
    }
}

/// Writes a list: each element with the list field's options, in an object
/// of its own.
pub fn write_array(out: &mut String, items: &Vec<Value>, meta: &EncodingOptions) -> (r: Result<(), Error>)
    ensures
        match (r, list_text(items@, meta@)) {
            (Ok(()), Ok(t)) => final(out)@ == old(out)@ + seq!['['] + t + seq![']'],
            (Err(e), Err(m)) => e@ == m,
            _ => false,
        },
    decreases items@, 1int,
{
    push_char(out, '[');
    let ghost start = out@;
    let mut i: usize = 0;
    assert(items@.take(0) =~= Seq::<Value>::empty());
    while i < items.len()
        invariant
            i <= items.len(),
            list_text(items@.take(i as int), meta@) matches Ok(t) && out@ == start + t,
            start == old(out)@ + seq!['['],
        decreases items.len() - i,
    {
        assert(items@.take(i + 1).drop_last() =~= items@.take(i as int));
        assert(items@.take(i + 1).last() == items@[i as int]);
        if i > 0 {
            push_char(out, ',');
        }
        let mut item_first = true;
        match serialize_value(out, &items[i], meta, &mut item_first) {
            Ok(()) => {},
            Err(e) => {
                proof {
                    let t = list_text(items@.take(i as int), meta@)->Ok_0;
                    assert(list_text(items@.take(i + 1), meta@) == Err::<Seq<char>, ErrorModel>(e@));
                    lemma_list_text_prefix_err(items@, meta@, i as int + 1);
                }
                return Err(e);
            },
        }
        i = i + 1;
    }
    assert(items@.take(i as int) =~= items@);
    push_char(out, ']');
    Ok(())
}

/// An error in the first elements of a list is the error of the whole list.
proof fn lemma_list_text_prefix_err(items: Seq<Value>, meta: OptionsModel, n: int)
    requires
        0 <= n <= items.len(),
        list_text(items.take(n), meta) is Err,
    ensures
        list_text(items, meta) == list_text(items.take(n), meta),
    decreases items.len() - n,
{
    if n == items.len() {
        assert(items.take(n) =~= items);
    } else {
        assert(items.take(n + 1).drop_last() =~= items.take(n));
        lemma_list_text_prefix_err(items, meta, n + 1);
    }
}

/// An error in the first fields is the error of all of them.
proof fn lemma_members_fold_prefix_err(ms: Seq<Member>, fp: Seq<char>, first: bool, n: int)
    requires
        0 <= n <= ms.len(),
        members_fold(ms.take(n), fp, first) is Err,
    ensures
        members_fold(ms, fp, first) == members_fold(ms.take(n), fp, first),
    decreases ms.len() - n,
{
    if n == ms.len() {
        assert(ms.take(n) =~= ms);
    } else {
        lemma_members_fold_step(ms, fp, first, n);
        lemma_members_fold_prefix_err(ms, fp, first, n + 1);
    }
}

/// Writes a field outside the union.
fn write_member(out: &mut String, m: &Member, fp: &str, first: &mut bool) -> (r: Result<(), Error>)
    ensures
        wrote(r, member_text(*m, fp@, *old(first)), old(out)@, final(out)@, *final(first)),
    decreases m, 0int,
{
    match &m.value {
        None => Ok(()),
        Some(v) => {
            let fo = match EncodingOptions::from_field(fp, m.name.as_str(), &m.annotations, m.element_is_data) {
                Ok(o) => o,
                Err(e) => return Err(e),
            };
            if fo.flatten.is_none() {
                write_separator(out, first);
                write_key(out, fp, fo.name.as_str());
            }
            let ghost mid = out@;
            let r = serialize_value(out, v, &fo, first);
            proof {
                if r is Ok && fo.flatten.is_none() {
                    let t = value_text(*v, fo@, false)->Ok_0.0;
                    assert(out@ =~= old(out)@ + ((separator(*old(first)) + key_text(fp@, fo@.name)) + t));
                }
            }
            r
        },
    }
}

/// One more field appends its text to the fields before it.
proof fn lemma_members_fold_step(ms: Seq<Member>, fp: Seq<char>, first: bool, i: int)
    requires
        0 <= i < ms.len(),
    ensures
        members_fold(ms.take(i + 1), fp, first) == match members_fold(ms.take(i), fp, first) {
            Err(e) => Err(e),
            Ok((t, f)) => after_text(t, member_text(ms[i], fp, f)),
        },
{
    let a = ms.take(i + 1);
    assert(a.len() > 0);
    assert(members_fold(a, fp, first) == match members_fold(a.drop_last(), fp, first) {
        Err(e) => Err(e),
        Ok((t, f)) => after_text(t, member_text(a.last(), fp, f)),
    });
    assert(a.drop_last() =~= ms.take(i));
    assert(a.last() == ms[i]);
}

/// Writes the fields outside the union, in order.
#[verifier::spinoff_prover]
#[verifier::rlimit(60)]
fn write_fields(out: &mut String, ms: &Vec<Member>, fp: &str, first: &mut bool) -> (r: Result<(), Error>)
    ensures
        wrote(r, members_fold(ms@, fp@, *old(first)), old(out)@, final(out)@, *final(first)),
    decreases ms@, 1int,
{
    let ghost first0 = *first;
    let mut i: usize = 0;
    assert(ms@.take(0) =~= Seq::<Member>::empty());
    assert(members_fold(ms@.take(0), fp@, first0) == Ok::<(Seq<char>, bool), ErrorModel>((seq![], first0)));
    while i < ms.len()
        invariant
            i <= ms.len(),
            first0 == *old(first),
            members_fold(ms@.take(i as int), fp@, first0) matches Ok((t, f)) && out@ == old(out)@ + t
                && *first == f,
        decreases ms.len() - i,
    {
        let ghost before = out@;
        let ghost f_before = *first;
        let ghost t_before = members_fold(ms@.take(i as int), fp@, first0)->Ok_0.0;
        proof {
            lemma_members_fold_step(ms@, fp@, first0, i as int);
        }
        match write_member(out, &ms[i], fp, first) {
            Ok(()) => {
                let ghost t_member = member_text(ms@[i as int], fp@, f_before)->Ok_0.0;
                assert(out@ =~= old(out)@ + (t_before + t_member));
            },
            Err(e) => {
                proof {
                    assert(members_fold(ms@.take(i as int), fp@, first0) == Ok::<(Seq<char>, bool), ErrorModel>((t_before, f_before)));
                    assert(members_fold(ms@.take(i + 1), fp@, first0) == Err::<(Seq<char>, bool), ErrorModel>(e@));
                    lemma_members_fold_prefix_err(ms@, fp@, first0, i as int + 1);
                }
                return Err(e);
            },
        }
        i = i + 1;
    }
    assert(ms@.take(i as int) =~= ms@);
    Ok(())
}

/// The view of borrowed discriminator options.
pub open spec fn disc_view(d: Option<&DiscriminatorOptions>) -> Option<(Option<Seq<char>>, Option<Seq<char>>)> {
    match d {
        Some(d) => Some(discriminator_view(*d)),
        None => None,
    }
}

/// The view of an optional borrowed string.
pub open spec fn opt_str_view(o: Option<&str>) -> Option<Seq<char>> {
    match o {
        Some(s) => Some(s@),
        None => None,
    }
}

/// Writes the union's active member.
#[verifier::spinoff_prover]
#[verifier::rlimit(100)]
fn write_union(
    out: &mut String,
    u: &Member,
    disc: Option<&DiscriminatorOptions>,
    fp: &str,
    flatten: bool,
    struct_name: &str,
    first: &mut bool,
) -> (r: Result<(), Error>)
    ensures
        wrote(
            r,
            union_text(*u, disc_view(disc), fp@, flatten, struct_name@, *old(first)),
            old(out)@,
            final(out)@,
            *final(first),
        ),
    decreases u, 0int,
{
    let uo = match EncodingOptions::from_field(fp, u.name.as_str(), &u.annotations, u.element_is_data) {
        Ok(o) => o,
        Err(e) => return Err(e),
    };
    match &u.value {
        None => Ok(()),
        Some(val) => {
            let dname: Option<&str> = match disc {
                Some(d) => match &d.name {
                    Some(n) => Some(n.as_str()),
                    None => if flatten {
                        Some(struct_name)
                    } else {
                        None
                    },
                },
                None => None,
            };
            let value_name: &str = match disc {
                Some(d) => match &d.value_name {
                    Some(vn) => vn.as_str(),
                    None => uo.name.as_str(),
                },
                None => uo.name.as_str(),
            };
            let ghost dk = discriminator_key(disc_view(disc), flatten, struct_name@);
            assert(opt_str_view(dname) == dk);
            assert(value_name@ == union_value_key(disc_view(disc), uo@.name));
            let ghost dt = match dk {
                Some(dn) => separator(*old(first)) + key_text(fp@, dn) + quoted(uo@.name),
                None => seq![],
            };
            match dname {
                Some(dn) => {
                    write_separator(out, first);
                    write_key(out, fp, dn);
                    write_string(out, uo.name.as_str());
                },
                None => {},
            }
            assert(out@ =~= old(out)@ + dt);
            let ghost f1 = *first;
            let ghost dt_out = out@;
            let suppress_void = dname.is_some();
            let is_void = match val {
                Value::Void => true,
                _ => false,
            };
            if !suppress_void || !is_void {
                let unflattened = uo.flatten.is_none();
                if unflattened {
                    write_separator(out, first);
                    write_key(out, fp, value_name);
                }
                let ghost kt = out@.subrange(dt_out.len() as int, out@.len() as int);
                assert(out@ =~= dt_out + kt);
                let ghost key_out = out@;
                let r = serialize_value(out, val, &uo, first);
                proof {
                    if r is Ok {
                        let t = value_text(*val, uo@, if unflattened { false } else { f1 })->Ok_0.0;
                        assert(final(out)@ == key_out + t);
                        if unflattened {
                            assert(kt =~= separator(f1) + key_text(fp@, value_name@));
                            assert(final(out)@ =~= old(out)@ + ((dt + separator(f1) + key_text(fp@, value_name@)) + t));
                        } else {
                            assert(kt =~= Seq::<char>::empty());
                            assert(final(out)@ =~= old(out)@ + (dt + t));
                        }
                    }
                }
                r
            } else {
                Ok(())
            }
        },
    }
}

/// Writes a struct: an object of its own, or, when flattened, members that
/// continue the enclosing object.
#[verifier::spinoff_prover]
#[verifier::rlimit(100)]
pub fn write_object(out: &mut String, sv: &StructValue, meta: &EncodingOptions, first: &mut bool) -> (r: Result<
    (),
    Error,
>)
    ensures
        wrote(r, object_text(*sv, meta@, *old(first)), old(out)@, final(out)@, *final(first)),
    decreases sv, 2int,
{
    let flatten = meta.flatten.is_some();
    let fp = field_prefix(meta);
    let mut my_first = true;
    if !flatten {
        push_char(out, '{');
    } else {
        my_first = *first;
    }
    let ghost open_out = out@;
    let ghost f0 = my_first;
    match write_fields(out, &sv.fields, fp.as_str(), &mut my_first) {
        Ok(()) => {},
        Err(e) => return Err(e),
    }
    let ghost fields_out = out@;
    let ghost mt = members_fold(sv.fields@, fp@, f0)->Ok_0.0;
    let ghost f1 = my_first;
    let disc: Option<&DiscriminatorOptions> = match &meta.discriminator {
        Some(d) => Some(d),
        None => match &sv.discriminator {
            Some(d) => Some(d),
            None => None,
        },
    };
    assert(disc_view(disc) == effective_discriminator(meta@, *sv));
    match &sv.union_member {
        Some(u) => {
            match write_union(out, &**u, disc, fp.as_str(), flatten, meta.name.as_str(), &mut my_first) {
                Ok(()) => {},
                Err(e) => return Err(e),
            }
        },
        None => {},
    }
    let ghost union_out = out@;
    let ghost ut = union_step(sv.union_member, effective_discriminator(meta@, *sv), fp@, flatten, meta@.name, f1)->Ok_0.0;
    assert(union_out =~= fields_out + ut);
    if !flatten {
        push_char(out, '}');
        assert(out@ =~= old(out)@ + (seq!['{'] + mt + ut + seq!['}']));
    } else {
        *first = my_first;
        assert(out@ =~= old(out)@ + (mt + ut));
    }
    Ok(())
}

/// Encodes a message whose root is `value` as compact JSON text.
pub fn serialize_json(value: &Value) -> (r: Result<String, Error>)
    ensures
        match (r, message_text(*value)) {
            (Ok(s), Ok(t)) => s@ == t,
            (Err(e), Err(m)) => e@ == m,
            _ => false,
        },
{
    match value {
        Value::Struct(_) => {},
        _ => return Err(ErrorOf::TopLevelNotStruct),
    }
    let mut out = String::new();
    let meta = EncodingOptions::default();
    let mut first = true;
    match serialize_value(&mut out, value, &meta, &mut first) {
        Ok(()) => {
            assert(out@ =~= Seq::<char>::empty() + out@);
            Ok(out)
        },
        Err(e) => Err(e),
    }
}

} // verus!
