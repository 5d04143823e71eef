//! What a message is written as, and what reading it back gives.
//!
//! A plain struct (no flattening, any discriminator with a name) whose
//! fields and active union member hold scalars, text, data, enums, plain
//! structs and lists of these, or the JSON that a custom codec gave (for a
//! field that a codec takes, or a struct whose type names a registered
//! codec), is written as the object of its [`struct_members`]: one member
//! per set field, under the field's JSON name, then those of the active
//! union member, data in each field's encoding. Decoding that text against
//! the struct's schema plans exactly the writes [`struct_writes`] gives:
//! each set field and the active member receive their values again, at every
//! depth, what a codec gave being handed back to that codec, and no other
//! field is touched; and members under keys the decoder does not look for
//! change nothing.
use vstd::prelude::*;
use crate::data::{
    base64_encoded, base64_group, base64_round_trip, base64_symbol, hex_encoded, hex_round_trip, hex_symbol,
};
use crate::decode::{
    data_bytes, decoded_plan, discriminant_of, enumerant_index, field_codec, fields_plan, find_member,
    lemma_member_index, limit_of, list_plan, lists_plan, member_index, member_plan, member_prefix, opt_writes,
    options_of, primitive_value, remaining, struct_discriminator, struct_plan, structs_plan, union_plan, union_search, untaken,
    values_plan, Decoder, FieldRef, FieldSchema, FieldType, FloatModel, ListPlanModel, PrimitiveModel,
    StructPlanModel, StructSchema, WriteModel,
};
use crate::encode::{
    bytes_text, data_text, effective_discriminator, enumerant_name, list_text, member_text, members_fold,
    message_text, object_text, union_step, union_text, union_value_key, value_text, Enumerant, Member, StructValue,
    Value,
};
use crate::error::{ErrorModel, IntKind};
use crate::grammar::is_digit;
use crate::json::Json;
use crate::number::{
    double_index, doubles_view, kind_bounds, lemma_double_index, number_integer, number_ordinal, numbers_sound,
    integer_round_trip, integer_text_round_trip, lemma_decimal_digits, lemma_decimal_parts, ordinal_round_trip,
};
use crate::options::{
    annotations_view, default_options, discriminator_view, field_options, names_view, CodecChoice, DataEncoding,
    OptionsModel,
};
use crate::roundtrip::{
    items_depth, items_wf, json_depth, json_round_trip, json_wf, keys_distinct, members_depth, members_wf, number_text_wf,
};
use crate::writer::{
    decimal, decimal_digits, elements_text, escape_char, escaped, json_text, key_text, quoted, lemma_elements_push,
    lemma_members_push, members_text, separator,
};

verus! {

/// Whether a value is one that a field of type `t` holds and that is written
/// as a JSON scalar or string, or, for data, as the data encoding says.
pub open spec fn fits(v: Value, t: FieldType) -> bool {
    match (v, t) {
        (Value::Void, FieldType::Void) => true,
        (Value::Bool(_), FieldType::Bool) => true,
        (Value::Int(i), FieldType::Int8) => -128 <= i <= 127,
        (Value::Int(i), FieldType::Int16) => -32768 <= i <= 32767,
        (Value::Int(i), FieldType::Int32) => -2147483648 <= i <= 2147483647,
        (Value::UInt(u), FieldType::UInt8) => u <= 255,
        (Value::UInt(u), FieldType::UInt16) => u <= 65535,
        (Value::UInt(u), FieldType::UInt32) => u <= 4294967295,
        (Value::Int64(_), FieldType::Int64) => true,
        (Value::UInt64(_), FieldType::UInt64) => true,
        (Value::Float(x), FieldType::Float32) => float_text_ok(x@),
        (Value::Float(x), FieldType::Float64) => float_text_ok(x@),
        (Value::Enum(_, None), FieldType::Enum(_)) => true,
        (Value::Enum(o, Some(e)), FieldType::Enum(es)) => named_enumerant(es@, o as int, enumerant_name(e)),
        (Value::Text(_), FieldType::Text) => true,
        (Value::Data(_), FieldType::Data) => true,
        _ => false,
    }
}

/// The JSON text of the three floats that JSON has no number for.
#[verifier::opaque]
pub open spec fn non_finite_text(x: Seq<char>) -> Option<Seq<char>> {
    if x == seq!['"', 'N', 'a', 'N', '"'] {
        Some(seq!['N', 'a', 'N'])
    } else if x == seq!['"', 'I', 'n', 'f', 'i', 'n', 'i', 't', 'y', '"'] {
        Some(seq!['I', 'n', 'f', 'i', 'n', 'i', 't', 'y'])
    } else if x == seq!['"', '-', 'I', 'n', 'f', 'i', 'n', 'i', 't', 'y', '"'] {
        Some(seq!['-', 'I', 'n', 'f', 'i', 'n', 'i', 't', 'y'])
    } else {
        None
    }
}

/// Whether a float's text is a JSON number the parser reads back, or the
/// string of `NaN`, `Infinity` or `-Infinity`.
pub open spec fn float_text_ok(x: Seq<char>) -> bool {
    number_text_wf(x) || non_finite_text(x) is Some
}

/// The JSON value of a float's text.
pub open spec fn float_json(x: Seq<char>) -> Json {
    match non_finite_text(x) {
        Some(s) => Json::String(s),
        None => Json::Number(x),
    }
}

/// The float that decoding sets for a float's text.
#[verifier::opaque]
pub open spec fn float_value(x: Seq<char>) -> FloatModel {
    if x == seq!['"', 'N', 'a', 'N', '"'] {
        FloatModel::NaN
    } else if x == seq!['"', 'I', 'n', 'f', 'i', 'n', 'i', 't', 'y', '"'] {
        FloatModel::Infinity
    } else if x == seq!['"', '-', 'I', 'n', 'f', 'i', 'n', 'i', 't', 'y', '"'] {
        FloatModel::NegInfinity
    } else {
        FloatModel::Number(x)
    }
}

/// Whether `name` is the JSON name of enumerant `o` of `es`, and of no
/// enumerant before it.
pub open spec fn named_enumerant(es: Seq<Enumerant>, o: int, name: Seq<char>) -> bool {
    &&& 0 <= o < es.len()
    &&& enumerant_name(es[o]) == name
    &&& forall|i: int| 0 <= i < o ==> enumerant_name(#[trigger] es[i]) != name
}

/// Whether value `v` is a plain value of type `t` against the decoder's
/// schema, in a field whose own discriminator options are `md`: a scalar
/// that [`fits`], a struct that is a [`plain_struct`] of the struct type,
/// what the codec that the struct type names gave for a struct of a type
/// whose codec is registered (well-formed JSON other than `null`), or a list
/// whose elements are plain values of the element type.
pub open spec fn plain_value(d: Decoder, v: Value, t: FieldType, md: Option<(Option<Seq<char>>, Option<Seq<char>>)>) -> bool
    decreases v,
{
    match v {
        Value::Struct(sv) => match t {
            FieldType::Struct(si) => si < d.structs.len() && plain_struct(d, sv, d.structs@[si as int], md),
            _ => false,
        },
        Value::List(items) => match t {
            FieldType::List(et) => plain_items(d, items@, *et, md),
            _ => false,
        },
        Value::Custom(j) => match t {
            FieldType::Struct(si) => si < d.structs.len() && struct_codec_registered(d, si as int) && json_wf(j@)
                && !(j@ is Null),
            _ => false,
        },
        _ => fits(v, t),
    }
}

/// Whether struct type `si` names a codec that the decoder has registered.
pub open spec fn struct_codec_registered(d: Decoder, si: int) -> bool {
    d.structs@[si].codec matches Some(n) && names_view(d.named_codecs@).contains(n@)
}

/// Whether every element is a plain value of type `t`.
pub open spec fn plain_items(d: Decoder, items: Seq<Value>, t: FieldType, md: Option<(Option<Seq<char>>, Option<Seq<char>>)>) -> bool
    decreases items,
{
    if items.len() == 0 {
        true
    } else {
        plain_items(d, items.drop_last(), t, md) && plain_value(d, items.last(), t, md)
    }
}

/// The options a field is written with, given by its name and annotations.
pub open spec fn member_options(m: Member) -> OptionsModel {
    field_options(Seq::empty(), m.name@, annotations_view(m.annotations@), m.element_is_data)->Ok_0
}

/// The key a field is written under: its `$Json.name`, else its own name.
pub open spec fn key_of(m: Member) -> Seq<char> {
    member_options(m).name
}

/// The JSON name of a schema field: its `$Json.name`, else its own name.
pub open spec fn json_name(f: FieldSchema) -> Seq<char> {
    options_of(f, Seq::empty())->Ok_0.name
}

/// Whether field `m` is the schema's field `f`, written and read with the
/// same options, which do not flatten it; and whether, where it is set, it
/// holds what a custom codec gave, well-formed JSON, where the decoder hands
/// `f` (not of type `Void`) to a codec, and else a plain value of `f`'s
/// type.
pub open spec fn plain_member(d: Decoder, m: Member, f: FieldSchema) -> bool
    decreases m,
{
    &&& options_of(f, Seq::empty()) is Ok
    &&& field_options(Seq::empty(), m.name@, annotations_view(m.annotations@), m.element_is_data) == options_of(
        f,
        Seq::empty(),
    )
    &&& member_options(m).flatten is None
    &&& match m.value {
        Some(v) => if field_codec(d, f, member_options(m)) != CodecChoice::Default {
            v matches Value::Custom(j) && !(f.ty is Void) && json_wf(j@)
        } else {
            plain_value(d, v, f.ty, member_options(m).discriminator)
        },
        None => true,
    }
}

/// Whether `v` is what field `f`, read with options `fo`, can hold and read
/// back: what a custom codec gave, well-formed JSON, where the decoder hands
/// the field to a codec and the field is not of type `Void`; else a plain
/// value of the field's type.
pub open spec fn member_value(d: Decoder, v: Value, f: FieldSchema, fo: OptionsModel) -> bool {
    if field_codec(d, f, fo) != CodecChoice::Default {
        v matches Value::Custom(j) && !(f.ty is Void) && json_wf(j@)
    } else {
        plain_value(d, v, f.ty, fo.discriminator)
    }
}

/// Whether the fields match the schema's fields one for one, each a
/// [`plain_member`].
pub open spec fn plain_members(d: Decoder, ms: Seq<Member>, fs: Seq<FieldSchema>) -> bool
    decreases ms,
{
    if ms.len() == 0 {
        fs.len() == 0
    } else {
        &&& fs.len() == ms.len()
        &&& plain_members(d, ms.drop_last(), fs.drop_last())
        &&& plain_member(d, ms.last(), fs.last())
    }
}

/// The index of the first field whose JSON name is `name`, or -1.
pub open spec fn field_index(fs: Seq<FieldSchema>, name: Seq<char>) -> int
    decreases fs.len(),
{
    if fs.len() == 0 {
        -1
    } else if json_name(fs[0]) == name {
        0
    } else {
        let r = field_index(fs.drop_first(), name);
        if r < 0 {
            -1
        } else {
            r + 1
        }
    }
}

/// Whether the union's active member, if there is one, is a plain member of
/// the union field of its JSON name.
pub open spec fn plain_union(d: Decoder, um: Option<Box<Member>>, st: StructSchema) -> bool
    decreases um,
{
    match um {
        None => true,
        Some(u) => {
            let ui = field_index(st.union_fields@, key_of(*u));
            ui >= 0 && plain_member(d, *u, st.union_fields@[ui])
        },
    }
}

/// The discriminator options a struct value carries, as the codec reads
/// them.
pub open spec fn value_disc(sv: StructValue) -> Option<(Option<Seq<char>>, Option<Seq<char>>)> {
    match sv.discriminator {
        Some(x) => Some(discriminator_view(x)),
        None => None,
    }
}

/// The discriminator options a struct's schema declares, as the codec reads
/// them.
pub open spec fn schema_disc(st: StructSchema) -> Option<(Option<Seq<char>>, Option<Seq<char>>)> {
    match st.discriminator {
        Some(x) => Some(discriminator_view(x)),
        None => None,
    }
}

/// The discriminator in effect for a struct in a field whose own
/// discriminator options are `md`: those, else the struct's.
pub open spec fn eff_disc(md: Option<(Option<Seq<char>>, Option<Seq<char>>)>, sv: StructValue) -> Option<(Option<Seq<char>>, Option<Seq<char>>)> {
    match md {
        Some(x) => Some(x),
        None => value_disc(sv),
    }
}

/// Whether a discriminator, if there is one, names the key it is written
/// under, a key that no field or union member of `st` has as its JSON name;
/// and whether its value name, if any, is neither that key nor any field's.
pub open spec fn disc_ok(disc: Option<(Option<Seq<char>>, Option<Seq<char>>)>, st: StructSchema) -> bool {
    match disc {
        None => true,
        Some((None, _)) => false,
        Some((Some(dn), vn)) => {
            &&& forall|j: int| 0 <= j < st.fields.len() ==> json_name(#[trigger] st.fields@[j]) != dn
            &&& forall|i: int| 0 <= i < st.union_fields.len() ==> json_name(#[trigger] st.union_fields@[i]) != dn
            &&& match vn {
                Some(x) => x != dn && forall|j: int| 0 <= j < st.fields.len() ==> json_name(#[trigger] st.fields@[j]) != x,
                None => true,
            }
        },
    }
}

/// Whether `key` is a key the decoder does not look for in the object of a
/// struct of schema `st` with discriminator options `disc`: no field's or
/// union member's JSON name, and neither the discriminator's name nor its
/// value name.
pub open spec fn unknown_key(key: Seq<char>, st: StructSchema, disc: Option<(Option<Seq<char>>, Option<Seq<char>>)>) -> bool {
    &&& forall|j: int| 0 <= j < st.fields.len() ==> json_name(#[trigger] st.fields@[j]) != key
    &&& forall|i: int| 0 <= i < st.union_fields.len() ==> json_name(#[trigger] st.union_fields@[i]) != key
    &&& match disc {
        Some((n, vn)) => n != Some(key) && vn != Some(key),
        None => true,
    }
}

/// Whether every member of `extra` has a key the decoder does not look for.
pub open spec fn unknown_keys(extra: Seq<(Seq<char>, Json)>, st: StructSchema, disc: Option<(Option<Seq<char>>, Option<Seq<char>>)>) -> bool {
    forall|q: int| 0 <= q < extra.len() ==> unknown_key(#[trigger] extra[q].0, st, disc)
}

/// A struct whose schema names no struct-level codec, whose fields are plain members of
/// schema `st`'s fields and whose union's active member, if any, is a plain
/// member of one of `st`'s union members; every field and union member of
/// `st` has valid options, no two of them share a JSON name, the
/// discriminator the struct carries is the one its schema declares, and
/// the discriminator in effect, the field's `md` or else that one, has a
/// name of its own.
pub open spec fn plain_struct(d: Decoder, sv: StructValue, st: StructSchema, md: Option<(Option<Seq<char>>, Option<Seq<char>>)>) -> bool
    decreases sv,
{
    &&& st.codec is None
    &&& value_disc(sv) == schema_disc(st)
    &&& disc_ok(eff_disc(md, sv), st)
    &&& plain_members(d, sv.fields@, st.fields@)
    &&& forall|j: int, k: int|
        0 <= j < k < st.fields.len() ==> #[trigger] json_name(st.fields@[j]) != #[trigger] json_name(st.fields@[k])
    &&& forall|i: int| 0 <= i < st.union_fields.len() ==> (options_of(#[trigger] st.union_fields@[i], Seq::empty()) is Ok)
    &&& forall|i: int, j: int|
        0 <= i < j < st.union_fields.len() ==> #[trigger] json_name(st.union_fields@[i]) != #[trigger] json_name(
            st.union_fields@[j],
        )
    &&& forall|i: int, j: int|
        0 <= i < st.union_fields.len() && 0 <= j < st.fields.len() ==> #[trigger] json_name(st.union_fields@[i])
            != #[trigger] json_name(st.fields@[j])
    &&& plain_union(d, sv.union_member, st)
}

/// The value that decoding sets in a field for a scalar.
pub open spec fn decoded_value(v: Value) -> PrimitiveModel {
    match v {
        Value::Void => PrimitiveModel::Void,
        Value::Bool(b) => PrimitiveModel::Bool(b),
        Value::Int(i) => PrimitiveModel::Int(i as int),
        Value::UInt(u) => PrimitiveModel::Int(u as int),
        Value::Int64(i) => PrimitiveModel::Int(i as int),
        Value::UInt64(u) => PrimitiveModel::Int(u as int),
        Value::Float(x) => PrimitiveModel::Float(float_value(x@)),
        Value::Enum(o, _) => PrimitiveModel::Enum(o),
        Value::Text(s) => PrimitiveModel::Text(s@),
        Value::Data(d) => PrimitiveModel::Data(d@),
        _ => PrimitiveModel::Void,
    }
}

/// The JSON numbers of bytes.
pub open spec fn byte_items(d: Seq<u8>) -> Seq<Json> {
    d.map_values(|b: u8| Json::Number(decimal(b as int)))
}

/// The JSON value of data in encoding `enc`.
pub open spec fn data_json(d: Seq<u8>, enc: DataEncoding) -> Json {
    match enc {
        DataEncoding::Default => Json::Array(byte_items(d)),
        DataEncoding::Base64 => Json::String(base64_encoded(d)),
        DataEncoding::Hex => Json::String(hex_encoded(d)),
    }
}

/// The JSON value a plain value is written as with options `fo`: data in
/// its encoding, structs with its discriminator.
pub open spec fn json_of(v: Value, fo: OptionsModel) -> Json
    decreases v,
{
    match v {
        Value::Void => Json::Null,
        Value::Bool(b) => Json::Boolean(b),
        Value::Int(i) => Json::Number(decimal(i as int)),
        Value::UInt(u) => Json::Number(decimal(u as int)),
        Value::Int64(i) => Json::String(decimal(i as int)),
        Value::UInt64(u) => Json::String(decimal(u as int)),
        Value::Float(x) => float_json(x@),
        Value::Enum(o, None) => Json::Number(decimal(o as int)),
        Value::Enum(_, Some(e)) => Json::String(enumerant_name(e)),
        Value::Text(s) => Json::String(s@),
        Value::Data(d) => data_json(d@, fo.data_encoding),
        Value::Struct(sv) => Json::Object(struct_members(sv, fo.discriminator)),
        Value::List(items) => Json::Array(list_json(items@, fo)),
        Value::Custom(j) => j@,
        _ => Json::Null,
    }
}

/// The JSON values of a list's elements, written with options `fo`.
pub open spec fn list_json(items: Seq<Value>, fo: OptionsModel) -> Seq<Json>
    decreases items,
{
    if items.len() == 0 {
        seq![]
    } else {
        list_json(items.drop_last(), fo).push(json_of(items.last(), fo))
    }
}

/// The members a struct's set fields are written as.
pub open spec fn set_members(ms: Seq<Member>) -> Seq<(Seq<char>, Json)>
    decreases ms,
{
    if ms.len() == 0 {
        seq![]
    } else {
        match ms.last().value {
            Some(v) => set_members(ms.drop_last()).push((key_of(ms.last()), json_of(v, member_options(ms.last())))),
            None => set_members(ms.drop_last()),
        }
    }
}

/// The members the union's active member is written as, if it is set: its
/// key and value, or, under a discriminator, the discriminator's key and the
/// member's key, then the value (none for a `Void` member) under the
/// discriminator's value name, else the member's key.
pub open spec fn union_json(
    um: Option<Box<Member>>,
    disc: Option<(Option<Seq<char>>, Option<Seq<char>>)>,
) -> Seq<(Seq<char>, Json)>
    decreases um,
{
    match um {
        Some(u) => match u.value {
            Some(v) => {
                let key = key_of(*u);
                let entry = (union_value_key(disc, key), json_of(v, member_options(*u)));
                match disc {
                    Some((Some(dn), _)) => if v is Void {
                        seq![(dn, Json::String(key))]
                    } else {
                        seq![(dn, Json::String(key)), entry]
                    },
                    _ => seq![entry],
                }
            },
            None => seq![],
        },
        None => seq![],
    }
}

/// The members a struct is written as in a field whose own discriminator
/// options are `md`: those of its set fields, then those of its union's
/// active member.
pub open spec fn struct_members(sv: StructValue, md: Option<(Option<Seq<char>>, Option<Seq<char>>)>) -> Seq<(Seq<char>, Json)>
    decreases sv,
{
    set_members(sv.fields@) + union_json(sv.union_member, eff_disc(md, sv))
}

/// The keys of a struct's set fields, in order.
pub open spec fn set_names(ms: Seq<Member>) -> Seq<Seq<char>>
    decreases ms.len(),
{
    if ms.len() == 0 {
        seq![]
    } else {
        match ms.last().value {
            Some(_) => set_names(ms.drop_last()).push(key_of(ms.last())),
            None => set_names(ms.drop_last()),
        }
    }
}

/// The write that decoding makes in field `fref` for a plain value of type
/// `t`.
pub open spec fn value_write(d: Decoder, fref: FieldRef, v: Value, t: FieldType) -> WriteModel
    decreases v, 0int,
{
    match v {
        Value::Struct(sv) => match t {
            FieldType::Struct(si) => WriteModel::Struct(
                fref,
                StructPlanModel::Fields(struct_writes(d, sv, d.structs@[si as int])),
            ),
            _ => WriteModel::Assign(fref, PrimitiveModel::Void),
        },
        Value::List(items) => match t {
            FieldType::List(et) => WriteModel::List(fref, list_model(d, items@, *et)),
            _ => WriteModel::Assign(fref, PrimitiveModel::Void),
        },
        Value::Custom(j) => WriteModel::Struct(fref, StructPlanModel::Custom(j@)),
        _ => WriteModel::Assign(fref, decoded_value(v)),
    }
}

/// The write that decoding makes in field `fref`, of schema `f` read with
/// options `fo`, for the value `v` it holds: what a custom codec gave is
/// handed to that codec.
pub open spec fn member_write(d: Decoder, fref: FieldRef, v: Value, f: FieldSchema, fo: OptionsModel) -> WriteModel
    decreases v, 1int,
{
    match v {
        Value::Custom(j) => if field_codec(d, f, fo) != CodecChoice::Default {
            WriteModel::Custom(fref, j@, field_codec(d, f, fo))
        } else {
            value_write(d, fref, v, f.ty)
        },
        _ => value_write(d, fref, v, f.ty),
    }
}

/// The writes that decoding makes for a struct's set fields, whose schema
/// fields are `fs`.
pub open spec fn field_writes(d: Decoder, ms: Seq<Member>, fs: Seq<FieldSchema>) -> Seq<WriteModel>
    decreases ms, 0int,
{
    if ms.len() == 0 {
        seq![]
    } else {
        match ms.last().value {
            Some(v) => field_writes(d, ms.drop_last(), fs.drop_last()).push(
                member_write(d, FieldRef::Plain((ms.len() - 1) as usize), v, fs.last(), member_options(ms.last())),
            ),
            None => field_writes(d, ms.drop_last(), fs.drop_last()),
        }
    }
}

/// The write that decoding makes for the union's active member, if it is
/// set.
pub open spec fn union_writes(d: Decoder, sv: StructValue, st: StructSchema) -> Seq<WriteModel>
    decreases sv, 0int,
{
    match sv.union_member {
        Some(u) => match u.value {
            Some(v) => {
                let ui = field_index(st.union_fields@, key_of(*u));
                seq![member_write(d, FieldRef::Union(ui as usize), v, st.union_fields@[ui], member_options(*u))]
            },
            None => seq![],
        },
        None => seq![],
    }
}

/// The writes that decoding makes for a struct: those of its set fields,
/// then that of its union's active member.
pub open spec fn struct_writes(d: Decoder, sv: StructValue, st: StructSchema) -> Seq<WriteModel>
    decreases sv, 1int,
{
    field_writes(d, sv.fields@, st.fields@) + union_writes(d, sv, st)
}

/// How decoding fills a list of plain values whose elements have type `t`.
pub open spec fn list_model(d: Decoder, items: Seq<Value>, t: FieldType) -> ListPlanModel
    decreases items, 1int,
{
    match t {
        FieldType::Struct(si) => ListPlanModel::Structs(struct_models(d, items, si as int)),
        FieldType::List(et) => ListPlanModel::Lists(list_models(d, items, *et)),
        _ => ListPlanModel::Values(items.map_values(|v: Value| decoded_value(v))),
    }
}

/// How decoding fills each struct of a list of structs of type `si`.
pub open spec fn struct_models(d: Decoder, items: Seq<Value>, si: int) -> Seq<StructPlanModel>
    decreases items, 0int,
{
    if items.len() == 0 {
        seq![]
    } else {
        match items.last() {
            Value::Struct(sv) => struct_models(d, items.drop_last(), si).push(
                StructPlanModel::Fields(struct_writes(d, sv, d.structs@[si])),
            ),
            Value::Custom(j) => struct_models(d, items.drop_last(), si).push(StructPlanModel::Custom(j@)),
            _ => struct_models(d, items.drop_last(), si),
        }
    }
}

/// How decoding fills each list of a list of lists whose innermost
/// elements have type `t`.
pub open spec fn list_models(d: Decoder, items: Seq<Value>, t: FieldType) -> Seq<ListPlanModel>
    decreases items, 0int,
{
    if items.len() == 0 {
        seq![]
    } else {
        match items.last() {
            Value::List(sub) => list_models(d, items.drop_last(), t).push(list_model(d, sub@, t)),
            _ => list_models(d, items.drop_last(), t),
        }
    }
}

// ---------------------------------------------------------------------------
// Writing
// ---------------------------------------------------------------------------

/// A character that a JSON string holds as itself: printable ASCII other
/// than the quote and the backslash.
pub open spec fn plain_char(c: char) -> bool {
    &&& 0x20 <= (c as u32) < 0x7f
    &&& c != '"'
    &&& c != '\\'
}

/// Plain characters are written as themselves in a string.
proof fn lemma_escaped_plain(cs: Seq<char>)
    requires
        forall|i: int| 0 <= i < cs.len() ==> plain_char(#[trigger] cs[i]),
    ensures
        escaped(cs) == cs,
    decreases cs.len(),
{
    if cs.len() > 0 {
        assert forall|i: int| 0 <= i < cs.drop_first().len() implies plain_char(#[trigger] cs.drop_first()[i]) by {
            assert(cs.drop_first()[i] == cs[i + 1]);
        }
        lemma_escaped_plain(cs.drop_first());
        assert(plain_char(cs[0]));
        assert(escape_char(cs[0]) == seq![cs[0]]);
        assert(escaped(cs) =~= seq![cs[0]] + cs.drop_first());
    }
}

/// The decimal text of an integer is digits and perhaps a `-`.
proof fn lemma_decimal_chars(n: int)
    ensures
        forall|i: int| 0 <= i < decimal(n).len() ==> is_digit(#[trigger] decimal(n)[i]) || decimal(n)[i] == '-',
        forall|i: int| 0 <= i < decimal(n).len() ==> plain_char(#[trigger] decimal(n)[i]),
        number_text_wf(decimal(n)),
{
    let m: nat = if n < 0 { (-n) as nat } else { n as nat };
    lemma_decimal_digits(m);
    lemma_decimal_parts(n);
    assert forall|i: int| 0 <= i < decimal(n).len() implies is_digit(#[trigger] decimal(n)[i]) || decimal(n)[i]
        == '-' by {
        if n < 0 && i > 0 {
            assert(decimal(n)[i] == decimal_digits(m)[i - 1]);
        } else if n >= 0 {
            assert(decimal(n)[i] == decimal_digits(m)[i]);
        }
    }
    assert forall|i: int| 0 <= i < decimal(n).len() implies plain_char(#[trigger] decimal(n)[i]) by {
        assert(is_digit(decimal(n)[i]) || decimal(n)[i] == '-');
    }
    assert(is_digit(decimal_digits(m)[0]));
    if n >= 0 {
        assert(decimal(n)[0] == decimal_digits(m)[0]);
    }
}

/// A Base64 symbol is a plain character.
proof fn lemma_base64_symbol(v: int)
    requires
        0 <= v < 64,
    ensures
        plain_char(base64_symbol(v)),
{
}

/// Base64 text is plain characters.
proof fn lemma_base64_plain(d: Seq<u8>)
    ensures
        forall|i: int| 0 <= i < base64_encoded(d).len() ==> plain_char(#[trigger] base64_encoded(d)[i]),
    decreases d.len(),
{
    if d.len() > 0 {
        let b0 = d[0];
        let b1: u8 = if d.len() > 1 { d[1] } else { 0 };
        let b2: u8 = if d.len() > 2 { d[2] } else { 0 };
        let n: int = if d.len() >= 3 { 3 } else { d.len() as int };
        lemma_base64_symbol((b0 / 4) as int);
        lemma_base64_symbol((b0 % 4) * 16 + b1 / 16);
        lemma_base64_symbol((b1 % 16) * 4 + b2 / 64);
        lemma_base64_symbol((b2 % 64) as int);
        let g = base64_group(b0, b1, b2, n);
        assert forall|i: int| 0 <= i < 4 implies plain_char(#[trigger] g[i]) by {}
        if d.len() <= 2 {
            assert(base64_encoded(d) == g);
        } else {
            lemma_base64_plain(d.skip(3));
            let rest = base64_encoded(d.skip(3));
            assert(base64_encoded(d) == g + rest);
            assert forall|i: int| 0 <= i < base64_encoded(d).len() implies plain_char(#[trigger] base64_encoded(d)[i]) by {
                if i >= 4 {
                    assert(base64_encoded(d)[i] == rest[i - 4]);
                } else {
                    assert(base64_encoded(d)[i] == g[i]);
                }
            }
        }
    }
}

/// Hex text is plain characters.
proof fn lemma_hex_plain(d: Seq<u8>)
    ensures
        forall|i: int| 0 <= i < hex_encoded(d).len() ==> plain_char(#[trigger] hex_encoded(d)[i]),
    decreases d.len(),
{
    if d.len() > 0 {
        lemma_hex_plain(d.drop_first());
        let pair = seq![hex_symbol((d[0] / 16) as int), hex_symbol((d[0] % 16) as int)];
        let rest = hex_encoded(d.drop_first());
        assert(hex_encoded(d) == pair + rest);
        assert forall|i: int| 0 <= i < hex_encoded(d).len() implies plain_char(#[trigger] hex_encoded(d)[i]) by {
            if i >= 2 {
                assert(hex_encoded(d)[i] == rest[i - 2]);
            } else {
                assert(hex_encoded(d)[i] == pair[i]);
            }
        }
    }
}

/// Bytes are written as the elements of an array of their numbers.
proof fn lemma_bytes_text(d: Seq<u8>)
    ensures
        bytes_text(d) == elements_text(byte_items(d), true),
    decreases d.len(),
{
    if d.len() > 0 {
        lemma_bytes_text(d.drop_last());
        assert(byte_items(d) =~= byte_items(d.drop_last()).push(Json::Number(decimal(d.last() as int))));
        lemma_elements_push(byte_items(d.drop_last()), true, Json::Number(decimal(d.last() as int)));
    } else {
        assert(byte_items(d) =~= Seq::<Json>::empty());
    }
}

/// Data is written as the text of its JSON value in its encoding.
proof fn lemma_data_text(d: Seq<u8>, enc: DataEncoding)
    ensures
        data_text(d, enc) == json_text(data_json(d, enc)),
{
    match enc {
        DataEncoding::Default => lemma_bytes_text(d),
        DataEncoding::Base64 => {
            lemma_base64_plain(d);
            lemma_escaped_plain(base64_encoded(d));
        },
        DataEncoding::Hex => {
            lemma_hex_plain(d);
            lemma_escaped_plain(hex_encoded(d));
        },
    }
}

/// A float's text is the text of its JSON value, which the parser reads
/// back.
proof fn lemma_float_text(x: Seq<char>)
    requires
        float_text_ok(x),
    ensures
        json_text(float_json(x)) == x,
        json_wf(float_json(x)),
{
    reveal(non_finite_text);
    if let Some(s) = non_finite_text(x) {
        assert forall|i: int| 0 <= i < s.len() implies plain_char(#[trigger] s[i]) by {}
        lemma_escaped_plain(s);
        assert(seq!['"'] + s + seq!['"'] =~= x);
    }
}

/// A scalar that fits its field is written as the text of its JSON value.
proof fn lemma_scalar_text(v: Value, t: FieldType, fo: OptionsModel, first: bool)
    requires
        fits(v, t),
    ensures
        value_text(v, fo, first) == Ok::<(Seq<char>, bool), ErrorModel>(
            (json_text(json_of(v, fo)), first),
        ),
{
    match v {
        Value::Int64(i) => {
            lemma_decimal_chars(i as int);
            lemma_escaped_plain(decimal(i as int));
        },
        Value::UInt64(u) => {
            lemma_decimal_chars(u as int);
            lemma_escaped_plain(decimal(u as int));
        },
        Value::Data(d) => {
            lemma_data_text(d@, fo.data_encoding);
        },
        Value::Float(x) => {
            lemma_float_text(x@);
        },
        _ => {},
    }
}

/// Options under which a plain value is written as its JSON value: no
/// flattening.
pub open spec fn plain_options(fo: OptionsModel) -> bool {
    fo.flatten is None
}

/// A plain value is written as the text of its JSON value.
proof fn lemma_value_text(d: Decoder, v: Value, t: FieldType, fo: OptionsModel, first: bool)
    requires
        plain_value(d, v, t, fo.discriminator),
        plain_options(fo),
    ensures
        value_text(v, fo, first) == Ok::<(Seq<char>, bool), ErrorModel>(
            (json_text(json_of(v, fo)), first),
        ),
    decreases v,
{
    match v {
        Value::Struct(sv) => {
            let si = t->Struct_0;
            lemma_object_text(d, sv, d.structs@[si as int], fo, first);
        },
        Value::List(items) => {
            let et = *(t->List_0);
            lemma_list_text(d, items@, et, fo);
            assert(seq!['['] + elements_text(list_json(items@, fo), true) + seq![']'] == json_text(
                json_of(v, fo),
            ));
        },
        Value::Custom(_) => {},
        _ => lemma_scalar_text(v, t, fo, first),
    }
}

/// A plain struct is written as the object of its members.
#[verifier::spinoff_prover]
#[verifier::rlimit(40)]
proof fn lemma_object_text(d: Decoder, sv: StructValue, st: StructSchema, fo: OptionsModel, first: bool)
    requires
        plain_struct(d, sv, st, fo.discriminator),
        fo.flatten is None,
    ensures
        object_text(sv, fo, first) == Ok::<(Seq<char>, bool), ErrorModel>(
            (json_text(Json::Object(struct_members(sv, fo.discriminator))), first),
        ),
    decreases sv,
{
    let jm = set_members(sv.fields@);
    lemma_members_fold(d, sv.fields@, st.fields@);
    let mt = members_text(jm, Seq::empty(), true);
    let f1 = jm.len() == 0;
    let disc = eff_disc(fo.discriminator, sv);
    assert(effective_discriminator(fo, sv) == disc);
    let uj = union_json(sv.union_member, disc);
    if uj.len() == 0 {
        assert(jm + uj =~= jm);
        assert(union_step(sv.union_member, disc, Seq::empty(), false, fo.name, f1) == Ok::<
            (Seq<char>, bool),
            ErrorModel,
        >((Seq::<char>::empty(), f1)));
        assert(seq!['{'] + mt + Seq::<char>::empty() + seq!['}'] =~= seq!['{'] + mt + seq!['}']);
    } else {
        let u = sv.union_member->Some_0;
        let val = u.value->Some_0;
        let ui = field_index(st.union_fields@, key_of(*u));
        let uo = member_options(*u);
        let key = key_of(*u);
        lemma_union_text(d, *u, st.union_fields@[ui], disc, fo.name, jm, f1);
        assert(seq!['{'] + (mt + union_step(sv.union_member, disc, Seq::empty(), false, fo.name, f1)->Ok_0.0)
            + seq!['}'] =~= seq!['{'] + mt + union_step(sv.union_member, disc, Seq::empty(), false, fo.name, f1)->Ok_0.0
            + seq!['}']);
    }
}

/// The set active member of a plain struct's union is written as its
/// members, after those of the fields.
#[verifier::spinoff_prover]
#[verifier::rlimit(40)]
proof fn lemma_union_text(
    d: Decoder,
    u: Member,
    uf: FieldSchema,
    disc: Option<(Option<Seq<char>>, Option<Seq<char>>)>,
    struct_name: Seq<char>,
    jm: Seq<(Seq<char>, Json)>,
    f1: bool,
)
    requires
        plain_member(d, u, uf),
        u.value is Some,
        disc matches Some((n, _)) ==> n is Some,
        f1 == (jm.len() == 0),
    ensures
        union_text(u, disc, Seq::empty(), false, struct_name, f1) matches Ok((ut, _)) && members_text(
            jm,
            Seq::empty(),
            true,
        ) + ut == members_text(jm + union_json(Some(Box::new(u)), disc), Seq::empty(), true),
    decreases u,
{
    let val = u.value->Some_0;
    let key = key_of(u);
    let uo = member_options(u);
    let mt = members_text(jm, Seq::empty(), true);
    let uj = union_json(Some(Box::new(u)), disc);
    let vk = union_value_key(disc, key);
    let entry = (vk, json_of(val, member_options(u)));
    if !(val is Custom) {
        lemma_value_text(d, val, uf.ty, uo, false);
    }
    match disc {
        Some((Some(dn), _)) => {
            let x1 = (dn, Json::String(key));
            lemma_members_push(jm, Seq::empty(), true, x1);
            let dt = separator(f1) + key_text(Seq::empty(), dn) + quoted(key);
            assert(members_text(jm.push(x1), Seq::empty(), true) == mt + dt);
            if val is Void {
                assert(jm + uj =~= jm.push(x1));
            } else {
                lemma_members_push(jm.push(x1), Seq::empty(), true, entry);
                assert(jm + uj =~= jm.push(x1).push(entry));
                assert(mt + (dt + separator(false) + key_text(Seq::empty(), vk) + json_text(entry.1)) =~= mt + dt
                    + separator(false) + key_text(Seq::empty(), vk) + json_text(entry.1));
            }
        },
        _ => {
            lemma_members_push(jm, Seq::empty(), true, entry);
            assert(jm + uj =~= jm.push(entry));
            assert(mt + (Seq::<char>::empty() + separator(f1) + key_text(Seq::empty(), vk) + json_text(entry.1))
                =~= mt + separator(f1) + key_text(Seq::empty(), vk) + json_text(entry.1));
        },
    }
}

/// The elements of a list of plain values are written as the elements of
/// the array of their JSON values.
proof fn lemma_list_text(d: Decoder, items: Seq<Value>, t: FieldType, fo: OptionsModel)
    requires
        plain_items(d, items, t, fo.discriminator),
        plain_options(fo),
    ensures
        list_text(items, fo) == Ok::<Seq<char>, ErrorModel>(elements_text(list_json(items, fo), true)),
        list_json(items, fo).len() == items.len(),
    decreases items,
{
    if items.len() > 0 {
        lemma_list_text(d, items.drop_last(), t, fo);
        lemma_value_text(d, items.last(), t, fo, true);
        lemma_elements_push(
            list_json(items.drop_last(), fo),
            true,
            json_of(items.last(), fo),
        );
    }
}

/// What a field is written as: its key and the text of its value, or
/// nothing when it is unset.
#[verifier::opaque]
spec fn plain_member_text(m: Member, first: bool) -> (Seq<char>, bool) {
    match m.value {
        None => (Seq::empty(), first),
        Some(v) => (separator(first) + key_text(Seq::empty(), key_of(m)) + json_text(json_of(v, member_options(m))), false),
    }
}

/// A plain field is written as its key and the text of its value, or not
/// at all when it is unset.
proof fn lemma_member_text(d: Decoder, m: Member, f: FieldSchema, first: bool)
    requires
        plain_member(d, m, f),
    ensures
        member_text(m, Seq::empty(), first) == Ok::<(Seq<char>, bool), ErrorModel>(plain_member_text(m, first)),
    decreases m,
{
    reveal(plain_member_text);
    if let Some(v) = m.value {
        if !(v is Custom) {
            lemma_value_text(d, v, f.ty, member_options(m), false);
        }
    }
}

/// Plain fields are written as the members of their set fields.
proof fn lemma_members_fold(d: Decoder, ms: Seq<Member>, fs: Seq<FieldSchema>)
    requires
        plain_members(d, ms, fs),
    ensures
        members_fold(ms, Seq::empty(), true) == Ok::<(Seq<char>, bool), ErrorModel>(
            (members_text(set_members(ms), Seq::empty(), true), set_members(ms).len() == 0),
        ),
    decreases ms,
{
    if ms.len() > 0 {
        lemma_members_fold(d, ms.drop_last(), fs.drop_last());
        let prev = set_members(ms.drop_last());
        let f = prev.len() == 0;
        lemma_member_text(d, ms.last(), fs.last(), f);
        lemma_members_step(prev, ms.last(), f);
    }
}

/// One more field appends what it is written as to the members before it.
proof fn lemma_members_step(prev: Seq<(Seq<char>, Json)>, m: Member, f: bool)
    requires
        f == (prev.len() == 0),
    ensures
        ({
            let next = match m.value {
                Some(v) => prev.push((key_of(m), json_of(v, member_options(m)))),
                None => prev,
            };
            &&& members_text(prev, Seq::empty(), true) + plain_member_text(m, f).0 == members_text(next, Seq::empty(), true)
            &&& plain_member_text(m, f).1 == (next.len() == 0)
        }),
{
    reveal(plain_member_text);
    if let Some(v) = m.value {
        let x = (key_of(m), json_of(v, member_options(m)));
        lemma_members_push(prev, Seq::empty(), true, x);
        assert(members_text(prev, Seq::empty(), true) + (separator(f) + key_text(Seq::empty(), x.0) + json_text(x.1))
            =~= members_text(prev, Seq::empty(), true) + separator(f) + key_text(Seq::empty(), x.0) + json_text(x.1));
    } else {
        assert(members_text(prev, Seq::empty(), true) + Seq::<char>::empty() =~= members_text(prev, Seq::empty(), true));
    }
}

// ---------------------------------------------------------------------------
// Reading back
// ---------------------------------------------------------------------------

proof fn lemma_items_wf_all(items: Seq<Json>)
    requires
        forall|i: int| 0 <= i < items.len() ==> json_wf(#[trigger] items[i]),
    ensures
        items_wf(items),
    decreases items.len(),
{
    if items.len() > 0 {
        assert forall|i: int| 0 <= i < items.drop_first().len() implies json_wf(#[trigger] items.drop_first()[i]) by {
            assert(items.drop_first()[i] == items[i + 1]);
        }
        lemma_items_wf_all(items.drop_first());
        assert(json_wf(items[0]));
    }
}

proof fn lemma_members_wf_all(ms: Seq<(Seq<char>, Json)>)
    requires
        forall|i: int| 0 <= i < ms.len() ==> json_wf(#[trigger] ms[i].1),
    ensures
        members_wf(ms),
    decreases ms.len(),
{
    if ms.len() > 0 {
        assert forall|i: int| 0 <= i < ms.drop_first().len() implies json_wf(#[trigger] ms.drop_first()[i].1) by {
            assert(ms.drop_first()[i] == ms[i + 1]);
        }
        lemma_members_wf_all(ms.drop_first());
        assert(json_wf(ms[0].1));
    }
}

/// An element nests no deeper than the deepest element.
proof fn lemma_items_depth(items: Seq<Json>, i: int)
    requires
        0 <= i < items.len(),
    ensures
        json_depth(items[i]) <= items_depth(items),
    decreases items.len(),
{
    if i > 0 {
        lemma_items_depth(items.drop_first(), i - 1);
        assert(items.drop_first()[i - 1] == items[i]);
    }
}

/// A member's value nests no deeper than the deepest one.
proof fn lemma_members_depth(ms: Seq<(Seq<char>, Json)>, i: int)
    requires
        0 <= i < ms.len(),
    ensures
        json_depth(ms[i].1) <= members_depth(ms),
    decreases ms.len(),
{
    if i > 0 {
        lemma_members_depth(ms.drop_first(), i - 1);
        assert(ms.drop_first()[i - 1] == ms[i]);
    }
}

/// The JSON values of a list are those of its elements, in order.
proof fn lemma_list_json(items: Seq<Value>, fo: OptionsModel)
    ensures
        list_json(items, fo).len() == items.len(),
        forall|i: int| 0 <= i < items.len() ==> #[trigger] list_json(items, fo)[i] == json_of(items[i], fo),
    decreases items.len(),
{
    if items.len() > 0 {
        lemma_list_json(items.drop_last(), fo);
        assert forall|i: int| 0 <= i < items.len() implies #[trigger] list_json(items, fo)[i] == json_of(items[i], fo) by {
            if i < items.len() - 1 {
                assert(items.drop_last()[i] == items[i]);
            }
        }
    }
}

/// Each element of a list of plain values is a plain value.
proof fn lemma_plain_items(
    d: Decoder,
    items: Seq<Value>,
    t: FieldType,
    md: Option<(Option<Seq<char>>, Option<Seq<char>>)>,
)
    requires
        plain_items(d, items, t, md),
    ensures
        forall|i: int| 0 <= i < items.len() ==> plain_value(d, #[trigger] items[i], t, md),
    decreases items.len(),
{
    if items.len() > 0 {
        lemma_plain_items(d, items.drop_last(), t, md);
        assert forall|i: int| 0 <= i < items.len() implies plain_value(d, #[trigger] items[i], t, md) by {
            if i < items.len() - 1 {
                assert(items.drop_last()[i] == items[i]);
            }
        }
    }
}

/// Each field of plain fields is a plain member of its schema field.
proof fn lemma_plain_members(d: Decoder, ms: Seq<Member>, fs: Seq<FieldSchema>)
    requires
        plain_members(d, ms, fs),
    ensures
        fs.len() == ms.len(),
        forall|j: int| 0 <= j < ms.len() ==> plain_member(d, #[trigger] ms[j], fs[j]),
    decreases ms.len(),
{
    if ms.len() > 0 {
        lemma_plain_members(d, ms.drop_last(), fs.drop_last());
        assert forall|j: int| 0 <= j < ms.len() implies plain_member(d, #[trigger] ms[j], fs[j]) by {
            if j < ms.len() - 1 {
                assert(ms.drop_last()[j] == ms[j]);
                assert(fs.drop_last()[j] == fs[j]);
            }
        }
    }
}

/// The JSON value of a scalar that fits its field is well-formed.
proof fn lemma_scalar_wf(v: Value, t: FieldType, fo: OptionsModel)
    requires
        fits(v, t),
    ensures
        json_wf(json_of(v, fo)),
{
    match v {
        Value::Int(i) => {
            lemma_decimal_chars(i as int);
        },
        Value::UInt(u) => {
            lemma_decimal_chars(u as int);
        },
        Value::Enum(o, None) => {
            lemma_decimal_chars(o as int);
        },
        Value::Data(d) => {
            if fo.data_encoding == DataEncoding::Default {
                let items = byte_items(d@);
                assert forall|i: int| 0 <= i < items.len() implies json_wf(#[trigger] items[i]) by {
                    lemma_decimal_chars(d@[i] as int);
                }
                lemma_items_wf_all(items);
            }
        },
        Value::Float(x) => {
            lemma_float_text(x@);
        },
        _ => {},
    }
}

/// The JSON value of a plain value is one the parser reads back.
proof fn lemma_json_wf(d: Decoder, v: Value, t: FieldType, fo: OptionsModel)
    requires
        plain_value(d, v, t, fo.discriminator),
    ensures
        json_wf(json_of(v, fo)),
    decreases v,
{
    match v {
        Value::Struct(sv) => lemma_object_wf(d, sv, d.structs@[t->Struct_0 as int], fo.discriminator),
        Value::List(items) => lemma_array_wf(d, items@, *(t->List_0), fo),
        Value::Custom(_) => {},
        _ => lemma_scalar_wf(v, t, fo),
    }
}

/// The object of a plain struct is one the parser reads back.
#[verifier::spinoff_prover]
#[verifier::rlimit(40)]
proof fn lemma_object_wf(
    d: Decoder,
    sv: StructValue,
    st: StructSchema,
    md: Option<(Option<Seq<char>>, Option<Seq<char>>)>,
)
    requires
        plain_struct(d, sv, st, md),
    ensures
        json_wf(Json::Object(struct_members(sv, md))),
    decreases sv,
{
    let ms = sv.fields@;
    let jm = set_members(ms);
    let sm = struct_members(sv, md);
    lemma_struct_keys(d, sv, st, md);
    lemma_plain_members(d, ms, st.fields@);
    assert forall|q: int| 0 <= q < sm.len() implies json_wf(#[trigger] sm[q].1) by {
        if q < jm.len() {
            assert(sm[q] == jm[q]);
            let x = lemma_member_source(ms, q);
            assert(plain_member(d, ms[x], st.fields@[x]));
            if !(ms[x].value->Some_0 is Custom) {
                lemma_json_wf(d, ms[x].value->Some_0, st.fields@[x].ty, member_options(ms[x]));
            }
        } else {
            let u = sv.union_member->Some_0;
            let ui = field_index(st.union_fields@, key_of(*u));
            assert(sm[q] == union_json(sv.union_member, eff_disc(md, sv))[q - jm.len()]);
            if !(u.value->Some_0 is Custom) {
                lemma_json_wf(d, u.value->Some_0, st.union_fields@[ui].ty, member_options(*u));
            }
            assert(json_wf(Json::String(key_of(*u))));
        }
    }
    lemma_members_wf_all(sm);
}

/// The array of a list of plain values is one the parser reads back.
#[verifier::spinoff_prover]
proof fn lemma_array_wf(d: Decoder, items: Seq<Value>, t: FieldType, fo: OptionsModel)
    requires
        plain_items(d, items, t, fo.discriminator),
    ensures
        json_wf(Json::Array(list_json(items, fo))),
    decreases items,
{
    let xs = list_json(items, fo);
    lemma_list_json(items, fo);
    lemma_plain_items(d, items, t, fo.discriminator);
    assert forall|i: int| 0 <= i < xs.len() implies json_wf(#[trigger] xs[i]) by {
        lemma_json_wf(d, items[i], t, fo);
    }
    lemma_items_wf_all(xs);
}

/// Where the members of a struct's set fields come from: each is the key
/// and JSON value of a set field, each set field has one, and an unset
/// field has none.
proof fn lemma_set_members(ms: Seq<Member>)
    ensures
        set_members(ms).len() == set_names(ms).len(),
        forall|q: int| 0 <= q < set_members(ms).len() ==> set_members(ms)[q].0 == #[trigger] set_names(ms)[q],
        forall|q: int|
            0 <= q < set_names(ms).len() ==> exists|j: int|
                0 <= j < ms.len() && ms[j].value is Some && #[trigger] set_names(ms)[q] == key_of(ms[j]),
        forall|j: int|
            0 <= j < ms.len() ==> match #[trigger] ms[j].value {
                Some(v) => exists|q: int| 0 <= q < set_members(ms).len() && set_members(ms)[q] == (key_of(ms[j]), json_of(v, member_options(ms[j]))),
                None => true,
            },
        forall|q: int|
            0 <= q < set_members(ms).len() ==> exists|j: int|
                0 <= j < ms.len() && (#[trigger] set_members(ms)[q]).1 == json_of(ms[j].value->Some_0, member_options(ms[j])) && ms[j].value is Some
                    && set_members(ms)[q].0 == key_of(ms[j]),
    decreases ms.len(),
{
    if ms.len() > 0 {
        let pre = ms.drop_last();
        lemma_set_members(pre);
        let sp = set_members(pre);
        let np = set_names(pre);
        assert forall|q: int| 0 <= q < set_names(ms).len() implies exists|j: int|
            0 <= j < ms.len() && ms[j].value is Some && #[trigger] set_names(ms)[q] == key_of(ms[j]) by {
            if q < np.len() {
                assert(set_names(ms)[q] == np[q]);
                let j = choose|j: int| 0 <= j < pre.len() && pre[j].value is Some && np[q] == key_of(pre[j]);
                assert(pre[j] == ms[j]);
            } else {
                assert(set_names(ms)[q] == key_of(ms[ms.len() - 1]));
            }
        }
        assert forall|j: int| 0 <= j < ms.len() implies match #[trigger] ms[j].value {
            Some(v) => exists|q: int| 0 <= q < set_members(ms).len() && set_members(ms)[q] == (key_of(ms[j]), json_of(v, member_options(ms[j]))),
            None => true,
        } by {
            if let Some(v) = ms[j].value {
                if j < ms.len() - 1 {
                    assert(pre[j] == ms[j]);
                    let q = choose|q: int| 0 <= q < sp.len() && sp[q] == (key_of(pre[j]), json_of(v, member_options(pre[j])));
                    assert(set_members(ms)[q] == sp[q]);
                } else {
                    assert(set_members(ms)[sp.len() as int] == (key_of(ms[j]), json_of(v, member_options(ms[j]))));
                }
            }
        }
        assert forall|q: int| 0 <= q < set_members(ms).len() implies exists|j: int|
            0 <= j < ms.len() && (#[trigger] set_members(ms)[q]).1 == json_of(ms[j].value->Some_0, member_options(ms[j])) && ms[j].value is Some
                && set_members(ms)[q].0 == key_of(ms[j]) by {
            if q < sp.len() {
                assert(set_members(ms)[q] == sp[q]);
                let j = choose|j: int|
                    0 <= j < pre.len() && (sp[q]).1 == json_of(pre[j].value->Some_0, member_options(pre[j])) && pre[j].value is Some && sp[q].0
                        == key_of(pre[j]);
                assert(pre[j] == ms[j]);
            } else {
                assert(set_members(ms)[q] == (key_of(ms[ms.len() - 1]), json_of(ms[ms.len() - 1].value->Some_0, member_options(ms[ms.len() - 1]))));
            }
        }
        assert forall|q: int| 0 <= q < set_members(ms).len() implies set_members(ms)[q].0 == #[trigger] set_names(ms)[q] by {
            if q < sp.len() {
                assert(set_members(ms)[q] == sp[q]);
                assert(set_names(ms)[q] == np[q]);
            }
        }
    }
}

/// With distinct field keys, the members of the set fields name each key
/// once.
#[verifier::spinoff_prover]
proof fn lemma_keys_distinct(ms: Seq<Member>)
    requires
        forall|a: int, b: int| 0 <= a < b < ms.len() ==> #[trigger] key_of(ms[a]) != #[trigger] key_of(ms[b]),
    ensures
        keys_distinct(set_members(ms)),
{
    lemma_set_members(ms);
    let jm = set_members(ms);
    assert forall|a: int, b: int| 0 <= a < b < jm.len() implies #[trigger] jm[a].0 != #[trigger] jm[b].0 by {
        let ja = choose|x: int|
            0 <= x < ms.len() && (jm[a]).1 == json_of(ms[x].value->Some_0, member_options(ms[x])) && ms[x].value is Some && jm[a].0 == key_of(ms[x]);
        lemma_set_members_injective(ms, a, b, ja);
    }
}

/// A set field has its member.
proof fn lemma_member_present(ms: Seq<Member>, j: int) -> (q: int)
    requires
        0 <= j < ms.len(),
        ms[j].value is Some,
    ensures
        0 <= q < set_members(ms).len(),
        set_members(ms)[q] == (key_of(ms[j]), json_of(ms[j].value->Some_0, member_options(ms[j]))),
{
    lemma_set_members(ms);
    choose|q: int| 0 <= q < set_members(ms).len() && set_members(ms)[q] == (key_of(ms[j]), json_of(ms[j].value->Some_0, member_options(ms[j])))
}

/// A member comes from a set field.
proof fn lemma_member_origin(ms: Seq<Member>, q: int) -> (x: int)
    requires
        0 <= q < set_members(ms).len(),
    ensures
        0 <= x < ms.len(),
        ms[x].value is Some,
        set_members(ms)[q].0 == key_of(ms[x]),
{
    lemma_set_members(ms);
    choose|x: int|
        0 <= x < ms.len() && (set_members(ms)[q]).1 == json_of(ms[x].value->Some_0, member_options(ms[x])) && ms[x].value is Some
            && set_members(ms)[q].0 == key_of(ms[x])
}

/// A member comes from a set field, and holds its JSON value.
proof fn lemma_member_source(ms: Seq<Member>, q: int) -> (x: int)
    requires
        0 <= q < set_members(ms).len(),
    ensures
        0 <= x < ms.len(),
        ms[x].value is Some,
        set_members(ms)[q] == (key_of(ms[x]), json_of(ms[x].value->Some_0, member_options(ms[x]))),
{
    lemma_set_members(ms);
    choose|x: int|
        0 <= x < ms.len() && (set_members(ms)[q]).1 == json_of(ms[x].value->Some_0, member_options(ms[x])) && ms[x].value is Some
            && set_members(ms)[q].0 == key_of(ms[x])
}

/// A set field's key finds its member, and an unset one's finds none.
#[verifier::spinoff_prover]
proof fn lemma_lookup(ms: Seq<Member>, j: int)
    requires
        forall|a: int, b: int| 0 <= a < b < ms.len() ==> #[trigger] key_of(ms[a]) != #[trigger] key_of(ms[b]),
        0 <= j < ms.len(),
    ensures
        match ms[j].value {
            Some(v) => member_index(set_members(ms), key_of(ms[j])) >= 0 && set_members(ms)[member_index(
                set_members(ms),
                key_of(ms[j]),
            )].1 == json_of(v, member_options(ms[j])),
            None => member_index(set_members(ms), key_of(ms[j])) < 0,
        },
{
    lemma_keys_distinct(ms);
    let jm = set_members(ms);
    let key = key_of(ms[j]);
    lemma_member_index(jm, key);
    let i = member_index(jm, key);
    match ms[j].value {
        Some(v) => {
            let q = lemma_member_present(ms, j);
            if i < 0 {
                assert(jm[q].0 != key);
            } else if i < q {
                assert(jm[i].0 != jm[q].0);
            } else if i > q {
                assert(jm[q].0 != jm[i].0);
            }
        },
        None => {
            if i >= 0 {
                let x = lemma_member_origin(ms, i);
                if x < j {
                    assert(key_of(ms[x]) != key_of(ms[j]));
                } else if x > j {
                    assert(key_of(ms[j]) != key_of(ms[x]));
                }
            }
        },
    }
}

/// A field gives at most one member.
proof fn lemma_set_members_injective(ms: Seq<Member>, a: int, b: int, j: int)
    requires
        forall|x: int, y: int| 0 <= x < y < ms.len() ==> #[trigger] key_of(ms[x]) != #[trigger] key_of(ms[y]),
        0 <= a < b < set_members(ms).len(),
        0 <= j < ms.len(),
        set_members(ms)[a].0 == key_of(ms[j]),
    ensures
        set_members(ms)[b].0 != key_of(ms[j]),
    decreases ms.len(),
{
    let pre = ms.drop_last();
    let sp = set_members(pre);
    lemma_set_members(pre);
    assert forall|x: int, y: int| 0 <= x < y < pre.len() implies #[trigger] key_of(pre[x]) != #[trigger] key_of(pre[y]) by {
        assert(pre[x] == ms[x] && pre[y] == ms[y]);
    }
    if b < sp.len() {
        assert(set_members(ms)[a] == sp[a]);
        assert(set_members(ms)[b] == sp[b]);
        if j < pre.len() {
            assert(pre[j] == ms[j]);
            lemma_set_members_injective(pre, a, b, j);
        } else {
            // the last field's name is no earlier field's
            let x = choose|x: int|
                0 <= x < pre.len() && (sp[a]).1 == json_of(pre[x].value->Some_0, member_options(pre[x])) && pre[x].value is Some && sp[a].0
                    == key_of(pre[x]);
            assert(pre[x] == ms[x]);
            assert(key_of(ms[x]) != key_of(ms[j]));
        }
    } else {
        // `b` is the last field's member
        assert(set_members(ms)[b].0 == key_of(ms[ms.len() - 1]));
        assert(set_members(ms)[a] == sp[a]);
        let x = choose|x: int|
            0 <= x < pre.len() && (sp[a]).1 == json_of(pre[x].value->Some_0, member_options(pre[x])) && pre[x].value is Some && sp[a].0
                == key_of(pre[x]);
        assert(pre[x] == ms[x]);
        assert(key_of(ms[x]) != key_of(ms[ms.len() - 1]));
    }
}

/// Looking a key up in two runs of members finds it in the first run, else
/// in the second.
proof fn lemma_member_index_append(a: Seq<(Seq<char>, Json)>, b: Seq<(Seq<char>, Json)>, key: Seq<char>)
    ensures
        member_index(a + b, key) == if member_index(a, key) >= 0 {
            member_index(a, key)
        } else if member_index(b, key) >= 0 {
            a.len() + member_index(b, key)
        } else {
            -1
        },
    decreases a.len(),
{
    if a.len() == 0 {
        assert(a + b =~= b);
    } else {
        assert((a + b).drop_first() =~= a.drop_first() + b);
        assert((a + b)[0] == a[0]);
        lemma_member_index_append(a.drop_first(), b, key);
    }
}

/// A key that no field has is no key of the members of the set fields.
proof fn lemma_not_a_key(ms: Seq<Member>, key: Seq<char>)
    requires
        forall|j: int| 0 <= j < ms.len() ==> #[trigger] key_of(ms[j]) != key,
    ensures
        member_index(set_members(ms), key) < 0,
{
    let jm = set_members(ms);
    lemma_member_index(jm, key);
    if member_index(jm, key) >= 0 {
        let x = lemma_member_origin(ms, member_index(jm, key));
        assert(key_of(ms[x]) != key);
    }
}

/// The keys of the set fields among the first ones are keys of those
/// fields.
proof fn lemma_names_before(ms: Seq<Member>, k: int)
    requires
        forall|a: int, b: int| 0 <= a < b < ms.len() ==> #[trigger] key_of(ms[a]) != #[trigger] key_of(ms[b]),
        0 <= k < ms.len(),
    ensures
        !set_names(ms.take(k)).contains(key_of(ms[k])),
{
    let pre = ms.take(k);
    lemma_set_members(pre);
    if set_names(pre).contains(key_of(ms[k])) {
        let q = choose|q: int| 0 <= q < set_names(pre).len() && set_names(pre)[q] == key_of(ms[k]);
        let j = choose|j: int| 0 <= j < pre.len() && pre[j].value is Some && #[trigger] set_names(pre)[q] == key_of(pre[j]);
        assert(pre[j] == ms[j]);
        assert(key_of(ms[j]) != key_of(ms[k]));
    }
}


/// The index of the first field whose JSON name is `name`: it has that
/// name, and no field before it does.
proof fn lemma_field_index(fs: Seq<FieldSchema>, name: Seq<char>)
    ensures
        -1 <= field_index(fs, name) < fs.len(),
        field_index(fs, name) >= 0 ==> json_name(fs[field_index(fs, name)]) == name,
        forall|i: int|
            0 <= i < fs.len() && (field_index(fs, name) < 0 || i < field_index(fs, name)) ==> #[trigger] json_name(
                fs[i],
            ) != name,
    decreases fs.len(),
{
    if fs.len() > 0 && json_name(fs[0]) != name {
        lemma_field_index(fs.drop_first(), name);
        assert forall|i: int|
            0 <= i < fs.len() && (field_index(fs, name) < 0 || i < field_index(fs, name)) implies #[trigger] json_name(
            fs[i],
        ) != name by {
            if i > 0 {
                assert(fs.drop_first()[i - 1] == fs[i]);
            }
        }
    }
}

/// The fields of a plain struct have the keys of their schema fields, so
/// no two share one.
proof fn lemma_field_keys(
    d: Decoder,
    sv: StructValue,
    st: StructSchema,
    md: Option<(Option<Seq<char>>, Option<Seq<char>>)>,
)
    requires
        plain_struct(d, sv, st, md),
    ensures
        st.fields.len() == sv.fields.len(),
        forall|j: int| 0 <= j < sv.fields.len() ==> #[trigger] key_of(sv.fields@[j]) == json_name(st.fields@[j]),
        forall|a: int, b: int|
            0 <= a < b < sv.fields.len() ==> #[trigger] key_of(sv.fields@[a]) != #[trigger] key_of(sv.fields@[b]),
{
    let ms = sv.fields@;
    let fs = st.fields@;
    lemma_plain_members(d, ms, fs);
    assert forall|j: int| 0 <= j < sv.fields.len() implies #[trigger] key_of(sv.fields@[j]) == json_name(
        st.fields@[j],
    ) by {
        assert(plain_member(d, ms[j], fs[j]));
    }
    assert forall|a: int, b: int| 0 <= a < b < sv.fields.len() implies #[trigger] key_of(sv.fields@[a])
        != #[trigger] key_of(sv.fields@[b]) by {
        assert(key_of(ms[a]) == json_name(fs[a]));
        assert(key_of(ms[b]) == json_name(fs[b]));
    }
}

/// The keys of the members of a plain struct's union are no field's keys,
/// and no two of them are the same.
proof fn lemma_union_keys(
    d: Decoder,
    sv: StructValue,
    st: StructSchema,
    md: Option<(Option<Seq<char>>, Option<Seq<char>>)>,
)
    requires
        plain_struct(d, sv, st, md),
    ensures
        forall|q: int, j: int|
            0 <= q < union_json(sv.union_member, eff_disc(md, sv)).len() && 0 <= j < sv.fields.len() ==> #[trigger] union_json(
                sv.union_member,
                eff_disc(md, sv),
            )[q].0 != #[trigger] key_of(sv.fields@[j]),
        union_json(sv.union_member, eff_disc(md, sv)).len() <= 2,
        union_json(sv.union_member, eff_disc(md, sv)).len() == 2 ==> union_json(sv.union_member, eff_disc(md, sv))[0].0
            != union_json(sv.union_member, eff_disc(md, sv))[1].0,
{
    let ms = sv.fields@;
    let fs = st.fields@;
    let disc = eff_disc(md, sv);
    let uj = union_json(sv.union_member, disc);
    lemma_field_keys(d, sv, st, md);
    if uj.len() > 0 {
        let u = sv.union_member->Some_0;
        let key = key_of(*u);
        let ui = field_index(st.union_fields@, key);
        lemma_field_index(st.union_fields@, key);
        assert forall|q: int, j: int| 0 <= q < uj.len() && 0 <= j < sv.fields.len() implies #[trigger] uj[q].0
            != #[trigger] key_of(sv.fields@[j]) by {
            assert(key_of(ms[j]) == json_name(fs[j]));
            assert(json_name(st.union_fields@[ui]) != json_name(fs[j]));
        }
    }
}

/// Where each key lies among the members of a plain struct: a set field's
/// key finds its value, a key of the union's members finds that member
/// after the fields, and a union member's JSON name that none of those
/// keys is finds nothing.
#[verifier::spinoff_prover]
#[verifier::rlimit(40)]
proof fn lemma_struct_keys(
    d: Decoder,
    sv: StructValue,
    st: StructSchema,
    md: Option<(Option<Seq<char>>, Option<Seq<char>>)>,
)
    requires
        plain_struct(d, sv, st, md),
    ensures
        forall|j: int|
            0 <= j < sv.fields.len() ==> match (#[trigger] sv.fields@[j]).value {
                Some(v) => member_index(struct_members(sv, md), key_of(sv.fields@[j])) >= 0 && struct_members(sv, md)[member_index(
                    struct_members(sv, md),
                    key_of(sv.fields@[j]),
                )].1 == json_of(v, member_options(sv.fields@[j])),
                None => member_index(struct_members(sv, md), key_of(sv.fields@[j])) < 0,
            },
        forall|i: int|
            0 <= i < st.union_fields.len() && (forall|q: int|
                0 <= q < union_json(sv.union_member, eff_disc(md, sv)).len() ==> union_json(
                    sv.union_member,
                    eff_disc(md, sv),
                )[q].0 != json_name(st.union_fields@[i])) ==> member_index(
                struct_members(sv, md),
                #[trigger] json_name(st.union_fields@[i]),
            ) < 0,
        forall|q: int|
            0 <= q < union_json(sv.union_member, eff_disc(md, sv)).len() ==> member_index(
                struct_members(sv, md),
                #[trigger] union_json(sv.union_member, eff_disc(md, sv))[q].0,
            ) == set_members(sv.fields@).len() + q,
        keys_distinct(struct_members(sv, md)),
{
    let ms = sv.fields@;
    let fs = st.fields@;
    let jm = set_members(ms);
    let uj = union_json(sv.union_member, eff_disc(md, sv));
    let sm = struct_members(sv, md);
    lemma_field_keys(d, sv, st, md);
    lemma_union_keys(d, sv, st, md);
    assert(sm == jm + uj);
    assert forall|j: int| 0 <= j < sv.fields.len() implies match (#[trigger] sv.fields@[j]).value {
        Some(v) => member_index(sm, key_of(sv.fields@[j])) >= 0 && sm[member_index(sm, key_of(sv.fields@[j]))].1
            == json_of(v, member_options(sv.fields@[j])),
        None => member_index(sm, key_of(sv.fields@[j])) < 0,
    } by {
        let key = key_of(ms[j]);
        lemma_lookup(ms, j);
        lemma_member_index_append(jm, uj, key);
        lemma_member_index(jm, key);
        lemma_member_index(uj, key);
        assert forall|q: int| 0 <= q < uj.len() implies #[trigger] uj[q].0 != key by {
            assert(uj[q].0 != key_of(ms[j]));
        }
        assert(member_index(uj, key) < 0);
    }
    assert forall|i: int|
        0 <= i < st.union_fields.len() && (forall|q: int| 0 <= q < uj.len() ==> uj[q].0 != json_name(st.union_fields@[i]))
        implies member_index(sm, #[trigger] json_name(st.union_fields@[i])) < 0 by {
        let key = json_name(st.union_fields@[i]);
        assert forall|j: int| 0 <= j < ms.len() implies #[trigger] key_of(ms[j]) != key by {
            assert(key_of(ms[j]) == json_name(fs[j]));
        }
        lemma_not_a_key(ms, key);
        lemma_member_index_append(jm, uj, key);
        lemma_member_index(uj, key);
        if member_index(uj, key) >= 0 {
            assert(uj[member_index(uj, key)].0 != key);
        }
    }
    assert forall|q: int| 0 <= q < uj.len() implies member_index(sm, #[trigger] uj[q].0) == jm.len() + q by {
        let key = uj[q].0;
        assert forall|j: int| 0 <= j < ms.len() implies #[trigger] key_of(ms[j]) != key by {
            assert(uj[q].0 != key_of(ms[j]));
        }
        lemma_not_a_key(ms, key);
        lemma_member_index_append(jm, uj, key);
        if q == 1 {
            assert(uj[0].0 != uj[1].0);
            assert(uj.drop_first()[0] == uj[1]);
            assert(member_index(uj.drop_first(), key) == 0);
            assert(member_index(uj, key) == 1);
        } else {
            assert(member_index(uj, key) == 0);
        }
    }
    lemma_keys_distinct(ms);
    assert forall|a: int, b: int| 0 <= a < b < sm.len() implies #[trigger] sm[a].0 != #[trigger] sm[b].0 by {
        if a >= jm.len() {
            assert(sm[a] == uj[a - jm.len()]);
            assert(sm[b] == uj[b - jm.len()]);
        } else if b >= jm.len() {
            assert(sm[b] == uj[b - jm.len()]);
            assert(sm[a] == jm[a]);
            let x = lemma_member_origin(ms, a);
            assert(uj[b - jm.len()].0 != key_of(ms[x]));
        } else {
            assert(sm[a] == jm[a] && sm[b] == jm[b]);
        }
    }
}

/// Members after those of a struct, under keys that are not looked up,
/// change no lookup of another key.
proof fn lemma_lift(sm: Seq<(Seq<char>, Json)>, extra: Seq<(Seq<char>, Json)>, key: Seq<char>)
    requires
        forall|q: int| 0 <= q < extra.len() ==> #[trigger] extra[q].0 != key,
    ensures
        member_index(sm + extra, key) == if member_index(sm, key) >= 0 {
            member_index(sm, key)
        } else {
            -1
        },
{
    lemma_member_index_append(sm, extra, key);
    lemma_member_index(extra, key);
    if member_index(extra, key) >= 0 {
        assert(extra[member_index(extra, key)].0 != key);
    }
}

/// Where each key the decoder looks for lies among the members of a plain
/// struct followed by members it does not look for: as among the struct's
/// own members.
#[verifier::spinoff_prover]
#[verifier::rlimit(40)]
proof fn lemma_struct_keys_extra(
    d: Decoder,
    sv: StructValue,
    st: StructSchema,
    md: Option<(Option<Seq<char>>, Option<Seq<char>>)>,
    extra: Seq<(Seq<char>, Json)>,
)
    requires
        plain_struct(d, sv, st, md),
        unknown_keys(extra, st, eff_disc(md, sv)),
    ensures
        forall|j: int|
            0 <= j < sv.fields.len() ==> match (#[trigger] sv.fields@[j]).value {
                Some(v) => member_index(struct_members(sv, md) + extra, key_of(sv.fields@[j])) >= 0 && (struct_members(
                    sv,
                    md,
                ) + extra)[member_index(struct_members(sv, md) + extra, key_of(sv.fields@[j]))].1 == json_of(
                    v,
                    member_options(sv.fields@[j]),
                ),
                None => member_index(struct_members(sv, md) + extra, key_of(sv.fields@[j])) < 0,
            },
        forall|i: int|
            0 <= i < st.union_fields.len() && (forall|q: int|
                0 <= q < union_json(sv.union_member, eff_disc(md, sv)).len() ==> union_json(
                    sv.union_member,
                    eff_disc(md, sv),
                )[q].0 != json_name(st.union_fields@[i])) ==> member_index(
                struct_members(sv, md) + extra,
                #[trigger] json_name(st.union_fields@[i]),
            ) < 0,
        forall|q: int|
            0 <= q < union_json(sv.union_member, eff_disc(md, sv)).len() ==> member_index(
                struct_members(sv, md) + extra,
                #[trigger] union_json(sv.union_member, eff_disc(md, sv))[q].0,
            ) == set_members(sv.fields@).len() + q,
{
    let sm = struct_members(sv, md);
    let ms = sv.fields@;
    let uj = union_json(sv.union_member, eff_disc(md, sv));
    lemma_struct_keys(d, sv, st, md);
    lemma_field_keys(d, sv, st, md);
    assert forall|j: int| 0 <= j < sv.fields.len() implies match (#[trigger] sv.fields@[j]).value {
        Some(v) => member_index(sm + extra, key_of(sv.fields@[j])) >= 0 && (sm + extra)[member_index(
            sm + extra,
            key_of(sv.fields@[j]),
        )].1 == json_of(v, member_options(sv.fields@[j])),
        None => member_index(sm + extra, key_of(sv.fields@[j])) < 0,
    } by {
        let key = key_of(ms[j]);
        assert(key == json_name(st.fields@[j]));
        assert forall|q: int| 0 <= q < extra.len() implies #[trigger] extra[q].0 != key by {
            assert(unknown_key(extra[q].0, st, eff_disc(md, sv)));
        }
        lemma_lift(sm, extra, key);
        lemma_member_index(sm, key);
    }
    assert forall|i: int|
        0 <= i < st.union_fields.len() && (forall|q: int| 0 <= q < uj.len() ==> uj[q].0 != json_name(st.union_fields@[i]))
        implies member_index(sm + extra, #[trigger] json_name(st.union_fields@[i])) < 0 by {
        let key = json_name(st.union_fields@[i]);
        assert forall|q: int| 0 <= q < extra.len() implies #[trigger] extra[q].0 != key by {
            assert(unknown_key(extra[q].0, st, eff_disc(md, sv)));
        }
        lemma_lift(sm, extra, key);
    }
    assert forall|q: int| 0 <= q < uj.len() implies member_index(sm + extra, #[trigger] uj[q].0)
        == set_members(ms).len() + q by {
        let key = uj[q].0;
        let u = sv.union_member->Some_0;
        let ui = field_index(st.union_fields@, key_of(*u));
        lemma_field_index(st.union_fields@, key_of(*u));
        assert(plain_member(d, *u, st.union_fields@[ui]));
        assert forall|r: int| 0 <= r < extra.len() implies #[trigger] extra[r].0 != key by {
            assert(unknown_key(extra[r].0, st, eff_disc(md, sv)));
            assert(json_name(st.union_fields@[ui]) != extra[r].0);
        }
        lemma_lift(sm, extra, key);
    }
}

/// The decimal text of an integer that a kind holds, with magnitude at
/// most 2^53, gives that integer to a field of the kind, whether read
/// exactly or as the double it denotes.
proof fn lemma_number_integer(ns: Seq<(Seq<char>, int, bool)>, n: int, kind: IntKind, field: Seq<char>)
    requires
        numbers_sound(ns),
        kind_bounds(kind).0 <= n <= kind_bounds(kind).1,
        -9007199254740992 <= n <= 9007199254740992,
    ensures
        number_integer(ns, decimal(n), kind, field) == Ok::<int, ErrorModel>(n),
{
    integer_round_trip(n, kind, field);
    lemma_double_index(ns, decimal(n));
    let q = double_index(ns, decimal(n));
    if q >= 0 {
        assert(ns[q].0 == decimal(n));
    }
}

/// The decimal text of an ordinal gives that ordinal, whether read exactly
/// or as the double it denotes.
proof fn lemma_number_ordinal(ns: Seq<(Seq<char>, int, bool)>, o: u16)
    requires
        numbers_sound(ns),
    ensures
        number_ordinal(ns, decimal(o as int)) == Ok::<u16, ErrorModel>(o),
{
    ordinal_round_trip(o);
    integer_round_trip(o as int, IntKind::UInt16, Seq::empty());
    lemma_double_index(ns, decimal(o as int));
    let q = double_index(ns, decimal(o as int));
    if q >= 0 {
        assert(ns[q].0 == decimal(o as int));
    }
}

/// Bytes read back from the array of their numbers.
proof fn lemma_data_bytes(d: Seq<u8>, field: Seq<char>, ns: Seq<(Seq<char>, int, bool)>)
    requires
        numbers_sound(ns),
    ensures
        data_bytes(byte_items(d), field, ns) == Ok::<Seq<u8>, ErrorModel>(d),
    decreases d.len(),
{
    if d.len() > 0 {
        lemma_data_bytes(d.drop_last(), field, ns);
        assert(byte_items(d).drop_last() =~= byte_items(d.drop_last()));
        lemma_number_integer(ns, d.last() as int, IntKind::DataByte, field);
        assert(d.drop_last().push((d.last() as int) as u8) =~= d);
    } else {
        assert(byte_items(d) =~= Seq::<Json>::empty());
        assert(d =~= Seq::<u8>::empty());
    }
}

/// The JSON name of an enumerant that no earlier one shares finds it.
proof fn lemma_enumerant_index(es: Seq<Enumerant>, o: int, name: Seq<char>)
    requires
        named_enumerant(es, o, name),
    ensures
        enumerant_index(es, name) == Some(o),
    decreases o,
{
    if o > 0 {
        assert(enumerant_name(es[0]) != name);
        assert forall|i: int| 0 <= i < o - 1 implies enumerant_name(#[trigger] es.drop_first()[i]) != name by {
            assert(es.drop_first()[i] == es[i + 1]);
        }
        assert(es.drop_first()[o - 1] == es[o]);
        lemma_enumerant_index(es.drop_first(), o - 1, name);
    }
}

/// A scalar that fits its field is read back from its JSON value.
proof fn lemma_primitive_value(v: Value, t: FieldType, fo: OptionsModel, ns: Seq<(Seq<char>, int, bool)>)
    requires
        fits(v, t),
        numbers_sound(ns),
    ensures
        primitive_value(json_of(v, fo), t, fo, ns) == Ok::<PrimitiveModel, ErrorModel>(decoded_value(v)),
{
    match (v, t) {
        (Value::Int(i), FieldType::Int8) => lemma_number_integer(ns, i as int, IntKind::Int8, fo.name),
        (Value::Int(i), FieldType::Int16) => lemma_number_integer(ns, i as int, IntKind::Int16, fo.name),
        (Value::Int(i), FieldType::Int32) => lemma_number_integer(ns, i as int, IntKind::Int32, fo.name),
        (Value::UInt(u), FieldType::UInt8) => lemma_number_integer(ns, u as int, IntKind::UInt8, fo.name),
        (Value::UInt(u), FieldType::UInt16) => lemma_number_integer(ns, u as int, IntKind::UInt16, fo.name),
        (Value::UInt(u), FieldType::UInt32) => lemma_number_integer(ns, u as int, IntKind::UInt32, fo.name),
        (Value::Int64(i), FieldType::Int64) => integer_text_round_trip(i as int, IntKind::Int64),
        (Value::UInt64(u), FieldType::UInt64) => integer_text_round_trip(u as int, IntKind::UInt64),
        (Value::Enum(o, None), FieldType::Enum(_)) => lemma_number_ordinal(ns, o),
        (Value::Enum(o, Some(e)), FieldType::Enum(es)) => lemma_enumerant_index(es@, o as int, enumerant_name(e)),
        (Value::Data(d), FieldType::Data) => match fo.data_encoding {
            DataEncoding::Default => lemma_data_bytes(d@, fo.name, ns),
            DataEncoding::Base64 => base64_round_trip(d@),
            DataEncoding::Hex => hex_round_trip(d@),
        },
        (Value::Float(_), _) => {
            reveal(non_finite_text);
            reveal(float_value);
        },
        _ => {},
    }
}

/// The elements of a list of scalars read back as their values.
proof fn lemma_values_plan(items: Seq<Value>, t: FieldType, fo: OptionsModel, ns: Seq<(Seq<char>, int, bool)>)
    requires
        forall|i: int| 0 <= i < items.len() ==> fits(#[trigger] items[i], t),
        numbers_sound(ns),
    ensures
        values_plan(list_json(items, fo), t, fo, ns) == Ok::<Seq<PrimitiveModel>, ErrorModel>(
            items.map_values(|v: Value| decoded_value(v)),
        ),
    decreases items.len(),
{
    if items.len() > 0 {
        let pre = items.drop_last();
        assert forall|i: int| 0 <= i < pre.len() implies fits(#[trigger] pre[i], t) by {
            assert(pre[i] == items[i]);
        }
        lemma_values_plan(pre, t, fo, ns);
        assert(list_json(items, fo).drop_last() =~= list_json(pre, fo));
        assert(fits(items[items.len() - 1], t));
        lemma_primitive_value(items.last(), t, fo, ns);
        assert(items.map_values(|v: Value| decoded_value(v)) =~= pre.map_values(|v: Value| decoded_value(v)).push(
            decoded_value(items.last()),
        ));
    } else {
        assert(items.map_values(|v: Value| decoded_value(v)) =~= Seq::<PrimitiveModel>::empty());
    }
}

/// The options of a field inside an object whose names carry a prefix are
/// those it has with none, but for that prefix.
proof fn lemma_options_prefix(f: FieldSchema, p: Seq<char>)
    ensures
        (options_of(f, p) is Ok) == (options_of(f, Seq::empty()) is Ok),
        options_of(f, p) is Ok ==> {
            let a = options_of(f, p)->Ok_0;
            let b = options_of(f, Seq::empty())->Ok_0;
            &&& a.name == b.name
            &&& a.flatten == b.flatten
            &&& a.discriminator == b.discriminator
            &&& a.data_encoding == b.data_encoding
            &&& a.codec == b.codec
        },
{
}

/// Searching the union members for one present in the object finds the one
/// at `ui`, the only one present, or none when `ui` is -1.
proof fn lemma_union_search(
    ufs: Seq<FieldSchema>,
    prefix: Seq<char>,
    sm: Seq<(Seq<char>, Json)>,
    taken: Seq<Seq<char>>,
    ui: int,
)
    requires
        forall|i: int| 0 <= i < ufs.len() ==> (options_of(#[trigger] ufs[i], Seq::empty()) is Ok),
        -1 <= ui < ufs.len(),
        forall|i: int| 0 <= i < ufs.len() && i != ui ==> member_index(sm, #[trigger] json_name(ufs[i])) < 0,
        ui >= 0 ==> member_index(sm, json_name(ufs[ui])) >= 0 && !taken.contains(json_name(ufs[ui])),
    ensures
        union_search(ufs, prefix, Seq::empty(), sm, taken) == Ok::<Option<Seq<char>>, ErrorModel>(
            if ui >= 0 {
                Some(json_name(ufs[ui]))
            } else {
                None
            },
        ),
    decreases ufs.len(),
{
    if ufs.len() > 0 {
        let f = ufs[0];
        assert(options_of(f, Seq::empty()) is Ok);
        lemma_options_prefix(f, prefix);
        assert(Seq::<char>::empty() + json_name(f) =~= json_name(f));
        if ui != 0 {
            let rest = ufs.drop_first();
            assert forall|i: int| 0 <= i < rest.len() implies (options_of(#[trigger] rest[i], Seq::empty()) is Ok) by {
                assert(rest[i] == ufs[i + 1]);
            }
            assert forall|i: int| 0 <= i < rest.len() && i != (if ui < 0 { -1 } else { ui - 1 }) implies member_index(
                sm,
                #[trigger] json_name(rest[i]),
            ) < 0 by {
                assert(rest[i] == ufs[i + 1]);
            }
            if ui > 0 {
                assert(rest[ui - 1] == ufs[ui]);
            }
            lemma_union_search(rest, prefix, sm, taken, if ui < 0 { -1 } else { ui - 1 });
        }
    }
}

/// The union members before the one named `name` are passed over.
proof fn lemma_union_plan_skip(
    d: Decoder,
    level: int,
    v: Json,
    ufs: Seq<FieldSchema>,
    i: int,
    ui: int,
    name: Seq<char>,
    disc: Option<(Option<Seq<char>>, Option<Seq<char>>)>,
    prefix: Seq<char>,
    taken: Seq<Seq<char>>,
)
    requires
        0 <= i <= ui < ufs.len(),
        forall|j: int| 0 <= j < ufs.len() ==> (options_of(#[trigger] ufs[j], Seq::empty()) is Ok),
        forall|j: int| i <= j < ui ==> #[trigger] json_name(ufs[j]) != name,
    ensures
        union_plan(d, level, v, ufs, i, name, disc, prefix, taken) == union_plan(
            d,
            level,
            v,
            ufs,
            ui,
            name,
            disc,
            prefix,
            taken,
        ),
    decreases ui - i,
{
    if i < ui {
        let f = ufs[i];
        assert(options_of(f, Seq::empty()) is Ok);
        assert(json_name(f) != name);
        lemma_options_prefix(f, prefix);
        lemma_union_plan_skip(d, level, v, ufs, i + 1, ui, name, disc, prefix, taken);
    }
}

/// With no key taken, all of an object's members are left.
proof fn lemma_untaken_none(ms: Seq<(Seq<char>, Json)>)
    ensures
        untaken(ms, seq![]) == ms,
    decreases ms.len(),
{
    if ms.len() > 0 {
        lemma_untaken_none(ms.drop_last());
        assert(ms.drop_last().push(ms.last()) =~= ms);
    }
}

/// JSON read, one level deeper than `level`, as a struct whose type names a
/// registered codec is handed to that codec whole.
proof fn lemma_struct_codec_plan(d: Decoder, level: int, j: Json, si: int, fo: OptionsModel)
    requires
        0 <= si < d.structs.len(),
        struct_codec_registered(d, si),
        0 <= level,
        level + 1 <= limit_of(d),
    ensures
        struct_plan(d, level + 1, j, si, fo, seq![]) == Ok::<(StructPlanModel, Seq<Seq<char>>), ErrorModel>(
            (StructPlanModel::Custom(j), seq![]),
        ),
{
    if let Json::Object(ms) = j {
        lemma_untaken_none(ms);
    }
}

/// A plain value that the object holds under `key`, not taken yet, reads
/// back as its write, and takes `key`.
#[verifier::spinoff_prover]
#[verifier::rlimit(60)]
proof fn lemma_value_plan(
    d: Decoder,
    level: int,
    v: Value,
    f: FieldSchema,
    fref: FieldRef,
    fo: OptionsModel,
    sm: Seq<(Seq<char>, Json)>,
    taken: Seq<Seq<char>>,
    key: Seq<char>,
)
    requires
        numbers_sound(doubles_view(d.numbers@)),
        fo.prefix == Seq::<char>::empty(),
        member_value(d, v, f, fo),
        plain_options(fo),
        0 <= level,
        level + 1 + json_depth(json_of(v, fo)) <= limit_of(d),
        !taken.contains(key),
        member_index(sm, key) >= 0,
        sm[member_index(sm, key)].1 == json_of(v, fo),
    ensures
        member_plan(d, level, f, fref, fo, Json::Object(sm), taken, key) == Ok::<
            (Option<WriteModel>, Seq<Seq<char>>),
            ErrorModel,
        >((Some(member_write(d, fref, v, f, fo)), taken.push(key))),
    decreases v, 0int,
{
    lemma_member_index(sm, key);
    assert(find_member(sm, taken, key) == member_index(sm, key));
    match v {
        Value::Custom(j) => {
            if field_codec(d, f, fo) == CodecChoice::Default {
                lemma_struct_codec_plan(d, level, j@, f.ty->Struct_0 as int, fo);
            }
        },
        Value::Struct(sv2) => {
            let si2 = f.ty->Struct_0;
            lemma_struct_plan(d, level + 1, sv2, si2 as int, fo, seq![]);
            assert(struct_members(sv2, fo.discriminator) + seq![] =~= struct_members(sv2, fo.discriminator));
        },
        Value::List(items) => {
            let et = *(f.ty->List_0);
            let xs = list_json(items@, fo);
            lemma_list_json(items@, fo);
            assert forall|j: int| 0 <= j < items@.len() implies level + 1 + json_depth(
                json_of(#[trigger] items@[j], fo),
            ) <= limit_of(d) by {
                lemma_items_depth(xs, j);
            }
            lemma_list_plan(d, level, items@, et, fo);
        },
        _ => {
            lemma_primitive_value(v, f.ty, fo, doubles_view(d.numbers@));
            assert(!(json_of(v, fo) is Null && crate::decode::null_is_absent(f.ty)));
        },
    }
}

/// A key that no field has is not among the keys of the set fields.
proof fn lemma_not_taken(ms: Seq<Member>, key: Seq<char>)
    requires
        forall|j: int| 0 <= j < ms.len() ==> #[trigger] key_of(ms[j]) != key,
    ensures
        !set_names(ms).contains(key),
{
    lemma_set_members(ms);
    let t = set_names(ms);
    if t.contains(key) {
        let q = choose|q: int| 0 <= q < t.len() && t[q] == key;
        let j = choose|j: int| 0 <= j < ms.len() && ms[j].value is Some && #[trigger] t[q] == key_of(ms[j]);
        assert(key_of(ms[j]) != key);
    }
}

/// A plain struct, decoded at `level` from the object of its members,
/// plans the writes of its set fields and of its union's active member.
#[verifier::spinoff_prover]
#[verifier::rlimit(40)]
proof fn lemma_struct_plan(
    d: Decoder,
    level: int,
    sv: StructValue,
    si: int,
    fo: OptionsModel,
    extra: Seq<(Seq<char>, Json)>,
)
    requires
        numbers_sound(doubles_view(d.numbers@)),
        fo.prefix == Seq::<char>::empty(),
        0 <= si < d.structs.len(),
        plain_struct(d, sv, d.structs@[si], fo.discriminator),
        unknown_keys(extra, d.structs@[si], eff_disc(fo.discriminator, sv)),
        0 <= level,
        level + json_depth(Json::Object(struct_members(sv, fo.discriminator) + extra)) <= limit_of(d),
        fo.flatten is None,
    ensures
        struct_plan(d, level, Json::Object(struct_members(sv, fo.discriminator) + extra), si, fo, seq![]) matches Ok((p, _)) && p
            == StructPlanModel::Fields(struct_writes(d, sv, d.structs@[si])),
    decreases sv, sv.fields@.len() + 1,
{
    let st = d.structs@[si];
    let ms = sv.fields@;
    lemma_plain_members(d, ms, st.fields@);
    lemma_fields_plan(d, level, sv, si, fo.discriminator, extra, ms.len() as int);
    assert(ms.take(ms.len() as int) =~= ms);
    assert(st.fields@.take(ms.len() as int) =~= st.fields@);
    assert(member_prefix(fo) =~= Seq::<char>::empty());
    lemma_union_plan(d, level, sv, si, fo, extra);
    let ws = field_writes(d, ms, st.fields@);
    if union_json(sv.union_member, eff_disc(fo.discriminator, sv)).len() == 0 {
        assert(ws + union_writes(d, sv, st) =~= ws);
    }
}

/// The union part of a plain struct, decoded at `level` from the object of
/// its members once its fields have taken their keys: the active member is
/// found, by its discriminator or by its key, and reads back as its write;
/// with no set active member nothing is found.
#[verifier::spinoff_prover]
#[verifier::rlimit(80)]
proof fn lemma_union_plan(
    d: Decoder,
    level: int,
    sv: StructValue,
    si: int,
    fo: OptionsModel,
    extra: Seq<(Seq<char>, Json)>,
)
    requires
        numbers_sound(doubles_view(d.numbers@)),
        fo.prefix == Seq::<char>::empty(),
        0 <= si < d.structs.len(),
        plain_struct(d, sv, d.structs@[si], fo.discriminator),
        unknown_keys(extra, d.structs@[si], eff_disc(fo.discriminator, sv)),
        0 <= level,
        level + json_depth(Json::Object(struct_members(sv, fo.discriminator) + extra)) <= limit_of(d),
        fo.flatten is None,
    ensures
        ({
            let st = d.structs@[si];
            let sm = struct_members(sv, fo.discriminator) + extra;
            let disc = struct_discriminator(fo, st);
            let dt = discriminant_of(sm, set_names(sv.fields@), disc, Seq::empty(), fo.name);
            let found = match dt.0 {
                Some(x) => Ok::<Option<Seq<char>>, ErrorModel>(Some(x)),
                None => union_search(st.union_fields@, fo.prefix, Seq::empty(), sm, dt.1),
            };
            &&& union_json(sv.union_member, eff_disc(fo.discriminator, sv)).len() == 0 ==> found == Ok::<
                Option<Seq<char>>,
                ErrorModel,
            >(None) && union_writes(d, sv, st).len() == 0
            &&& union_json(sv.union_member, eff_disc(fo.discriminator, sv)).len() > 0 ==> found == Ok::<Option<Seq<char>>, ErrorModel>(
                Some(key_of(*sv.union_member->Some_0)),
            ) && (union_plan(
                d,
                level,
                Json::Object(sm),
                st.union_fields@,
                0,
                key_of(*sv.union_member->Some_0),
                disc,
                fo.prefix,
                dt.1,
            ) matches Ok((uw, _)) && uw == union_writes(d, sv, st))
        }),
    decreases sv, 0int,
{
    let st = d.structs@[si];
    let ms = sv.fields@;
    let ufs = st.union_fields@;
    let sm = struct_members(sv, fo.discriminator) + extra;
    let obj = Json::Object(sm);
    let t1 = set_names(ms);
    let disc = struct_discriminator(fo, st);
    assert(disc == eff_disc(fo.discriminator, sv));
    let uj = union_json(sv.union_member, disc);
    lemma_struct_keys(d, sv, st, fo.discriminator);
    lemma_struct_keys_extra(d, sv, st, fo.discriminator, extra);
    lemma_union_keys(d, sv, st, fo.discriminator);
    lemma_field_keys(d, sv, st, fo.discriminator);
    let jm = set_members(ms);
    assert(struct_members(sv, fo.discriminator) == jm + uj);
    if let Some((Some(dn), _)) = disc {
        assert forall|j: int| 0 <= j < ms.len() implies #[trigger] key_of(ms[j]) != dn by {
            assert(key_of(ms[j]) == json_name(st.fields@[j]));
        }
        lemma_not_taken(ms, dn);
        lemma_not_a_key(ms, dn);
        lemma_member_index_append(jm, uj, dn);
        assert forall|q: int| 0 <= q < extra.len() implies #[trigger] extra[q].0 != dn by {
            assert(unknown_key(extra[q].0, st, disc));
        }
        lemma_lift(jm + uj, extra, dn);
        assert(Seq::<char>::empty() + dn =~= dn);
    }
    if uj.len() == 0 {
        lemma_union_search(ufs, fo.prefix, sm, t1, -1);
    } else {
        let u = sv.union_member->Some_0;
        let val = u.value->Some_0;
        let key = key_of(*u);
        let ui = field_index(ufs, key);
        lemma_field_index(ufs, key);
        let uf = ufs[ui];
        assert(plain_member(d, *u, uf));
        assert(json_name(uf) == key);
        lemma_options_prefix(uf, fo.prefix);
        let uo = options_of(uf, fo.prefix)->Ok_0;
        assert(uo == member_options(*u));
        assert(member_value(d, val, uf, uo));
        let w = member_write(d, FieldRef::Union(ui as usize), val, uf, uo);
        assert(union_writes(d, sv, st) == seq![w]);
        let vk = union_value_key(disc, key);
        match disc {
            Some((Some(dn), _)) => {
                assert(uj[0].0 == dn);
                assert(member_index(sm, dn) == jm.len());
                assert(sm[jm.len() as int] == uj[0]);
                let t2 = t1.push(dn);
                lemma_union_plan_skip(d, level, obj, ufs, 0, ui, key, disc, fo.prefix, t2);
                if !(uf.ty is Void) {
                    assert(uj[1].0 == vk);
                    assert forall|j: int| 0 <= j < ms.len() implies #[trigger] key_of(ms[j]) != vk by {
                        assert(uj[1].0 != key_of(ms[j]));
                    }
                    lemma_not_taken(ms, vk);
                    assert(!t2.contains(vk));
                    let i = member_index(sm, vk);
                    assert(i == jm.len() + 1);
                    assert(sm[i] == uj[1]);
                    lemma_members_depth(sm, i);
                    lemma_value_plan(d, level, val, uf, FieldRef::Union(ui as usize), uo, sm, t2, vk);
                    assert(opt_writes(Some(w)) =~= seq![w]);
                }
            },
            _ => {
                assert(uj[0].0 == key);
                assert forall|j: int| 0 <= j < ms.len() implies #[trigger] key_of(ms[j]) != key by {
                    assert(uj[0].0 != key_of(ms[j]));
                }
                lemma_not_taken(ms, key);
                assert forall|i: int| 0 <= i < ufs.len() && i != ui implies member_index(
                    sm,
                    #[trigger] json_name(ufs[i]),
                ) < 0 by {
                    if i < ui {
                        assert(json_name(ufs[i]) != key);
                    } else {
                        assert(json_name(ufs[ui]) != json_name(ufs[i]));
                    }
                    assert forall|q: int| 0 <= q < uj.len() implies uj[q].0 != json_name(ufs[i]) by {}
                }
                lemma_union_search(ufs, fo.prefix, sm, t1, ui);
                lemma_union_plan_skip(d, level, obj, ufs, 0, ui, key, disc, fo.prefix, t1);
                if !(uf.ty is Void) {
                    let i = member_index(sm, key);
                    assert(i == jm.len());
                    assert(sm[i] == uj[0]);
                    lemma_members_depth(sm, i);
                    lemma_value_plan(d, level, val, uf, FieldRef::Union(ui as usize), uo, sm, t1, key);
                    assert(opt_writes(Some(w)) =~= seq![w]);
                }
            },
        }
    }
}

/// The first `k` fields of a plain struct read back as their writes.
#[verifier::spinoff_prover]
#[verifier::rlimit(40)]
proof fn lemma_fields_plan(
    d: Decoder,
    level: int,
    sv: StructValue,
    si: int,
    md: Option<(Option<Seq<char>>, Option<Seq<char>>)>,
    extra: Seq<(Seq<char>, Json)>,
    k: int,
)
    requires
        numbers_sound(doubles_view(d.numbers@)),
        0 <= si < d.structs.len(),
        plain_struct(d, sv, d.structs@[si], md),
        unknown_keys(extra, d.structs@[si], eff_disc(md, sv)),
        0 <= level,
        level + json_depth(Json::Object(struct_members(sv, md) + extra)) <= limit_of(d),
        0 <= k <= sv.fields.len(),
    ensures
        fields_plan(d, level, Json::Object(struct_members(sv, md) + extra), d.structs@[si].fields@, k, Seq::empty(), seq![])
            == Ok::<(Seq<WriteModel>, Seq<Seq<char>>), ErrorModel>(
            (
                field_writes(d, sv.fields@.take(k), d.structs@[si].fields@.take(k)),
                set_names(sv.fields@.take(k)),
            ),
        ),
    decreases sv, k,
{
    let ms = sv.fields@;
    let fs = d.structs@[si].fields@;
    lemma_plain_members(d, ms, fs);
    if k == 0 {
        assert(ms.take(0) =~= Seq::<Member>::empty());
    } else {
        lemma_fields_plan(d, level, sv, si, md, extra, k - 1);
        let f = fs[k - 1];
        assert(plain_member(d, ms[k - 1], f));
        let fo = options_of(f, Seq::empty())->Ok_0;
        assert(Seq::<char>::empty() + fo.name =~= fo.name);
        lemma_field_plan(d, level, sv, si, md, extra, k - 1, fo);
        assert(ms.take(k).drop_last() =~= ms.take(k - 1));
        assert(fs.take(k).drop_last() =~= fs.take(k - 1));
        assert(ms.take(k).last() == ms[k - 1]);
        assert(fs.take(k).last() == fs[k - 1]);
        let ws = field_writes(d, ms.take(k - 1), fs.take(k - 1));
        match ms[k - 1].value {
            Some(v) => {
                let w = member_write(d, FieldRef::Plain((k - 1) as usize), v, f, fo);
                assert(ws + opt_writes(Some(w)) =~= ws.push(w));
            },
            None => {
                assert(ws + opt_writes(None) =~= ws);
            },
        }
    }
}

/// One field of a plain struct reads back as its write.
#[verifier::spinoff_prover]
#[verifier::rlimit(60)]
proof fn lemma_field_plan(
    d: Decoder,
    level: int,
    sv: StructValue,
    si: int,
    md: Option<(Option<Seq<char>>, Option<Seq<char>>)>,
    extra: Seq<(Seq<char>, Json)>,
    k: int,
    fo: OptionsModel,
)
    requires
        numbers_sound(doubles_view(d.numbers@)),
        0 <= si < d.structs.len(),
        plain_struct(d, sv, d.structs@[si], md),
        unknown_keys(extra, d.structs@[si], eff_disc(md, sv)),
        0 <= level,
        level + json_depth(Json::Object(struct_members(sv, md) + extra)) <= limit_of(d),
        0 <= k < sv.fields.len(),
        options_of(d.structs@[si].fields@[k], Seq::empty()) == Ok::<OptionsModel, ErrorModel>(fo),
    ensures
        member_plan(
            d,
            level,
            d.structs@[si].fields@[k],
            FieldRef::Plain(k as usize),
            fo,
            Json::Object(struct_members(sv, md) + extra),
            set_names(sv.fields@.take(k)),
            fo.name,
        ) == Ok::<(Option<WriteModel>, Seq<Seq<char>>), ErrorModel>(
            match sv.fields@[k].value {
                Some(v) => (
                    Some(member_write(d, FieldRef::Plain(k as usize), v, d.structs@[si].fields@[k], fo)),
                    set_names(sv.fields@.take(k)).push(fo.name),
                ),
                None => (None, set_names(sv.fields@.take(k))),
            },
        ),
    decreases sv, k,
{
    let ms = sv.fields@;
    let f = d.structs@[si].fields@[k];
    let sm = struct_members(sv, md) + extra;
    lemma_plain_members(d, ms, d.structs@[si].fields@);
    assert(plain_member(d, ms[k], f));
    assert(fo == member_options(ms[k]));
    lemma_field_keys(d, sv, d.structs@[si], md);
    lemma_names_before(ms, k);
    lemma_struct_keys_extra(d, sv, d.structs@[si], md, extra);
    assert(ms[k] == sv.fields@[k]);
    match ms[k].value {
        Some(v) => {
            let i = member_index(sm, fo.name);
            lemma_member_index(sm, fo.name);
            lemma_members_depth(sm, i);
            lemma_value_plan(d, level, v, f, FieldRef::Plain(k as usize), fo, sm, set_names(ms.take(k)), fo.name);
        },
        None => {
            assert(find_member(sm, set_names(ms.take(k)), fo.name) < 0);
        },
    }
}

/// A list of plain values reads back as its model.
#[verifier::spinoff_prover]
proof fn lemma_list_plan(d: Decoder, level: int, items: Seq<Value>, t: FieldType, fo: OptionsModel)
    requires
        numbers_sound(doubles_view(d.numbers@)),
        fo.prefix == Seq::<char>::empty(),
        plain_items(d, items, t, fo.discriminator),
        plain_options(fo),
        0 <= level,
        forall|j: int| 0 <= j < items.len() ==> level + 1 + json_depth(json_of(#[trigger] items[j], fo)) <= limit_of(d),
    ensures
        list_plan(d, level, list_json(items, fo), t, fo) == Ok::<ListPlanModel, ErrorModel>(list_model(d, items, t)),
    decreases items, 1int,
{
    match t {
        FieldType::Struct(_) => lemma_structs_plan(d, level, items, t, fo),
        FieldType::List(_) => lemma_lists_plan(d, level, items, t, fo),
        _ => {
            lemma_plain_items(d, items, t, fo.discriminator);
            assert forall|i: int| 0 <= i < items.len() implies fits(#[trigger] items[i], t) by {
                assert(plain_value(d, items[i], t, fo.discriminator));
            }
            lemma_values_plan(items, t, fo, doubles_view(d.numbers@));
        },
    }
}

/// A list of plain structs reads back as their plans.
#[verifier::spinoff_prover]
#[verifier::rlimit(40)]
proof fn lemma_structs_plan(d: Decoder, level: int, items: Seq<Value>, t: FieldType, fo: OptionsModel)
    requires
        numbers_sound(doubles_view(d.numbers@)),
        fo.prefix == Seq::<char>::empty(),
        t is Struct,
        plain_items(d, items, t, fo.discriminator),
        plain_options(fo),
        0 <= level,
        forall|j: int| 0 <= j < items.len() ==> level + 1 + json_depth(json_of(#[trigger] items[j], fo)) <= limit_of(d),
    ensures
        structs_plan(d, level, list_json(items, fo), t->Struct_0 as int, fo) == Ok::<Seq<StructPlanModel>, ErrorModel>(
            struct_models(d, items, t->Struct_0 as int),
        ),
    decreases items, 0int,
{
    if items.len() > 0 {
        let pre = items.drop_last();
        assert forall|j: int| 0 <= j < pre.len() implies level + 1 + json_depth(json_of(#[trigger] pre[j], fo)) <= limit_of(
            d,
        ) by {
            assert(pre[j] == items[j]);
        }
        lemma_structs_plan(d, level, pre, t, fo);
        assert(list_json(items, fo).drop_last() =~= list_json(pre, fo));
        let last = items.last();
        assert(level + 1 + json_depth(json_of(items[items.len() - 1], fo)) <= limit_of(d));
        assert(plain_value(d, last, t, fo.discriminator));
        if let Value::Struct(sv) = last {
            lemma_struct_plan(d, level + 1, sv, t->Struct_0 as int, fo, seq![]);
            assert(struct_members(sv, fo.discriminator) + seq![] =~= struct_members(sv, fo.discriminator));
        } else if let Value::Custom(j) = last {
            lemma_struct_codec_plan(d, level, j@, t->Struct_0 as int, fo);
        }
    }
}

/// A list of plain lists reads back as their models.
#[verifier::spinoff_prover]
#[verifier::rlimit(40)]
proof fn lemma_lists_plan(d: Decoder, level: int, items: Seq<Value>, t: FieldType, fo: OptionsModel)
    requires
        numbers_sound(doubles_view(d.numbers@)),
        fo.prefix == Seq::<char>::empty(),
        t is List,
        plain_items(d, items, t, fo.discriminator),
        plain_options(fo),
        0 <= level,
        forall|j: int| 0 <= j < items.len() ==> level + 1 + json_depth(json_of(#[trigger] items[j], fo)) <= limit_of(d),
    ensures
        lists_plan(d, level, list_json(items, fo), *(t->List_0), fo) == Ok::<Seq<ListPlanModel>, ErrorModel>(
            list_models(d, items, *(t->List_0)),
        ),
    decreases items, 0int,
{
    if items.len() > 0 {
        let pre = items.drop_last();
        assert forall|j: int| 0 <= j < pre.len() implies level + 1 + json_depth(json_of(#[trigger] pre[j], fo)) <= limit_of(
            d,
        ) by {
            assert(pre[j] == items[j]);
        }
        lemma_lists_plan(d, level, pre, t, fo);
        assert(list_json(items, fo).drop_last() =~= list_json(pre, fo));
        let last = items.last();
        assert(level + 1 + json_depth(json_of(items[items.len() - 1], fo)) <= limit_of(d));
        assert(plain_value(d, last, t, fo.discriminator));
        if let Value::List(sub) = last {
            let xs = list_json(sub@, fo);
            lemma_list_json(sub@, fo);
            assert forall|j: int| 0 <= j < sub@.len() implies (level + 1) + 1 + json_depth(json_of(#[trigger] sub@[j], fo))
                <= limit_of(d) by {
                lemma_items_depth(xs, j);
            }
            lemma_list_plan(d, level + 1, sub@, *(t->List_0), fo);
        }
    }
}


/// Writing a plain struct and reading the text back against its schema sets
/// each field that was set, and the union member that was active and set,
/// to the value it had, and touches no other field, at every depth: the text
/// is the object of the struct's members (its set fields under their JSON
/// names, then its active union member, after its discriminator where the
/// struct has one; nested structs as objects, lists as arrays, data in each
/// field's encoding, what a field's codec gave as that JSON), and decoding it
/// plans exactly the writes of those fields, in field order, the union
/// member's last, handing each field taken by a codec the JSON its codec
/// gave, with the codec chosen as on writing. This holds wherever the
/// decoder's recursion limit admits the depth of that JSON, and the doubles
/// the decoder holds for number texts are those the texts denote, as far as
/// integers of magnitude at most 2^53 go (a double holds each exactly).
#[verifier::spinoff_prover]
#[verifier::rlimit(40)]
pub proof fn message_round_trip(d: Decoder, sv: StructValue, si: int)
    requires
        numbers_sound(doubles_view(d.numbers@)),
        0 <= si < d.structs.len(),
        plain_struct(d, sv, d.structs@[si], None),
        json_depth(Json::Object(struct_members(sv, None))) <= d.options.recursion_limit,
    ensures
        message_text(Value::Struct(sv)) == Ok::<Seq<char>, ErrorModel>(json_text(Json::Object(struct_members(sv, None)))),
        decoded_plan(d, si, json_text(Json::Object(struct_members(sv, None)))) == Ok::<StructPlanModel, ErrorModel>(
            StructPlanModel::Fields(struct_writes(d, sv, d.structs@[si])),
        ),
{
    let st = d.structs@[si];
    let v = Json::Object(struct_members(sv, None));
    lemma_object_text(d, sv, st, default_options(), true);
    lemma_object_wf(d, sv, st, None);
    json_round_trip(v, d.options.recursion_limit as nat);
    lemma_struct_plan(d, 0, sv, si, default_options(), seq![]);
    assert(struct_members(sv, None) + seq![] =~= struct_members(sv, None));
}

/// Each member's value of well-formed members is well-formed.
proof fn lemma_members_wf_each(ms: Seq<(Seq<char>, Json)>)
    requires
        members_wf(ms),
    ensures
        forall|q: int| 0 <= q < ms.len() ==> json_wf(#[trigger] ms[q].1),
    decreases ms.len(),
{
    if ms.len() > 0 {
        lemma_members_wf_each(ms.drop_first());
        assert forall|q: int| 0 <= q < ms.len() implies json_wf(#[trigger] ms[q].1) by {
            if q > 0 {
                assert(ms.drop_first()[q - 1] == ms[q]);
            }
        }
    }
}

/// The keys of a plain struct's members are keys the decoder looks for.
proof fn lemma_known_keys(d: Decoder, sv: StructValue, st: StructSchema, key: Seq<char>)
    requires
        plain_struct(d, sv, st, None),
        unknown_key(key, st, eff_disc(None, sv)),
    ensures
        forall|q: int| 0 <= q < struct_members(sv, None).len() ==> #[trigger] struct_members(sv, None)[q].0 != key,
{
    let ms = sv.fields@;
    let jm = set_members(ms);
    let uj = union_json(sv.union_member, eff_disc(None, sv));
    let sm = struct_members(sv, None);
    lemma_field_keys(d, sv, st, None);
    assert(sm == jm + uj);
    assert forall|q: int| 0 <= q < sm.len() implies #[trigger] sm[q].0 != key by {
        if q < jm.len() {
            assert(sm[q] == jm[q]);
            let x = lemma_member_origin(ms, q);
            assert(key_of(ms[x]) == json_name(st.fields@[x]));
        } else {
            assert(sm[q] == uj[q - jm.len()]);
            let u = sv.union_member->Some_0;
            let ui = field_index(st.union_fields@, key_of(*u));
            lemma_field_index(st.union_fields@, key_of(*u));
            assert(plain_member(d, *u, st.union_fields@[ui]));
        }
    }
}

/// Members under keys the decoder does not look for are ignored: reading
/// the object of a plain struct's members followed by such members, each
/// key once, plans the same writes as reading the struct's own object.
/// This holds wherever the decoder's recursion limit admits the depth of
/// that JSON, and the doubles it holds are as in [`message_round_trip`].
#[verifier::spinoff_prover]
#[verifier::rlimit(40)]
pub proof fn unknown_members_ignored(d: Decoder, sv: StructValue, si: int, extra: Seq<(Seq<char>, Json)>)
    requires
        numbers_sound(doubles_view(d.numbers@)),
        0 <= si < d.structs.len(),
        plain_struct(d, sv, d.structs@[si], None),
        unknown_keys(extra, d.structs@[si], eff_disc(None, sv)),
        keys_distinct(extra),
        forall|q: int| 0 <= q < extra.len() ==> json_wf(#[trigger] extra[q].1),
        json_depth(Json::Object(struct_members(sv, None) + extra)) <= d.options.recursion_limit,
    ensures
        decoded_plan(d, si, json_text(Json::Object(struct_members(sv, None) + extra))) == Ok::<
            StructPlanModel,
            ErrorModel,
        >(StructPlanModel::Fields(struct_writes(d, sv, d.structs@[si]))),
{
    let st = d.structs@[si];
    let sm = struct_members(sv, None);
    let all = sm + extra;
    lemma_object_wf(d, sv, st, None);
    lemma_struct_keys(d, sv, st, None);
    lemma_members_wf_each(sm);
    assert forall|q: int| 0 <= q < all.len() implies json_wf(#[trigger] all[q].1) by {
        if q < sm.len() {
            assert(all[q] == sm[q]);
        } else {
            assert(all[q] == extra[q - sm.len()]);
        }
    }
    lemma_members_wf_all(all);
    assert forall|a: int, b: int| 0 <= a < b < all.len() implies #[trigger] all[a].0 != #[trigger] all[b].0 by {
        if b < sm.len() {
            assert(all[a] == sm[a] && all[b] == sm[b]);
        } else if a >= sm.len() {
            assert(all[a] == extra[a - sm.len()] && all[b] == extra[b - sm.len()]);
        } else {
            assert(all[a] == sm[a] && all[b] == extra[b - sm.len()]);
            assert(unknown_key(extra[b - sm.len()].0, st, eff_disc(None, sv)));
            lemma_known_keys(d, sv, st, extra[b - sm.len()].0);
        }
    }
    json_round_trip(Json::Object(all), d.options.recursion_limit as nat);
    lemma_struct_plan(d, 0, sv, si, default_options(), extra);
}

} // verus!
