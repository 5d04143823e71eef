//! Decoding JSON into a Cap'n Proto value.
//!
//! Decoding reads a parsed [`JsonValue`] against the schema of the struct it
//! fills (see [`Schema`]) and gives a plan of the writes to make to the
//! struct's builder (see [`StructPlan`]), or the error the codec reports.
//! Nothing is written on error.
use vstd::prelude::*;
use vstd::string::StringSliceAdditionalSpecFns;
use vstd::utf8::encode_utf8;
use crate::data::{base64_decode, base64_decoded, hex_decode, hex_decoded};
use crate::encode::{Enumerant, enumerant_name, disc_view, field_prefix};
use crate::writer::write_literal;
use crate::grammar::document;
use crate::parser::parse_document;
use crate::options::default_options;
use crate::error::{Error, ErrorModel, ErrorOf, IntKind};
use crate::json::{Json, JsonValue, items_view, lemma_items_view};
use crate::number::{
    doubles_view, number_integer, number_ordinal, number_to_enum_ordinal, number_to_integer, parse_integer_text,
    parsed_integer, NumberDouble,
};
use crate::options::{
    Annotation, CodecChoice, CodecOptions, DataEncoding, DiscriminatorOptions, EncodingOptions, OptionsModel,
    annotations_view, codec_choice, discriminator_view, field_options, names_view, is_registered, choose_codec,
    opt_view,
};
use crate::json::{members_view, lemma_members_view};

verus! {

/// The type of a field, as decoding reads it.
#[derive(Debug)]
pub enum FieldType {
    Void,
    Bool,
    Int8,
    Int16,
    Int32,
    Int64,
    UInt8,
    UInt16,
    UInt32,
    UInt64,
    Float32,
    Float64,
    Text,
    Data,
    /// An enum, with its enumerants in ordinal order.
    Enum(Vec<Enumerant>),
    /// A struct, by its index in the [`Schema`].
    Struct(usize),
    List(Box<FieldType>),
    AnyPointer,
    Capability,
}

/// A float value that decoding gives: one of the three that JSON writes as
/// strings, or a number's text.
#[derive(Debug)]
pub enum FloatValue {
    NaN,
    Infinity,
    NegInfinity,
    Number(String),
}

/// A value to set in a field that is not a struct or a list.
#[derive(Debug)]
pub enum Primitive {
    Void,
    Bool(bool),
    /// An integer field's value.
    Int(i128),
    Float(FloatValue),
    Text(String),
    /// An enum field's ordinal.
    Enum(u16),
    Data(Vec<u8>),
}

/// The view of a [`FloatValue`].
pub enum FloatModel {
    NaN,
    Infinity,
    NegInfinity,
    Number(Seq<char>),
}

/// The view of a [`Primitive`].
pub enum PrimitiveModel {
    Void,
    Bool(bool),
    Int(int),
    Float(FloatModel),
    Text(Seq<char>),
    Enum(u16),
    Data(Seq<u8>),
}

impl View for Primitive {
    type V = PrimitiveModel;

    open spec fn view(&self) -> PrimitiveModel {
        match self {
            Primitive::Void => PrimitiveModel::Void,
            Primitive::Bool(b) => PrimitiveModel::Bool(*b),
            Primitive::Int(i) => PrimitiveModel::Int(*i as int),
            Primitive::Float(f) => PrimitiveModel::Float(
                match f {
                    FloatValue::NaN => FloatModel::NaN,
                    FloatValue::Infinity => FloatModel::Infinity,
                    FloatValue::NegInfinity => FloatModel::NegInfinity,
                    FloatValue::Number(t) => FloatModel::Number(t@),
                },
            ),
            Primitive::Text(s) => PrimitiveModel::Text(s@),
            Primitive::Enum(o) => PrimitiveModel::Enum(*o),
            Primitive::Data(d) => PrimitiveModel::Data(d@),
        }
    }
}

/// The integer kind of an integer field type.
pub open spec fn int_kind(t: FieldType) -> Option<IntKind> {
    match t {
        FieldType::Int8 => Some(IntKind::Int8),
        FieldType::Int16 => Some(IntKind::Int16),
        FieldType::Int32 => Some(IntKind::Int32),
        FieldType::Int64 => Some(IntKind::Int64),
        FieldType::UInt8 => Some(IntKind::UInt8),
        FieldType::UInt16 => Some(IntKind::UInt16),
        FieldType::UInt32 => Some(IntKind::UInt32),
        FieldType::UInt64 => Some(IntKind::UInt64),
        _ => None,
    }
}

/// The index of the first enumerant whose JSON name is `s`.
pub open spec fn enumerant_index(es: Seq<Enumerant>, s: Seq<char>) -> Option<int>
    decreases es.len(),
{
    if es.len() == 0 {
        None
    } else if enumerant_name(es[0]) == s {
        Some(0)
    } else {
        match enumerant_index(es.drop_first(), s) {
            Some(i) => Some(i + 1),
            None => None,
        }
    }
}

/// The bytes of a `Data` value written as an array of numbers.
pub open spec fn data_bytes(items: Seq<Json>, field: Seq<char>, ns: Seq<(Seq<char>, int, bool)>) -> Result<Seq<u8>, ErrorModel>
    decreases items.len(),
{
    if items.len() == 0 {
        Ok(seq![])
    } else {
        match data_bytes(items.drop_last(), field, ns) {
            Err(e) => Err(e),
            Ok(bs) => match items.last() {
                Json::Number(t) => match number_integer(ns, t, IntKind::DataByte, field) {
                    Ok(b) => Ok(bs.push(b as u8)),
                    Err(e) => Err(e),
                },
                _ => Err(ErrorOf::ExpectedNumberForDataByte(field)),
            },
        }
    }
}

/// The value that JSON `v` gives a field of type `t` that is neither a
/// struct nor a list, with the field's options `meta`.
pub open spec fn primitive_value(v: Json, t: FieldType, meta: OptionsModel, ns: Seq<(Seq<char>, int, bool)>) -> Result<
    PrimitiveModel,
    ErrorModel,
> {
    let name = meta.name;
    match t {
        FieldType::Void => match v {
            Json::Null => Ok(PrimitiveModel::Void),
            _ => Err(ErrorOf::ExpectedNull(name)),
        },
        FieldType::Bool => match v {
            Json::Boolean(b) => Ok(PrimitiveModel::Bool(b)),
            _ => Err(ErrorOf::ExpectedBoolean(name)),
        },
        FieldType::Int64 | FieldType::UInt64 => {
            let kind = int_kind(t)->Some_0;
            match v {
                Json::Number(n) => match number_integer(ns, n, kind, name) {
                    Ok(i) => Ok(PrimitiveModel::Int(i)),
                    Err(e) => Err(e),
                },
                Json::String(s) => match parsed_integer(s, kind) {
                    Some(i) => Ok(PrimitiveModel::Int(i)),
                    None => Err(ErrorOf::InvalidNumericString(s, name)),
                },
                _ => if t is Int64 {
                    Err(ErrorOf::ExpectedNumberOrString(name))
                } else {
                    Err(ErrorOf::ExpectedStringNumber(name))
                },
            }
        },
        FieldType::Int8 | FieldType::Int16 | FieldType::Int32 | FieldType::UInt8 | FieldType::UInt16
        | FieldType::UInt32 => match v {
            Json::Number(n) => match number_integer(ns, n, int_kind(t)->Some_0, name) {
                Ok(i) => Ok(PrimitiveModel::Int(i)),
                Err(e) => Err(e),
            },
            _ => Err(ErrorOf::ExpectedNumber(name)),
        },
        FieldType::Float32 | FieldType::Float64 => match v {
            Json::Null => Ok(PrimitiveModel::Float(FloatModel::NaN)),
            Json::Number(n) => Ok(PrimitiveModel::Float(FloatModel::Number(n))),
            Json::String(s) => if s == seq!['N', 'a', 'N'] {
                Ok(PrimitiveModel::Float(FloatModel::NaN))
            } else if s == seq!['I', 'n', 'f', 'i', 'n', 'i', 't', 'y'] {
                Ok(PrimitiveModel::Float(FloatModel::Infinity))
            } else if s == seq!['-', 'I', 'n', 'f', 'i', 'n', 'i', 't', 'y'] {
                Ok(PrimitiveModel::Float(FloatModel::NegInfinity))
            } else {
                Err(ErrorOf::ExpectedNumber(name))
            },
            _ => Err(ErrorOf::ExpectedNumber(name)),
        },
        FieldType::Text => match v {
            Json::String(s) => Ok(PrimitiveModel::Text(s)),
            _ => Err(ErrorOf::ExpectedString(name)),
        },
        FieldType::Enum(es) => match v {
            Json::String(s) => match enumerant_index(es@, s) {
                Some(i) => Ok(PrimitiveModel::Enum(i as u16)),
                None => Err(ErrorOf::InvalidEnumValue(s, name)),
            },
            Json::Number(n) => match number_ordinal(ns, n) {
                Ok(o) => Ok(PrimitiveModel::Enum(o)),
                Err(e) => Err(e),
            },
            _ => Err(ErrorOf::ExpectedEnumStringOrNumber(name)),
        },
        FieldType::Data => match meta.data_encoding {
            DataEncoding::Default => match v {
                Json::Array(items) => match data_bytes(items, name, ns) {
                    Ok(d) => Ok(PrimitiveModel::Data(d)),
                    Err(e) => Err(e),
                },
                _ => Err(ErrorOf::ExpectedArrayForData(name)),
            },
            DataEncoding::Base64 => match v {
                Json::String(s) => match base64_decoded(encode_utf8(s)) {
                    Ok(d) => Ok(PrimitiveModel::Data(d)),
                    Err(e) => Err(ErrorOf::Data(e)),
                },
                _ => Err(ErrorOf::ExpectedStringForBase64(name)),
            },
            DataEncoding::Hex => match v {
                Json::String(s) => match hex_decoded(encode_utf8(s)) {
                    Ok(d) => Ok(PrimitiveModel::Data(d)),
                    Err(e) => Err(ErrorOf::Data(e)),
                },
                _ => Err(ErrorOf::ExpectedStringForHex(name)),
            },
        },
        _ => Err(ErrorOf::UnsupportedPrimitive(name)),
    }
}

/// The kind of an integer field type.
fn int_kind_of(t: &FieldType) -> (k: IntKind)
    requires
        int_kind(*t) is Some,
    ensures
        int_kind(*t) == Some(k),
{
    match t {
        FieldType::Int8 => IntKind::Int8,
        FieldType::Int16 => IntKind::Int16,
        FieldType::Int32 => IntKind::Int32,
        FieldType::Int64 => IntKind::Int64,
        FieldType::UInt8 => IntKind::UInt8,
        FieldType::UInt16 => IntKind::UInt16,
        FieldType::UInt32 => IntKind::UInt32,
        _ => IntKind::UInt64,
    }
}

/// Whether two strings are equal.
fn same_text(a: &String, b: &str) -> (r: bool)
    ensures
        r == (a@ == b@),
{
    let b2 = b.to_owned();
    *a == b2
}

/// The ordinal of the first enumerant whose JSON name is `s`.
fn find_enumerant(es: &Vec<Enumerant>, s: &String) -> (r: Option<usize>)
    ensures
        match r {
            Some(i) => enumerant_index(es@, s@) == Some(i as int),
            None => enumerant_index(es@, s@) is None,
        },
{
    let mut i: usize = 0;
    assert(es@.skip(0) =~= es@);
    while i < es.len()
        invariant
            i <= es.len(),
            enumerant_index(es@, s@) == match enumerant_index(es@.skip(i as int), s@) {
                Some(j) => Some(j + i),
                None => None,
            },
        decreases es.len() - i,
    {
        assert(es@.skip(i as int)[0] == es@[i as int]);
        assert(es@.skip(i as int).drop_first() =~= es@.skip(i + 1));
        let name = crate::encode::enumerant_json_name(&es[i]);
        if *name == *s {
            return Some(i);
        }
        i = i + 1;
    }
    None
}

/// Decodes the bytes of a `Data` value written as an array of numbers.
fn decode_data_bytes(items: &Vec<JsonValue>, field: &String, numbers: &Vec<NumberDouble>) -> (r: Result<Vec<u8>, Error>)
    ensures
        match (r, data_bytes(items_view(items@), field@, doubles_view(numbers@))) {
            (Ok(d), Ok(m)) => d@ == m,
            (Err(e), Err(m)) => e@ == m,
            _ => false,
        },
{
    let ghost xs = items_view(items@);
    proof {
        lemma_items_view(items@);
    }
    let mut out: Vec<u8> = Vec::new();
    let mut i: usize = 0;
    assert(xs.take(0) =~= Seq::<Json>::empty());
    while i < items.len()
        invariant
            i <= items.len(),
            xs == items_view(items@),
            xs.len() == items.len(),
            forall|j: int| 0 <= j < items.len() ==> #[trigger] xs[j] == items@[j]@,
            data_bytes(xs.take(i as int), field@, doubles_view(numbers@)) == Ok::<Seq<u8>, ErrorModel>(out@),
        decreases items.len() - i,
    {
        assert(xs.take(i + 1).drop_last() =~= xs.take(i as int));
        assert(xs.take(i + 1).last() == items@[i as int]@);
        match &items[i] {
            JsonValue::Number(t) => {
                match number_to_integer(numbers, t.as_str(), IntKind::DataByte, field.as_str()) {
                    Ok(b) => {
                        out.push(b as u8);
                    },
                    Err(e) => {
                        proof {
                            lemma_data_bytes_prefix_err(xs, field@, doubles_view(numbers@), i as int + 1);
                        }
                        assert(xs.take(items.len() as int) =~= xs);
                        return Err(e);
                    },
                }
            },
            _ => {
                proof {
                    lemma_data_bytes_prefix_err(xs, field@, doubles_view(numbers@), i as int + 1);
                }
                assert(xs.take(items.len() as int) =~= xs);
                return Err(ErrorOf::ExpectedNumberForDataByte(field.clone()));
            },
        }
        i = i + 1;
    }
    assert(xs.take(i as int) =~= xs);
    Ok(out)
}

proof fn lemma_data_bytes_prefix_err(items: Seq<Json>, field: Seq<char>, ns: Seq<(Seq<char>, int, bool)>, n: int)
    requires
        0 <= n <= items.len(),
        data_bytes(items.take(n), field, ns) is Err,
    ensures
        data_bytes(items.take(items.len() as int), field, ns) == data_bytes(items.take(n), field, ns),
    decreases items.len() - n,
{
    if n < items.len() {
        assert(items.take(n + 1).drop_last() =~= items.take(n));
        lemma_data_bytes_prefix_err(items, field, ns, n + 1);
    }
}

/// Decodes JSON `v` as the value of a field of type `t` that is neither a
/// struct nor a list, with the field's options `meta`.
pub fn decode_primitive(v: &JsonValue, t: &FieldType, meta: &EncodingOptions, numbers: &Vec<NumberDouble>) -> (r:
    Result<Primitive, Error>)
    ensures
        match (r, primitive_value(v@, *t, meta@, doubles_view(numbers@))) {
            (Ok(p), Ok(m)) => p@ == m,
            (Err(e), Err(m)) => e@ == m,
            _ => false,
        },
{
    let name = &meta.name;
    match t {
        FieldType::Void => match v {
            JsonValue::Null => Ok(Primitive::Void),
            _ => Err(ErrorOf::ExpectedNull(name.clone())),
        },
        FieldType::Bool => match v {
            JsonValue::Boolean(b) => Ok(Primitive::Bool(*b)),
            _ => Err(ErrorOf::ExpectedBoolean(name.clone())),
        },
        FieldType::Int64 | FieldType::UInt64 => {
            let kind = int_kind_of(t);
            match v {
                JsonValue::Number(n) => match number_to_integer(numbers, n.as_str(), kind, name.as_str()) {
                    Ok(i) => Ok(Primitive::Int(i)),
                    Err(e) => Err(e),
                },
                JsonValue::String(s) => match parse_integer_text(s.as_str(), kind) {
                    Some(i) => Ok(Primitive::Int(i)),
                    None => Err(ErrorOf::InvalidNumericString(s.clone(), name.clone())),
                },
                _ => match t {
                    FieldType::Int64 => Err(ErrorOf::ExpectedNumberOrString(name.clone())),
                    _ => Err(ErrorOf::ExpectedStringNumber(name.clone())),
                },
            }
        },
        FieldType::Int8 | FieldType::Int16 | FieldType::Int32 | FieldType::UInt8 | FieldType::UInt16
        | FieldType::UInt32 => match v {
            JsonValue::Number(n) => match number_to_integer(numbers, n.as_str(), int_kind_of(t), name.as_str()) {
                Ok(i) => Ok(Primitive::Int(i)),
                Err(e) => Err(e),
            },
            _ => Err(ErrorOf::ExpectedNumber(name.clone())),
        },
        FieldType::Float32 | FieldType::Float64 => match v {
            JsonValue::Null => Ok(Primitive::Float(FloatValue::NaN)),
            JsonValue::Number(n) => Ok(Primitive::Float(FloatValue::Number(n.clone()))),
            JsonValue::String(s) => {
                proof {
                    reveal_strlit("NaN");
                    reveal_strlit("Infinity");
                    reveal_strlit("-Infinity");
                    assert("NaN"@ =~= seq!['N', 'a', 'N']);
                    assert("Infinity"@ =~= seq!['I', 'n', 'f', 'i', 'n', 'i', 't', 'y']);
                    assert("-Infinity"@ =~= seq!['-', 'I', 'n', 'f', 'i', 'n', 'i', 't', 'y']);
                }
                if same_text(s, "NaN") {
                    Ok(Primitive::Float(FloatValue::NaN))
                } else if same_text(s, "Infinity") {
                    Ok(Primitive::Float(FloatValue::Infinity))
                } else if same_text(s, "-Infinity") {
                    Ok(Primitive::Float(FloatValue::NegInfinity))
                } else {
                    Err(ErrorOf::ExpectedNumber(name.clone()))
                }
            },
            _ => Err(ErrorOf::ExpectedNumber(name.clone())),
        },
        FieldType::Text => match v {
            JsonValue::String(s) => Ok(Primitive::Text(s.clone())),
            _ => Err(ErrorOf::ExpectedString(name.clone())),
        },
        FieldType::Enum(es) => match v {
            JsonValue::String(s) => match find_enumerant(es, s) {
                Some(i) => Ok(Primitive::Enum(#[verifier::truncate] (i as u16))),
                None => Err(ErrorOf::InvalidEnumValue(s.clone(), name.clone())),
            },
            JsonValue::Number(n) => match number_to_enum_ordinal(numbers, n.as_str()) {
                Ok(o) => Ok(Primitive::Enum(o)),
                Err(e) => Err(e),
            },
            _ => Err(ErrorOf::ExpectedEnumStringOrNumber(name.clone())),
        },
        FieldType::Data => match meta.data_encoding {
            DataEncoding::Default => match v {
                JsonValue::Array(items) => match decode_data_bytes(items, name, numbers) {
                    Ok(d) => Ok(Primitive::Data(d)),
                    Err(e) => Err(e),
                },
                _ => Err(ErrorOf::ExpectedArrayForData(name.clone())),
            },
            DataEncoding::Base64 => match v {
                JsonValue::String(s) => match base64_decode(s.as_str()) {
                    Ok(d) => Ok(Primitive::Data(d)),
                    Err(e) => Err(ErrorOf::Data(e)),
                },
                _ => Err(ErrorOf::ExpectedStringForBase64(name.clone())),
            },
            DataEncoding::Hex => match v {
                JsonValue::String(s) => match hex_decode(s.as_str()) {
                    Ok(d) => Ok(Primitive::Data(d)),
                    Err(e) => Err(ErrorOf::Data(e)),
                },
                _ => Err(ErrorOf::ExpectedStringForHex(name.clone())),
            },
        },
        _ => Err(ErrorOf::UnsupportedPrimitive(name.clone())),
    }
}

// ---------------------------------------------------------------------------
// Schemas and plans
// ---------------------------------------------------------------------------

/// A field of a struct, as decoding reads it.
#[derive(Debug)]
pub struct FieldSchema {
    /// The field's name in the schema.
    pub name: String,
    /// The field's annotations.
    pub annotations: Vec<Annotation>,
    /// The field's type.
    pub ty: FieldType,
    /// Whether a custom codec is registered for this very field.
    pub field_override: bool,
    /// Whether a custom codec is registered for the field's type.
    pub type_override: bool,
}

/// A struct type.
#[derive(Debug)]
pub struct StructSchema {
    /// The `$Rust.codec` on the struct's declaration, if any.
    pub codec: Option<String>,
    /// The `$Json.discriminator` on the struct's declaration, if any.
    pub discriminator: Option<DiscriminatorOptions>,
    /// Its fields outside the union, in schema order.
    pub fields: Vec<FieldSchema>,
    /// The members of its union, in schema order.
    pub union_fields: Vec<FieldSchema>,
}

/// What decoding needs: the struct types, referred to by index, the names
/// under which custom codecs are registered, the options, and the doubles
/// that the JSON's number texts denote, through which integer, enum and
/// data-byte fields read numbers.
#[derive(Debug)]
pub struct Decoder {
    pub structs: Vec<StructSchema>,
    pub named_codecs: Vec<String>,
    pub options: CodecOptions,
    pub numbers: Vec<NumberDouble>,
}

/// A field of the struct being written: one outside the union, or a union
/// member, by its index.
#[derive(Debug, Clone, Copy, PartialEq, Eq, Structural)]
pub enum FieldRef {
    Plain(usize),
    Union(usize),
}

/// One write to a struct builder.
#[derive(Debug)]
pub enum Write {
    /// Set the field to a value.
    Assign(FieldRef, Primitive),
    /// Initialise the struct field, and fill it.
    Struct(FieldRef, StructPlan),
    /// Fill the flattened struct field in place, creating it only where it
    /// is unset: what it already holds is not cleared.
    Flattened(FieldRef, StructPlan),
    /// Initialise the list field with as many elements as the plan has, and
    /// fill them.
    List(FieldRef, ListPlan),
    /// Hand the field's JSON to the custom codec chosen.
    Custom(FieldRef, JsonValue, CodecChoice),
}

/// How to fill a struct builder.
#[derive(Debug)]
pub enum StructPlan {
    /// Hand the JSON to the custom codec registered for the struct's type.
    Custom(JsonValue),
    /// Make these writes, in order.
    Fields(Vec<Write>),
}

/// How to fill a list builder.
#[derive(Debug)]
pub enum ListPlan {
    Structs(Vec<StructPlan>),
    Lists(Vec<ListPlan>),
    Values(Vec<Primitive>),
}

/// The view of a [`Write`].
pub enum WriteModel {
    Assign(FieldRef, PrimitiveModel),
    Struct(FieldRef, StructPlanModel),
    Flattened(FieldRef, StructPlanModel),
    List(FieldRef, ListPlanModel),
    Custom(FieldRef, Json, CodecChoice),
}

/// The view of a [`StructPlan`].
pub enum StructPlanModel {
    Custom(Json),
    Fields(Seq<WriteModel>),
}

/// The view of a [`ListPlan`].
pub enum ListPlanModel {
    Structs(Seq<StructPlanModel>),
    Lists(Seq<ListPlanModel>),
    Values(Seq<PrimitiveModel>),
}

impl View for Write {
    type V = WriteModel;

    open spec fn view(&self) -> WriteModel
        decreases self, 0int,
    {
        match self {
            Write::Assign(f, p) => WriteModel::Assign(*f, p@),
            Write::Struct(f, p) => WriteModel::Struct(*f, p.view()),
            Write::Flattened(f, p) => WriteModel::Flattened(*f, p.view()),
            Write::List(f, p) => WriteModel::List(*f, p.view()),
            Write::Custom(f, j, c) => WriteModel::Custom(*f, j@, *c),
        }
    }
}

impl View for StructPlan {
    type V = StructPlanModel;

    open spec fn view(&self) -> StructPlanModel
        decreases self, 0int,
    {
        match self {
            StructPlan::Custom(j) => StructPlanModel::Custom(j@),
            StructPlan::Fields(ws) => StructPlanModel::Fields(writes_view(ws@)),
        }
    }
}

impl View for ListPlan {
    type V = ListPlanModel;

    open spec fn view(&self) -> ListPlanModel
        decreases self, 0int,
    {
        match self {
            ListPlan::Structs(ps) => ListPlanModel::Structs(struct_plans_view(ps@)),
            ListPlan::Lists(ls) => ListPlanModel::Lists(list_plans_view(ls@)),
            ListPlan::Values(vs) => ListPlanModel::Values(vs@.map_values(|p: Primitive| p@)),
        }
    }
}

/// The views of a sequence of writes.
pub open spec fn writes_view(ws: Seq<Write>) -> Seq<WriteModel>
    decreases ws, 1int,
{
    if ws.len() == 0 {
        Seq::empty()
    } else {
        writes_view(ws.drop_last()).push(ws.last().view())
    }
}

/// The views of a sequence of struct plans.
pub open spec fn struct_plans_view(ps: Seq<StructPlan>) -> Seq<StructPlanModel>
    decreases ps, 1int,
{
    if ps.len() == 0 {
        Seq::empty()
    } else {
        struct_plans_view(ps.drop_last()).push(ps.last().view())
    }
}

/// The views of a sequence of list plans.
pub open spec fn list_plans_view(ls: Seq<ListPlan>) -> Seq<ListPlanModel>
    decreases ls, 1int,
{
    if ls.len() == 0 {
        Seq::empty()
    } else {
        list_plans_view(ls.drop_last()).push(ls.last().view())
    }
}

/// Whether a type, looking through lists, is `Data`.
pub open spec fn element_is_data(t: FieldType) -> bool
    decreases t,
{
    match t {
        FieldType::Data => true,
        FieldType::List(e) => element_is_data(*e),
        _ => false,
    }
}

/// Every struct type that `t` names is one of the `n` structs.
pub open spec fn type_wf(t: FieldType, n: nat) -> bool
    decreases t,
{
    match t {
        FieldType::Struct(i) => i < n,
        FieldType::List(e) => type_wf(*e, n),
        _ => true,
    }
}

/// Every struct type a field names is one of the decoder's structs.
pub open spec fn decoder_wf(d: Decoder) -> bool {
    &&& forall|i: int, j: int|
        0 <= i < d.structs.len() && 0 <= j < d.structs@[i].fields.len() ==> type_wf(
            #[trigger] d.structs@[i].fields@[j].ty,
            d.structs.len() as nat,
        )
    &&& forall|i: int, j: int|
        0 <= i < d.structs.len() && 0 <= j < d.structs@[i].union_fields.len() ==> type_wf(
            #[trigger] d.structs@[i].union_fields@[j].ty,
            d.structs.len() as nat,
        )
}

/// The index of the first member named `key`, or -1.
pub open spec fn member_index(ms: Seq<(Seq<char>, Json)>, key: Seq<char>) -> int
    decreases ms.len(),
{
    if ms.len() == 0 {
        -1
    } else if ms[0].0 == key {
        0
    } else {
        let r = member_index(ms.drop_first(), key);
        if r < 0 {
            -1
        } else {
            r + 1
        }
    }
}

/// The index of the member that taking `key` from an object finds, once
/// the keys `taken` have been taken from it: the first one named `key`, or
/// -1 when there is none or the key was taken already.
pub open spec fn find_member(ms: Seq<(Seq<char>, Json)>, taken: Seq<Seq<char>>, key: Seq<char>) -> int {
    if taken.contains(key) {
        -1
    } else {
        member_index(ms, key)
    }
}

pub proof fn lemma_member_index(ms: Seq<(Seq<char>, Json)>, key: Seq<char>)
    ensures
        -1 <= member_index(ms, key) < ms.len(),
        member_index(ms, key) >= 0 ==> ms[member_index(ms, key)].0 == key,
        member_index(ms, key) < 0 ==> forall|i: int| 0 <= i < ms.len() ==> #[trigger] ms[i].0 != key,
    decreases ms.len(),
{
    if ms.len() > 0 && ms[0].0 != key {
        lemma_member_index(ms.drop_first(), key);
        assert forall|i: int| 0 <= i < ms.len() && member_index(ms, key) < 0 implies #[trigger] ms[i].0 != key by {
            if i > 0 {
                assert(ms.drop_first()[i - 1] == ms[i]);
            }
        }
    }
}

/// The members whose keys have not been taken.
pub open spec fn untaken(ms: Seq<(Seq<char>, Json)>, taken: Seq<Seq<char>>) -> Seq<(Seq<char>, Json)>
    decreases ms.len(),
{
    if ms.len() == 0 {
        ms
    } else if taken.contains(ms.last().0) {
        untaken(ms.drop_last(), taken)
    } else {
        untaken(ms.drop_last(), taken).push(ms.last())
    }
}

/// What is left of JSON `v` once the keys `taken` have been taken from it.
pub open spec fn remaining(v: Json, taken: Seq<Seq<char>>) -> Json {
    match v {
        Json::Object(ms) => Json::Object(untaken(ms, taken)),
        _ => v,
    }
}

/// One level deeper, for a list nested in a list: past the limit, depth no
/// longer changes anything.
pub open spec fn deeper(level: int, limit: int) -> int {
    if level > limit {
        level
    } else {
        level + 1
    }
}

/// The member-name prefix inside a struct decoded with options `meta`.
pub open spec fn member_prefix(meta: OptionsModel) -> Seq<char> {
    match meta.flatten {
        Some(p) => meta.prefix + p,
        None => Seq::empty(),
    }
}

/// The options of a field inside an object whose member names carry `prefix`.
pub open spec fn options_of(f: FieldSchema, prefix: Seq<char>) -> Result<OptionsModel, ErrorModel> {
    field_options(prefix, f.name@, annotations_view(f.annotations@), element_is_data(f.ty))
}

/// The custom codec that applies to a field with options `fo`.
pub open spec fn field_codec(d: Decoder, f: FieldSchema, fo: OptionsModel) -> CodecChoice {
    codec_choice(
        fo.codec matches Some(n) && names_view(d.named_codecs@).contains(n),
        f.field_override,
        f.type_override,
    )
}

/// Whether JSON `null` in a field of type `t` means the field is absent:
/// `t` is `Text`, `Data`, a list or a struct.
pub open spec fn null_is_absent(t: FieldType) -> bool {
    t is Text || t is Data || t is List || t is Struct
}

/// Whether a JSON `null` here means the field is absent: the value is
/// `null`, and the field is `Text`, `Data`, a list or a struct. A `Void`
/// field's `null` is its value.
pub fn is_pointer_to_json_null(value: &JsonValue, t: &FieldType) -> (r: bool)
    ensures
        r == (value@ is Null && null_is_absent(*t)),
{
    match value {
        JsonValue::Null => match t {
            FieldType::Text | FieldType::Data | FieldType::List(_) | FieldType::Struct(_) => true,
            _ => false,
        },
        _ => false,
    }
}

/// Whether a struct plan writes nothing.
pub open spec fn plan_is_empty(p: StructPlanModel) -> bool {
    p matches StructPlanModel::Fields(ws) && ws.len() == 0
}

/// A sequence of writes has as many views.
proof fn lemma_writes_view_len(ws: Seq<Write>)
    ensures
        writes_view(ws).len() == ws.len(),
    decreases ws.len(),
{
    reveal_with_fuel(writes_view, 2);
    if ws.len() > 0 {
        lemma_writes_view_len(ws.drop_last());
        assert(writes_view(ws) == writes_view(ws.drop_last()).push(ws.last().view()));
    } else {
        assert(writes_view(ws) == Seq::<WriteModel>::empty());
    }
}

/// The writes an optional write makes.
pub open spec fn opt_writes(w: Option<WriteModel>) -> Seq<WriteModel> {
    match w {
        Some(w) => seq![w],
        None => seq![],
    }
}

/// The recursion limit.
pub open spec fn limit_of(d: Decoder) -> int {
    d.options.recursion_limit as int
}

/// The values of a list's elements of a type that is neither a struct nor a
/// list.
pub open spec fn values_plan(items: Seq<Json>, t: FieldType, meta: OptionsModel, ns: Seq<(Seq<char>, int, bool)>) -> Result<
    Seq<PrimitiveModel>,
    ErrorModel,
>
    decreases items.len(),
{
    if items.len() == 0 {
        Ok(seq![])
    } else {
        match values_plan(items.drop_last(), t, meta, ns) {
            Err(e) => Err(e),
            Ok(ps) => match primitive_value(items.last(), t, meta, ns) {
                Err(e) => Err(e),
                Ok(p) => Ok(ps.push(p)),
            },
        }
    }
}

/// The discriminant that a discriminator names, and the keys taken after
/// taking its member: `(name, value name)` options `disc`; its key is its
/// name, else the struct's own name, after the prefix `fp`.
pub open spec fn discriminant_of(
    ms: Seq<(Seq<char>, Json)>,
    taken: Seq<Seq<char>>,
    disc: Option<(Option<Seq<char>>, Option<Seq<char>>)>,
    fp: Seq<char>,
    struct_name: Seq<char>,
) -> (Option<Seq<char>>, Seq<Seq<char>>) {
    match disc {
        None => (None, taken),
        Some((n, _)) => {
            let k = fp + match n {
                Some(x) => x,
                None => struct_name,
            };
            let i = find_member(ms, taken, k);
            if i < 0 {
                (None, taken)
            } else {
                (
                    match ms[i].1 {
                        Json::String(s) => Some(s),
                        _ => None,
                    },
                    taken.push(k),
                )
            }
        },
    }
}

/// The JSON name of the first union member present in the object, each
/// member named as inside an object whose names carry `prefix`, and looked
/// for under `fp` and that name.
pub open spec fn union_search(
    fs: Seq<FieldSchema>,
    prefix: Seq<char>,
    fp: Seq<char>,
    ms: Seq<(Seq<char>, Json)>,
    taken: Seq<Seq<char>>,
) -> Result<Option<Seq<char>>, ErrorModel>
    decreases fs.len(),
{
    if fs.len() == 0 {
        Ok(None)
    } else {
        match options_of(fs[0], prefix) {
            Err(e) => Err(e),
            Ok(fo) => if find_member(ms, taken, fp + fo.name) >= 0 {
                Ok(Some(fo.name))
            } else {
                union_search(fs.drop_first(), prefix, fp, ms, taken)
            },
        }
    }
}

/// The discriminator options in effect for a struct: those of its field,
/// else those of its declaration.
pub open spec fn struct_discriminator(meta: OptionsModel, st: StructSchema) -> Option<(Option<Seq<char>>, Option<Seq<char>>)> {
    match meta.discriminator {
        Some(x) => Some(x),
        None => match st.discriminator {
            Some(x) => Some(discriminator_view(x)),
            None => None,
        },
    }
}

/// How JSON `v` fills struct `si`, decoded with options `meta` at depth
/// `level`, once the keys `taken` have been taken from `v`; with the keys
/// taken after it.
pub open spec fn struct_plan(
    d: Decoder,
    level: int,
    v: Json,
    si: int,
    meta: OptionsModel,
    taken: Seq<Seq<char>>,
) -> Result<(StructPlanModel, Seq<Seq<char>>), ErrorModel>
    decreases v, limit_of(d) + 1 - level, 3int, 0int,
{
    if level > limit_of(d) {
        Err(ErrorOf::RecursionLimitDecoding)
    } else {
        let st = d.structs@[si];
        let fp = member_prefix(meta);
        if st.codec matches Some(n) && names_view(d.named_codecs@).contains(n@) {
            Ok((StructPlanModel::Custom(remaining(v, taken)), taken))
        } else {
            match fields_plan(d, level, v, st.fields@, st.fields.len() as int, fp, taken) {
                Err(e) => Err(e),
                Ok((ws, t1)) => match v {
                    Json::Object(ms) => {
                        let disc = struct_discriminator(meta, st);
                        let (dval, t2) = discriminant_of(ms, t1, disc, fp, meta.name);
                        let found = match dval {
                            Some(x) => Ok(Some(x)),
                            None => union_search(st.union_fields@, meta.prefix, fp, ms, t2),
                        };
                        match found {
                            Err(e) => Err(e),
                            Ok(None) => Ok((StructPlanModel::Fields(ws), t2)),
                            Ok(Some(name)) => match union_plan(
                                d,
                                level,
                                v,
                                st.union_fields@,
                                0,
                                name,
                                disc,
                                meta.prefix,
                                t2,
                            ) {
                                Err(e) => Err(e),
                                Ok((uw, t3)) => Ok((StructPlanModel::Fields(ws + uw), t3)),
                            },
                        }
                    },
                    _ => Err(ErrorOf::ExpectedObject),
                },
            }
        }
    }
}

/// The writes of the first `n` fields outside the union.
pub open spec fn fields_plan(
    d: Decoder,
    level: int,
    v: Json,
    fs: Seq<FieldSchema>,
    n: int,
    fp: Seq<char>,
    taken: Seq<Seq<char>>,
) -> Result<(Seq<WriteModel>, Seq<Seq<char>>), ErrorModel>
    decreases v, limit_of(d) + 1 - level, 1int, n,
{
    if n <= 0 || n > fs.len() {
        Ok((seq![], taken))
    } else {
        match fields_plan(d, level, v, fs, n - 1, fp, taken) {
            Err(e) => Err(e),
            Ok((ws, t1)) => match options_of(fs[n - 1], fp) {
                Err(e) => Err(e),
                Ok(fo) => match member_plan(
                    d,
                    level,
                    fs[n - 1],
                    FieldRef::Plain((n - 1) as usize),
                    fo,
                    v,
                    t1,
                    fp + fo.name,
                ) {
                    Err(e) => Err(e),
                    Ok((w, t2)) => Ok((ws + opt_writes(w), t2)),
                },
            },
        }
    }
}

/// The write of the union member named `name` in JSON, from the `i`th on:
/// a `Void` member is set, any other decoded under the discriminator's value
/// name, else its own.
pub open spec fn union_plan(
    d: Decoder,
    level: int,
    v: Json,
    fs: Seq<FieldSchema>,
    i: int,
    name: Seq<char>,
    disc: Option<(Option<Seq<char>>, Option<Seq<char>>)>,
    prefix: Seq<char>,
    taken: Seq<Seq<char>>,
) -> Result<(Seq<WriteModel>, Seq<Seq<char>>), ErrorModel>
    decreases v, limit_of(d) + 1 - level, 1int, fs.len() - i,
{
    if i < 0 || i >= fs.len() {
        Ok((seq![], taken))
    } else {
        match options_of(fs[i], prefix) {
            Err(e) => Err(e),
            Ok(fo) => if fo.name != name {
                union_plan(d, level, v, fs, i + 1, name, disc, prefix, taken)
            } else if fs[i].ty is Void {
                Ok((seq![WriteModel::Assign(FieldRef::Union(i as usize), PrimitiveModel::Void)], taken))
            } else {
                let value_name = match disc {
                    Some((_, Some(vn))) => vn,
                    _ => fo.name,
                };
                match member_plan(d, level, fs[i], FieldRef::Union(i as usize), fo, v, taken, value_name) {
                    Err(e) => Err(e),
                    Ok((w, t2)) => Ok((opt_writes(w), t2)),
                }
            },
        }
    }
}

/// The write for field `f`, with options `fo`, whose value is taken from
/// the object `v` under `key`. A flattened struct field outside the union
/// is written only where decoding writes something in it, so that one the
/// JSON does not mention is neither created nor cleared; a flattened union
/// member is written whatever, its tag alone selecting it.
pub open spec fn member_plan(
    d: Decoder,
    level: int,
    f: FieldSchema,
    fref: FieldRef,
    fo: OptionsModel,
    v: Json,
    taken: Seq<Seq<char>>,
    key: Seq<char>,
) -> Result<(Option<WriteModel>, Seq<Seq<char>>), ErrorModel>
    decreases v, limit_of(d) + 1 - level, 0int, 0int,
{
    match v {
        Json::Object(ms) => {
            let i = find_member(ms, taken, key);
            let t1 = taken.push(key);
            proof {
                lemma_member_index(ms, key);
            }
            let choice = field_codec(d, f, fo);
            if choice != CodecChoice::Default {
                if i < 0 {
                    Ok((None, taken))
                } else {
                    Ok((Some(WriteModel::Custom(fref, ms[i].1, choice)), t1))
                }
            } else {
                match f.ty {
                    FieldType::Struct(si) => if fo.flatten is None {
                        if i < 0 {
                            Ok((None, taken))
                        } else if ms[i].1 is Null {
                            Ok((None, t1))
                        } else if level + 1 > limit_of(d) {
                            Err(ErrorOf::RecursionLimitDecoding)
                        } else {
                            match struct_plan(d, level + 1, ms[i].1, si as int, fo, seq![]) {
                                Err(e) => Err(e),
                                Ok((p, _)) => Ok((Some(WriteModel::Struct(fref, p)), t1)),
                            }
                        }
                    } else if level + 1 > limit_of(d) {
                        Err(ErrorOf::RecursionLimitDecoding)
                    } else {
                        match struct_plan(d, level + 1, v, si as int, fo, taken) {
                            Err(e) => Err(e),
                            Ok((p, t2)) => if fref is Plain && plan_is_empty(p) {
                                Ok((None, t2))
                            } else {
                                Ok((Some(WriteModel::Flattened(fref, p)), t2))
                            },
                        }
                    },
                    FieldType::List(et) => if i < 0 {
                        Ok((None, taken))
                    } else {
                        match ms[i].1 {
                            Json::Null => Ok((None, t1)),
                            Json::Array(items) => match list_plan(d, level, items, *et, fo) {
                                Err(e) => Err(e),
                                Ok(lp) => Ok((Some(WriteModel::List(fref, lp)), t1)),
                            },
                            _ => Err(ErrorOf::ExpectedArray(fo.name)),
                        }
                    },
                    FieldType::AnyPointer => if i < 0 {
                        Ok((None, taken))
                    } else {
                        Err(ErrorOf::AnyPointerNotRepresentable)
                    },
                    FieldType::Capability => if i < 0 {
                        Ok((None, taken))
                    } else {
                        Err(ErrorOf::CapabilityNotRepresentable)
                    },
                    _ => if i < 0 {
                        Ok((None, taken))
                    } else if ms[i].1 is Null && null_is_absent(f.ty) {
                        Ok((None, t1))
                    } else {
                        match primitive_value(ms[i].1, f.ty, fo, doubles_view(d.numbers@)) {
                            Err(e) => Err(e),
                            Ok(p) => Ok((Some(WriteModel::Assign(fref, p)), t1)),
                        }
                    },
                }
            }
        },
        _ => Err(ErrorOf::ExpectedObject),
    }
}

/// How the JSON array `items` fills a list of type `t`, the list field
/// having options `meta`.
pub open spec fn list_plan(d: Decoder, level: int, items: Seq<Json>, t: FieldType, meta: OptionsModel) -> Result<
    ListPlanModel,
    ErrorModel,
>
    decreases items, limit_of(d) + 1 - level, 2int, 0int,
{
    match t {
        FieldType::Struct(si) => match structs_plan(d, level, items, si as int, meta) {
            Err(e) => Err(e),
            Ok(ps) => Ok(ListPlanModel::Structs(ps)),
        },
        FieldType::List(et) => match lists_plan(d, level, items, *et, meta) {
            Err(e) => Err(e),
            Ok(ls) => Ok(ListPlanModel::Lists(ls)),
        },
        _ => match values_plan(items, t, meta, doubles_view(d.numbers@)) {
            Err(e) => Err(e),
            Ok(vs) => Ok(ListPlanModel::Values(vs)),
        },
    }
}

/// The plans of a list's struct elements, each one level deeper.
pub open spec fn structs_plan(d: Decoder, level: int, items: Seq<Json>, si: int, meta: OptionsModel) -> Result<
    Seq<StructPlanModel>,
    ErrorModel,
>
    decreases items, limit_of(d) + 1 - level, 1int, 0int,
{
    if items.len() == 0 {
        Ok(seq![])
    } else {
        match structs_plan(d, level, items.drop_last(), si, meta) {
            Err(e) => Err(e),
            Ok(ps) => if level + 1 > limit_of(d) {
                Err(ErrorOf::RecursionLimitDecoding)
            } else {
                match struct_plan(d, level + 1, items.last(), si, meta, seq![]) {
                    Err(e) => Err(e),
                    Ok((p, _)) => Ok(ps.push(p)),
                }
            },
        }
    }
}

/// The plans of a list's list elements, each one level deeper.
pub open spec fn lists_plan(d: Decoder, level: int, items: Seq<Json>, t: FieldType, meta: OptionsModel) -> Result<
    Seq<ListPlanModel>,
    ErrorModel,
>
    decreases items, limit_of(d) + 1 - level, 1int, 0int,
{
    if items.len() == 0 {
        Ok(seq![])
    } else {
        match lists_plan(d, level, items.drop_last(), t, meta) {
            Err(e) => Err(e),
            Ok(ls) => match items.last() {
                Json::Array(sub) => match list_plan(d, deeper(level, limit_of(d)), sub, t, meta) {
                    Err(e) => Err(e),
                    Ok(l) => Ok(ls.push(l)),
                },
                _ => Err(ErrorOf::ExpectedArrayForList(meta.name)),
            },
        }
    }
}

// ---------------------------------------------------------------------------
// Decoding
// ---------------------------------------------------------------------------

/// The view of an optional write.
pub open spec fn opt_write_view(w: Option<Write>) -> Option<WriteModel> {
    match w {
        Some(w) => Some(w@),
        None => None,
    }
}

/// A copy of a JSON value.
pub fn clone_json(v: &JsonValue) -> (r: JsonValue)
    ensures
        r@ == v@,
    decreases v, 1int,
{
    match v {
        JsonValue::Null => JsonValue::Null,
        JsonValue::Boolean(b) => JsonValue::Boolean(*b),
        JsonValue::Number(t) => JsonValue::Number(t.clone()),
        JsonValue::String(t) => JsonValue::String(t.clone()),
        JsonValue::Array(items) => JsonValue::Array(clone_items(items)),
        JsonValue::Object(ms) => JsonValue::Object(clone_members(ms)),
    }
}

fn clone_members(ms: &Vec<(String, JsonValue)>) -> (r: Vec<(String, JsonValue)>)
    ensures
        members_view(r@) == members_view(ms@),
    decreases ms@, 0int,
{
    let mut out: Vec<(String, JsonValue)> = Vec::new();
    let mut i: usize = 0;
    assert(ms@.take(0) =~= Seq::<(String, JsonValue)>::empty());
    while i < ms.len()
        invariant
            i <= ms.len(),
            members_view(out@) == members_view(ms@.take(i as int)),
        decreases ms.len() - i,
    {
        let c = clone_json(&ms[i].1);
        let ghost before = out@;
        out.push((ms[i].0.clone(), c));
        assert(out@.drop_last() =~= before);
        assert(ms@.take(i + 1).drop_last() =~= ms@.take(i as int));
        i = i + 1;
    }
    assert(ms@.take(i as int) =~= ms@);
    out
}

fn clone_items(items: &Vec<JsonValue>) -> (r: Vec<JsonValue>)
    ensures
        items_view(r@) == items_view(items@),
    decreases items@, 0int,
{
    let mut out: Vec<JsonValue> = Vec::new();
    let mut i: usize = 0;
    assert(items@.take(0) =~= Seq::<JsonValue>::empty());
    while i < items.len()
        invariant
            i <= items.len(),
            items_view(out@) == items_view(items@.take(i as int)),
        decreases items.len() - i,
    {
        let c = clone_json(&items[i]);
        let ghost before = out@;
        out.push(c);
        assert(out@.drop_last() =~= before);
        assert(items@.take(i + 1).drop_last() =~= items@.take(i as int));
        i = i + 1;
    }
    assert(items@.take(i as int) =~= items@);
    out
}

/// Whether every struct type that `t` names is below `n`.
fn type_names_below(t: &FieldType, n: usize) -> (r: bool)
    ensures
        r == type_wf(*t, n as nat),
    decreases t,
{
    match t {
        FieldType::Struct(i) => *i < n,
        FieldType::List(e) => type_names_below(e, n),
        _ => true,
    }
}

/// Whether the fields' types name only structs below `n`.
fn field_types_below(fs: &Vec<FieldSchema>, n: usize) -> (r: bool)
    ensures
        r == forall|j: int| 0 <= j < fs.len() ==> type_wf(#[trigger] fs@[j].ty, n as nat),
{
    let mut j: usize = 0;
    while j < fs.len()
        invariant
            j <= fs.len(),
            forall|k: int| 0 <= k < j ==> type_wf(#[trigger] fs@[k].ty, n as nat),
        decreases fs.len() - j,
    {
        if !type_names_below(&fs[j].ty, n) {
            return false;
        }
        j = j + 1;
    }
    true
}

/// Whether every struct type that a field names is one of the decoder's
/// structs, the condition under which [`decode_json`] can be called.
pub fn check_decoder(d: &Decoder) -> (r: bool)
    ensures
        r == decoder_wf(*d),
{
    let n = d.structs.len();
    let mut i: usize = 0;
    while i < n
        invariant
            i <= n,
            n == d.structs.len(),
            forall|a: int, j: int|
                0 <= a < i && 0 <= j < d.structs@[a].fields.len() ==> type_wf(
                    #[trigger] d.structs@[a].fields@[j].ty,
                    n as nat,
                ),
            forall|a: int, j: int|
                0 <= a < i && 0 <= j < d.structs@[a].union_fields.len() ==> type_wf(
                    #[trigger] d.structs@[a].union_fields@[j].ty,
                    n as nat,
                ),
        decreases n - i,
    {
        if !field_types_below(&d.structs[i].fields, n) || !field_types_below(&d.structs[i].union_fields, n) {
            assert(!decoder_wf(*d)) by {
                if !(forall|j: int| 0 <= j < d.structs@[i as int].fields.len() ==> type_wf(#[trigger] d.structs@[i as int].fields@[j].ty, n as nat)) {
                    let j = choose|j: int| 0 <= j < d.structs@[i as int].fields.len() && !type_wf(d.structs@[i as int].fields@[j].ty, n as nat);
                    assert(!type_wf(d.structs@[i as int].fields@[j].ty, n as nat));
                } else {
                    let j = choose|j: int| 0 <= j < d.structs@[i as int].union_fields.len() && !type_wf(d.structs@[i as int].union_fields@[j].ty, n as nat);
                    assert(!type_wf(d.structs@[i as int].union_fields@[j].ty, n as nat));
                }
            }
            return false;
        }
        i = i + 1;
    }
    true
}

/// The number texts of a JSON value, in document order.
pub open spec fn number_texts(v: Json) -> Seq<Seq<char>>
    decreases v,
{
    match v {
        Json::Number(t) => seq![t],
        Json::Array(items) => items_numbers(items),
        Json::Object(ms) => members_numbers(ms),
        _ => seq![],
    }
}

/// The number texts of a sequence of values, in order.
pub open spec fn items_numbers(items: Seq<Json>) -> Seq<Seq<char>>
    decreases items,
{
    if items.len() == 0 {
        seq![]
    } else {
        items_numbers(items.drop_last()) + number_texts(items.last())
    }
}

/// The number texts of an object's members' values, in order.
pub open spec fn members_numbers(ms: Seq<(Seq<char>, Json)>) -> Seq<Seq<char>>
    decreases ms,
{
    if ms.len() == 0 {
        seq![]
    } else {
        members_numbers(ms.drop_last()) + number_texts(ms.last().1)
    }
}

/// Appends the number texts of `v` to `out`, in document order.
pub fn collect_number_texts(v: &JsonValue, out: &mut Vec<String>)
    ensures
        names_view(final(out)@) == names_view(old(out)@) + number_texts(v@),
    decreases v, 1int,
{
    match v {
        JsonValue::Number(t) => {
            let ghost before = out@;
            out.push(t.clone());
            assert(names_view(out@) =~= names_view(before) + seq![t@]);
        },
        JsonValue::Array(items) => collect_item_numbers(items, out),
        JsonValue::Object(ms) => collect_member_numbers(ms, out),
        _ => {
            assert(names_view(out@) =~= names_view(out@) + Seq::<Seq<char>>::empty());
        },
    }
}

fn collect_item_numbers(items: &Vec<JsonValue>, out: &mut Vec<String>)
    ensures
        names_view(final(out)@) == names_view(old(out)@) + items_numbers(items_view(items@)),
    decreases items@, 0int,
{
    let ghost start = names_view(out@);
    let mut i: usize = 0;
    assert(items@.take(0) =~= Seq::<JsonValue>::empty());
    assert(start + items_numbers(items_view(items@.take(0))) =~= start);
    while i < items.len()
        invariant
            i <= items.len(),
            names_view(out@) == start + items_numbers(items_view(items@.take(i as int))),
        decreases items.len() - i,
    {
        let ghost mid = names_view(out@);
        collect_number_texts(&items[i], out);
        assert(items@.take(i + 1).drop_last() =~= items@.take(i as int));
        assert(items@.take(i + 1).last() == items@[i as int]);
        assert(items_view(items@.take(i + 1)) == items_view(items@.take(i as int)).push(items@[i as int]@));
        assert(items_view(items@.take(i + 1)).drop_last() =~= items_view(items@.take(i as int)));
        assert(names_view(out@) =~= start + items_numbers(items_view(items@.take(i + 1))));
        i = i + 1;
    }
    assert(items@.take(i as int) =~= items@);
}

fn collect_member_numbers(ms: &Vec<(String, JsonValue)>, out: &mut Vec<String>)
    ensures
        names_view(final(out)@) == names_view(old(out)@) + members_numbers(members_view(ms@)),
    decreases ms@, 0int,
{
    let ghost start = names_view(out@);
    let mut i: usize = 0;
    assert(ms@.take(0) =~= Seq::<(String, JsonValue)>::empty());
    assert(start + members_numbers(members_view(ms@.take(0))) =~= start);
    while i < ms.len()
        invariant
            i <= ms.len(),
            names_view(out@) == start + members_numbers(members_view(ms@.take(i as int))),
        decreases ms.len() - i,
    {
        collect_number_texts(&ms[i].1, out);
        assert(ms@.take(i + 1).drop_last() =~= ms@.take(i as int));
        assert(ms@.take(i + 1).last() == ms@[i as int]);
        assert(members_view(ms@.take(i + 1)).drop_last() =~= members_view(ms@.take(i as int)));
        assert(names_view(out@) =~= start + members_numbers(members_view(ms@.take(i + 1))));
        i = i + 1;
    }
    assert(ms@.take(i as int) =~= ms@);
}

/// What is left of JSON `v` once the keys `taken` have been taken from it.
fn remaining_json(v: &JsonValue, taken: &Vec<String>) -> (r: JsonValue)
    ensures
        r@ == remaining(v@, names_view(taken@)),
{
    match v {
        JsonValue::Object(ms) => {
            let ghost t = names_view(taken@);
            let mut out: Vec<(String, JsonValue)> = Vec::new();
            let mut i: usize = 0;
            proof {
                lemma_members_view(ms@);
            }
            assert(members_view(ms@).take(0) =~= Seq::<(Seq<char>, Json)>::empty());
            while i < ms.len()
                invariant
                    i <= ms.len(),
                    t == names_view(taken@),
                    members_view(ms@).len() == ms.len(),
                    forall|j: int| 0 <= j < ms.len() ==> #[trigger] members_view(ms@)[j] == (ms@[j].0@, ms@[j].1@),
                    members_view(out@) == untaken(members_view(ms@).take(i as int), t),
                decreases ms.len() - i,
            {
                let ghost mv = members_view(ms@);
                assert(mv.take(i + 1).drop_last() =~= mv.take(i as int));
                assert(mv.take(i + 1).last() == mv[i as int]);
                if !is_registered(taken, &ms[i].0) {
                    let c = clone_json(&ms[i].1);
                    let ghost before = out@;
                    out.push((ms[i].0.clone(), c));
                    assert(out@.drop_last() =~= before);
                }
                i = i + 1;
            }
            assert(members_view(ms@).take(i as int) =~= members_view(ms@));
            JsonValue::Object(out)
        },
        _ => clone_json(v),
    }
}

proof fn lemma_member_index_first(ms: Seq<(Seq<char>, Json)>, key: Seq<char>, k: int)
    requires
        0 <= k <= ms.len(),
        forall|j: int| 0 <= j < k ==> #[trigger] ms[j].0 != key,
        k < ms.len() ==> ms[k].0 == key,
    ensures
        member_index(ms, key) == if k < ms.len() {
            k
        } else {
            -1
        },
    decreases k,
{
    if k > 0 {
        assert(ms[0].0 != key);
        assert forall|j: int| 0 <= j < k - 1 implies #[trigger] ms.drop_first()[j].0 != key by {
            assert(ms.drop_first()[j] == ms[j + 1]);
        }
        if k < ms.len() {
            assert(ms.drop_first()[k - 1] == ms[k]);
        }
        lemma_member_index_first(ms.drop_first(), key, k - 1);
    } else if ms.len() == 0 {
    }
}

/// The member that taking `key` from an object finds.
fn find_member_exec(ms: &Vec<(String, JsonValue)>, taken: &Vec<String>, key: &String) -> (r: Option<usize>)
    ensures
        match r {
            Some(i) => i < ms.len() && find_member(members_view(ms@), names_view(taken@), key@) == i as int,
            None => find_member(members_view(ms@), names_view(taken@), key@) < 0,
        },
{
    proof {
        lemma_members_view(ms@);
    }
    let ghost mv = members_view(ms@);
    if is_registered(taken, key) {
        return None;
    }
    let mut i: usize = 0;
    while i < ms.len()
        invariant
            i <= ms.len(),
            mv == members_view(ms@),
            mv.len() == ms.len(),
            forall|j: int| 0 <= j < ms.len() ==> #[trigger] mv[j] == (ms@[j].0@, ms@[j].1@),
            forall|j: int| 0 <= j < i ==> #[trigger] mv[j].0 != key@,
            !names_view(taken@).contains(key@),
        decreases ms.len() - i,
    {
        if ms[i].0 == *key {
            proof {
                lemma_member_index_first(mv, key@, i as int);
            }
            return Some(i);
        }
        i = i + 1;
    }
    proof {
        lemma_member_index_first(mv, key@, i as int);
    }
    None
}

/// `a` followed by `b`.
fn concat(a: &String, b: &String) -> (r: String)
    ensures
        r@ == a@ + b@,
{
    let mut r = a.clone();
    write_literal(&mut r, b.as_str());
    r
}

/// Whether a type, looking through lists, is `Data`.
pub fn is_data_element(t: &FieldType) -> (r: bool)
    ensures
        r == element_is_data(*t),
    decreases t,
{
    match t {
        FieldType::Data => true,
        FieldType::List(e) => is_data_element(&**e),
        _ => false,
    }
}

/// The options of a field inside an object whose member names carry `prefix`.
fn field_options_of(f: &FieldSchema, prefix: &String) -> (r: Result<EncodingOptions, Error>)
    ensures
        match (r, options_of(*f, prefix@)) {
            (Ok(o), Ok(m)) => o@ == m,
            (Err(e), Err(m)) => e@ == m,
            _ => false,
        },
{
    let data = is_data_element(&f.ty);
    EncodingOptions::from_field(prefix.as_str(), f.name.as_str(), &f.annotations, data)
}

/// Decodes a list's elements of a type that is neither a struct nor a list.
fn decode_values(items: &Vec<JsonValue>, t: &FieldType, meta: &EncodingOptions, numbers: &Vec<NumberDouble>) -> (r:
    Result<Vec<Primitive>, Error>)
    ensures
        match (r, values_plan(items_view(items@), *t, meta@, doubles_view(numbers@))) {
            (Ok(ps), Ok(m)) => ps@.map_values(|p: Primitive| p@) == m,
            (Err(e), Err(m)) => e@ == m,
            _ => false,
        },
{
    let ghost xs = items_view(items@);
    proof {
        lemma_items_view(items@);
    }
    let mut out: Vec<Primitive> = Vec::new();
    let mut i: usize = 0;
    assert(xs.take(0) =~= Seq::<Json>::empty());
    assert(out@.map_values(|p: Primitive| p@) =~= Seq::<PrimitiveModel>::empty());
    while i < items.len()
        invariant
            i <= items.len(),
            xs == items_view(items@),
            xs.len() == items.len(),
            forall|j: int| 0 <= j < items.len() ==> #[trigger] xs[j] == items@[j]@,
            values_plan(xs.take(i as int), *t, meta@, doubles_view(numbers@)) == Ok::<Seq<PrimitiveModel>, ErrorModel>(
                out@.map_values(|p: Primitive| p@),
            ),
        decreases items.len() - i,
    {
        assert(xs.take(i + 1).drop_last() =~= xs.take(i as int));
        assert(xs.take(i + 1).last() == items@[i as int]@);
        match decode_primitive(&items[i], t, meta, numbers) {
            Ok(p) => {
                out.push(p);
                assert(out@.map_values(|p: Primitive| p@) =~= values_plan(xs.take(i as int), *t, meta@, doubles_view(numbers@))->Ok_0.push(
                    out@.last()@,
                ));
            },
            Err(e) => {
                proof {
                    lemma_values_plan_prefix_err(xs, *t, meta@, doubles_view(numbers@), i as int + 1);
                }
                assert(xs.take(items.len() as int) =~= xs);
                return Err(e);
            },
        }
        i = i + 1;
    }
    assert(xs.take(i as int) =~= xs);
    Ok(out)
}

proof fn lemma_values_plan_prefix_err(items: Seq<Json>, t: FieldType, meta: OptionsModel, ns: Seq<(Seq<char>, int, bool)>, n: int)
    requires
        0 <= n <= items.len(),
        values_plan(items.take(n), t, meta, ns) is Err,
    ensures
        values_plan(items.take(items.len() as int), t, meta, ns) == values_plan(items.take(n), t, meta, ns),
    decreases items.len() - n,
{
    if n < items.len() {
        assert(items.take(n + 1).drop_last() =~= items.take(n));
        lemma_values_plan_prefix_err(items, t, meta, ns, n + 1);
    }
}

/// Takes the discriminator's member, if the struct has a discriminator,
/// and gives the member name it holds, if it is a string.
fn take_discriminant(
    ms: &Vec<(String, JsonValue)>,
    taken: &mut Vec<String>,
    disc: Option<&DiscriminatorOptions>,
    fp: &String,
    struct_name: &String,
) -> (r: Option<String>)
    ensures
        ({
            let (dv, t) = discriminant_of(members_view(ms@), names_view(old(taken)@), disc_view(disc), fp@, struct_name@);
            opt_view(r) == dv && names_view(final(taken)@) == t
        }),
{
    match disc {
        None => None,
        Some(dopt) => {
            let k = match &dopt.name {
                Some(x) => concat(fp, x),
                None => concat(fp, struct_name),
            };
            match find_member_exec(ms, taken, &k) {
                None => None,
                Some(i) => {
                    proof {
                        lemma_members_view(ms@);
                    }
                    taken.push(k);
                    assert(names_view(taken@) =~= names_view(old(taken)@).push(k@));
                    match &ms[i].1 {
                        JsonValue::String(s) => Some(s.clone()),
                        _ => None,
                    }
                },
            }
        },
    }
}

/// The JSON name of the first union member present in the object.
fn search_union(
    fs: &Vec<FieldSchema>,
    prefix: &String,
    fp: &String,
    ms: &Vec<(String, JsonValue)>,
    taken: &Vec<String>,
) -> (r: Result<Option<String>, Error>)
    ensures
        match (r, union_search(fs@, prefix@, fp@, members_view(ms@), names_view(taken@))) {
            (Ok(o), Ok(m)) => opt_view(o) == m,
            (Err(e), Err(m)) => e@ == m,
            _ => false,
        },
{
    let mut i: usize = 0;
    assert(fs@.skip(0) =~= fs@);
    while i < fs.len()
        invariant
            i <= fs.len(),
            union_search(fs@, prefix@, fp@, members_view(ms@), names_view(taken@)) == union_search(
                fs@.skip(i as int),
                prefix@,
                fp@,
                members_view(ms@),
                names_view(taken@),
            ),
        decreases fs.len() - i,
    {
        assert(fs@.skip(i as int)[0] == fs@[i as int]);
        assert(fs@.skip(i as int).drop_first() =~= fs@.skip(i + 1));
        let fo = match field_options_of(&fs[i], prefix) {
            Ok(o) => o,
            Err(e) => return Err(e),
        };
        let k = concat(fp, &fo.name);
        if find_member_exec(ms, taken, &k).is_some() {
            return Ok(Some(fo.name));
        }
        i = i + 1;
    }
    Ok(None)
}

/// An error in the first `n` fields is the error of all of them.
proof fn lemma_fields_plan_prefix_err(
    d: Decoder,
    level: int,
    v: Json,
    fs: Seq<FieldSchema>,
    n: int,
    fp: Seq<char>,
    taken: Seq<Seq<char>>,
)
    requires
        0 <= n <= fs.len(),
        fields_plan(d, level, v, fs, n, fp, taken) is Err,
    ensures
        fields_plan(d, level, v, fs, fs.len() as int, fp, taken) == fields_plan(d, level, v, fs, n, fp, taken),
    decreases fs.len() - n,
{
    if n < fs.len() {
        lemma_fields_plan_prefix_err(d, level, v, fs, n + 1, fp, taken);
    }
}

/// An error in the first elements is the error of the whole list.
proof fn lemma_structs_plan_prefix_err(d: Decoder, level: int, items: Seq<Json>, si: int, meta: OptionsModel, n: int)
    requires
        0 <= n <= items.len(),
        structs_plan(d, level, items.take(n), si, meta) is Err,
    ensures
        structs_plan(d, level, items.take(items.len() as int), si, meta) == structs_plan(d, level, items.take(n), si, meta),
    decreases items.len() - n,
{
    if n < items.len() {
        assert(items.take(n + 1).drop_last() =~= items.take(n));
        lemma_structs_plan_prefix_err(d, level, items, si, meta, n + 1);
    }
}

/// An error in the first elements is the error of the whole list.
proof fn lemma_lists_plan_prefix_err(d: Decoder, level: int, items: Seq<Json>, t: FieldType, meta: OptionsModel, n: int)
    requires
        0 <= n <= items.len(),
        lists_plan(d, level, items.take(n), t, meta) is Err,
    ensures
        lists_plan(d, level, items.take(items.len() as int), t, meta) == lists_plan(d, level, items.take(n), t, meta),
    decreases items.len() - n,
{
    if n < items.len() {
        assert(items.take(n + 1).drop_last() =~= items.take(n));
        lemma_lists_plan_prefix_err(d, level, items, t, meta, n + 1);
    }
}

/// The fields of struct `si` name only the decoder's structs.
pub open spec fn fields_wf(d: Decoder, fs: Seq<FieldSchema>) -> bool {
    forall|j: int| 0 <= j < fs.len() ==> type_wf(#[trigger] fs[j].ty, d.structs.len() as nat)
}

/// Decodes JSON `v` into struct `si` with options `meta` at depth `level`,
/// once the keys in `taken` have been taken from `v`; the keys it takes are
/// added to `taken`.
fn decode_struct(
    d: &Decoder,
    level: u128,
    v: &JsonValue,
    si: usize,
    meta: &EncodingOptions,
    taken: &mut Vec<String>,
) -> (r: Result<StructPlan, Error>)
    requires
        decoder_wf(*d),
        si < d.structs.len(),
    ensures
        match (r, struct_plan(*d, level as int, v@, si as int, meta@, names_view(old(taken)@))) {
            (Ok(p), Ok((m, t))) => p@ == m && names_view(final(taken)@) == t,
            (Err(e), Err(m)) => e@ == m,
            _ => false,
        },
    decreases v, d.options.recursion_limit + 1 - level, 3int, 0int,
{
    if level > d.options.recursion_limit as u128 {
        return Err(ErrorOf::RecursionLimitDecoding);
    }
    let st = &d.structs[si];
    let fp = field_prefix(meta);
    assert(fp@ == member_prefix(meta@));
    match &st.codec {
        Some(n) => {
            if is_registered(&d.named_codecs, n) {
                return Ok(StructPlan::Custom(remaining_json(v, taken)));
            }
        },
        None => {},
    }
    proof {
        assert forall|j: int| 0 <= j < st.fields.len() implies type_wf(#[trigger] st.fields@[j].ty, d.structs.len() as nat) by {
            assert(d.structs@[si as int].fields@[j] == st.fields@[j]);
        }
        assert forall|j: int| 0 <= j < st.union_fields.len() implies type_wf(
            #[trigger] st.union_fields@[j].ty,
            d.structs.len() as nat,
        ) by {
            assert(d.structs@[si as int].union_fields@[j] == st.union_fields@[j]);
        }
    }
    let ghost t0 = names_view(taken@);
    let mut ws = match decode_fields(d, level, v, &st.fields, &fp, taken) {
        Ok(w) => w,
        Err(e) => return Err(e),
    };
    match v {
        JsonValue::Object(ms) => {
            let disc: Option<&DiscriminatorOptions> = match &meta.discriminator {
                Some(x) => Some(x),
                None => match &st.discriminator {
                    Some(x) => Some(x),
                    None => None,
                },
            };
            assert(disc_view(disc) == struct_discriminator(meta@, *st));
            let dval = take_discriminant(ms, taken, disc, &fp, &meta.name);
            let found = match dval {
                Some(x) => Some(x),
                None => match search_union(&st.union_fields, &meta.prefix, &fp, ms, taken) {
                    Ok(o) => o,
                    Err(e) => return Err(e),
                },
            };
            match found {
                None => Ok(StructPlan::Fields(ws)),
                Some(name) => {
                    let ghost before = ws@;
                    match decode_union(d, level, v, &st.union_fields, &name, disc, &meta.prefix, taken) {
                        Ok(w) => {
                            match w {
                                Some(w) => {
                                    ws.push(w);
                                    assert(ws@.drop_last() =~= before);
                                    assert(writes_view(ws@) =~= writes_view(before) + seq![ws@.last()@]);
                                },
                                None => {
                                    assert(writes_view(ws@) =~= writes_view(before) + Seq::<WriteModel>::empty());
                                },
                            }
                            Ok(StructPlan::Fields(ws))
                        },
                        Err(e) => Err(e),
                    }
                },
            }
        },
        _ => Err(ErrorOf::ExpectedObject),
    }
}

/// Decodes the fields outside the union, in order.
fn decode_fields(
    d: &Decoder,
    level: u128,
    v: &JsonValue,
    fs: &Vec<FieldSchema>,
    fp: &String,
    taken: &mut Vec<String>,
) -> (r: Result<Vec<Write>, Error>)
    requires
        decoder_wf(*d),
        fields_wf(*d, fs@),
        level <= d.options.recursion_limit,
    ensures
        match (r, fields_plan(*d, level as int, v@, fs@, fs.len() as int, fp@, names_view(old(taken)@))) {
            (Ok(ws), Ok((m, t))) => writes_view(ws@) == m && names_view(final(taken)@) == t,
            (Err(e), Err(m)) => e@ == m,
            _ => false,
        },
    decreases v, d.options.recursion_limit + 1 - level, 1int, 0int,
{
    let ghost t0 = names_view(taken@);
    let mut ws: Vec<Write> = Vec::new();
    let mut i: usize = 0;
    while i < fs.len()
        invariant
            i <= fs.len(),
            decoder_wf(*d),
            fields_wf(*d, fs@),
            level <= d.options.recursion_limit,
            t0 == names_view(old(taken)@),
            fields_plan(*d, level as int, v@, fs@, i as int, fp@, t0) == Ok::<
                (Seq<WriteModel>, Seq<Seq<char>>),
                ErrorModel,
            >((writes_view(ws@), names_view(taken@))),
        decreases fs.len() - i,
    {
        let fo = match field_options_of(&fs[i], fp) {
            Ok(o) => o,
            Err(e) => {
                proof {
                    lemma_fields_plan_prefix_err(*d, level as int, v@, fs@, i + 1, fp@, t0);
                }
                return Err(e);
            },
        };
        let key = concat(fp, &fo.name);
        let ghost before = ws@;
        let ghost t1 = names_view(taken@);
        assert(type_wf(fs@[i as int].ty, d.structs.len() as nat));
        match decode_member(d, level, &fs[i], FieldRef::Plain(i), &fo, v, taken, &key) {
            Ok(w) => {
                match w {
                    Some(w) => {
                        ws.push(w);
                        assert(ws@.drop_last() =~= before);
                        assert(writes_view(ws@) =~= writes_view(before) + seq![ws@.last()@]);
                    },
                    None => {
                        assert(writes_view(ws@) =~= writes_view(before) + Seq::<WriteModel>::empty());
                    },
                }
            },
            Err(e) => {
                proof {
                    lemma_fields_plan_prefix_err(*d, level as int, v@, fs@, i + 1, fp@, t0);
                }
                return Err(e);
            },
        }
        i = i + 1;
    }
    Ok(ws)
}

/// Decodes the union member named `name` in JSON.
fn decode_union(
    d: &Decoder,
    level: u128,
    v: &JsonValue,
    fs: &Vec<FieldSchema>,
    name: &String,
    disc: Option<&DiscriminatorOptions>,
    prefix: &String,
    taken: &mut Vec<String>,
) -> (r: Result<Option<Write>, Error>)
    requires
        decoder_wf(*d),
        fields_wf(*d, fs@),
        level <= d.options.recursion_limit,
    ensures
        match (r, union_plan(*d, level as int, v@, fs@, 0, name@, disc_view(disc), prefix@, names_view(old(taken)@))) {
            (Ok(w), Ok((m, t))) => opt_writes(opt_write_view(w)) == m && names_view(final(taken)@) == t,
            (Err(e), Err(m)) => e@ == m,
            _ => false,
        },
    decreases v, d.options.recursion_limit + 1 - level, 1int, 0int,
{
    let ghost t0 = names_view(taken@);
    let mut i: usize = 0;
    while i < fs.len()
        invariant
            i <= fs.len(),
            decoder_wf(*d),
            fields_wf(*d, fs@),
            level <= d.options.recursion_limit,
            t0 == names_view(old(taken)@),
            t0 == names_view(taken@),
            union_plan(*d, level as int, v@, fs@, 0, name@, disc_view(disc), prefix@, t0) == union_plan(
                *d,
                level as int,
                v@,
                fs@,
                i as int,
                name@,
                disc_view(disc),
                prefix@,
                t0,
            ),
        decreases fs.len() - i,
    {
        let fo = match field_options_of(&fs[i], prefix) {
            Ok(o) => o,
            Err(e) => return Err(e),
        };
        if !(fo.name == *name) {
            i = i + 1;
            continue;
        }
        if let FieldType::Void = &fs[i].ty {
            let w = Write::Assign(FieldRef::Union(i), Primitive::Void);
            assert(opt_writes(opt_write_view(Some(w))) =~= seq![w@]);
            return Ok(Some(w));
        }
        let value_name = match disc {
            Some(dd) => match &dd.value_name {
                Some(vn) => vn.clone(),
                None => fo.name.clone(),
            },
            None => fo.name.clone(),
        };
        assert(type_wf(fs@[i as int].ty, d.structs.len() as nat));
        return decode_member(d, level, &fs[i], FieldRef::Union(i), &fo, v, taken, &value_name);
    }
    Ok(None)
}

/// Decodes field `f`, with options `fo`, whose value is taken from the
/// object `v` under `key`.
fn decode_member(
    d: &Decoder,
    level: u128,
    f: &FieldSchema,
    fref: FieldRef,
    fo: &EncodingOptions,
    v: &JsonValue,
    taken: &mut Vec<String>,
    key: &String,
) -> (r: Result<Option<Write>, Error>)
    requires
        decoder_wf(*d),
        type_wf(f.ty, d.structs.len() as nat),
        level <= d.options.recursion_limit,
    ensures
        match (r, member_plan(*d, level as int, *f, fref, fo@, v@, names_view(old(taken)@), key@)) {
            (Ok(w), Ok((m, t))) => opt_write_view(w) == m && names_view(final(taken)@) == t,
            (Err(e), Err(m)) => e@ == m,
            _ => false,
        },
    decreases v, d.options.recursion_limit + 1 - level, 0int, 0int,
{
    match v {
        JsonValue::Object(ms) => {
            proof {
                lemma_members_view(ms@);
                lemma_member_index(members_view(ms@), key@);
            }
            let found = find_member_exec(ms, taken, key);
            let named = match &fo.codec {
                Some(n) => is_registered(&d.named_codecs, n),
                None => false,
            };
            let choice = choose_codec(named, f.field_override, f.type_override);
            assert(choice == field_codec(*d, *f, fo@));
            if choice != CodecChoice::Default {
                return match found {
                    None => Ok(None),
                    Some(i) => {
                        let c = clone_json(&ms[i].1);
                        taken.push(key.clone());
                        assert(names_view(taken@) =~= names_view(old(taken)@).push(key@));
                        Ok(Some(Write::Custom(fref, c, choice)))
                    },
                };
            }
            match &f.ty {
                FieldType::Struct(si) => {
                    if fo.flatten.is_none() {
                        match found {
                            None => Ok(None),
                            Some(i) => {
                                taken.push(key.clone());
                                assert(names_view(taken@) =~= names_view(old(taken)@).push(key@));
                                if let JsonValue::Null = &ms[i].1 {
                                    return Ok(None);
                                }
                                if level >= d.options.recursion_limit as u128 {
                                    return Err(ErrorOf::RecursionLimitDecoding);
                                }
                                let mut sub_taken: Vec<String> = Vec::new();
                                assert(names_view(sub_taken@) =~= Seq::<Seq<char>>::empty());
                                match decode_struct(d, level + 1, &ms[i].1, *si, fo, &mut sub_taken) {
                                    Ok(p) => Ok(Some(Write::Struct(fref, p))),
                                    Err(e) => Err(e),
                                }
                            },
                        }
                    } else {
                        if level >= d.options.recursion_limit as u128 {
                            return Err(ErrorOf::RecursionLimitDecoding);
                        }
                        match decode_struct(d, level + 1, v, *si, fo, taken) {
                            Ok(p) => {
                                let empty = match &p {
                                    StructPlan::Fields(ws) => {
                                        proof {
                                            lemma_writes_view_len(ws@);
                                        }
                                        ws.len() == 0
                                    },
                                    StructPlan::Custom(_) => false,
                                };
                                let plain = match fref {
                                    FieldRef::Plain(_) => true,
                                    FieldRef::Union(_) => false,
                                };
                                if plain && empty {
                                    Ok(None)
                                } else {
                                    Ok(Some(Write::Flattened(fref, p)))
                                }
                            },
                            Err(e) => Err(e),
                        }
                    }
                },
                FieldType::List(et) => {
                    match found {
                        None => Ok(None),
                        Some(i) => {
                            taken.push(key.clone());
                            assert(names_view(taken@) =~= names_view(old(taken)@).push(key@));
                            match &ms[i].1 {
                                JsonValue::Null => Ok(None),
                                JsonValue::Array(items) => {
                                    match decode_list(d, level, items, &**et, fo) {
                                        Ok(lp) => Ok(Some(Write::List(fref, lp))),
                                        Err(e) => Err(e),
                                    }
                                },
                                _ => Err(ErrorOf::ExpectedArray(fo.name.clone())),
                            }
                        },
                    }
                },
                FieldType::AnyPointer => match found {
                    None => Ok(None),
                    Some(_) => Err(ErrorOf::AnyPointerNotRepresentable),
                },
                FieldType::Capability => match found {
                    None => Ok(None),
                    Some(_) => Err(ErrorOf::CapabilityNotRepresentable),
                },
                _ => {
                    match found {
                        None => Ok(None),
                        Some(i) => {
                            taken.push(key.clone());
                            assert(names_view(taken@) =~= names_view(old(taken)@).push(key@));
                            if is_pointer_to_json_null(&ms[i].1, &f.ty) {
                                return Ok(None);
                            }
                            match decode_primitive(&ms[i].1, &f.ty, fo, &d.numbers) {
                                Ok(p) => Ok(Some(Write::Assign(fref, p))),
                                Err(e) => Err(e),
                            }
                        },
                    }
                },
            }
        },
        _ => Err(ErrorOf::ExpectedObject),
    }
}

/// Decodes the JSON array `items` into a list of type `t`, the list field
/// having options `meta`.
fn decode_list(d: &Decoder, level: u128, items: &Vec<JsonValue>, t: &FieldType, meta: &EncodingOptions) -> (r: Result<
    ListPlan,
    Error,
>)
    requires
        decoder_wf(*d),
        type_wf(*t, d.structs.len() as nat),
        level <= d.options.recursion_limit + 1,
    ensures
        match (r, list_plan(*d, level as int, items_view(items@), *t, meta@)) {
            (Ok(p), Ok(m)) => p@ == m,
            (Err(e), Err(m)) => e@ == m,
            _ => false,
        },
    decreases items@, d.options.recursion_limit + 1 - level, 2int, 0int,
{
    match t {
        FieldType::Struct(si) => match decode_struct_list(d, level, items, *si, meta) {
            Ok(ps) => Ok(ListPlan::Structs(ps)),
            Err(e) => Err(e),
        },
        FieldType::List(et) => match decode_list_list(d, level, items, &**et, meta) {
            Ok(ls) => Ok(ListPlan::Lists(ls)),
            Err(e) => Err(e),
        },
        _ => match decode_values(items, t, meta, &d.numbers) {
            Ok(vs) => Ok(ListPlan::Values(vs)),
            Err(e) => Err(e),
        },
    }
}

/// Decodes a list's struct elements, each one level deeper.
fn decode_struct_list(d: &Decoder, level: u128, items: &Vec<JsonValue>, si: usize, meta: &EncodingOptions) -> (r:
    Result<Vec<StructPlan>, Error>)
    requires
        decoder_wf(*d),
        si < d.structs.len(),
        level <= d.options.recursion_limit + 1,
    ensures
        match (r, structs_plan(*d, level as int, items_view(items@), si as int, meta@)) {
            (Ok(ps), Ok(m)) => struct_plans_view(ps@) == m,
            (Err(e), Err(m)) => e@ == m,
            _ => false,
        },
    decreases items@, d.options.recursion_limit + 1 - level, 1int, 0int,
{
    let ghost xs = items_view(items@);
    proof {
        lemma_items_view(items@);
    }
    let mut ps: Vec<StructPlan> = Vec::new();
    let mut i: usize = 0;
    assert(xs.take(0) =~= Seq::<Json>::empty());
    while i < items.len()
        invariant
            i <= items.len(),
            decoder_wf(*d),
            si < d.structs.len(),
            level <= d.options.recursion_limit + 1,
            xs == items_view(items@),
            xs.len() == items.len(),
            forall|j: int| 0 <= j < items.len() ==> #[trigger] xs[j] == items@[j]@,
            structs_plan(*d, level as int, xs.take(i as int), si as int, meta@) == Ok::<
                Seq<StructPlanModel>,
                ErrorModel,
            >(struct_plans_view(ps@)),
        decreases items.len() - i,
    {
        assert(xs.take(i + 1).drop_last() =~= xs.take(i as int));
        assert(xs.take(i + 1).last() == items@[i as int]@);
        if level >= d.options.recursion_limit as u128 {
            proof {
                lemma_structs_plan_prefix_err(*d, level as int, xs, si as int, meta@, i + 1);
            }
            assert(xs.take(items.len() as int) =~= xs);
            return Err(ErrorOf::RecursionLimitDecoding);
        }
        let mut sub_taken: Vec<String> = Vec::new();
        assert(names_view(sub_taken@) =~= Seq::<Seq<char>>::empty());
        match decode_struct(d, level + 1, &items[i], si, meta, &mut sub_taken) {
            Ok(p) => {
                let ghost before = ps@;
                ps.push(p);
                assert(ps@.drop_last() =~= before);
            },
            Err(e) => {
                proof {
                    lemma_structs_plan_prefix_err(*d, level as int, xs, si as int, meta@, i + 1);
                }
                assert(xs.take(items.len() as int) =~= xs);
                return Err(e);
            },
        }
        i = i + 1;
    }
    assert(xs.take(i as int) =~= xs);
    Ok(ps)
}

/// Decodes a list's list elements, each one level deeper.
fn decode_list_list(d: &Decoder, level: u128, items: &Vec<JsonValue>, t: &FieldType, meta: &EncodingOptions) -> (r:
    Result<Vec<ListPlan>, Error>)
    requires
        decoder_wf(*d),
        type_wf(*t, d.structs.len() as nat),
        level <= d.options.recursion_limit + 1,
    ensures
        match (r, lists_plan(*d, level as int, items_view(items@), *t, meta@)) {
            (Ok(ls), Ok(m)) => list_plans_view(ls@) == m,
            (Err(e), Err(m)) => e@ == m,
            _ => false,
        },
    decreases items@, d.options.recursion_limit + 1 - level, 1int, 0int,
{
    let ghost xs = items_view(items@);
    proof {
        lemma_items_view(items@);
    }
    let next: u128 = if level > d.options.recursion_limit as u128 {
        level
    } else {
        level + 1
    };
    let mut ls: Vec<ListPlan> = Vec::new();
    let mut i: usize = 0;
    assert(xs.take(0) =~= Seq::<Json>::empty());
    while i < items.len()
        invariant
            i <= items.len(),
            decoder_wf(*d),
            type_wf(*t, d.structs.len() as nat),
            next as int == deeper(level as int, limit_of(*d)),
            next <= d.options.recursion_limit + 1,
            xs == items_view(items@),
            xs.len() == items.len(),
            forall|j: int| 0 <= j < items.len() ==> #[trigger] xs[j] == items@[j]@,
            lists_plan(*d, level as int, xs.take(i as int), *t, meta@) == Ok::<Seq<ListPlanModel>, ErrorModel>(
                list_plans_view(ls@),
            ),
        decreases items.len() - i,
    {
        assert(xs.take(i + 1).drop_last() =~= xs.take(i as int));
        assert(xs.take(i + 1).last() == items@[i as int]@);
        match &items[i] {
            JsonValue::Array(sub) => {
                match decode_list(d, next, sub, t, meta) {
                    Ok(l) => {
                        let ghost before = ls@;
                        ls.push(l);
                        assert(ls@.drop_last() =~= before);
                    },
                    Err(e) => {
                        proof {
                            lemma_lists_plan_prefix_err(*d, level as int, xs, *t, meta@, i + 1);
                        }
                        assert(xs.take(items.len() as int) =~= xs);
                        return Err(e);
                    },
                }
            },
            _ => {
                proof {
                    lemma_lists_plan_prefix_err(*d, level as int, xs, *t, meta@, i + 1);
                }
                assert(xs.take(items.len() as int) =~= xs);
                return Err(ErrorOf::ExpectedArrayForList(meta.name.clone()));
            },
        }
        i = i + 1;
    }
    assert(xs.take(i as int) =~= xs);
    Ok(ls)
}

/// How JSON text fills root struct `root`: the text is parsed with the
/// decoder's recursion limit, and its value decoded at depth zero.
pub open spec fn decoded_plan(d: Decoder, root: int, json: Seq<char>) -> Result<StructPlanModel, ErrorModel> {
    match document(json, d.options.recursion_limit as nat) {
        Err(e) => Err(e),
        Ok(v) => match struct_plan(d, 0, v, root, default_options(), seq![]) {
            Ok((p, _)) => Ok(p),
            Err(e) => Err(e),
        },
    }
}

/// Parses JSON text and decodes it into root struct `root`.
pub fn decode_json(d: &Decoder, root: usize, json: &str) -> (r: Result<StructPlan, Error>)
    requires
        decoder_wf(*d),
        root < d.structs.len(),
    ensures
        match (r, decoded_plan(*d, root as int, json@)) {
            (Ok(p), Ok(m)) => p@ == m,
            (Err(e), Err(m)) => e@ == m,
            _ => false,
        },
{
    let value = match parse_document(json, &d.options) {
        Ok(v) => v,
        Err(e) => return Err(e),
    };
    let meta = EncodingOptions::default();
    let mut taken: Vec<String> = Vec::new();
    assert(names_view(taken@) =~= Seq::<Seq<char>>::empty());
    decode_struct(d, 0, &value, root, &meta, &mut taken)
}

} // verus!
