use capnp_json::decode::{
    check_decoder, collect_number_texts, decode_json, decode_primitive, is_pointer_to_json_null, Decoder, FieldRef, FieldSchema, FieldType, FloatValue,
    ListPlan, Primitive, StructPlan, StructSchema, Write,
};
use capnp_json::encode::{serialize_json, Enumerant, Member, StructValue, Value};
use capnp_json::error::{ErrorOf, IntKind};
use capnp_json::options::{
    Annotation, CodecChoice, CodecOptions, DiscriminatorOptions, EncodingOptions, FlattenOptions,
};
use capnp_json::number::NumberDouble;
use capnp_json::parser::parse_document;
use capnp_json::JsonValue;

fn field(name: &str, ty: FieldType) -> FieldSchema {
    FieldSchema { name: name.to_string(), annotations: vec![], ty, field_override: false, type_override: false }
}

fn annotated(name: &str, ty: FieldType, annotations: Vec<Annotation>) -> FieldSchema {
    FieldSchema { name: name.to_string(), annotations, ty, field_override: false, type_override: false }
}

fn flatten(prefix: &str) -> Annotation {
    Annotation::Flatten(FlattenOptions { prefix: prefix.to_string() })
}

fn plain_struct(fields: Vec<FieldSchema>) -> StructSchema {
    StructSchema { codec: None, discriminator: None, fields, union_fields: vec![] }
}

fn decoder(structs: Vec<StructSchema>) -> Decoder {
    Decoder { structs, named_codecs: vec![], options: CodecOptions::default(), numbers: vec![] }
}

fn list_of(t: FieldType) -> FieldType {
    FieldType::List(Box::new(t))
}

fn writes(plan: StructPlan) -> Vec<Write> {
    match plan {
        StructPlan::Fields(ws) => ws,
        StructPlan::Custom(_) => panic!("expected field writes"),
    }
}

/// `TestJsonTypes`, as far as these tests read it.
fn json_types() -> Decoder {
    decoder(vec![plain_struct(vec![
        field("voidField", FieldType::Void),
        field("boolField", FieldType::Bool),
        field("int8Field", FieldType::Int8),
        field("uInt32Field", FieldType::UInt32),
        field("int64Field", FieldType::Int64),
        field("uInt64Field", FieldType::UInt64),
        field("float32Field", FieldType::Float32),
        field("textField", FieldType::Text),
        field("dataField", FieldType::Data),
        field("structField", FieldType::Struct(0)),
        field(
            "enumField",
            FieldType::Enum(vec![
                Enumerant { name: "foo".to_string(), annotations: vec![] },
                Enumerant { name: "bar".to_string(), annotations: vec![Annotation::Name("renamed".to_string())] },
            ]),
        ),
        field("textList", list_of(FieldType::Text)),
        field("float32List", list_of(FieldType::Float32)),
        field("structList", list_of(FieldType::Struct(0))),
        field("int8Lists", list_of(list_of(FieldType::Int8))),
        annotated("b64", FieldType::Data, vec![Annotation::Base64]),
    ])])
}

#[test]
fn test_decode_simple() {
    let d = json_types();
    let json = r#"{"voidField":null,"boolField":true,"int8Field":-7,"uInt64Field":"18446744073709551615","int64Field":-5,"textField":"hi","dataField":[1,2],"enumField":"renamed","structList":[{"int8Field":1},{}],"int8Lists":[[1],[]],"b64":"aGVsbG8=","unknown":3}"#;
    let ws = writes(decode_json(&d, 0, json).unwrap());
    assert!(matches!(&ws[0], Write::Assign(FieldRef::Plain(0), Primitive::Void)));
    assert!(matches!(&ws[1], Write::Assign(FieldRef::Plain(1), Primitive::Bool(true))));
    assert!(matches!(&ws[2], Write::Assign(FieldRef::Plain(2), Primitive::Int(-7))));
    assert!(matches!(&ws[3], Write::Assign(FieldRef::Plain(4), Primitive::Int(-5))));
    assert!(matches!(&ws[4], Write::Assign(FieldRef::Plain(5), Primitive::Int(n)) if *n == u64::MAX as i128));
    assert!(matches!(&ws[5], Write::Assign(FieldRef::Plain(7), Primitive::Text(t)) if t == "hi"));
    assert!(matches!(&ws[6], Write::Assign(FieldRef::Plain(8), Primitive::Data(d)) if d == &vec![1, 2]));
    assert!(matches!(&ws[7], Write::Assign(FieldRef::Plain(10), Primitive::Enum(1))));
    match &ws[8] {
        Write::List(FieldRef::Plain(13), ListPlan::Structs(ps)) => {
            assert_eq!(ps.len(), 2);
            assert!(matches!(&ps[0], StructPlan::Fields(w) if w.len() == 1));
            assert!(matches!(&ps[1], StructPlan::Fields(w) if w.is_empty()));
        },
        other => panic!("unexpected {other:?}"),
    }
    match &ws[9] {
        Write::List(FieldRef::Plain(14), ListPlan::Lists(ls)) => {
            assert!(matches!(&ls[0], ListPlan::Values(v) if matches!(&v[..], [Primitive::Int(1)])));
            assert!(matches!(&ls[1], ListPlan::Values(v) if v.is_empty()));
        },
        other => panic!("unexpected {other:?}"),
    }
    assert!(matches!(&ws[10], Write::Assign(FieldRef::Plain(15), Primitive::Data(d)) if d == b"hello"));
    assert_eq!(ws.len(), 11);
}

#[test]
fn null_means_absent_for_pointer_fields() {
    let d = json_types();
    let json = r#"{"textField":null,"dataField":null,"structField":null,"textList":null,"int8Field":7}"#;
    let ws = writes(decode_json(&d, 0, json).unwrap());
    assert_eq!(ws.len(), 1);
    assert!(matches!(&ws[0], Write::Assign(FieldRef::Plain(2), Primitive::Int(7))));
    assert!(is_pointer_to_json_null(&JsonValue::Null, &FieldType::Text));
    assert!(!is_pointer_to_json_null(&JsonValue::Null, &FieldType::Void));
}

#[test]
fn null_is_only_absence_for_pointer_types() {
    let d = json_types();
    assert_eq!(
        decode_json(&d, 0, r#"{"int8Field":null}"#).unwrap_err(),
        ErrorOf::ExpectedNumber("int8Field".to_string())
    );
    assert_eq!(
        decode_json(&d, 0, r#"{"uInt32Field":null}"#).unwrap_err(),
        ErrorOf::ExpectedNumber("uInt32Field".to_string())
    );
    assert_eq!(
        decode_json(&d, 0, r#"{"boolField":null}"#).unwrap_err(),
        ErrorOf::ExpectedBoolean("boolField".to_string())
    );
    assert_eq!(
        decode_json(&d, 0, r#"{"enumField":null}"#).unwrap_err(),
        ErrorOf::ExpectedEnumStringOrNumber("enumField".to_string())
    );
    let ws = writes(decode_json(&d, 0, r#"{"voidField":null}"#).unwrap());
    assert!(matches!(&ws[..], [Write::Assign(FieldRef::Plain(0), Primitive::Void)]));
}

#[test]
fn null_decodes_to_nan_for_floats() {
    let d = json_types();
    let ws = writes(decode_json(&d, 0, r#"{"float32Field":null,"float32List":[null,1.5]}"#).unwrap());
    assert!(matches!(&ws[0], Write::Assign(FieldRef::Plain(6), Primitive::Float(FloatValue::NaN))));
    match &ws[1] {
        Write::List(FieldRef::Plain(12), ListPlan::Values(vs)) => {
            assert!(matches!(&vs[0], Primitive::Float(FloatValue::NaN)));
            assert!(matches!(&vs[1], Primitive::Float(FloatValue::Number(t)) if t == "1.5"));
        },
        other => panic!("unexpected {other:?}"),
    }
}

#[test]
fn null_is_still_an_error_as_a_list_element() {
    let d = json_types();
    assert_eq!(
        decode_json(&d, 0, r#"{"textList":[null]}"#).unwrap_err(),
        ErrorOf::ExpectedString("textList".to_string())
    );
    assert_eq!(decode_json(&d, 0, r#"{"structList":[null]}"#).unwrap_err(), ErrorOf::ExpectedObject);
}

#[test]
fn out_of_range_integers_are_rejected() {
    let d = json_types();
    assert_eq!(
        decode_json(&d, 0, r#"{"int8Field":128}"#).unwrap_err(),
        ErrorOf::OutOfRange(IntKind::Int8, "int8Field".to_string(), "128".to_string())
    );
    assert_eq!(
        decode_json(&d, 0, r#"{"uInt32Field":-1}"#).unwrap_err(),
        ErrorOf::OutOfRange(IntKind::UInt32, "uInt32Field".to_string(), "-1".to_string())
    );
    assert_eq!(
        decode_json(&d, 0, r#"{"uInt64Field":"-1"}"#).unwrap_err(),
        ErrorOf::InvalidNumericString("-1".to_string(), "uInt64Field".to_string())
    );
}

#[test]
fn fractional_numbers_are_rejected_for_integers() {
    let d = json_types();
    assert_eq!(
        decode_json(&d, 0, r#"{"int8Field":1.5}"#).unwrap_err(),
        ErrorOf::NotAnInteger(IntKind::Int8, "int8Field".to_string(), "1.5".to_string())
    );
}

#[test]
fn in_range_integers_are_accepted() {
    let d = json_types();
    let ws = writes(decode_json(&d, 0, r#"{"int8Field":-128,"uInt32Field":4294967295}"#).unwrap());
    assert!(matches!(&ws[0], Write::Assign(_, Primitive::Int(-128))));
    assert!(matches!(&ws[1], Write::Assign(_, Primitive::Int(4294967295))));
}

#[test]
fn data_bytes_are_range_checked() {
    let d = json_types();
    assert_eq!(
        decode_json(&d, 0, r#"{"dataField":[1,256]}"#).unwrap_err(),
        ErrorOf::OutOfRange(IntKind::DataByte, "dataField".to_string(), "256".to_string())
    );
    assert_eq!(
        decode_json(&d, 0, r#"{"dataField":[true]}"#).unwrap_err(),
        ErrorOf::ExpectedNumberForDataByte("dataField".to_string())
    );
    assert_eq!(
        decode_json(&d, 0, r#"{"dataField":"AQ=="}"#).unwrap_err(),
        ErrorOf::ExpectedArrayForData("dataField".to_string())
    );
}

#[test]
fn floats_are_not_range_checked() {
    let d = json_types();
    let ws = writes(decode_json(&d, 0, r#"{"float32Field":1e300}"#).unwrap());
    assert!(matches!(&ws[0], Write::Assign(_, Primitive::Float(FloatValue::Number(t))) if t == "1e300"));
}

#[test]
fn non_finite_strings_are_rejected_for_integers() {
    let d = json_types();
    assert_eq!(
        decode_json(&d, 0, r#"{"int64Field":"NaN"}"#).unwrap_err(),
        ErrorOf::InvalidNumericString("NaN".to_string(), "int64Field".to_string())
    );
    assert_eq!(
        decode_json(&d, 0, r#"{"int8Field":"1"}"#).unwrap_err(),
        ErrorOf::ExpectedNumber("int8Field".to_string())
    );
}

#[test]
fn primitive_errors_name_the_field() {
    let mut meta = EncodingOptions::default();
    meta.name = "f".to_string();
    let one = JsonValue::Number("1".to_string());
    assert_eq!(decode_primitive(&one, &FieldType::Void, &meta, &vec![]).unwrap_err(), ErrorOf::ExpectedNull("f".to_string()));
    assert_eq!(decode_primitive(&one, &FieldType::Text, &meta, &vec![]).unwrap_err(), ErrorOf::ExpectedString("f".to_string()));
    assert_eq!(
        decode_primitive(&JsonValue::Null, &FieldType::Int64, &meta, &vec![]).unwrap_err(),
        ErrorOf::ExpectedNumberOrString("f".to_string())
    );
    assert_eq!(
        decode_primitive(&JsonValue::Null, &FieldType::UInt64, &meta, &vec![]).unwrap_err(),
        ErrorOf::ExpectedStringNumber("f".to_string())
    );
    assert_eq!(
        decode_primitive(&JsonValue::String("Inf".to_string()), &FieldType::Float64, &meta, &vec![]).unwrap_err(),
        ErrorOf::ExpectedNumber("f".to_string())
    );
    assert!(matches!(
        decode_primitive(&JsonValue::String("-Infinity".to_string()), &FieldType::Float64, &meta, &vec![]),
        Ok(Primitive::Float(FloatValue::NegInfinity))
    ));
    assert_eq!(
        decode_primitive(&one, &FieldType::AnyPointer, &meta, &vec![]).unwrap_err(),
        ErrorOf::UnsupportedPrimitive("f".to_string())
    );
    let e = FieldType::Enum(vec![Enumerant { name: "a".to_string(), annotations: vec![] }]);
    assert_eq!(
        decode_primitive(&JsonValue::String("b".to_string()), &e, &meta, &vec![]).unwrap_err(),
        ErrorOf::InvalidEnumValue("b".to_string(), "f".to_string())
    );
    assert!(matches!(decode_primitive(&JsonValue::Number("9".to_string()), &e, &meta, &vec![]), Ok(Primitive::Enum(9))));
    meta.data_encoding = capnp_json::options::DataEncoding::Hex;
    assert_eq!(
        decode_primitive(&one, &FieldType::Data, &meta, &vec![]).unwrap_err(),
        ErrorOf::ExpectedStringForHex("f".to_string())
    );
    assert_eq!(
        decode_primitive(&JsonValue::String("0".to_string()), &FieldType::Data, &meta, &vec![]).unwrap_err(),
        ErrorOf::Data(capnp_json::data::DataError::HexOddLength)
    );
    meta.data_encoding = capnp_json::options::DataEncoding::Base64;
    assert_eq!(
        decode_primitive(&one, &FieldType::Data, &meta, &vec![]).unwrap_err(),
        ErrorOf::ExpectedStringForBase64("f".to_string())
    );
}

/// `SelfStruct { value :Int32; inner :SelfStruct; }`.
fn self_struct() -> Decoder {
    decoder(vec![plain_struct(vec![field("value", FieldType::Int32), field("inner", FieldType::Struct(0))])])
}

fn nested(depth: usize) -> String {
    let mut s = String::new();
    for _ in 0..depth {
        s.push_str(r#"{"inner":"#);
    }
    s.push_str(r#"{"value":7}"#);
    for _ in 0..depth {
        s.push('}');
    }
    s
}

#[test]
fn recursion_limit_object_nesting_boundary() {
    let d = self_struct();
    let limit = CodecOptions::default().recursion_limit;
    let deepest_accepted = limit - 1;

    let mut plan = decode_json(&d, 0, &nested(deepest_accepted)).unwrap();
    for _ in 0..deepest_accepted {
        let mut ws = writes(plan);
        assert_eq!(ws.len(), 1);
        plan = match ws.pop().unwrap() {
            Write::Struct(FieldRef::Plain(1), p) => p,
            other => panic!("unexpected {other:?}"),
        };
    }
    let ws = writes(plan);
    assert!(matches!(&ws[..], [Write::Assign(FieldRef::Plain(0), Primitive::Int(7))]));

    assert_eq!(
        decode_json(&d, 0, &nested(deepest_accepted + 1)).unwrap_err(),
        ErrorOf::RecursionLimitParsing
    );
}

#[test]
fn recursion_limit_is_configurable() {
    let mut d = self_struct();
    d.options.recursion_limit = 2;
    assert!(decode_json(&d, 0, &nested(1)).is_ok());
    assert_eq!(decode_json(&d, 0, &nested(2)).unwrap_err(), ErrorOf::RecursionLimitParsing);
}

/// `CyclicFlatten { inner :CyclicFlatten $Json.flatten(prefix = "i."); value :Int32; }`.
#[test]
fn cyclic_flatten_is_not_checked_by_decode() {
    let d = decoder(vec![plain_struct(vec![
        annotated("inner", FieldType::Struct(0), vec![flatten("i.")]),
        field("value", FieldType::Int32),
    ])]);
    for json in [r#"{}"#, r#"{"value":1}"#, r#"{"i.value":1}"#] {
        assert_eq!(decode_json(&d, 0, json).unwrap_err(), ErrorOf::RecursionLimitDecoding);
    }
}

/// `MutualOneFlatA { b :MutualOneFlatB $Json.flatten(); value :Int32; }` and
/// `MutualOneFlatB { a :MutualOneFlatA; other :Int32; }`.
#[test]
fn non_cyclic_flatten_still_round_trips() {
    let d = decoder(vec![
        plain_struct(vec![
            annotated("b", FieldType::Struct(1), vec![flatten("")]),
            field("value", FieldType::Int32),
        ]),
        plain_struct(vec![field("a", FieldType::Struct(0)), field("other", FieldType::Int32)]),
    ]);
    let ws = writes(decode_json(&d, 0, r#"{"a":{"value":3},"other":4,"value":9}"#).unwrap());
    assert_eq!(ws.len(), 2);
    let Write::Flattened(FieldRef::Plain(0), StructPlan::Fields(b)) = &ws[0] else { panic!("expected b") };
    assert_eq!(b.len(), 2);
    // The inner `a` names nothing of its own flattened `b`, which is not created.
    let Write::Struct(FieldRef::Plain(0), StructPlan::Fields(a)) = &b[0] else { panic!("expected a") };
    assert!(matches!(&a[..], [Write::Assign(FieldRef::Plain(1), Primitive::Int(3))]));
    assert!(matches!(&b[1], Write::Assign(FieldRef::Plain(1), Primitive::Int(4))));
    assert!(matches!(&ws[1], Write::Assign(FieldRef::Plain(1), Primitive::Int(9))));
}

/// `FlattenLazy { top :Int32; outer :Outer $Json.flatten(); }`,
/// `Outer { a :Text; inner :Inner $Json.flatten(prefix = "in."); }`,
/// `Inner { b :Text; }`.
fn flatten_lazy() -> Decoder {
    decoder(vec![
        plain_struct(vec![
            field("top", FieldType::Int32),
            annotated("outer", FieldType::Struct(1), vec![flatten("")]),
        ]),
        plain_struct(vec![
            field("a", FieldType::Text),
            annotated("inner", FieldType::Struct(2), vec![flatten("in.")]),
        ]),
        plain_struct(vec![field("b", FieldType::Text)]),
    ])
}

#[test]
fn flattened_field_absent_is_not_created() {
    let d = flatten_lazy();
    assert!(writes(decode_json(&d, 0, "{}").unwrap()).is_empty());
    let ws = writes(decode_json(&d, 0, r#"{"top":7}"#).unwrap());
    assert!(matches!(&ws[..], [Write::Assign(FieldRef::Plain(0), Primitive::Int(7))]));
}

#[test]
fn flattened_field_is_created_when_named() {
    let d = flatten_lazy();
    let ws = writes(decode_json(&d, 0, r#"{"a":"x"}"#).unwrap());
    let [Write::Flattened(FieldRef::Plain(1), StructPlan::Fields(outer))] = &ws[..] else { panic!("{ws:?}") };
    assert!(matches!(&outer[..], [Write::Assign(FieldRef::Plain(0), Primitive::Text(t))] if t == "x"));
}

#[test]
fn nested_flattened_field_creates_its_parents() {
    let d = flatten_lazy();
    let ws = writes(decode_json(&d, 0, r#"{"in.b":"y"}"#).unwrap());
    let [Write::Flattened(FieldRef::Plain(1), StructPlan::Fields(outer))] = &ws[..] else { panic!("{ws:?}") };
    let [Write::Flattened(FieldRef::Plain(1), StructPlan::Fields(inner))] = &outer[..] else { panic!("{outer:?}") };
    assert!(matches!(&inner[..], [Write::Assign(FieldRef::Plain(0), Primitive::Text(t))] if t == "y"));
    // The prefix is required.
    assert!(writes(decode_json(&d, 0, r#"{"b":"y"}"#).unwrap()).is_empty());
}

/// `TestJsonAnnotations3 $Json.discriminator(name = "type")
///   { union { foo :UInt32; bar :TestFlattenedStruct $Json.flatten(); } }`.
#[test]
fn flattened_union_member_is_activated_by_its_tag() {
    let d = decoder(vec![
        StructSchema {
            codec: None,
            discriminator: Some(DiscriminatorOptions { name: Some("type".to_string()), value_name: None }),
            fields: vec![],
            union_fields: vec![
                field("foo", FieldType::UInt32),
                annotated("bar", FieldType::Struct(1), vec![flatten("")]),
            ],
        },
        plain_struct(vec![field("value", FieldType::Text)]),
    ]);
    let ws = writes(decode_json(&d, 0, r#"{"type":"bar","value":"v"}"#).unwrap());
    let [Write::Flattened(FieldRef::Union(1), StructPlan::Fields(bar))] = &ws[..] else { panic!("{ws:?}") };
    assert!(matches!(&bar[..], [Write::Assign(FieldRef::Plain(0), Primitive::Text(t))] if t == "v"));

    let ws = writes(decode_json(&d, 0, r#"{"type":"bar"}"#).unwrap());
    assert!(matches!(&ws[..], [Write::Flattened(FieldRef::Union(1), StructPlan::Fields(b))] if b.is_empty()));

    // Without a tag, the first member present is the active one.
    let ws = writes(decode_json(&d, 0, r#"{"foo":5}"#).unwrap());
    assert!(matches!(&ws[..], [Write::Assign(FieldRef::Union(0), Primitive::Int(5))]));
}

/// `UnnamedDiscriminator { baz :union $Json.discriminator() { foo :Text; bar :UInt32; }
///   sbaz :union $Json.flatten() $Json.discriminator() { sfoo :Text; sbar :UInt32; } }`.
#[test]
fn test_encode_decode_no_name_discriminator() {
    let no_name = || Annotation::Discriminator(DiscriminatorOptions { name: None, value_name: None });
    let union_group = |a: &str, ta: FieldType, b: &str, tb: FieldType| StructSchema {
        codec: None,
        discriminator: None,
        fields: vec![],
        union_fields: vec![field(a, ta), field(b, tb)],
    };
    let d = decoder(vec![
        plain_struct(vec![
            annotated("baz", FieldType::Struct(1), vec![no_name()]),
            annotated("sbaz", FieldType::Struct(2), vec![flatten(""), no_name()]),
        ]),
        union_group("foo", FieldType::Text, "bar", FieldType::UInt32),
        union_group("sfoo", FieldType::Text, "sbar", FieldType::UInt32),
    ]);
    let ws = writes(decode_json(&d, 0, r#"{"baz":{"bar":100},"sbaz":"sfoo","sfoo":"Hello"}"#).unwrap());
    let Write::Struct(FieldRef::Plain(0), StructPlan::Fields(baz)) = &ws[0] else { panic!("{ws:?}") };
    assert!(matches!(&baz[..], [Write::Assign(FieldRef::Union(1), Primitive::Int(100))]));
    let Write::Flattened(FieldRef::Plain(1), StructPlan::Fields(sbaz)) = &ws[1] else { panic!("{ws:?}") };
    assert!(matches!(&sbaz[..], [Write::Assign(FieldRef::Union(0), Primitive::Text(t))] if t == "Hello"));
}

#[test]
fn test_decode_union_with_void() {
    let d = decoder(vec![
        plain_struct(vec![field("unionWithVoid", FieldType::Struct(1))]),
        StructSchema {
            codec: None,
            discriminator: None,
            fields: vec![],
            union_fields: vec![
                field("intValue", FieldType::UInt32),
                field("voidValue", FieldType::Void),
                field("textValue", FieldType::Text),
            ],
        },
    ]);
    let mut d = d;
    d.structs[0].fields[0].annotations =
        vec![Annotation::Discriminator(DiscriminatorOptions { name: Some("type".to_string()), value_name: None })];
    let ws = writes(decode_json(&d, 0, r#" { "unionWithVoid": { "type": "voidValue" } } "#).unwrap());
    let Write::Struct(FieldRef::Plain(0), StructPlan::Fields(u)) = &ws[0] else { panic!("{ws:?}") };
    assert!(matches!(&u[..], [Write::Assign(FieldRef::Union(1), Primitive::Void)]));
}

#[test]
fn custom_codecs_take_the_json() {
    let mut d = json_types();
    d.structs[0].fields[2].field_override = true;
    let ws = writes(decode_json(&d, 0, r#"{"int8Field":"anything","boolField":false}"#).unwrap());
    assert!(matches!(&ws[0], Write::Assign(FieldRef::Plain(1), Primitive::Bool(false))));
    assert!(matches!(
        &ws[1],
        Write::Custom(FieldRef::Plain(2), JsonValue::String(s), CodecChoice::FieldOverride)
            if s == "anything"
    ));

    let mut d = self_struct();
    d.named_codecs = vec!["whole".to_string()];
    d.structs[0].codec = Some("whole".to_string());
    let plan = decode_json(&d, 0, r#"{"value":1}"#).unwrap();
    assert!(matches!(plan, StructPlan::Custom(JsonValue::Object(m)) if m.len() == 1));
}

#[test]
fn any_pointer_is_not_decoded() {
    let d = decoder(vec![plain_struct(vec![field("p", FieldType::AnyPointer), field("c", FieldType::Capability)])]);
    assert!(writes(decode_json(&d, 0, "{}").unwrap()).is_empty());
    assert_eq!(decode_json(&d, 0, r#"{"p":1}"#).unwrap_err(), ErrorOf::AnyPointerNotRepresentable);
    assert_eq!(decode_json(&d, 0, r#"{"c":1}"#).unwrap_err(), ErrorOf::CapabilityNotRepresentable);
}

#[test]
fn shape_errors_are_reported() {
    let d = json_types();
    assert_eq!(decode_json(&d, 0, "[]").unwrap_err(), ErrorOf::ExpectedObject);
    assert_eq!(
        decode_json(&d, 0, r#"{"textList":"x"}"#).unwrap_err(),
        ErrorOf::ExpectedArray("textList".to_string())
    );
    assert_eq!(
        decode_json(&d, 0, r#"{"int8Lists":[1]}"#).unwrap_err(),
        ErrorOf::ExpectedArrayForList("int8Lists".to_string())
    );
    assert_eq!(decode_json(&d, 0, r#"{} x"#).unwrap_err(), ErrorOf::TrailingCharacters);
}

/// `TestAnyPointer { anyPointerField :AnyPointer; }`.
fn any_pointer_struct() -> Decoder {
    decoder(vec![plain_struct(vec![field("anyPointerField", FieldType::AnyPointer)])])
}

#[test]
fn recursion_level_limit() {
    let mut d = any_pointer_struct();
    d.options.recursion_limit = 2;
    for json in [
        r#"{"anyPointerField":[[["too deep"]]]}"#,
        r#"{"anyPointerField":{"anyPointerField":{"anyPointerField":"too deep"}}}"#,
        r#"{"anyPointerField":[{"anyPointerField":{"anyPointerField":"too deep"}}]}"#,
    ] {
        assert_eq!(decode_json(&d, 0, json).unwrap_err(), ErrorOf::RecursionLimitParsing);
    }
}

/// `SelfList { value :Int32; children :List(SelfList); }`.
fn self_list() -> Decoder {
    decoder(vec![plain_struct(vec![field("value", FieldType::Int32), field("children", list_of(FieldType::Struct(0)))])])
}

fn nested_children(depth: usize) -> String {
    let mut s = String::new();
    for _ in 0..depth {
        s.push_str(r#"{"children":["#);
    }
    s.push_str(r#"{"value":7}"#);
    for _ in 0..depth {
        s.push_str("]}");
    }
    s
}

#[test]
fn recursion_limit_list_of_structs() {
    let d = self_list();
    let mut plan = decode_json(&d, 0, &nested_children(20)).unwrap();
    for _ in 0..20 {
        let ws = writes(plan);
        assert_eq!(ws.len(), 1);
        plan = match ws.into_iter().next().unwrap() {
            Write::List(FieldRef::Plain(1), ListPlan::Structs(ps)) => {
                assert_eq!(ps.len(), 1);
                ps.into_iter().next().unwrap()
            },
            other => panic!("unexpected {other:?}"),
        };
    }
    let ws = writes(plan);
    assert!(matches!(&ws[..], [Write::Assign(FieldRef::Plain(0), Primitive::Int(7))]));

    let e = decode_json(&d, 0, &nested_children(500)).unwrap_err();
    assert!(matches!(e, ErrorOf::RecursionLimitParsing | ErrorOf::RecursionLimitDecoding), "unexpected error: {e:?}");
}

#[test]
fn recursion_limit_nested_lists() {
    let d = decoder(vec![plain_struct(vec![field(
        "primListListList",
        list_of(list_of(list_of(FieldType::Int32))),
    )])]);
    let depth = 500;
    let mut json = String::from(r#"{"primListListList":"#);
    for _ in 0..depth {
        json.push('[');
    }
    for _ in 0..depth {
        json.push(']');
    }
    json.push('}');
    assert_eq!(decode_json(&d, 0, &json).unwrap_err(), ErrorOf::RecursionLimitParsing);
}

#[test]
fn deeply_nested_hostile_input_does_not_abort() {
    let d = self_struct();
    for depth in [1_000usize, 100_000, 1_000_000] {
        let mut json = String::from(r#"{"inner":"#);
        for _ in 0..depth {
            json.push('[');
        }
        assert_eq!(decode_json(&d, 0, &json).unwrap_err(), ErrorOf::RecursionLimitParsing, "depth {depth}");
    }
}

#[test]
fn test_decode_nested_data_list() {
    let d = decoder(vec![plain_struct(vec![annotated(
        "dataAllTheWayDown",
        list_of(list_of(FieldType::Data)),
        vec![Annotation::Hex],
    )])]);
    let json = r#"{"dataAllTheWayDown":[["deadbeef","efbeadde"],["badf00d0"]]}"#;
    let ws = writes(decode_json(&d, 0, json).unwrap());
    assert_eq!(ws.len(), 1);
    match &ws[0] {
        Write::List(FieldRef::Plain(0), ListPlan::Lists(ls)) => {
            assert_eq!(ls.len(), 2);
            match (&ls[0], &ls[1]) {
                (ListPlan::Values(first), ListPlan::Values(second)) => {
                    assert_eq!(first.len(), 2);
                    assert!(matches!(&first[0], Primitive::Data(b) if b == &vec![0xde, 0xad, 0xbe, 0xef]));
                    assert!(matches!(&first[1], Primitive::Data(b) if b == &vec![0xef, 0xbe, 0xad, 0xde]));
                    assert_eq!(second.len(), 1);
                    assert!(matches!(&second[0], Primitive::Data(b) if b == &vec![0xba, 0xdf, 0x00, 0xd0]));
                },
                other => panic!("unexpected {other:?}"),
            }
        },
        other => panic!("unexpected {other:?}"),
    }
}

/// `TestBase64Union { union { foo :Data $Json.base64; bar :Text; } }`, and
/// the same with `foo` renamed `renamed-foo`.
fn base64_union(renamed: bool) -> Decoder {
    let foo = if renamed {
        annotated("foo", FieldType::Data, vec![Annotation::Base64, Annotation::Name("renamed-foo".to_string())])
    } else {
        annotated("foo", FieldType::Data, vec![Annotation::Base64])
    };
    decoder(vec![StructSchema {
        codec: None,
        discriminator: None,
        fields: vec![],
        union_fields: vec![foo, field("bar", FieldType::Text)],
    }])
}

#[test]
fn test_decode_base64_union() {
    let deadbeef = vec![0xde, 0xad, 0xbe, 0xef];
    let d = base64_union(false);
    let ws = writes(decode_json(&d, 0, r#"{"foo":"3q2+7w=="}"#).unwrap());
    assert!(matches!(&ws[..], [Write::Assign(FieldRef::Union(0), Primitive::Data(b))] if b == &deadbeef));

    let ws = writes(decode_json(&d, 0, r#"{"bar":"To the bar!"}"#).unwrap());
    assert!(matches!(&ws[..], [Write::Assign(FieldRef::Union(1), Primitive::Text(t))] if t == "To the bar!"));

    // When both variants are present, the first one in the schema wins.
    let ws = writes(decode_json(&d, 0, r#"{"bar":"To the bar!","foo":"3q2+7w=="}"#).unwrap());
    assert!(matches!(&ws[..], [Write::Assign(FieldRef::Union(0), Primitive::Data(b))] if b == &deadbeef));

    let d = base64_union(true);
    let ws = writes(decode_json(&d, 0, r#"{"bar":"To the bar!","foo":"3q2+7w=="}"#).unwrap());
    assert!(matches!(&ws[..], [Write::Assign(FieldRef::Union(1), Primitive::Text(t))] if t == "To the bar!"));

    let ws = writes(decode_json(&d, 0, r#"{"bar":"To the bar!","renamed-foo":"3q2+7w=="}"#).unwrap());
    assert!(matches!(&ws[..], [Write::Assign(FieldRef::Union(0), Primitive::Data(b))] if b == &deadbeef));
}

fn named(name: &str) -> Annotation {
    Annotation::Name(name.to_string())
}

fn disc(name: Option<&str>, value_name: Option<&str>) -> Annotation {
    Annotation::Discriminator(DiscriminatorOptions {
        name: name.map(|s| s.to_string()),
        value_name: value_name.map(|s| s.to_string()),
    })
}

fn union_only(union_fields: Vec<FieldSchema>) -> StructSchema {
    StructSchema { codec: None, discriminator: None, fields: vec![], union_fields }
}

/// `TestJsonAnnotations` and the types it uses, as far as these tests read
/// them; its groups are structs of their own.
fn json_annotations() -> Decoder {
    let enums = FieldType::Enum(vec![
        Enumerant { name: "foo".to_string(), annotations: vec![] },
        Enumerant { name: "bar".to_string(), annotations: vec![named("renamed-bar")] },
        Enumerant { name: "baz".to_string(), annotations: vec![named("renamed-baz")] },
        Enumerant { name: "qux".to_string(), annotations: vec![] },
    ]);
    decoder(vec![
        // 0: TestJsonAnnotations
        plain_struct(vec![
            annotated("someField", FieldType::Text, vec![named("names-can_contain!anything Really")]),
            annotated("aGroup", FieldType::Struct(1), vec![flatten("")]),
            annotated("prefixedGroup", FieldType::Struct(4), vec![flatten("pfx.")]),
            annotated("aUnion", FieldType::Struct(7), vec![flatten(""), disc(Some("union-type"), None)]),
            field("dependency", FieldType::Struct(10)),
            field("simpleGroup", FieldType::Struct(11)),
            field("enums", list_of(enums)),
            annotated("bUnion", FieldType::Struct(12), vec![flatten(""), disc(None, Some("bValue"))]),
            field("externalUnion", FieldType::Struct(13)),
            annotated("unionWithVoid", FieldType::Struct(15), vec![disc(Some("type"), None)]),
        ]),
        // 1: aGroup
        plain_struct(vec![
            field("flatFoo", FieldType::UInt32),
            field("flatBar", FieldType::Text),
            annotated("flatBaz", FieldType::Struct(2), vec![named("renamed-flatBaz")]),
            annotated("doubleFlat", FieldType::Struct(3), vec![flatten("")]),
        ]),
        // 2: aGroup.flatBaz
        plain_struct(vec![field("hello", FieldType::Bool)]),
        // 3: aGroup.doubleFlat
        plain_struct(vec![field("flatQux", FieldType::Text)]),
        // 4: prefixedGroup
        plain_struct(vec![
            field("foo", FieldType::Text),
            annotated("bar", FieldType::UInt32, vec![named("renamed-bar")]),
            field("baz", FieldType::Struct(5)),
            annotated("morePrefix", FieldType::Struct(6), vec![flatten("xfp.")]),
        ]),
        // 5: prefixedGroup.baz
        plain_struct(vec![field("hello", FieldType::Bool)]),
        // 6: prefixedGroup.morePrefix
        plain_struct(vec![field("qux", FieldType::Text)]),
        // 7: aUnion
        union_only(vec![
            annotated("foo", FieldType::Struct(8), vec![flatten("")]),
            annotated("bar", FieldType::Struct(9), vec![flatten(""), named("renamed-bar")]),
        ]),
        // 8: aUnion.foo
        plain_struct(vec![field("fooMember", FieldType::Text), field("multiMember", FieldType::UInt32)]),
        // 9: aUnion.bar
        plain_struct(vec![field("barMember", FieldType::UInt32), field("multiMember", FieldType::Text)]),
        // 10: TestJsonAnnotations2
        plain_struct(vec![
            annotated("foo", FieldType::Text, vec![named("renamed-foo")]),
            field("cycle", FieldType::Struct(0)),
        ]),
        // 11: simpleGroup
        plain_struct(vec![annotated("grault", FieldType::Text, vec![named("renamed-grault")])]),
        // 12: bUnion
        union_only(vec![field("foo", FieldType::Text), annotated("bar", FieldType::UInt32, vec![named("renamed-bar")])]),
        // 13: TestJsonAnnotations3
        StructSchema {
            codec: None,
            discriminator: Some(DiscriminatorOptions { name: Some("type".to_string()), value_name: None }),
            fields: vec![],
            union_fields: vec![
                field("foo", FieldType::UInt32),
                annotated("bar", FieldType::Struct(14), vec![flatten("")]),
            ],
        },
        // 14: TestFlattenedStruct
        plain_struct(vec![field("value", FieldType::Text)]),
        // 15: unionWithVoid
        union_only(vec![
            field("intValue", FieldType::UInt32),
            field("voidValue", FieldType::Void),
            field("textValue", FieldType::Text),
        ]),
    ])
}

fn fields_of(plan: &StructPlan) -> &Vec<Write> {
    match plan {
        StructPlan::Fields(ws) => ws,
        StructPlan::Custom(_) => panic!("expected field writes"),
    }
}

#[test]
fn test_decode_flattened() {
    let d = json_annotations();
    let j = r#"
        {
          "names-can_contain!anything Really": "Some Field",
          "flatFoo": 1234,
          "flatBar": "0xBaa",
          "renamed-flatBaz": {"hello": true},
          "flatQux": "Qux",
          "pfx.baz": {"hello": true},
          "union-type": "renamed-bar",
          "barMember": 2731,
          "multiMember": "Member",
          "bUnion": "renamed-bar",
          "bValue": 100
        }
      "#;
    let ws = writes(decode_json(&d, 0, j).unwrap());
    assert_eq!(ws.len(), 5);
    assert!(matches!(&ws[0], Write::Assign(FieldRef::Plain(0), Primitive::Text(t)) if t == "Some Field"));
    match &ws[1] {
        Write::Flattened(FieldRef::Plain(1), p) => {
            let g = fields_of(p);
            assert_eq!(g.len(), 4);
            assert!(matches!(&g[0], Write::Assign(FieldRef::Plain(0), Primitive::Int(1234))));
            assert!(matches!(&g[1], Write::Assign(FieldRef::Plain(1), Primitive::Text(t)) if t == "0xBaa"));
            assert!(matches!(&g[2], Write::Struct(FieldRef::Plain(2), q)
                if matches!(&fields_of(q)[..], [Write::Assign(FieldRef::Plain(0), Primitive::Bool(true))])));
            assert!(matches!(&g[3], Write::Flattened(FieldRef::Plain(3), q)
                if matches!(&fields_of(q)[..], [Write::Assign(FieldRef::Plain(0), Primitive::Text(t))] if t == "Qux")));
        },
        other => panic!("unexpected {other:?}"),
    }
    match &ws[2] {
        Write::Flattened(FieldRef::Plain(2), p) => {
            assert!(matches!(&fields_of(p)[..], [Write::Struct(FieldRef::Plain(2), q)]
                if matches!(&fields_of(q)[..], [Write::Assign(FieldRef::Plain(0), Primitive::Bool(true))])));
        },
        other => panic!("unexpected {other:?}"),
    }
    match &ws[3] {
        Write::Flattened(FieldRef::Plain(3), p) => match &fields_of(p)[..] {
            [Write::Flattened(FieldRef::Union(1), bar)] => {
                let b = fields_of(bar);
                assert_eq!(b.len(), 2);
                assert!(matches!(&b[0], Write::Assign(FieldRef::Plain(0), Primitive::Int(2731))));
                assert!(matches!(&b[1], Write::Assign(FieldRef::Plain(1), Primitive::Text(t)) if t == "Member"));
            },
            other => panic!("unexpected {other:?}"),
        },
        other => panic!("unexpected {other:?}"),
    }
    match &ws[4] {
        Write::Flattened(FieldRef::Plain(7), p) => {
            assert!(matches!(&fields_of(p)[..], [Write::Assign(FieldRef::Union(1), Primitive::Int(100))]));
        },
        other => panic!("unexpected {other:?}"),
    }
}

#[test]
fn decoding_does_not_wipe_an_existing_flattened_field() {
    // The plan touches only what the JSON names: `outer` gets no write, so
    // whatever the builder holds there stays.
    let d = flatten_lazy();
    let ws = writes(decode_json(&d, 0, r#"{"top":3}"#).unwrap());
    assert!(matches!(&ws[..], [Write::Assign(FieldRef::Plain(0), Primitive::Int(3))]));
}

#[test]
fn decoding_does_not_clear_an_existing_flattened_group() {
    let d = json_annotations();
    let ws = writes(decode_json(&d, 0, r#"{"names-can_contain!anything Really":"x"}"#).unwrap());
    assert!(matches!(&ws[..], [Write::Assign(FieldRef::Plain(0), Primitive::Text(t))] if t == "x"));
}

#[test]
fn any_pointer_is_decoded_with_override() {
    let mut d = any_pointer_struct();
    d.structs[0].fields[0].field_override = true;
    let ws = writes(decode_json(&d, 0, r#"{"anyPointerField":{"textField":"Hello"}}"#).unwrap());
    match &ws[..] {
        [Write::Custom(FieldRef::Plain(0), JsonValue::Object(m), CodecChoice::FieldOverride)] => {
            assert_eq!(m.len(), 1);
            assert_eq!(m[0].0, "textField");
            assert!(matches!(&m[0].1, JsonValue::String(s) if s == "Hello"));
        },
        other => panic!("unexpected {other:?}"),
    }
}

#[test]
fn any_pointer_null_does_not_prevent_decoding() {
    let d = any_pointer_struct();
    assert!(writes(decode_json(&d, 0, "{}").unwrap()).is_empty());
}

/// `StructWithCustomCodec { structLevel :TestCustomCodec; fieldLevel :Text
/// $Rust.codec("TestFieldCodec"); }`, `TestCustomCodec` carrying
/// `$Rust.codec("TestCodec")`.
fn struct_with_custom_codec() -> Decoder {
    let mut d = decoder(vec![
        plain_struct(vec![
            field("structLevel", FieldType::Struct(1)),
            annotated("fieldLevel", FieldType::Text, vec![Annotation::Codec("TestFieldCodec".to_string())]),
        ]),
        StructSchema {
            codec: Some("TestCodec".to_string()),
            discriminator: None,
            fields: vec![field("something", FieldType::AnyPointer)],
            union_fields: vec![],
        },
    ]);
    d.named_codecs = vec!["TestCodec".to_string(), "TestFieldCodec".to_string()];
    d
}

#[test]
fn custom_codec_decode() {
    let d = struct_with_custom_codec();
    let json = r#"{"structLevel":{"test":"Inside"},"fieldLevel":{"prefix":"Hello, ","suffix":"!", "value": "World"}}"#;
    let ws = writes(decode_json(&d, 0, json).unwrap());
    assert_eq!(ws.len(), 2);
    match &ws[0] {
        Write::Struct(FieldRef::Plain(0), StructPlan::Custom(JsonValue::Object(m))) => {
            assert_eq!(m.len(), 1);
            assert_eq!(m[0].0, "test");
            assert!(matches!(&m[0].1, JsonValue::String(s) if s == "Inside"));
        },
        other => panic!("unexpected {other:?}"),
    }
    match &ws[1] {
        Write::Custom(FieldRef::Plain(1), JsonValue::Object(m), CodecChoice::Named) => {
            let keys: Vec<&str> = m.iter().map(|(k, _)| k.as_str()).collect();
            assert_eq!(keys, vec!["prefix", "suffix", "value"]);
        },
        other => panic!("unexpected {other:?}"),
    }
}

#[test]
fn type_overrides_decode() {
    let mut d = json_annotations();
    d.structs[0].fields[1].type_override = true;
    let json = r#"{"aGroup":"Overridden","pfx.renamed-bar":0,"pfx.baz":{"hello":false},"union-type":"foo","multiMember":0,"simpleGroup":{},"unionWithVoid":{"type":"intValue","intValue":0}}"#;
    let ws = writes(decode_json(&d, 0, json).unwrap());
    assert!(matches!(
        &ws[0],
        Write::Custom(FieldRef::Plain(1), JsonValue::String(s), CodecChoice::TypeOverride) if s == "Overridden"
    ));
    assert_eq!(ws.len(), 5);
    assert!(matches!(&ws[1], Write::Flattened(FieldRef::Plain(2), _)));
    match &ws[2] {
        Write::Flattened(FieldRef::Plain(3), p) => {
            assert!(matches!(&fields_of(p)[..], [Write::Flattened(FieldRef::Union(0), q)]
                if matches!(&fields_of(q)[..], [Write::Assign(FieldRef::Plain(1), Primitive::Int(0))])));
        },
        other => panic!("unexpected {other:?}"),
    }
    assert!(matches!(&ws[3], Write::Struct(FieldRef::Plain(5), p) if fields_of(p).is_empty()));
    match &ws[4] {
        Write::Struct(FieldRef::Plain(9), p) => {
            assert!(matches!(&fields_of(p)[..], [Write::Assign(FieldRef::Union(0), Primitive::Int(0))]));
        },
        other => panic!("unexpected {other:?}"),
    }
}

/// The decoder with the doubles of `json`'s number texts, as a program
/// built on the library supplies them.
fn with_doubles(mut d: Decoder, json: &str) -> Decoder {
    let mut texts = Vec::new();
    if let Ok(v) = parse_document(json, &d.options) {
        collect_number_texts(&v, &mut texts);
    }
    d.numbers = texts
        .iter()
        .map(|t| {
            let v: f64 = t.parse().unwrap();
            let tr = v.trunc();
            NumberDouble { text: t.clone(), trunc: tr as i128, integral: tr == v }
        })
        .collect();
    d
}

#[test]
fn number_texts_are_collected_in_document_order() {
    let v = parse_document(r#"{"a":[1,{"b":-2.5e3}],"c":"7","d":0}"#, &CodecOptions::default()).unwrap();
    let mut texts = vec!["x".to_string()];
    collect_number_texts(&v, &mut texts);
    assert_eq!(texts, vec!["x", "1", "-2.5e3", "0"]);
}

#[test]
fn integer_fields_read_numbers_as_doubles() {
    let base = decoder(vec![plain_struct(vec![
        field("i64", FieldType::Int64),
        field("i8", FieldType::Int8),
        field("e", FieldType::Enum(vec![])),
        field("d", FieldType::Data),
    ])]);
    let json = r#"{"i64":9007199254740993,"i8":1.00000000000000000001,"e":3.99999999999999999999,"d":[1e-400,255.0]}"#;
    let d = with_doubles(base, json);
    let ws = writes(decode_json(&d, 0, json).unwrap());
    assert_eq!(ws.len(), 4);
    assert!(matches!(&ws[0], Write::Assign(FieldRef::Plain(0), Primitive::Int(9007199254740992))));
    assert!(matches!(&ws[1], Write::Assign(FieldRef::Plain(1), Primitive::Int(1))));
    assert!(matches!(&ws[2], Write::Assign(FieldRef::Plain(2), Primitive::Enum(4))));
    assert!(matches!(&ws[3], Write::Assign(FieldRef::Plain(3), Primitive::Data(b)) if b == &vec![0, 255]));

    let json = r#"{"i8":1e-400}"#;
    let d = with_doubles(decoder(vec![plain_struct(vec![field("i8", FieldType::Int8)])]), json);
    assert!(matches!(&writes(decode_json(&d, 0, json).unwrap())[..], [Write::Assign(FieldRef::Plain(0), Primitive::Int(0))]));

    // Without doubles the text is read exactly.
    let d = decoder(vec![plain_struct(vec![field("i8", FieldType::Int8)])]);
    assert_eq!(
        decode_json(&d, 0, r#"{"i8":1.00000000000000000001}"#).unwrap_err(),
        ErrorOf::NotAnInteger(IntKind::Int8, "i8".to_string(), "1.00000000000000000001".to_string())
    );

    // The double of 1e300 is integral and out of range; that of 1.5 is not integral.
    for (json, err) in [
        (r#"{"i8":1e300}"#, ErrorOf::OutOfRange(IntKind::Int8, "i8".to_string(), "1e300".to_string())),
        (r#"{"i8":1.5}"#, ErrorOf::NotAnInteger(IntKind::Int8, "i8".to_string(), "1.5".to_string())),
    ] {
        let d = with_doubles(decoder(vec![plain_struct(vec![field("i8", FieldType::Int8)])]), json);
        assert_eq!(decode_json(&d, 0, json).unwrap_err(), err);
    }
}

#[test]
fn decoder_schemas_are_checked() {
    assert!(check_decoder(&decoder(vec![plain_struct(vec![field("s", FieldType::Struct(0))])])));
    assert!(!check_decoder(&decoder(vec![plain_struct(vec![field(
        "s",
        FieldType::List(Box::new(FieldType::Struct(1)))
    )])])));
}

/// A member under a key the decoder never looks up, anywhere in the object,
/// even beside flattened members, changes nothing.
#[test]
fn unknown_member_anywhere_is_ignored() {
    let d = decoder(vec![
        plain_struct(vec![field("a", FieldType::Int32), annotated("inner", FieldType::Struct(1), vec![flatten("p.")])]),
        plain_struct(vec![field("b", FieldType::Text)]),
    ]);
    let plain = writes(decode_json(&d, 0, r#"{"a":1,"p.b":"x"}"#).unwrap());
    for json in [
        r#"{"zzz":[1,{"a":2}],"a":1,"p.b":"x"}"#,
        r#"{"a":1,"b":true,"p.b":"x"}"#,
        r#"{"a":1,"p.b":"x","p.c":null}"#,
    ] {
        let ws = writes(decode_json(&d, 0, json).unwrap());
        assert_eq!(format!("{ws:?}"), format!("{plain:?}"));
    }
    assert_eq!(plain.len(), 2);
}

/// What the encoder writes for integer, enum and data fields reads back
/// the same through the doubles of its numbers as exactly.
#[test]
fn written_integers_read_back_through_their_doubles() {
    let member = |name: &str, value: Value| Member {
        name: name.to_string(),
        annotations: vec![],
        element_is_data: false,
        value: Some(value),
    };
    let value = Value::Struct(StructValue {
        discriminator: None,
        union_member: None,
        fields: vec![
            member("i8", Value::Int(-128)),
            member("u32", Value::UInt(4294967295)),
            member("e", Value::Enum(3, None)),
            member("d", Value::Data(vec![0, 255])),
        ],
    });
    let text = serialize_json(&value).unwrap();
    let base = || {
        decoder(vec![plain_struct(vec![
            field("i8", FieldType::Int8),
            field("u32", FieldType::UInt32),
            field("e", FieldType::Enum(vec![])),
            field("d", FieldType::Data),
        ])])
    };
    let exact = writes(decode_json(&base(), 0, &text).unwrap());
    let doubles = writes(decode_json(&with_doubles(base(), &text), 0, &text).unwrap());
    assert_eq!(format!("{exact:?}"), format!("{doubles:?}"));
    assert!(matches!(&doubles[1], Write::Assign(FieldRef::Plain(1), Primitive::Int(4294967295))));
}
