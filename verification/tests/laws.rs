use capnp_json::decode::{
    decode_json, Decoder, FieldRef, FieldSchema, FieldType, FloatValue, ListPlan, Primitive, StructPlan, StructSchema,
    Write,
};
use capnp_json::encode::{serialize_json, Enumerant, Member, StructValue, Value};
use capnp_json::options::{Annotation, CodecChoice, DiscriminatorOptions};
use capnp_json::data::{base64_decode, base64_encode_to, hex_char_to_value, hex_decode, hex_encode_to, DataError};
use capnp_json::error::{ErrorOf, IntKind};
use capnp_json::number::{check_integer, number_to_ordinal, parse_integer_text};
use capnp_json::parser::parse_document;
use capnp_json::writer::{write_int, write_uint, write_value};
use capnp_json::{CodecOptions, JsonValue};

fn base64(data: &[u8]) -> String {
    let mut out = String::new();
    base64_encode_to(&mut out, data);
    out
}

fn hex(data: &[u8]) -> String {
    let mut out = String::new();
    hex_encode_to(&mut out, data);
    out
}

#[test]
fn base64_encodes_with_padding() {
    assert_eq!(base64(b""), "");
    assert_eq!(base64(b"f"), "Zg==");
    assert_eq!(base64(b"fo"), "Zm8=");
    assert_eq!(base64(b"foo"), "Zm9v");
    assert_eq!(base64(b"foobar"), "Zm9vYmFy");
    assert_eq!(base64(&[0xff, 0xfe, 0x00]), "//4A");
}

#[test]
fn base64_round_trips() {
    for data in [&b""[..], b"a", b"ab", b"abc", b"\x00\xff\x10\x80hello"] {
        assert_eq!(base64_decode(&base64(data)).unwrap(), data.to_vec());
    }
}

#[test]
fn base64_rejects_bad_text() {
    assert_eq!(base64_decode("Zg=").unwrap_err(), DataError::Base64Length);
    assert_eq!(base64_decode("Z!==").unwrap_err(), DataError::Base64InvalidChar(b'!'));
}

#[test]
fn hex_round_trips() {
    assert_eq!(hex(b"\x00\x0f\xab\xff"), "000fabff");
    for data in [&b""[..], b"\x01", b"\xde\xad\xbe\xef"] {
        assert_eq!(hex_decode(&hex(data)).unwrap(), data.to_vec());
    }
    assert_eq!(hex_decode("DEADbeef").unwrap(), vec![0xde, 0xad, 0xbe, 0xef]);
}

#[test]
fn hex_rejects_bad_text() {
    assert_eq!(hex_decode("abc").unwrap_err(), DataError::HexOddLength);
    assert_eq!(hex_decode("0g").unwrap_err(), DataError::HexInvalidChar(b'g'));
    assert_eq!(hex_char_to_value(b'a').unwrap(), 10);
    assert_eq!(hex_char_to_value(b'F').unwrap(), 15);
    assert_eq!(hex_char_to_value(b'7').unwrap(), 7);
    assert_eq!(hex_char_to_value(b'x').unwrap_err(), DataError::HexInvalidChar(b'x'));
}

#[test]
fn json_text_parses_back_to_its_value() {
    let value = JsonValue::Object(vec![
        ("a\"b".to_string(), JsonValue::Array(vec![
            JsonValue::Null,
            JsonValue::Boolean(true),
            JsonValue::Number("-12.5e3".to_string()),
            JsonValue::String("tab\there \u{1} \u{85} \u{1F600}".to_string()),
        ])),
        ("c".to_string(), JsonValue::Object(vec![])),
    ]);
    let mut text = String::new();
    write_value(&mut text, &value);
    assert_eq!(
        text,
        "{\"a\\\"b\":[null,true,-12.5e3,\"tab\\there \\u0001 \\u0085 \u{1F600}\"],\"c\":{}}"
    );
    let back = parse_document(&text, &CodecOptions::default()).unwrap();
    let mut again = String::new();
    write_value(&mut again, &back);
    assert_eq!(again, text);
}

#[test]
fn integers_read_back_exactly() {
    for (n, kind) in [
        (-128i64, IntKind::Int8),
        (127, IntKind::Int8),
        (-9223372036854775808, IntKind::Int64),
        (9223372036854775807, IntKind::Int64),
        (0, IntKind::UInt8),
        (65535, IntKind::UInt16),
    ] {
        let mut text = String::new();
        write_int(&mut text, n);
        assert_eq!(check_integer(&text, kind, "f").unwrap(), n as i128);
    }
    let mut text = String::new();
    write_uint(&mut text, u64::MAX);
    assert_eq!(text, "18446744073709551615");
    assert_eq!(check_integer(&text, IntKind::UInt64, "f").unwrap(), u64::MAX as i128);
    assert_eq!(parse_integer_text(&text, IntKind::UInt64), Some(u64::MAX as i128));
}

#[test]
fn integer_fields_take_exact_values() {
    assert_eq!(check_integer("1e2", IntKind::Int8, "f").unwrap(), 100);
    assert_eq!(check_integer("12.000", IntKind::Int8, "f").unwrap(), 12);
    assert_eq!(check_integer("-0", IntKind::UInt8, "f").unwrap(), 0);
    assert_eq!(check_integer("2500e-2", IntKind::UInt8, "f").unwrap(), 25);
    assert_eq!(
        check_integer("128", IntKind::Int8, "f").unwrap_err(),
        ErrorOf::OutOfRange(IntKind::Int8, "f".to_string(), "128".to_string())
    );
    assert_eq!(
        check_integer("-1", IntKind::UInt32, "f").unwrap_err(),
        ErrorOf::OutOfRange(IntKind::UInt32, "f".to_string(), "-1".to_string())
    );
    assert_eq!(
        check_integer("1e400", IntKind::Int64, "f").unwrap_err(),
        ErrorOf::OutOfRange(IntKind::Int64, "f".to_string(), "1e400".to_string())
    );
    assert_eq!(
        check_integer("1.5", IntKind::Int32, "f").unwrap_err(),
        ErrorOf::NotAnInteger(IntKind::Int32, "f".to_string(), "1.5".to_string())
    );
    assert_eq!(
        check_integer("1.0000000000000000001", IntKind::Int32, "f").unwrap_err(),
        ErrorOf::NotAnInteger(IntKind::Int32, "f".to_string(), "1.0000000000000000001".to_string())
    );
    assert_eq!(
        check_integer("1e-99999999999999999999999999999", IntKind::Int32, "f").unwrap_err(),
        ErrorOf::NotAnInteger(
            IntKind::Int32,
            "f".to_string(),
            "1e-99999999999999999999999999999".to_string()
        )
    );
    assert_eq!(
        check_integer("256", IntKind::DataByte, "d").unwrap_err(),
        ErrorOf::OutOfRange(IntKind::DataByte, "d".to_string(), "256".to_string())
    );
    assert_eq!(check_integer("x", IntKind::Int8, "f").unwrap_err(), ErrorOf::InvalidNumber("x".to_string()));
}

#[test]
fn integer_strings_parse_as_str_parse_does() {
    assert_eq!(parse_integer_text("-42", IntKind::Int64), Some(-42));
    assert_eq!(parse_integer_text("+42", IntKind::Int64), Some(42));
    assert_eq!(parse_integer_text("+42", IntKind::UInt64), Some(42));
    assert_eq!(parse_integer_text("-42", IntKind::UInt64), None);
    assert_eq!(parse_integer_text("", IntKind::Int64), None);
    assert_eq!(parse_integer_text("-", IntKind::Int64), None);
    assert_eq!(parse_integer_text("1.0", IntKind::Int64), None);
    assert_eq!(parse_integer_text("9223372036854775808", IntKind::Int64), None);
    assert_eq!(parse_integer_text("-9223372036854775808", IntKind::Int64), Some(-9223372036854775808));
}

#[test]
fn enum_ordinals_saturate() {
    assert_eq!(number_to_ordinal("3").unwrap(), 3);
    assert_eq!(number_to_ordinal("3.9").unwrap(), 3);
    assert_eq!(number_to_ordinal("-5").unwrap(), 0);
    assert_eq!(number_to_ordinal("70000").unwrap(), 65535);
    assert_eq!(number_to_ordinal("1e100").unwrap(), 65535);
    assert_eq!(number_to_ordinal("0.5e1").unwrap(), 5);
}

fn scalar_member(name: &str, value: Option<Value>) -> Member {
    Member { name: name.to_string(), annotations: vec![], element_is_data: false, value }
}

fn scalar_field(name: &str, ty: FieldType) -> FieldSchema {
    FieldSchema { name: name.to_string(), annotations: vec![], ty, field_override: false, type_override: false }
}

#[test]
fn scalar_struct_written_then_read_sets_the_same_fields() {
    let value = Value::Struct(StructValue {
        discriminator: None,
        union_member: None,
        fields: vec![
            scalar_member("v", Some(Value::Void)),
            scalar_member("b", Some(Value::Bool(true))),
            scalar_member("i8", Some(Value::Int(-128))),
            scalar_member("u32", Some(Value::UInt(4294967295))),
            scalar_member("i64", Some(Value::Int64(i64::MIN))),
            scalar_member("u64", Some(Value::UInt64(u64::MAX))),
            scalar_member("f", Some(Value::Float("1.25".to_string()))),
            scalar_member("e", Some(Value::Enum(3, None))),
            scalar_member("t", Some(Value::Text("a\"b".to_string()))),
            scalar_member("d", Some(Value::Data(vec![0, 255]))),
            scalar_member("missing", None),
        ],
    });
    let schema = StructSchema {
        codec: None,
        discriminator: None,
        union_fields: vec![],
        fields: vec![
            scalar_field("v", FieldType::Void),
            scalar_field("b", FieldType::Bool),
            scalar_field("i8", FieldType::Int8),
            scalar_field("u32", FieldType::UInt32),
            scalar_field("i64", FieldType::Int64),
            scalar_field("u64", FieldType::UInt64),
            scalar_field("f", FieldType::Float64),
            scalar_field("e", FieldType::Enum(vec![])),
            scalar_field("t", FieldType::Text),
            scalar_field("d", FieldType::Data),
            scalar_field("missing", FieldType::Text),
        ],
    };
    let text = serialize_json(&value).unwrap();
    assert_eq!(
        text,
        r#"{"v":null,"b":true,"i8":-128,"u32":4294967295,"i64":"-9223372036854775808","u64":"18446744073709551615","f":1.25,"e":3,"t":"a\"b","d":[0,255]}"#
    );
    let d = Decoder { structs: vec![schema], named_codecs: vec![], options: CodecOptions::default(), numbers: vec![] };
    let ws = match decode_json(&d, 0, &text).unwrap() {
        StructPlan::Fields(ws) => ws,
        StructPlan::Custom(_) => panic!("expected field writes"),
    };
    assert_eq!(ws.len(), 10);
    assert!(matches!(&ws[0], Write::Assign(FieldRef::Plain(0), Primitive::Void)));
    assert!(matches!(&ws[1], Write::Assign(FieldRef::Plain(1), Primitive::Bool(true))));
    assert!(matches!(&ws[2], Write::Assign(FieldRef::Plain(2), Primitive::Int(-128))));
    assert!(matches!(&ws[3], Write::Assign(FieldRef::Plain(3), Primitive::Int(4294967295))));
    assert!(matches!(&ws[4], Write::Assign(FieldRef::Plain(4), Primitive::Int(n)) if *n == i64::MIN as i128));
    assert!(matches!(&ws[5], Write::Assign(FieldRef::Plain(5), Primitive::Int(n)) if *n == u64::MAX as i128));
    assert!(matches!(&ws[6], Write::Assign(FieldRef::Plain(6), Primitive::Float(FloatValue::Number(x))) if x == "1.25"));
    assert!(matches!(&ws[7], Write::Assign(FieldRef::Plain(7), Primitive::Enum(3))));
    assert!(matches!(&ws[8], Write::Assign(FieldRef::Plain(8), Primitive::Text(t)) if t == "a\"b"));
    assert!(matches!(&ws[9], Write::Assign(FieldRef::Plain(9), Primitive::Data(b)) if b == &vec![0, 255]));
}

fn field_plan(plan: &StructPlan) -> &Vec<Write> {
    match plan {
        StructPlan::Fields(ws) => ws,
        StructPlan::Custom(_) => panic!("expected field writes"),
    }
}

#[test]
fn nested_message_written_then_read_sets_the_same_fields() {
    let inner = |n: i64| {
        Value::Struct(StructValue {
            discriminator: None,
            union_member: None,
            fields: vec![scalar_member("n", Some(Value::Int(n))), scalar_member("s", None)],
        })
    };
    let value = Value::Struct(StructValue {
        discriminator: None,
        union_member: None,
        fields: vec![
            scalar_member("child", Some(inner(5))),
            scalar_member("ints", Some(Value::List(vec![Value::Int(1), Value::Int(-2)]))),
            scalar_member("children", Some(Value::List(vec![inner(7), inner(8)]))),
            scalar_member(
                "grid",
                Some(Value::List(vec![Value::List(vec![Value::Text("x".to_string())]), Value::List(vec![])])),
            ),
            scalar_member("none", Some(Value::List(vec![]))),
        ],
    });
    let leaf = StructSchema {
        codec: None,
        discriminator: None,
        union_fields: vec![],
        fields: vec![scalar_field("n", FieldType::Int32), scalar_field("s", FieldType::Text)],
    };
    let root = StructSchema {
        codec: None,
        discriminator: None,
        union_fields: vec![],
        fields: vec![
            scalar_field("child", FieldType::Struct(1)),
            scalar_field("ints", FieldType::List(Box::new(FieldType::Int8))),
            scalar_field("children", FieldType::List(Box::new(FieldType::Struct(1)))),
            scalar_field("grid", FieldType::List(Box::new(FieldType::List(Box::new(FieldType::Text))))),
            scalar_field("none", FieldType::List(Box::new(FieldType::Struct(1)))),
        ],
    };
    let text = serialize_json(&value).unwrap();
    assert_eq!(
        text,
        r#"{"child":{"n":5},"ints":[1,-2],"children":[{"n":7},{"n":8}],"grid":[["x"],[]],"none":[]}"#
    );
    let d = Decoder { structs: vec![root, leaf], named_codecs: vec![], options: CodecOptions::default(), numbers: vec![] };
    let plan = decode_json(&d, 0, &text).unwrap();
    let ws = field_plan(&plan);
    assert_eq!(ws.len(), 5);
    match &ws[0] {
        Write::Struct(FieldRef::Plain(0), p) => {
            let inner = field_plan(p);
            assert_eq!(inner.len(), 1);
            assert!(matches!(&inner[0], Write::Assign(FieldRef::Plain(0), Primitive::Int(5))));
        }
        other => panic!("unexpected write {:?}", other),
    }
    match &ws[1] {
        Write::List(FieldRef::Plain(1), ListPlan::Values(vs)) => {
            assert_eq!(vs.len(), 2);
            assert!(matches!(&vs[0], Primitive::Int(1)));
            assert!(matches!(&vs[1], Primitive::Int(-2)));
        }
        other => panic!("unexpected write {:?}", other),
    }
    match &ws[2] {
        Write::List(FieldRef::Plain(2), ListPlan::Structs(ps)) => {
            assert_eq!(ps.len(), 2);
            assert!(matches!(&field_plan(&ps[0])[0], Write::Assign(FieldRef::Plain(0), Primitive::Int(7))));
            assert!(matches!(&field_plan(&ps[1])[0], Write::Assign(FieldRef::Plain(0), Primitive::Int(8))));
        }
        other => panic!("unexpected write {:?}", other),
    }
    match &ws[3] {
        Write::List(FieldRef::Plain(3), ListPlan::Lists(ls)) => {
            assert_eq!(ls.len(), 2);
            assert!(matches!(&ls[0], ListPlan::Values(vs) if vs.len() == 1 && matches!(&vs[0], Primitive::Text(t) if t == "x")));
            assert!(matches!(&ls[1], ListPlan::Values(vs) if vs.is_empty()));
        }
        other => panic!("unexpected write {:?}", other),
    }
    assert!(matches!(&ws[4], Write::List(FieldRef::Plain(4), ListPlan::Structs(ps)) if ps.is_empty()));
}

#[test]
fn union_member_written_then_read_sets_the_same_member() {
    let schema = StructSchema {
        codec: None,
        discriminator: None,
        fields: vec![scalar_field("id", FieldType::UInt16)],
        union_fields: vec![
            scalar_field("none", FieldType::Void),
            scalar_field("text", FieldType::Text),
            scalar_field("count", FieldType::Int64),
        ],
    };
    let d = Decoder { structs: vec![schema], named_codecs: vec![], options: CodecOptions::default(), numbers: vec![] };
    let with_member = |m: Member| {
        Value::Struct(StructValue {
            discriminator: None,
            fields: vec![scalar_member("id", Some(Value::UInt(7)))],
            union_member: Some(Box::new(m)),
        })
    };

    let text = serialize_json(&with_member(scalar_member("count", Some(Value::Int64(-3))))).unwrap();
    assert_eq!(text, r#"{"id":7,"count":"-3"}"#);
    let ws = match decode_json(&d, 0, &text).unwrap() {
        StructPlan::Fields(ws) => ws,
        StructPlan::Custom(_) => panic!("expected field writes"),
    };
    assert_eq!(ws.len(), 2);
    assert!(matches!(&ws[0], Write::Assign(FieldRef::Plain(0), Primitive::Int(7))));
    assert!(matches!(&ws[1], Write::Assign(FieldRef::Union(2), Primitive::Int(-3))));

    let text = serialize_json(&with_member(scalar_member("none", Some(Value::Void)))).unwrap();
    assert_eq!(text, r#"{"id":7,"none":null}"#);
    let ws = match decode_json(&d, 0, &text).unwrap() {
        StructPlan::Fields(ws) => ws,
        StructPlan::Custom(_) => panic!("expected field writes"),
    };
    assert_eq!(ws.len(), 2);
    assert!(matches!(&ws[1], Write::Assign(FieldRef::Union(0), Primitive::Void)));
}

#[test]
fn renamed_and_encoded_fields_written_then_read_set_the_same_fields() {
    let member = |name: &str, annotations: Vec<Annotation>, element_is_data: bool, value: Value| Member {
        name: name.to_string(),
        annotations,
        element_is_data,
        value: Some(value),
    };
    let field = |name: &str, annotations: Vec<Annotation>, ty: FieldType| FieldSchema {
        name: name.to_string(),
        annotations,
        ty,
        field_override: false,
        type_override: false,
    };
    let value = Value::Struct(StructValue {
        discriminator: None,
        fields: vec![
            member("title", vec![Annotation::Name("heading".to_string())], false, Value::Text("t".to_string())),
            member("blob", vec![Annotation::Base64], true, Value::Data(vec![102, 111, 111])),
            member(
                "chunks",
                vec![Annotation::Hex],
                true,
                Value::List(vec![Value::Data(vec![0xab]), Value::Data(vec![])]),
            ),
        ],
        union_member: Some(Box::new(member(
            "code",
            vec![Annotation::Name("id".to_string())],
            false,
            Value::UInt(9),
        ))),
    });
    let schema = StructSchema {
        codec: None,
        discriminator: None,
        fields: vec![
            field("title", vec![Annotation::Name("heading".to_string())], FieldType::Text),
            field("blob", vec![Annotation::Base64], FieldType::Data),
            field("chunks", vec![Annotation::Hex], FieldType::List(Box::new(FieldType::Data))),
        ],
        union_fields: vec![
            field("other", vec![], FieldType::Void),
            field("code", vec![Annotation::Name("id".to_string())], FieldType::UInt8),
        ],
    };
    let text = serialize_json(&value).unwrap();
    assert_eq!(text, r#"{"heading":"t","blob":"Zm9v","chunks":["ab",""],"id":9}"#);
    let d = Decoder { structs: vec![schema], named_codecs: vec![], options: CodecOptions::default(), numbers: vec![] };
    let ws = match decode_json(&d, 0, &text).unwrap() {
        StructPlan::Fields(ws) => ws,
        StructPlan::Custom(_) => panic!("expected field writes"),
    };
    assert_eq!(ws.len(), 4);
    assert!(matches!(&ws[0], Write::Assign(FieldRef::Plain(0), Primitive::Text(t)) if t == "t"));
    assert!(matches!(&ws[1], Write::Assign(FieldRef::Plain(1), Primitive::Data(b)) if b == &vec![102, 111, 111]));
    match &ws[2] {
        Write::List(FieldRef::Plain(2), ListPlan::Values(vs)) => {
            assert_eq!(vs.len(), 2);
            assert!(matches!(&vs[0], Primitive::Data(b) if b == &vec![0xab]));
            assert!(matches!(&vs[1], Primitive::Data(b) if b.is_empty()));
        }
        other => panic!("unexpected write {:?}", other),
    }
    assert!(matches!(&ws[3], Write::Assign(FieldRef::Union(1), Primitive::Int(9))));
}

#[test]
fn discriminated_union_and_named_enum_written_then_read_set_the_same_fields() {
    let colours = || {
        vec![
            Enumerant { name: "red".to_string(), annotations: vec![] },
            Enumerant { name: "green".to_string(), annotations: vec![Annotation::Name("verde".to_string())] },
        ]
    };
    let disc = DiscriminatorOptions { name: Some("kind".to_string()), value_name: Some("value".to_string()) };
    let schema = StructSchema {
        codec: None,
        discriminator: Some(disc.clone()),
        fields: vec![scalar_field("colour", FieldType::Enum(colours()))],
        union_fields: vec![scalar_field("empty", FieldType::Void), scalar_field("text", FieldType::Text)],
    };
    let d = Decoder { structs: vec![schema], named_codecs: vec![], options: CodecOptions::default(), numbers: vec![] };
    let with_member = |m: Member| {
        Value::Struct(StructValue {
            discriminator: Some(disc.clone()),
            fields: vec![scalar_member("colour", Some(Value::Enum(1, colours().pop())))],
            union_member: Some(Box::new(m)),
        })
    };

    let text = serialize_json(&with_member(scalar_member("text", Some(Value::Text("hi".to_string()))))).unwrap();
    assert_eq!(text, r#"{"colour":"verde","kind":"text","value":"hi"}"#);
    let ws = match decode_json(&d, 0, &text).unwrap() {
        StructPlan::Fields(ws) => ws,
        StructPlan::Custom(_) => panic!("expected field writes"),
    };
    assert_eq!(ws.len(), 2);
    assert!(matches!(&ws[0], Write::Assign(FieldRef::Plain(0), Primitive::Enum(1))));
    assert!(matches!(&ws[1], Write::Assign(FieldRef::Union(1), Primitive::Text(t)) if t == "hi"));

    let text = serialize_json(&with_member(scalar_member("empty", Some(Value::Void)))).unwrap();
    assert_eq!(text, r#"{"colour":"verde","kind":"empty"}"#);
    let ws = match decode_json(&d, 0, &text).unwrap() {
        StructPlan::Fields(ws) => ws,
        StructPlan::Custom(_) => panic!("expected field writes"),
    };
    assert_eq!(ws.len(), 2);
    assert!(matches!(&ws[1], Write::Assign(FieldRef::Union(0), Primitive::Void)));
}

#[test]
fn non_finite_floats_written_then_read_set_the_same_fields() {
    let value = Value::Struct(StructValue {
        discriminator: None,
        union_member: None,
        fields: vec![
            scalar_member("a", Some(Value::Float("\"NaN\"".to_string()))),
            scalar_member("b", Some(Value::Float("\"Infinity\"".to_string()))),
            scalar_member("c", Some(Value::Float("\"-Infinity\"".to_string()))),
            scalar_member("d", Some(Value::Float("-0.5e3".to_string()))),
        ],
    });
    let schema = StructSchema {
        codec: None,
        discriminator: None,
        union_fields: vec![],
        fields: vec![
            scalar_field("a", FieldType::Float32),
            scalar_field("b", FieldType::Float64),
            scalar_field("c", FieldType::Float64),
            scalar_field("d", FieldType::Float32),
        ],
    };
    let text = serialize_json(&value).unwrap();
    assert_eq!(text, r#"{"a":"NaN","b":"Infinity","c":"-Infinity","d":-0.5e3}"#);
    let d = Decoder { structs: vec![schema], named_codecs: vec![], options: CodecOptions::default(), numbers: vec![] };
    let ws = match decode_json(&d, 0, &text).unwrap() {
        StructPlan::Fields(ws) => ws,
        StructPlan::Custom(_) => panic!("expected field writes"),
    };
    assert_eq!(ws.len(), 4);
    assert!(matches!(&ws[0], Write::Assign(FieldRef::Plain(0), Primitive::Float(FloatValue::NaN))));
    assert!(matches!(&ws[1], Write::Assign(FieldRef::Plain(1), Primitive::Float(FloatValue::Infinity))));
    assert!(matches!(&ws[2], Write::Assign(FieldRef::Plain(2), Primitive::Float(FloatValue::NegInfinity))));
    assert!(matches!(&ws[3], Write::Assign(FieldRef::Plain(3), Primitive::Float(FloatValue::Number(x))) if x == "-0.5e3"));
}

#[test]
fn field_discriminator_written_then_read_sets_the_same_member() {
    let disc = || {
        Annotation::Discriminator(DiscriminatorOptions { name: Some("type".to_string()), value_name: None })
    };
    let shape = StructSchema {
        codec: None,
        discriminator: None,
        fields: vec![],
        union_fields: vec![scalar_field("circle", FieldType::UInt32), scalar_field("dot", FieldType::Void)],
    };
    let root = StructSchema {
        codec: None,
        discriminator: None,
        fields: vec![FieldSchema {
            name: "shape".to_string(),
            annotations: vec![disc()],
            ty: FieldType::Struct(1),
            field_override: false,
            type_override: false,
        }],
        union_fields: vec![],
    };
    let value = Value::Struct(StructValue {
        discriminator: None,
        union_member: None,
        fields: vec![Member {
            name: "shape".to_string(),
            annotations: vec![disc()],
            element_is_data: false,
            value: Some(Value::Struct(StructValue {
                discriminator: None,
                fields: vec![],
                union_member: Some(Box::new(scalar_member("circle", Some(Value::UInt(4))))),
            })),
        }],
    });
    let text = serialize_json(&value).unwrap();
    assert_eq!(text, r#"{"shape":{"type":"circle","circle":4}}"#);
    let d = Decoder { structs: vec![root, shape], named_codecs: vec![], options: CodecOptions::default(), numbers: vec![] };
    let ws = match decode_json(&d, 0, &text).unwrap() {
        StructPlan::Fields(ws) => ws,
        StructPlan::Custom(_) => panic!("expected field writes"),
    };
    assert_eq!(ws.len(), 1);
    match &ws[0] {
        Write::Struct(FieldRef::Plain(0), p) => {
            let inner = field_plan(p);
            assert_eq!(inner.len(), 1);
            assert!(matches!(&inner[0], Write::Assign(FieldRef::Union(0), Primitive::Int(4))));
        }
        other => panic!("unexpected write {:?}", other),
    }
}

#[test]
fn unknown_members_after_a_message_are_ignored() {
    let value = Value::Struct(StructValue {
        discriminator: None,
        union_member: None,
        fields: vec![scalar_member("n", Some(Value::Int(3))), scalar_member("t", Some(Value::Text("x".to_string())))],
    });
    let schema = StructSchema {
        codec: None,
        discriminator: None,
        union_fields: vec![],
        fields: vec![scalar_field("n", FieldType::Int16), scalar_field("t", FieldType::Text)],
    };
    let text = serialize_json(&value).unwrap();
    let mut extended = text.clone();
    extended.pop();
    extended.push_str(r#","other":[1,{"n":2}],"more":null}"#);
    assert_eq!(extended, r#"{"n":3,"t":"x","other":[1,{"n":2}],"more":null}"#);
    let d = Decoder { structs: vec![schema], named_codecs: vec![], options: CodecOptions::default(), numbers: vec![] };
    for input in [text.as_str(), extended.as_str()] {
        let ws = match decode_json(&d, 0, input).unwrap() {
            StructPlan::Fields(ws) => ws,
            StructPlan::Custom(_) => panic!("expected field writes"),
        };
        assert_eq!(ws.len(), 2);
        assert!(matches!(&ws[0], Write::Assign(FieldRef::Plain(0), Primitive::Int(3))));
        assert!(matches!(&ws[1], Write::Assign(FieldRef::Plain(1), Primitive::Text(t)) if t == "x"));
    }
}

#[test]
fn custom_codec_fields_written_then_read_reach_their_codecs() {
    let point = JsonValue::Object(vec![
        ("x".to_string(), JsonValue::Number("1".to_string())),
        ("y".to_string(), JsonValue::Array(vec![JsonValue::Null, JsonValue::Boolean(false)])),
    ]);
    let value = Value::Struct(StructValue {
        discriminator: None,
        union_member: Some(Box::new(scalar_member("u", Some(Value::Custom(JsonValue::String("hi".to_string())))))),
        fields: vec![
            scalar_member("p", Some(Value::Custom(JsonValue::String("Any pointer you like".to_string())))),
            Member {
                name: "named".to_string(),
                annotations: vec![Annotation::Codec("TestFieldCodec".to_string())],
                element_is_data: false,
                value: Some(Value::Custom(point)),
            },
            scalar_member("n", Some(Value::Int(7))),
            scalar_member("typed", Some(Value::Custom(JsonValue::Null))),
        ],
    });
    let mut typed = scalar_field("typed", FieldType::Text);
    typed.type_override = true;
    let mut p = scalar_field("p", FieldType::AnyPointer);
    p.field_override = true;
    let mut u = scalar_field("u", FieldType::Text);
    u.field_override = true;
    let schema = StructSchema {
        codec: None,
        discriminator: None,
        union_fields: vec![scalar_field("v", FieldType::Void), u],
        fields: vec![
            p,
            FieldSchema {
                name: "named".to_string(),
                annotations: vec![Annotation::Codec("TestFieldCodec".to_string())],
                ty: FieldType::Struct(0),
                field_override: false,
                type_override: false,
            },
            scalar_field("n", FieldType::Int32),
            typed,
        ],
    };
    let text = serialize_json(&value).unwrap();
    assert_eq!(
        text,
        r#"{"p":"Any pointer you like","named":{"x":1,"y":[null,false]},"n":7,"typed":null,"u":"hi"}"#
    );
    let d = Decoder {
        structs: vec![schema],
        named_codecs: vec!["TestFieldCodec".to_string()],
        options: CodecOptions::default(),
        numbers: vec![],
    };
    let plan = decode_json(&d, 0, &text).unwrap();
    let ws = field_plan(&plan);
    assert_eq!(ws.len(), 5);
    assert!(matches!(&ws[0], Write::Custom(FieldRef::Plain(0), JsonValue::String(s), CodecChoice::FieldOverride)
        if s == "Any pointer you like"));
    match &ws[1] {
        Write::Custom(FieldRef::Plain(1), JsonValue::Object(m), CodecChoice::Named) => {
            assert_eq!(m.len(), 2);
            assert_eq!(m[0].0, "x");
            assert!(matches!(&m[0].1, JsonValue::Number(n) if n == "1"));
            assert_eq!(m[1].0, "y");
            assert!(matches!(&m[1].1, JsonValue::Array(a) if a.len() == 2));
        },
        other => panic!("unexpected {other:?}"),
    }
    assert!(matches!(&ws[2], Write::Assign(FieldRef::Plain(2), Primitive::Int(7))));
    assert!(matches!(&ws[3], Write::Custom(FieldRef::Plain(3), JsonValue::Null, CodecChoice::TypeOverride)));
    assert!(matches!(&ws[4], Write::Custom(FieldRef::Union(1), JsonValue::String(s), CodecChoice::FieldOverride)
        if s == "hi"));
}

#[test]
fn struct_level_codec_values_written_then_read_reach_their_codec() {
    let custom = JsonValue::Object(vec![("test".to_string(), JsonValue::String("Inside".to_string()))]);
    let value = Value::Struct(StructValue {
        discriminator: None,
        union_member: None,
        fields: vec![
            scalar_member("structLevel", Some(Value::Custom(custom))),
            scalar_member(
                "many",
                Some(Value::List(vec![Value::Custom(JsonValue::Number("5".to_string())), Value::Custom(JsonValue::Null)])),
            ),
        ],
    });
    let outer = StructSchema {
        codec: None,
        discriminator: None,
        union_fields: vec![],
        fields: vec![
            scalar_field("structLevel", FieldType::Struct(1)),
            scalar_field("many", FieldType::List(Box::new(FieldType::Struct(1)))),
        ],
    };
    let inner = StructSchema {
        codec: Some("TestCodec".to_string()),
        discriminator: None,
        union_fields: vec![],
        fields: vec![scalar_field("something", FieldType::AnyPointer)],
    };
    let text = serialize_json(&value).unwrap();
    assert_eq!(text, r#"{"structLevel":{"test":"Inside"},"many":[5,null]}"#);
    let d = Decoder {
        structs: vec![outer, inner],
        named_codecs: vec!["TestCodec".to_string()],
        options: CodecOptions::default(),
        numbers: vec![],
    };
    let plan = decode_json(&d, 0, &text).unwrap();
    let ws = field_plan(&plan);
    assert_eq!(ws.len(), 2);
    match &ws[0] {
        Write::Struct(FieldRef::Plain(0), StructPlan::Custom(JsonValue::Object(m))) => {
            assert_eq!(m.len(), 1);
            assert_eq!(m[0].0, "test");
            assert!(matches!(&m[0].1, JsonValue::String(s) if s == "Inside"));
        },
        other => panic!("unexpected {other:?}"),
    }
    match &ws[1] {
        Write::List(FieldRef::Plain(1), ListPlan::Structs(ps)) => {
            assert_eq!(ps.len(), 2);
            assert!(matches!(&ps[0], StructPlan::Custom(JsonValue::Number(n)) if n == "5"));
            assert!(matches!(&ps[1], StructPlan::Custom(JsonValue::Null)));
        },
        other => panic!("unexpected {other:?}"),
    }
}
