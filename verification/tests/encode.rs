use capnp_json::encode::{serialize_json, write_json_value, Enumerant, Member, StructValue, Value};
use capnp_json::options::EncodingOptions;
use capnp_json::error::ErrorOf;
use capnp_json::options::{Annotation, DiscriminatorOptions, FlattenOptions};
use capnp_json::writer::write_string;
use capnp_json::JsonValue;

fn set(name: &str, value: Value) -> Member {
    Member { name: name.to_string(), annotations: vec![], element_is_data: false, value: Some(value) }
}

fn unset(name: &str) -> Member {
    Member { name: name.to_string(), annotations: vec![], element_is_data: false, value: None }
}

fn with(mut m: Member, annotations: Vec<Annotation>) -> Member {
    m.annotations = annotations;
    m
}

fn strukt(fields: Vec<Member>) -> Value {
    Value::Struct(StructValue { discriminator: None, fields, union_member: None })
}

fn union_struct(fields: Vec<Member>, discriminator: Option<DiscriminatorOptions>, active: Member) -> Value {
    Value::Struct(StructValue { discriminator, fields, union_member: Some(Box::new(active)) })
}

fn text(s: &str) -> Value {
    Value::Text(s.to_string())
}

fn flatten(prefix: &str) -> Annotation {
    Annotation::Flatten(FlattenOptions { prefix: prefix.to_string() })
}

fn discriminator(name: Option<&str>, value_name: Option<&str>) -> DiscriminatorOptions {
    DiscriminatorOptions { name: name.map(str::to_string), value_name: value_name.map(str::to_string) }
}

#[test]
fn test_encode_json_types_default() {
    let value = strukt(vec![
        set("voidField", Value::Void),
        set("boolField", Value::Bool(true)),
        set("int8Field", Value::Int(-123)),
        set("int64Field", Value::Int64(-123456789012345)),
        set("uInt32Field", Value::UInt(3456789012)),
        set("uInt64Field", Value::UInt64(u64::MAX)),
        set("float32Field", Value::Float("1.25".to_string())),
        set("float64Field", Value::Float("\"NaN\"".to_string())),
        set("textField", text("foo")),
        set("dataField", Value::Data(vec![98, 97, 114])),
        unset("structField"),
        set("int32List", Value::List(vec![Value::Int(1), Value::Int(-2)])),
    ]);
    assert_eq!(
        serialize_json(&value).unwrap(),
        r#"{"voidField":null,"boolField":true,"int8Field":-123,"int64Field":"-123456789012345","uInt32Field":3456789012,"uInt64Field":"18446744073709551615","float32Field":1.25,"float64Field":"NaN","textField":"foo","dataField":[98,97,114],"int32List":[1,-2]}"#
    );
}

#[test]
fn enums_are_written_by_name_or_ordinal() {
    let renamed = Enumerant {
        name: "quux".to_string(),
        annotations: vec![Annotation::Name("first".to_string()), Annotation::Name("second".to_string())],
    };
    let plain = Enumerant { name: "foo".to_string(), annotations: vec![] };
    let value = strukt(vec![
        set("a", Value::Enum(3, Some(renamed))),
        set("b", Value::Enum(0, Some(plain))),
        set("c", Value::Enum(17, None)),
    ]);
    assert_eq!(serialize_json(&value).unwrap(), r#"{"a":"first","b":"foo","c":17}"#);
}

#[test]
fn data_encodings() {
    let value = strukt(vec![
        with(set("b64", Value::Data(b"hello".to_vec())), vec![Annotation::Base64]),
        with(set("hex", Value::Data(vec![0xde, 0xad])), vec![Annotation::Hex]),
        with(
            set("list", Value::List(vec![Value::Data(vec![1]), Value::Data(vec![])])),
            vec![Annotation::Base64],
        ),
    ]);
    let mut value = value;
    if let Value::Struct(sv) = &mut value {
        for m in sv.fields.iter_mut() {
            m.element_is_data = true;
        }
    }
    assert_eq!(serialize_json(&value).unwrap(), r#"{"b64":"aGVsbG8=","hex":"dead","list":["AQ==",""]}"#);
}

#[test]
fn conflicting_annotations_are_errors() {
    let mut both = with(set("d", Value::Data(vec![])), vec![Annotation::Base64, Annotation::Hex]);
    both.element_is_data = true;
    assert_eq!(serialize_json(&strukt(vec![both])).unwrap_err(), ErrorOf::ConflictingDataEncodings);
    let not_data = with(set("t", text("x")), vec![Annotation::Hex]);
    assert_eq!(serialize_json(&strukt(vec![not_data])).unwrap_err(), ErrorOf::DataEncodingOnNonData);
    // An unset field's annotations are not read.
    let mut unset_both = with(unset("d"), vec![Annotation::Base64, Annotation::Hex]);
    unset_both.element_is_data = true;
    assert_eq!(serialize_json(&strukt(vec![unset_both])).unwrap(), "{}");
}

#[test]
fn test_unnamed_union() {
    let value = union_struct(
        vec![set("before", text("before")), set("middle", Value::UInt(1234)), set("after", text("after"))],
        None,
        set("bar", Value::UInt(32)),
    );
    assert_eq!(serialize_json(&value).unwrap(), r#"{"before":"before","middle":1234,"after":"after","bar":32}"#);
}

#[test]
fn test_named_union_flattened() {
    let maybe = union_struct(vec![], None, set("bar", Value::UInt(32)));
    let value = strukt(vec![
        set("before", text("before")),
        with(set("maybe", maybe), vec![flatten("maybe_")]),
        set("middle", Value::UInt(1234)),
        set("after", text("after")),
    ]);
    assert_eq!(
        serialize_json(&value).unwrap(),
        r#"{"before":"before","maybe_bar":32,"middle":1234,"after":"after"}"#
    );
}

#[test]
fn test_encode_no_name_discriminator() {
    let baz = union_struct(vec![], None, set("bar", Value::UInt(100)));
    let sbaz = union_struct(vec![], None, set("sfoo", text("Hello")));
    let value = strukt(vec![
        with(set("baz", baz), vec![Annotation::Discriminator(discriminator(None, None))]),
        with(
            set("sbaz", sbaz),
            vec![flatten(""), Annotation::Discriminator(discriminator(None, None))],
        ),
    ]);
    assert_eq!(serialize_json(&value).unwrap(), r#"{"baz":{"bar":100},"sbaz":"sfoo","sfoo":"Hello"}"#);
}

#[test]
fn discriminators_name_the_active_member() {
    let value = union_struct(vec![], Some(discriminator(Some("type"), None)), set("intValue", Value::UInt(0)));
    assert_eq!(serialize_json(&value).unwrap(), r#"{"type":"intValue","intValue":0}"#);
    // A void member writes only its tag.
    let value = union_struct(vec![], Some(discriminator(Some("type"), None)), set("voidValue", Value::Void));
    assert_eq!(serialize_json(&value).unwrap(), r#"{"type":"voidValue"}"#);
    // The value name moves the value.
    let value = union_struct(
        vec![],
        Some(discriminator(Some("kind"), Some("value"))),
        with(set("foo", text("x")), vec![Annotation::Name("renamed".to_string())]),
    );
    assert_eq!(serialize_json(&value).unwrap(), r#"{"kind":"renamed","value":"x"}"#);
}

#[test]
fn cyclic_flatten_encodes() {
    let value = strukt(vec![with(unset("inner"), vec![flatten("i.")]), set("value", Value::Int(1))]);
    assert_eq!(serialize_json(&value).unwrap(), r#"{"value":1}"#);

    let inner = strukt(vec![with(unset("inner"), vec![flatten("i.")]), set("value", Value::Int(2))]);
    let value = strukt(vec![with(set("inner", inner), vec![flatten("i.")]), set("value", Value::Int(1))]);
    assert_eq!(serialize_json(&value).unwrap(), r#"{"i.value":2,"value":1}"#);
}

#[test]
fn non_cyclic_flatten_encodes() {
    let a_inner = strukt(vec![with(unset("b"), vec![flatten("")]), set("value", Value::Int(3))]);
    let b = strukt(vec![set("a", a_inner), set("other", Value::Int(4))]);
    let value = strukt(vec![with(set("b", b), vec![flatten("")]), set("value", Value::Int(9))]);
    assert_eq!(serialize_json(&value).unwrap(), r#"{"a":{"value":3},"other":4,"value":9}"#);
}

#[test]
fn custom_json_is_written_in_place() {
    let custom = JsonValue::Object(vec![
        ("x".to_string(), JsonValue::Number("1".to_string())),
        ("y".to_string(), JsonValue::Array(vec![JsonValue::Boolean(false)])),
    ]);
    let value = strukt(vec![set("c", Value::Custom(custom))]);
    assert_eq!(serialize_json(&value).unwrap(), r#"{"c":{"x":1,"y":[false]}}"#);

    let custom = JsonValue::Object(vec![("x".to_string(), JsonValue::Number("1".to_string()))]);
    let value = strukt(vec![with(set("c", Value::Custom(custom)), vec![flatten("p.")]), set("z", Value::Int(0))]);
    assert_eq!(serialize_json(&value).unwrap(), r#"{"p.x":1,"z":0}"#);

    let value = strukt(vec![with(set("c", Value::Custom(JsonValue::Null)), vec![flatten("")])]);
    assert_eq!(serialize_json(&value).unwrap_err(), ErrorOf::FlattenNotObject("c".to_string()));
}

#[test]
fn unrepresentable_values_are_errors() {
    assert_eq!(
        serialize_json(&strukt(vec![set("p", Value::AnyPointer)])).unwrap_err(),
        ErrorOf::AnyPointerNotRepresentable
    );
    assert_eq!(
        serialize_json(&strukt(vec![set("c", Value::Capability)])).unwrap_err(),
        ErrorOf::CapabilityNotRepresentable
    );
    // An unset pointer is skipped, whatever its type.
    assert_eq!(serialize_json(&strukt(vec![unset("p")])).unwrap(), "{}");
    assert_eq!(serialize_json(&Value::Int(1)).unwrap_err(), ErrorOf::TopLevelNotStruct);
}

#[test]
fn test_string_encoding() {
    let value = strukt(vec![set("t", text("quote\" backslash\\ nl\n cr\r tab\t bs\u{8} ff\u{c} bell\u{7}"))]);
    assert_eq!(
        serialize_json(&value).unwrap(),
        r#"{"t":"quote\" backslash\\ nl\n cr\r tab\t bs\b ff\f bell\u0007"}"#
    );
}

#[test]
fn test_string_encoding_control_boundaries() {
    let mut out = String::new();
    write_string(&mut out, "\u{7f}\u{80}\u{9f}\u{a0}\u{100}");
    assert_eq!(out, "\"\\u007f\\u0080\\u009f\u{a0}\u{100}\"");
}

fn data_member(name: &str, value: Value, annotations: Vec<Annotation>) -> Member {
    Member { name: name.to_string(), annotations, element_is_data: true, value: Some(value) }
}

#[test]
fn test_base64_union() {
    let value = union_struct(
        vec![],
        None,
        data_member("foo", Value::Data(vec![0xde, 0xad, 0xbe, 0xef]), vec![Annotation::Base64]),
    );
    assert_eq!(serialize_json(&value).unwrap(), r#"{"foo":"3q2+7w=="}"#);
}

#[test]
fn test_nested_data_list() {
    let value = strukt(vec![data_member(
        "dataAllTheWayDown",
        Value::List(vec![
            Value::List(vec![Value::Data(vec![0xde, 0xad, 0xbe, 0xef]), Value::Data(vec![0xef, 0xbe, 0xad, 0xde])]),
            Value::List(vec![Value::Data(vec![0xba, 0xdf, 0x00, 0xd0])]),
        ]),
        vec![Annotation::Hex],
    )]);
    assert_eq!(serialize_json(&value).unwrap(), r#"{"dataAllTheWayDown":[["deadbeef","efbeadde"],["badf00d0"]]}"#);
}

#[test]
fn test_encode_all_json_types() {
    let bytes = vec![0xde, 0xad, 0xbe, 0xef, 0xca, 0xfe, 0xba, 0xbe];
    let enumerant = |name: &str| Value::Enum(0, Some(Enumerant { name: name.to_string(), annotations: vec![] }));
    let non_finite = || {
        Value::List(vec![
            Value::Float("\"NaN\"".to_string()),
            Value::Float("\"Infinity\"".to_string()),
            Value::Float("\"-Infinity\"".to_string()),
        ])
    };
    let embedded = strukt(vec![
        set("voidField", Value::Void),
        set("boolField", Value::Bool(false)),
        set("int8Field", Value::Int(0)),
        set("int16Field", Value::Int(0)),
        set("int32Field", Value::Int(0)),
        set("int64Field", Value::Int64(0)),
        set("uInt8Field", Value::UInt(0)),
        set("uInt16Field", Value::UInt(0)),
        set("uInt32Field", Value::UInt(0)),
        set("uInt64Field", Value::UInt64(0)),
        set("float32Field", Value::Float("0".to_string())),
        set("float64Field", Value::Float("0".to_string())),
        set("textField", text("inner")),
        unset("dataField"),
        unset("base64Field"),
        unset("hexField"),
        unset("structField"),
        set("enumField", enumerant("foo")),
        set("textList", Value::List(vec![text("frist"), text("segund")])),
        data_member(
            "base64List",
            Value::List(vec![Value::Data(vec![0xde, 0xad, 0xbe, 0xef]), Value::Data(vec![0xba, 0xdf, 0x00, 0xd0])]),
            vec![Annotation::Base64],
        ),
        data_member(
            "hexList",
            Value::List(vec![Value::Data(vec![0xde, 0xad, 0xbe, 0xef]), Value::Data(vec![0xba, 0xdf, 0x00, 0xd0])]),
            vec![Annotation::Hex],
        ),
    ]);
    let value = strukt(vec![
        set("voidField", Value::Void),
        set("boolField", Value::Bool(true)),
        set("int8Field", Value::Int(-8)),
        set("int16Field", Value::Int(-16)),
        set("int32Field", Value::Int(-32)),
        set("int64Field", Value::Int64(-64)),
        set("uInt8Field", Value::UInt(8)),
        set("uInt16Field", Value::UInt(16)),
        set("uInt32Field", Value::UInt(32)),
        set("uInt64Field", Value::UInt64(64)),
        set("float32Field", Value::Float("1.3200000524520874".to_string())),
        set("float64Field", Value::Float("1.64".to_string())),
        set("textField", text("hello")),
        data_member("dataField", Value::Data(bytes.clone()), vec![]),
        data_member("base64Field", Value::Data(bytes.clone()), vec![Annotation::Base64]),
        data_member("hexField", Value::Data(bytes), vec![Annotation::Hex]),
        set("structField", embedded),
        set("enumField", enumerant("quux")),
        set("float32List", non_finite()),
        set("float64List", non_finite()),
        set("enumList", Value::List(vec![enumerant("foo"), enumerant("bar"), enumerant("garply")])),
    ]);
    let expected = [
        "{",
        r#""voidField":null,"#,
        r#""boolField":true,"#,
        r#""int8Field":-8,"#,
        r#""int16Field":-16,"#,
        r#""int32Field":-32,"#,
        r#""int64Field":"-64","#,
        r#""uInt8Field":8,"#,
        r#""uInt16Field":16,"#,
        r#""uInt32Field":32,"#,
        r#""uInt64Field":"64","#,
        r#""float32Field":1.3200000524520874,"#,
        r#""float64Field":1.64,"#,
        r#""textField":"hello","#,
        r#""dataField":[222,173,190,239,202,254,186,190],"#,
        r#""base64Field":"3q2+78r+ur4=","#,
        r#""hexField":"deadbeefcafebabe","#,
        r#""structField":{"#,
        r#""voidField":null,"#,
        r#""boolField":false,"#,
        r#""int8Field":0,"#,
        r#""int16Field":0,"#,
        r#""int32Field":0,"#,
        r#""int64Field":"0","#,
        r#""uInt8Field":0,"#,
        r#""uInt16Field":0,"#,
        r#""uInt32Field":0,"#,
        r#""uInt64Field":"0","#,
        r#""float32Field":0,"#,
        r#""float64Field":0,"#,
        r#""textField":"inner","#,
        r#""enumField":"foo","#,
        r#""textList":["frist","segund"],"#,
        r#""base64List":["3q2+7w==","ut8A0A=="],"#,
        r#""hexList":["deadbeef","badf00d0"]"#,
        "},",
        r#""enumField":"quux","#,
        r#""float32List":["NaN","Infinity","-Infinity"],"#,
        r#""float64List":["NaN","Infinity","-Infinity"],"#,
        r#""enumList":["foo","bar","garply"]"#,
        "}",
    ]
    .join("");
    assert_eq!(serialize_json(&value).unwrap(), expected);
}

#[test]
fn test_named_union_non_flattened() {
    let group = |m: Member| union_struct(vec![], None, m);
    let value = strukt(vec![
        set("union0", group(set("u0f0s16", Value::Int(-12345)))),
        set("union1", group(set("u1f0s0", Value::Void))),
        set("union2", group(set("u2f0s1", Value::Bool(false)))),
        set("union3", group(set("u3f0s1", Value::Bool(false)))),
        set("bit0", Value::Bool(true)),
        set("bit2", Value::Bool(false)),
        set("bit3", Value::Bool(true)),
        set("bit4", Value::Bool(false)),
        set("bit5", Value::Bool(true)),
        set("bit6", Value::Bool(false)),
        set("bit7", Value::Bool(true)),
        set("byte0", Value::UInt(0xAA)),
    ]);
    let expected = [
        "{",
        r#""union0":{"u0f0s16":-12345},"#,
        r#""union1":{"u1f0s0":null},"#,
        r#""union2":{"u2f0s1":false},"#,
        r#""union3":{"u3f0s1":false},"#,
        r#""bit0":true,"#,
        r#""bit2":false,"#,
        r#""bit3":true,"#,
        r#""bit4":false,"#,
        r#""bit5":true,"#,
        r#""bit6":false,"#,
        r#""bit7":true,"#,
        r#""byte0":170"#,
        "}",
    ]
    .join("");
    assert_eq!(serialize_json(&value).unwrap(), expected);
}

fn renamed(name: &str) -> Annotation {
    Annotation::Name(name.to_string())
}

fn disc_annotation(name: Option<&str>, value_name: Option<&str>) -> Annotation {
    Annotation::Discriminator(discriminator(name, value_name))
}

fn annotated_enum(ordinal: u16) -> Value {
    let (name, annotations) = match ordinal {
        0 => ("foo", vec![]),
        1 => ("bar", vec![renamed("renamed-bar")]),
        2 => ("baz", vec![renamed("renamed-baz")]),
        _ => ("qux", vec![]),
    };
    Value::Enum(ordinal, Some(Enumerant { name: name.to_string(), annotations }))
}

#[test]
fn test_discriminated_union() {
    let a_group = strukt(vec![
        set("flatFoo", Value::UInt(0xF00)),
        set("flatBar", text("0xBaa")),
        with(set("flatBaz", strukt(vec![set("hello", Value::Bool(true))])), vec![renamed("renamed-flatBaz")]),
        with(set("doubleFlat", strukt(vec![set("flatQux", text("Qux"))])), vec![flatten("")]),
    ]);
    let prefixed_group = strukt(vec![
        set("foo", text("Foo")),
        with(set("bar", Value::UInt(0xBAA)), vec![renamed("renamed-bar")]),
        set("baz", strukt(vec![set("hello", Value::Bool(false))])),
        with(set("morePrefix", strukt(vec![set("qux", text("Qux"))])), vec![flatten("xfp.")]),
    ]);
    let a_union = union_struct(
        vec![],
        None,
        with(
            set(
                "bar",
                strukt(vec![set("barMember", Value::UInt(0xAAB)), set("multiMember", text("Member"))]),
            ),
            vec![flatten(""), renamed("renamed-bar")],
        ),
    );
    let external_union = union_struct(
        vec![],
        Some(discriminator(Some("type"), None)),
        with(set("bar", strukt(vec![set("value", text("Value"))])), vec![flatten("")]),
    );
    let value = strukt(vec![
        with(set("someField", text("Some Field")), vec![renamed("names-can_contain!anything Really")]),
        with(set("aGroup", a_group), vec![flatten("")]),
        with(set("prefixedGroup", prefixed_group), vec![flatten("pfx.")]),
        with(set("aUnion", a_union), vec![flatten(""), disc_annotation(Some("union-type"), None)]),
        set("dependency", strukt(vec![with(set("foo", text("dep-foo")), vec![renamed("renamed-foo")]), unset("cycle")])),
        set("simpleGroup", strukt(vec![with(set("grault", text("grault")), vec![renamed("renamed-grault")])])),
        set("enums", Value::List((0..4).map(annotated_enum).collect())),
        with(
            set("bUnion", union_struct(vec![], None, with(set("bar", Value::UInt(100)), vec![renamed("renamed-bar")]))),
            vec![flatten(""), disc_annotation(None, Some("bValue"))],
        ),
        set("externalUnion", external_union),
        with(
            set("unionWithVoid", union_struct(vec![], None, set("voidValue", Value::Void))),
            vec![disc_annotation(Some("type"), None)],
        ),
    ]);
    let expected = [
        "{",
        r#""names-can_contain!anything Really":"Some Field","#,
        r#""flatFoo":3840,"#,
        r#""flatBar":"0xBaa","#,
        r#""renamed-flatBaz":{"hello":true},"#,
        r#""flatQux":"Qux","#,
        r#""pfx.foo":"Foo","#,
        r#""pfx.renamed-bar":2986,"#,
        r#""pfx.baz":{"hello":false},"#,
        r#""pfx.xfp.qux":"Qux","#,
        r#""union-type":"renamed-bar","#,
        r#""barMember":2731,"#,
        r#""multiMember":"Member","#,
        r#""dependency":{"renamed-foo":"dep-foo"},"#,
        r#""simpleGroup":{"renamed-grault":"grault"},"#,
        r#""enums":["foo","renamed-bar","renamed-baz","qux"],"#,
        r#""bUnion":"renamed-bar","#,
        r#""bValue":100,"#,
        r#""externalUnion":{"type":"bar","value":"Value"},"#,
        r#""unionWithVoid":{"type":"voidValue"}"#,
        "}",
    ]
    .join("");
    assert_eq!(serialize_json(&value).unwrap(), expected);
}

/// `TestJsonAnnotations` of the test schema, written as when only
/// defaults are set, with `a_group` standing for the flattened `aGroup`.
fn json_annotations_value(a_group: Value) -> Value {
    let prefixed_group = strukt(vec![
        unset("foo"),
        with(set("bar", Value::UInt(0)), vec![renamed("renamed-bar")]),
        set("baz", strukt(vec![set("hello", Value::Bool(false))])),
        with(set("morePrefix", strukt(vec![unset("qux")])), vec![flatten("xfp.")]),
    ]);
    let a_union = union_struct(
        vec![],
        None,
        with(set("foo", strukt(vec![unset("fooMember"), set("multiMember", Value::UInt(0))])), vec![flatten("")]),
    );
    strukt(vec![
        with(unset("someField"), vec![renamed("names-can_contain!anything Really")]),
        with(set("aGroup", a_group), vec![flatten("")]),
        with(set("prefixedGroup", prefixed_group), vec![flatten("pfx.")]),
        with(set("aUnion", a_union), vec![flatten(""), disc_annotation(Some("union-type"), None)]),
        unset("dependency"),
        set("simpleGroup", strukt(vec![with(unset("grault"), vec![renamed("renamed-grault")])])),
        unset("enums"),
        with(
            set("bUnion", union_struct(vec![], None, unset("foo"))),
            vec![flatten(""), disc_annotation(None, Some("bValue"))],
        ),
        unset("externalUnion"),
        with(
            set("unionWithVoid", union_struct(vec![], None, set("intValue", Value::UInt(0)))),
            vec![disc_annotation(Some("type"), None)],
        ),
    ])
}

#[test]
fn test_encode_with_empty_flattened() {
    let a_group = strukt(vec![
        set("flatFoo", Value::UInt(0)),
        unset("flatBar"),
        with(set("flatBaz", strukt(vec![set("hello", Value::Bool(false))])), vec![renamed("renamed-flatBaz")]),
        with(set("doubleFlat", strukt(vec![unset("flatQux")])), vec![flatten("")]),
    ]);
    assert_eq!(
        serialize_json(&json_annotations_value(a_group)).unwrap(),
        r#"{"flatFoo":0,"renamed-flatBaz":{"hello":false},"pfx.renamed-bar":0,"pfx.baz":{"hello":false},"union-type":"foo","multiMember":0,"simpleGroup":{},"unionWithVoid":{"type":"intValue","intValue":0}}"#
    );
}

/// A type override on `aGroup` hands the writer the object it gave; the
/// group stays flattened, so that object's members are inlined.
#[test]
fn type_overrides_encode() {
    let overridden =
        JsonValue::Object(vec![("aGroup".to_string(), JsonValue::String("Overridden".to_string()))]);
    assert_eq!(
        serialize_json(&json_annotations_value(Value::Custom(overridden))).unwrap(),
        r#"{"aGroup":"Overridden","pfx.renamed-bar":0,"pfx.baz":{"hello":false},"union-type":"foo","multiMember":0,"simpleGroup":{},"unionWithVoid":{"type":"intValue","intValue":0}}"#
    );
}

#[test]
fn any_pointer_is_not_encoded() {
    assert_eq!(
        serialize_json(&strukt(vec![set("anyPointerField", Value::AnyPointer)])).unwrap_err(),
        ErrorOf::AnyPointerNotRepresentable
    );
}

/// With a field override the pointer is written as what the codec gave.
#[test]
fn any_pointer_is_encoded_with_override() {
    let value = strukt(vec![set(
        "anyPointerField",
        Value::Custom(JsonValue::String("Any pointer you like".to_string())),
    )]);
    assert_eq!(serialize_json(&value).unwrap(), r#"{"anyPointerField":"Any pointer you like"}"#);
}

#[test]
fn any_pointer_null_does_not_prevent_encoding() {
    assert_eq!(serialize_json(&strukt(vec![unset("anyPointerField")])).unwrap(), "{}");
}

/// `structLevel` has a type-level codec and `fieldLevel` a field-level one;
/// each is written as what its codec gave.
#[test]
fn custom_codec_encode() {
    let struct_level = JsonValue::Object(vec![("test".to_string(), JsonValue::String("Inside".to_string()))]);
    let field_level = JsonValue::String(format!("Hello, {}!", "Hello, field level!"));
    let value = strukt(vec![
        set("structLevel", Value::Custom(struct_level)),
        with(
            set("fieldLevel", Value::Custom(field_level)),
            vec![Annotation::Codec("TestFieldCodec".to_string())],
        ),
    ]);
    assert_eq!(
        serialize_json(&value).unwrap(),
        r#"{"structLevel":{"test":"Inside"},"fieldLevel":"Hello, Hello, field level!!"}"#
    );
}

/// The encode half of the non-cyclic flatten round trip: `b` is flattened,
/// its inner `a` is not, and `a`'s own `b` is unset.
#[test]
fn non_cyclic_flatten_writes_what_it_reads() {
    let a = strukt(vec![with(unset("b"), vec![flatten("")]), set("value", Value::Int(3))]);
    let b = strukt(vec![set("a", a), set("other", Value::Int(4))]);
    let value = strukt(vec![with(set("b", b), vec![flatten("")]), set("value", Value::Int(9))]);
    assert_eq!(serialize_json(&value).unwrap(), r#"{"a":{"value":3},"other":4,"value":9}"#);
}

/// A flattened value that is not an object is refused before anything is
/// written.
#[test]
fn flattening_a_non_object_writes_nothing() {
    let mut meta = EncodingOptions::default();
    meta.name = "c".to_string();
    meta.flatten = Some(FlattenOptions { prefix: "p.".to_string() });
    let mut out = "{\"a\":1".to_string();
    let mut first = false;
    let r = write_json_value(&mut out, &JsonValue::Number("2".to_string()), &meta, &mut first);
    assert_eq!(r.unwrap_err(), ErrorOf::FlattenNotObject("c".to_string()));
    assert_eq!(out, "{\"a\":1");
    assert!(!first);
}
