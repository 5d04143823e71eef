use capnp_json::error::ErrorOf;
use capnp_json::options::{Annotation, FlattenOptions};
use capnp_json::validate::{check_flattening_terminates, check_graph, FieldInfo, SchemaGraph, StructNode, TypeShape};
use capnp_json::Error;

fn plain(ty: TypeShape) -> FieldInfo {
    FieldInfo { is_group: false, annotations: vec![], ty }
}

fn scalar() -> FieldInfo {
    plain(TypeShape::Other)
}

fn strukt(i: usize) -> TypeShape {
    TypeShape::Struct(i)
}

fn list(t: TypeShape) -> TypeShape {
    TypeShape::List(Box::new(t))
}

fn flattened(i: usize, prefix: &str) -> FieldInfo {
    FieldInfo {
        is_group: false,
        annotations: vec![Annotation::Flatten(FlattenOptions { prefix: prefix.to_string() })],
        ty: TypeShape::Struct(i),
    }
}

fn group(i: usize) -> FieldInfo {
    FieldInfo { is_group: true, annotations: vec![], ty: TypeShape::Struct(i) }
}

fn flattened_group(i: usize) -> FieldInfo {
    FieldInfo {
        is_group: true,
        annotations: vec![Annotation::Flatten(FlattenOptions { prefix: String::new() })],
        ty: TypeShape::Struct(i),
    }
}

fn node(name: &str, fields: Vec<FieldInfo>) -> StructNode {
    StructNode { display_name: name.to_string(), fields }
}

/// The schemas of the cyclic-flattening verdicts, by index:
/// 0 SelfStruct, 1 CyclicFlatten, 2 FlattenThroughGroup (3 its group),
/// 4 MutualFlattenA, 5 MutualFlattenB, 6 ReferencesCyclic,
/// 7 ReferencesCyclicViaList, 8 MutualOneFlatA, 9 MutualOneFlatB.
fn verdict_schemas() -> SchemaGraph {
    SchemaGraph {
        nodes: vec![
            node("json-test.capnp:SelfStruct", vec![scalar(), plain(strukt(0))]),
            node("json-test.capnp:CyclicFlatten", vec![flattened(1, "i."), scalar()]),
            node("json-test.capnp:FlattenThroughGroup", vec![scalar(), group(3)]),
            node("json-test.capnp:FlattenThroughGroup.g", vec![flattened(2, "")]),
            node("json-test.capnp:MutualFlattenA", vec![scalar(), flattened(5, "")]),
            node("json-test.capnp:MutualFlattenB", vec![scalar(), flattened(4, "")]),
            node("json-test.capnp:ReferencesCyclic", vec![plain(strukt(1))]),
            node("json-test.capnp:ReferencesCyclicViaList", vec![plain(list(strukt(1)))]),
            node("json-test.capnp:MutualOneFlatA", vec![flattened(9, ""), scalar()]),
            node("json-test.capnp:MutualOneFlatB", vec![plain(strukt(8)), scalar()]),
        ],
    }
}

#[test]
fn recursion_limit_default_matches_cpp() {
    assert_eq!(capnp_json::CodecOptions::default().recursion_limit, 64);
}

#[test]
fn cyclic_flatten_matches_cpp_verdicts() -> Result<(), Error> {
    let g = verdict_schemas();
    // Cyclic: a struct flattening its own type.
    assert!(check_flattening_terminates(&g, 1).is_err());
    // Cyclic: a group is an edge even when it is not itself flattened.
    assert!(check_flattening_terminates(&g, 2).is_err());
    // Cyclic: A -> B -> A, both flattened.
    assert!(check_flattening_terminates(&g, 4).is_err());
    // Cyclic: reachable through a plain field, and through a list element type.
    assert!(check_flattening_terminates(&g, 6).is_err());
    assert!(check_flattening_terminates(&g, 7).is_err());

    // Not cyclic: the return edge is a plain field, so it nests.
    check_flattening_terminates(&g, 8)?;
    // Not cyclic: plain self-reference without any flattening.
    check_flattening_terminates(&g, 0)?;
    Ok(())
}

#[test]
fn validate_schema_reports_cyclic_flattening() {
    let g = verdict_schemas();
    assert_eq!(
        check_flattening_terminates(&g, 1).unwrap_err(),
        ErrorOf::CyclicFlattening("json-test.capnp:CyclicFlatten".to_string())
    );
    assert_eq!(
        check_flattening_terminates(&g, 6).unwrap_err(),
        ErrorOf::CyclicFlattening("json-test.capnp:CyclicFlatten".to_string())
    );
}

/// `TestJsonTypes`: scalars, text, data, enums, a nested struct of its own
/// type and lists of every kind, none of them flattened.
fn test_json_types() -> SchemaGraph {
    let mut fields = Vec::new();
    for _ in 0..16 {
        fields.push(scalar());
    }
    fields.push(plain(strukt(0)));
    fields.push(plain(list(strukt(0))));
    fields.push(plain(list(list(TypeShape::Other))));
    SchemaGraph { nodes: vec![node("test.capnp:TestJsonTypes", fields)] }
}

/// `TestJsonFlattenUnion`: a flattened, discriminated union group between
/// plain fields.
fn test_json_flatten_union() -> SchemaGraph {
    SchemaGraph {
        nodes: vec![
            node("test.capnp:TestJsonFlattenUnion", vec![scalar(), flattened_group(1), scalar(), scalar()]),
            node("test.capnp:TestJsonFlattenUnion.maybe", vec![scalar(), scalar()]),
        ],
    }
}

/// `TestUnion`: four named unions, each a group of scalar members, beside
/// scalar fields.
fn test_union() -> SchemaGraph {
    let mut fields = vec![];
    for g in 1..5 {
        fields.push(group(g));
    }
    for _ in 0..8 {
        fields.push(scalar());
    }
    let member_group = |name: &str| node(name, (0..10).map(|_| scalar()).collect());
    SchemaGraph {
        nodes: vec![
            node("test.capnp:TestUnion", fields),
            member_group("test.capnp:TestUnion.union0"),
            member_group("test.capnp:TestUnion.union1"),
            member_group("test.capnp:TestUnion.union2"),
            member_group("test.capnp:TestUnion.union3"),
        ],
    }
}

/// `TestUnnamedUnion`: scalar fields and an unnamed union of scalars.
fn test_unnamed_union() -> SchemaGraph {
    SchemaGraph { nodes: vec![node("test.capnp:TestUnnamedUnion", (0..5).map(|_| scalar()).collect())] }
}

/// `TestJsonAnnotations`: flattened groups inside flattened groups,
/// flattened unions, a plain reference to a struct that refers back, and a
/// struct with a flattened union member.
fn test_json_annotations() -> SchemaGraph {
    SchemaGraph {
        nodes: vec![
            node(
                "json-test.capnp:TestJsonAnnotations",
                vec![
                    scalar(),
                    flattened_group(1),
                    flattened_group(4),
                    flattened_group(7),
                    plain(strukt(10)),
                    group(11),
                    plain(list(TypeShape::Other)),
                    scalar(),
                    scalar(),
                    scalar(),
                    scalar(),
                    flattened_group(12),
                    plain(strukt(13)),
                    group(15),
                ],
            ),
            node("aGroup", vec![scalar(), scalar(), group(2), flattened_group(3)]),
            node("aGroup.flatBaz", vec![scalar()]),
            node("aGroup.doubleFlat", vec![scalar()]),
            node("prefixedGroup", vec![scalar(), scalar(), group(5), flattened_group(6)]),
            node("prefixedGroup.baz", vec![scalar()]),
            node("prefixedGroup.morePrefix", vec![scalar()]),
            node("aUnion", vec![flattened_group(8), flattened_group(9)]),
            node("aUnion.foo", vec![scalar(), scalar()]),
            node("aUnion.bar", vec![scalar(), scalar()]),
            node("json-test.capnp:TestJsonAnnotations2", vec![scalar(), plain(strukt(0))]),
            node("simpleGroup", vec![scalar()]),
            node("bUnion", vec![scalar(), scalar()]),
            node("json-test.capnp:TestJsonAnnotations3", vec![scalar(), flattened(14, "")]),
            node("json-test.capnp:TestFlattenedStruct", vec![scalar()]),
            node("unionWithVoid", vec![scalar(), scalar(), scalar()]),
        ],
    }
}

#[test]
fn validate_schema_accepts_ordinary_schemas() -> Result<(), Error> {
    check_flattening_terminates(&test_json_types(), 0)?;
    check_flattening_terminates(&test_json_flatten_union(), 0)?;
    check_flattening_terminates(&test_union(), 0)?;
    check_flattening_terminates(&test_unnamed_union(), 0)?;
    check_flattening_terminates(&test_json_annotations(), 0)?;
    Ok(())
}

#[test]
fn schema_graphs_are_checked() {
    let node = |fields: Vec<FieldInfo>| StructNode { display_name: "S".to_string(), fields };
    assert!(check_graph(&SchemaGraph { nodes: vec![node(vec![plain(list(strukt(0))), scalar()])] }));
    assert!(!check_graph(&SchemaGraph { nodes: vec![node(vec![plain(list(strukt(1)))])] }));
}

/// The worklist is taken from its end, so of two cyclic structs that the
/// root names, the one its last field names is reported; within a search,
/// the struct at which the walk closes is.
#[test]
fn the_first_cycle_closed_is_reported() {
    let g = SchemaGraph {
        nodes: vec![
            node("Root", vec![plain(strukt(1)), plain(strukt(2))]),
            node("X", vec![flattened(1, "")]),
            node("Y", vec![flattened(3, "")]),
            node("Z", vec![flattened(2, "")]),
        ],
    };
    assert_eq!(check_flattening_terminates(&g, 0).unwrap_err(), ErrorOf::CyclicFlattening("Y".to_string()));
    assert_eq!(check_flattening_terminates(&g, 3).unwrap_err(), ErrorOf::CyclicFlattening("Z".to_string()));
}
