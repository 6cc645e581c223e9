use blackjack::graph::{data_type_from_str, BjkGraph, DataType, DependencyKind, GraphError};
use blackjack::serialization::{
    deserialize_data_type, graph_from_runtime, graph_into_runtime, parse_u32, serialize_data_type,
    SerializationVersion, VersionError,
};
use slotmap::KeyData;

fn chars(s: &str) -> Vec<char> {
    s.chars().collect()
}

#[test]
fn build_graph_and_connect() {
    let mut g = BjkGraph::new();
    let a = g.add_node("Box", None);
    let b = g.add_node("Translate", Some("out_mesh".to_string()));
    assert_eq!(g.add_input(a, "origin", DataType::Vector, None), Ok(()));
    assert_eq!(g.add_input(a, "size", DataType::Vector, Some("Size".to_string())), Ok(()));
    assert_eq!(
        g.add_input(a, "size", DataType::Scalar, None),
        Err(GraphError::InputExists("size".to_string()))
    );
    assert_eq!(g.add_output(a, "out_mesh", DataType::Mesh), Ok(()));
    assert_eq!(
        g.add_output(a, "out_mesh", DataType::Mesh),
        Err(GraphError::OutputExists("out_mesh".to_string()))
    );
    assert_eq!(g.add_input(b, "mesh", DataType::Mesh, None), Ok(()));
    assert_eq!(g.add_input(b, "translate", DataType::Vector, None), Ok(()));
    assert_eq!(g.add_output(b, "out_mesh", DataType::Mesh), Ok(()));

    assert_eq!(
        g.add_connection(a, "nope", b, "mesh"),
        Err(GraphError::OutputNotFound("nope".to_string()))
    );
    assert_eq!(
        g.add_connection(a, "out_mesh", b, "nope"),
        Err(GraphError::InputNotFound("nope".to_string()))
    );
    assert_eq!(
        g.add_connection(a, "out_mesh", b, "translate"),
        Err(GraphError::IncompatibleTypes(DataType::Vector, DataType::Mesh))
    );
    assert_eq!(g.add_connection(a, "out_mesh", b, "mesh"), Ok(()));
    let node = g.get_node(b);
    assert!(matches!(
        &node.inputs[0].kind,
        DependencyKind::Connection { node, param_name } if *node == a && param_name == "out_mesh"
    ));
    assert_eq!(g.get_node(a).inputs.len(), 2);
    assert_eq!(g.get_node(b).return_value, Some("out_mesh".to_string()));
}

#[test]
fn display_id_matches_key_debug() {
    let mut g = BjkGraph::new();
    let a = g.add_node("Box", None);
    assert_eq!(a.display_id(), "1v1");
    assert_eq!(a.display_id(), format!("{:?}", KeyData::from_ffi(a.0)));
}

#[test]
fn graph_store_and_restore() {
    let mut g = BjkGraph::new();
    let a = g.add_node("Box", None);
    let b = g.add_node("Translate", None);
    g.add_input(a, "size", DataType::Vector, Some("Size".to_string())).unwrap();
    g.add_output(a, "out_mesh", DataType::Mesh).unwrap();
    g.add_input(b, "mesh", DataType::Mesh, None).unwrap();
    g.add_connection(a, "out_mesh", b, "mesh").unwrap();

    let (nodes, default, _) = graph_from_runtime(&g).unwrap();
    assert_eq!(nodes.len(), 2);
    assert_eq!(default, None);
    assert_eq!(nodes[0].op_name, "Box");
    assert_eq!(nodes[0].inputs[0].data_type, "BJK_VECTOR");
    assert_eq!(nodes[1].outputs.len(), 0);

    let (g2, map) = graph_into_runtime(nodes, default).unwrap();
    let a2 = map.idx_to_id[0];
    let b2 = map.idx_to_id[1];
    assert_eq!(g2.get_node(a2).op_name, "Box");
    assert_eq!(g2.get_node(a2).outputs[0].name, "out_mesh");
    assert!(matches!(
        &g2.get_node(b2).inputs[0].kind,
        DependencyKind::Connection { node, param_name } if *node == a2 && param_name == "out_mesh"
    ));
    assert!(matches!(
        &g2.get_node(a2).inputs[0].kind,
        DependencyKind::External { promoted } if promoted.as_deref() == Some("Size")
    ));
}

#[test]
fn data_types_roundtrip() {
    let all = [
        DataType::Vector,
        DataType::Scalar,
        DataType::Selection,
        DataType::Mesh,
        DataType::String,
        DataType::HeightMap,
    ];
    for t in all {
        assert_eq!(deserialize_data_type(&serialize_data_type(t)), Some(t));
    }
    assert_eq!(serialize_data_type(DataType::HeightMap), "BJK_HEIGHTMAP");
    assert_eq!(deserialize_data_type("BJK_FLOAT"), None);
    assert_eq!(data_type_from_str("mesh"), Some(DataType::Mesh));
    assert_eq!(data_type_from_str("lua_string"), Some(DataType::String));
    assert_eq!(data_type_from_str("BJK_MESH"), None);
}

#[test]
fn parse_u32_cases() {
    assert_eq!(parse_u32(&chars("42")), Some(42));
    assert_eq!(parse_u32(&chars("+7")), Some(7));
    assert_eq!(parse_u32(&chars("4294967295")), Some(u32::MAX));
    assert_eq!(parse_u32(&chars("4294967296")), None);
    assert_eq!(parse_u32(&chars("")), None);
    assert_eq!(parse_u32(&chars("-1")), None);
    assert_eq!(parse_u32(&chars("1a")), None);
}

#[test]
fn test_versioning() {
    let version = SerializationVersion { major: 4, minor: 2, patch: 0 };
    let line = version.header_line();
    assert_eq!(line, "// BLACKJACK_VERSION_HEADER 4 2 0\n");
    let new_version = SerializationVersion::from_header_line(&line).unwrap();
    assert_eq!(version, new_version);
}

#[test]
fn version_header_errors() {
    assert_eq!(SerializationVersion::from_header_line("hello"), Err(VersionError::InvalidHeader));
    assert_eq!(SerializationVersion::from_header_line("// FOO 1 2 3"), Err(VersionError::NotBlackjack));
    assert_eq!(
        SerializationVersion::from_header_line("// BLACKJACK_VERSION_HEADER x 2 3"),
        Err(VersionError::BadMajor("x".to_string()))
    );
    assert_eq!(
        SerializationVersion::from_header_line("// BLACKJACK_VERSION_HEADER 1 2 y\n"),
        Err(VersionError::BadPatch("y".to_string()))
    );
    assert_eq!(
        SerializationVersion::latest(),
        SerializationVersion { major: 0, minor: 1, patch: 0 }
    );
}
