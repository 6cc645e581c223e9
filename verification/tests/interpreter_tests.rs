use blackjack::graph::{BjkGraph, BjkNodeId, DataType};
use blackjack::graph_interpreter::{run_graph, run_node, ExternalParameter, InterpreterContext, InterpreterError};

/// A box feeding a translate feeding a subdivide; the box and the translate
/// each read an external parameter.
fn three_nodes() -> (BjkGraph, BjkNodeId, BjkNodeId, BjkNodeId) {
    let mut g = BjkGraph::new();
    let a = g.add_node("MakeBox", None);
    let b = g.add_node("Translate", None);
    let c = g.add_node("Subdivide", Some("out_mesh".to_string()));
    g.add_input(a, "size", DataType::Vector, None).unwrap();
    g.add_output(a, "out_mesh", DataType::Mesh).unwrap();
    g.add_input(b, "mesh", DataType::Mesh, None).unwrap();
    g.add_input(b, "offset", DataType::Vector, None).unwrap();
    g.add_output(b, "out_mesh", DataType::Mesh).unwrap();
    g.add_input(c, "mesh", DataType::Mesh, None).unwrap();
    g.add_input(c, "again", DataType::Mesh, None).unwrap();
    g.add_output(c, "out_mesh", DataType::Mesh).unwrap();
    g.add_connection(a, "out_mesh", b, "mesh").unwrap();
    g.add_connection(b, "out_mesh", c, "mesh").unwrap();
    g.add_connection(a, "out_mesh", c, "again").unwrap();
    (g, a, b, c)
}

fn defs() -> Vec<String> {
    vec!["MakeBox".to_string(), "Translate".to_string(), "Subdivide".to_string()]
}

#[test]
fn runs_dependencies_first_and_once() {
    let (g, a, b, c) = three_nodes();
    let params = vec![
        ExternalParameter::new(a, "size".to_string()),
        ExternalParameter::new(b, "offset".to_string()),
    ];
    let order = run_graph(&g, c, params, defs()).unwrap();
    assert_eq!(order, vec![a, b, c]);
}

#[test]
fn missing_external_parameter() {
    let (g, a, b, c) = three_nodes();
    let params = vec![ExternalParameter::new(a, "size".to_string())];
    match run_graph(&g, c, params, defs()) {
        Err(InterpreterError::MissingExternalParameter(n, name)) => {
            assert_eq!(n, b);
            assert_eq!(name, "offset");
        }
        other => panic!("unexpected {:?}", other),
    }
}

#[test]
fn unknown_node_definition() {
    let (g, a, b, c) = three_nodes();
    let params = vec![
        ExternalParameter::new(a, "size".to_string()),
        ExternalParameter::new(b, "offset".to_string()),
    ];
    match run_graph(&g, c, params, vec!["MakeBox".to_string()]) {
        Err(InterpreterError::NodeDefinitionNotFound(op)) => assert_eq!(op, "Subdivide"),
        other => panic!("unexpected {:?}", other),
    }
}

#[test]
fn unknown_node() {
    let (g, _, _, _) = three_nodes();
    let missing = BjkNodeId(0x0000_0001_0000_0064);
    match run_graph(&g, missing, vec![], defs()) {
        Err(InterpreterError::NodeNotFound(n)) => assert_eq!(n, missing),
        other => panic!("unexpected {:?}", other),
    }
}

#[test]
fn dependency_cycle_is_reported() {
    let mut g = BjkGraph::new();
    let a = g.add_node("Loop", None);
    let b = g.add_node("Loop", None);
    g.add_input(a, "in", DataType::Mesh, None).unwrap();
    g.add_output(a, "out", DataType::Mesh).unwrap();
    g.add_input(b, "in", DataType::Mesh, None).unwrap();
    g.add_output(b, "out", DataType::Mesh).unwrap();
    g.add_connection(a, "out", b, "in").unwrap();
    g.add_connection(b, "out", a, "in").unwrap();
    assert!(matches!(
        run_graph(&g, a, vec![], vec!["Loop".to_string()]),
        Err(InterpreterError::DependencyCycle(_))
    ));
}

#[test]
fn cached_nodes_do_not_run_again() {
    let (g, a, b, c) = three_nodes();
    let mut ctx = InterpreterContext {
        outputs_cache: vec![a],
        external_params: vec![ExternalParameter::new(b, "offset".to_string())],
        node_definitions: defs(),
    };
    run_node(&g, &mut ctx, c).unwrap();
    assert_eq!(ctx.outputs_cache, vec![a, b, c]);
}
