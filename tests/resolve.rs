use state_plan::graph::DependencyGraph;
use state_plan::order::topological_order;
use state_plan::{resolve, Expr, ResolutionError, ResourceDeclaration, Value};

fn path(n: &str) -> Box<Expr> {
    Box::new(Expr::Path(n.to_string()))
}

fn declaration(name: &str, deps: &[&str]) -> ResourceDeclaration {
    let mut fields: Vec<(String, Expr)> = vec![("field_0".to_string(), Expr::Literal(Value::Int(10)))];
    for (i, d) in deps.iter().enumerate() {
        fields.push((
            format!("field_{}", i + 1),
            Expr::Field { receiver: path(d), member: "field_0".to_string() },
        ));
    }
    ResourceDeclaration {
        name: name.to_string(),
        kind: "DummyResourceA".to_string(),
        fields,
        outputs: Vec::new(),
    }
}

fn planned_names(declarations: Vec<ResourceDeclaration>) -> Vec<String> {
    resolve(declarations)
        .unwrap()
        .declarations
        .iter()
        .map(|d| d.name.clone())
        .collect()
}

#[test]
fn resolves_correct_dependency_tree() {
    let resources = vec![
        declaration("resource_1", &[]),
        declaration("resource_2", &["resource_1"]),
        declaration("resource_3", &["resource_2"]),
    ];
    let resources = resolve(resources).unwrap().declarations;
    assert_eq!(resources[0].name, "resource_1");
    assert_eq!(resources[1].name, "resource_2");
    assert_eq!(resources[2].name, "resource_3");
}

#[test]
fn detects_cycle() {
    let resources = vec![
        declaration("resource_1", &["resource_2"]),
        declaration("resource_2", &["resource_1"]),
    ];
    let err = resolve(resources).err().unwrap();
    assert!(err.message().contains("Cycle detected at "))
}

#[test]
fn dependency_declared_after_dependent() {
    let names = planned_names(vec![declaration("b", &[]), declaration("a", &["b"])]);
    assert_eq!(names, vec!["b", "a"]);
    let names = planned_names(vec![declaration("a", &["b"]), declaration("b", &[])]);
    assert_eq!(names, vec!["b", "a"]);
}

#[test]
fn mutual_reference_is_a_cycle() {
    let err = resolve(vec![declaration("x", &["y"]), declaration("y", &["x"])]).unwrap_err();
    match err {
        ResolutionError::CycleDetected { name } => assert!(name == "x" || name == "y"),
        other => panic!("expected a cycle, got {:?}", other),
    }
}

#[test]
fn chain_planned_in_every_input_order() {
    let orders: [[&str; 3]; 6] = [
        ["r1", "r2", "r3"],
        ["r1", "r3", "r2"],
        ["r2", "r1", "r3"],
        ["r2", "r3", "r1"],
        ["r3", "r1", "r2"],
        ["r3", "r2", "r1"],
    ];
    for order in orders.iter() {
        let declarations = order
            .iter()
            .map(|n| match *n {
                "r1" => declaration("r1", &[]),
                "r2" => declaration("r2", &["r1"]),
                _ => declaration("r3", &["r2"]),
            })
            .collect();
        assert_eq!(planned_names(declarations), vec!["r1", "r2", "r3"]);
    }
}

#[test]
fn unknown_reference_names_referrer() {
    let err = resolve(vec![declaration("a", &[]), declaration("user", &["unknown_resource"])])
        .unwrap_err();
    assert_eq!(
        err,
        ResolutionError::UnknownResourceReference {
            name: "unknown_resource".to_string(),
            referenced_by: "user".to_string(),
        }
    );
    assert_eq!(
        err.message(),
        "Resource 'unknown_resource' referenced by 'user' is not declared"
    );
}

#[test]
fn self_reference_is_a_cycle() {
    let err = resolve(vec![declaration("solo", &["solo"])]).unwrap_err();
    assert_eq!(err, ResolutionError::CycleDetected { name: "solo".to_string() });
    assert_eq!(err.message(), "Cycle detected at 'solo' dependency");
}

#[test]
fn duplicate_name_is_rejected_first() {
    let err = resolve(vec![
        declaration("a", &["missing"]),
        declaration("b", &[]),
        declaration("a", &[]),
    ])
    .unwrap_err();
    assert_eq!(err, ResolutionError::DuplicateResourceName { name: "a".to_string() });
    assert_eq!(err.message(), "Resource 'a' is declared more than once");
}

#[test]
fn first_unknown_reference_in_declaration_order() {
    let err = resolve(vec![
        declaration("a", &["b", "first_missing"]),
        declaration("b", &["second_missing"]),
    ])
    .unwrap_err();
    assert_eq!(
        err,
        ResolutionError::UnknownResourceReference {
            name: "first_missing".to_string(),
            referenced_by: "a".to_string(),
        }
    );
}

#[test]
fn resolving_twice_gives_identical_plans() {
    let make = || {
        vec![
            declaration("d", &["b", "c"]),
            declaration("c", &["a"]),
            declaration("b", &["a"]),
            declaration("a", &[]),
            declaration("e", &[]),
        ]
    };
    let first = planned_names(make());
    let second = planned_names(make());
    assert_eq!(first, second);
    assert_eq!(first, vec!["a", "e", "b", "c", "d"]);
}

#[test]
fn independent_resources_appear_once_before_dependents() {
    let names = planned_names(vec![
        declaration("top", &["free", "mid"]),
        declaration("mid", &["free"]),
        declaration("free", &[]),
        declaration("alone", &[]),
    ]);
    assert_eq!(names.len(), 4);
    for n in ["top", "mid", "free", "alone"].iter() {
        assert_eq!(names.iter().filter(|m| m == n).count(), 1);
    }
    let pos = |n: &str| names.iter().position(|m| m == n).unwrap();
    assert!(pos("free") < pos("mid"));
    assert!(pos("mid") < pos("top"));
}

#[test]
fn empty_declaration_set_has_empty_plan() {
    assert!(resolve(Vec::new()).unwrap().declarations.is_empty());
}

#[test]
fn graph_edges_point_at_declaration_positions() {
    let declarations = vec![declaration("a", &["b", "b"]), declaration("b", &[])];
    let graph = DependencyGraph::build(&declarations).unwrap();
    assert_eq!(graph.names, vec!["a".to_string(), "b".to_string()]);
    assert_eq!(graph.edges, vec![vec![1, 1], vec![]]);
    assert_eq!(topological_order(&graph), Ok(vec![1, 0]));
}

#[test]
fn topological_order_reports_node_on_cycle() {
    let declarations = vec![
        declaration("a", &[]),
        declaration("b", &["c"]),
        declaration("c", &["b"]),
    ];
    let graph = DependencyGraph::build(&declarations).unwrap();
    let c = topological_order(&graph).unwrap_err();
    assert!(c == 1 || c == 2);
}

#[test]
fn graph_reports_names_and_distinct_dependencies() {
    let declarations = vec![
        declaration("a", &["b", "c", "b"]),
        declaration("b", &[]),
        declaration("c", &["b"]),
    ];
    let graph = DependencyGraph::build(&declarations).unwrap();
    assert_eq!(graph.all_names(), &vec!["a".to_string(), "b".to_string(), "c".to_string()]);
    assert_eq!(graph.dependencies_of(&"a".to_string()), vec!["b".to_string(), "c".to_string()]);
    assert!(graph.dependencies_of(&"b".to_string()).is_empty());
    assert!(graph.dependencies_of(&"missing".to_string()).is_empty());
}
