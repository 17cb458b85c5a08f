use state_plan::{Expr, ResourceDeclaration, Value};

fn path(n: &str) -> Box<Expr> {
    Box::new(Expr::Path(n.to_string()))
}

fn method_call(receiver: &str, method: &str) -> Expr {
    Expr::MethodCall { receiver: path(receiver), method: method.to_string(), args: Vec::new() }
}

fn declaration(fields: Vec<(&str, Expr)>) -> ResourceDeclaration {
    ResourceDeclaration {
        name: "resource".to_string(),
        kind: "Foo".to_string(),
        fields: fields.into_iter().map(|(f, e)| (f.to_string(), e)).collect(),
        outputs: Vec::new(),
    }
}

#[test]
fn resource_gives_correct_dependencies() {
    let resource = declaration(vec![("field_1", method_call("bar", "field_1"))]);
    let dependencies = resource.get_dependencies();
    assert_eq!("bar".to_string(), dependencies[0]);
}

#[test]
fn resource_gives_correct_empty_dependencies() {
    let resource = declaration(vec![("field_1", Expr::Literal(Value::Int(10)))]);
    let dependencies = resource.get_dependencies();
    assert!(dependencies.is_empty());
}

#[test]
fn resource_gives_correct_multiple_dependencies() {
    let resource = declaration(vec![
        ("field_1", method_call("bar_1", "field_1")),
        ("field_2", method_call("bar_2", "field_1")),
        ("field_3", Expr::Literal(Value::Int(10))),
    ]);
    let dependencies = resource.get_dependencies();
    assert_eq!(dependencies.len(), 2);
}

#[test]
fn field_access_on_identifier_is_a_dependency() {
    let resource = declaration(vec![(
        "field_1",
        Expr::Field { receiver: path("bar"), member: "field_1".to_string() },
    )]);
    assert_eq!(resource.get_dependencies(), vec!["bar".to_string()]);
}

#[test]
fn dependencies_keep_field_order_and_duplicates() {
    let resource = declaration(vec![
        ("a", method_call("y", "get_a")),
        ("b", Expr::Field { receiver: path("x"), member: "b".to_string() }),
        ("c", method_call("y", "get_c")),
    ]);
    assert_eq!(
        resource.get_dependencies(),
        vec!["y".to_string(), "x".to_string(), "y".to_string()]
    );
}

#[test]
fn nested_receiver_and_other_shapes_are_not_dependencies() {
    let nested = Expr::MethodCall {
        receiver: Box::new(method_call("bar", "inner")),
        method: "outer".to_string(),
        args: Vec::new(),
    };
    let resource = declaration(vec![
        ("a", nested),
        ("b", Expr::Path("bar".to_string())),
        ("c", Expr::Other("1 + 2".to_string())),
        ("d", Expr::Literal(Value::Str("bar".to_string()))),
    ]);
    assert!(resource.get_dependencies().is_empty());
}

#[test]
fn dependency_of_reports_receiver() {
    assert_eq!(
        state_plan::declaration::dependency_of(&method_call("bar", "get_id")),
        Some("bar".to_string())
    );
    assert_eq!(state_plan::declaration::dependency_of(&Expr::Literal(Value::Bool(true))), None);
}
