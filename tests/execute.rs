use state_plan::execute::{apply_payload, evaluate, instantiate};
use state_plan::{
    _plan, execute, resolve, ExecutionError, Expr, Provider, Resource, ResolvedPlan,
    ResourceDeclaration, Value,
};

fn path(n: &str) -> Box<Expr> {
    Box::new(Expr::Path(n.to_string()))
}

fn getter(receiver: &str, method: &str) -> Expr {
    Expr::MethodCall { receiver: path(receiver), method: method.to_string(), args: Vec::new() }
}

fn declaration(name: &str, kind: &str, fields: Vec<(&str, Expr)>, outputs: &[&str]) -> ResourceDeclaration {
    ResourceDeclaration {
        name: name.to_string(),
        kind: kind.to_string(),
        fields: fields.into_iter().map(|(f, e)| (f.to_string(), e)).collect(),
        outputs: outputs.iter().map(|o| o.to_string()).collect(),
    }
}

/// Answers `TestResourceB` with 420 for each output and every other kind
/// with its kind's name; counts its calls.
struct TestProvider {
    calls: usize,
}

impl Provider for TestProvider {
    fn get(&mut self, resource: &Resource) -> Result<Vec<Value>, String> {
        self.calls += 1;
        let value = if resource.kind == "TestResourceB" {
            Value::Int(420)
        } else {
            Value::Str(resource.kind.clone())
        };
        Ok(resource.outputs.iter().map(|_| value.clone()).collect())
    }
}

struct FailingProvider;

impl Provider for FailingProvider {
    fn get(&mut self, _resource: &Resource) -> Result<Vec<Value>, String> {
        Err("unreachable endpoint".to_string())
    }
}

struct ShortProvider;

impl Provider for ShortProvider {
    fn get(&mut self, _resource: &Resource) -> Result<Vec<Value>, String> {
        Ok(Vec::new())
    }
}

fn test_state_declarations() -> Vec<ResourceDeclaration> {
    vec![
        declaration("resource_a", "TestResourceA", vec![("id", getter("resource_b", "get_id"))], &[]),
        declaration(
            "resource_b",
            "TestResourceB",
            vec![("id", Expr::Literal(Value::Int(10)))],
            &["id"],
        ),
    ]
}

#[test]
fn test_state() {
    let plan = resolve(test_state_declarations()).unwrap();
    let mut provider = TestProvider { calls: 0 };
    let built = execute(&plan, &mut provider).unwrap();
    assert_eq!(built.len(), 2);
    assert_eq!(built[0].name, "resource_b");
    assert_eq!(built[0].inputs, vec![("id".to_string(), Value::Int(10))]);
    assert_eq!(built[0].outputs, vec![("id".to_string(), Value::Int(420))]);
    assert_eq!(built[1].name, "resource_a");
    assert_eq!(built[1].inputs, vec![("id".to_string(), Value::Int(420))]);
    assert!(built[1].outputs.is_empty());
    assert_eq!(provider.calls, 1);
}

#[test]
fn sample_plan_runs() {
    _plan();
}

#[test]
fn repeated_execution_gives_identical_outputs() {
    let plan = resolve(test_state_declarations()).unwrap();
    let first = execute(&plan, &mut TestProvider { calls: 0 }).unwrap();
    let second = execute(&plan, &mut TestProvider { calls: 0 }).unwrap();
    assert_eq!(first, second);
}

#[test]
fn field_access_reads_an_input() {
    let plan = resolve(vec![
        declaration("copy", "K", vec![("x", Expr::Field { receiver: path("orig"), member: "x".to_string() })], &[]),
        declaration("orig", "K", vec![("x", Expr::Literal(Value::Str("hello".to_string())))], &[]),
    ])
    .unwrap();
    let built = execute(&plan, &mut TestProvider { calls: 0 }).unwrap();
    assert_eq!(built[1].name, "copy");
    assert_eq!(built[1].inputs, vec![("x".to_string(), Value::Str("hello".to_string()))]);
}

#[test]
fn provider_failure_stops_the_run() {
    let plan = resolve(test_state_declarations()).unwrap();
    let err = execute(&plan, &mut FailingProvider).unwrap_err();
    assert_eq!(
        err,
        ExecutionError::ProviderError {
            resource: "resource_b".to_string(),
            cause: "unreachable endpoint".to_string(),
        }
    );
}

#[test]
fn provider_not_consulted_without_outputs() {
    let plan = resolve(vec![declaration("plain", "K", vec![("x", Expr::Literal(Value::Unit))], &[])])
        .unwrap();
    let built = execute(&plan, &mut FailingProvider).unwrap();
    assert_eq!(built[0].inputs, vec![("x".to_string(), Value::Unit)]);
}

#[test]
fn short_payload_is_a_mismatch() {
    let plan = resolve(test_state_declarations()).unwrap();
    let err = execute(&plan, &mut ShortProvider).unwrap_err();
    assert_eq!(
        err,
        ExecutionError::PayloadMismatch { resource: "resource_b".to_string(), expected: 1, found: 0 }
    );
}

#[test]
fn out_of_order_plan_is_an_internal_violation() {
    let plan = ResolvedPlan { declarations: test_state_declarations() };
    let err = execute(&plan, &mut TestProvider { calls: 0 }).unwrap_err();
    assert_eq!(
        err,
        ExecutionError::InternalConsistencyViolation { name: "resource_b".to_string() }
    );
}

#[test]
fn unknown_getter_is_reported() {
    let plan = resolve(vec![
        declaration("a", "K", vec![("x", getter("b", "get_missing"))], &[]),
        declaration("b", "TestResourceB", vec![], &["id"]),
    ])
    .unwrap();
    let err = execute(&plan, &mut TestProvider { calls: 0 }).unwrap_err();
    assert_eq!(
        err,
        ExecutionError::UnknownMember { resource: "b".to_string(), member: "get_missing".to_string() }
    );
}

#[test]
fn unsupported_shape_is_reported() {
    let plan = resolve(vec![declaration("a", "K", vec![("x", Expr::Other("1 + 2".to_string()))], &[])])
        .unwrap();
    let err = execute(&plan, &mut TestProvider { calls: 0 }).unwrap_err();
    assert_eq!(
        err,
        ExecutionError::UnsupportedExpression { resource: "a".to_string(), field: "x".to_string() }
    );
}

#[test]
fn evaluate_literal_and_getter() {
    let env = vec![Resource {
        name: "b".to_string(),
        kind: "K".to_string(),
        inputs: vec![("n".to_string(), Value::Int(1))],
        outputs: vec![("id".to_string(), Value::Int(7))],
    }];
    let owner = "a".to_string();
    let field = "f".to_string();
    assert_eq!(evaluate(&Expr::Literal(Value::Bool(true)), &env, &owner, &field), Ok(Value::Bool(true)));
    assert_eq!(evaluate(&getter("b", "get_id"), &env, &owner, &field), Ok(Value::Int(7)));
    assert_eq!(evaluate(&getter("b", "id"), &env, &owner, &field).is_err(), true);
    assert_eq!(
        evaluate(&Expr::Field { receiver: path("b"), member: "n".to_string() }, &env, &owner, &field),
        Ok(Value::Int(1))
    );
    let with_args = Expr::MethodCall {
        receiver: path("b"),
        method: "get_id".to_string(),
        args: vec![Expr::Literal(Value::Int(1))],
    };
    assert_eq!(
        evaluate(&with_args, &env, &owner, &field),
        Err(ExecutionError::UnsupportedExpression { resource: owner.clone(), field: field.clone() })
    );
}

#[test]
fn instantiate_leaves_outputs_unset_and_payload_fills_them() {
    let d = declaration("b", "K", vec![("n", Expr::Literal(Value::Int(3)))], &["id", "url"]);
    let base = instantiate(&d, &Vec::new()).unwrap();
    assert_eq!(
        base.outputs,
        vec![("id".to_string(), Value::Unit), ("url".to_string(), Value::Unit)]
    );
    let filled = apply_payload(base, vec![Value::Int(5), Value::Str("u".to_string())]).unwrap();
    assert_eq!(filled.inputs, vec![("n".to_string(), Value::Int(3))]);
    assert_eq!(
        filled.outputs,
        vec![("id".to_string(), Value::Int(5)), ("url".to_string(), Value::Str("u".to_string()))]
    );
}
