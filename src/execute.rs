use vstd::prelude::*;

use crate::declaration::{
    declaration_dependencies, expr_dependency, field_dependencies, Expr, ResourceDeclaration, Value,
};
use crate::graph::{depends_on, is_declared};
use crate::plan::{reorders, resolve_outcome, ResolvedPlan};

verus! {

/// A resource built from its declaration: input values in field order, and
/// one entry per declared output, filled in from the provider's payload.
#[derive(Debug, PartialEq)]
pub struct Resource {
    pub name: String,
    pub kind: String,
    pub inputs: Vec<(String, Value)>,
    pub outputs: Vec<(String, Value)>,
}

/// The mathematical content of a `Resource`.
pub ghost struct ResourceView {
    pub name: Seq<char>,
    pub kind: Seq<char>,
    pub inputs: Seq<(String, Value)>,
    pub outputs: Seq<(String, Value)>,
}

impl View for Resource {
    type V = ResourceView;

    open spec fn view(&self) -> ResourceView {
        ResourceView {
            name: self.name@,
            kind: self.kind@,
            inputs: self.inputs@,
            outputs: self.outputs@,
        }
    }
}

/// The views of a sequence of resources.
pub open spec fn resource_views(rs: Seq<Resource>) -> Seq<ResourceView> {
    rs.map_values(|r: Resource| r@)
}

/// Why a plan could not be carried out.
#[derive(Debug, PartialEq)]
pub enum ExecutionError {
    /// The provider failed for the resource named `resource`.
    ProviderError { resource: String, cause: String },
    /// The provider answered with `found` values where the resource declares
    /// `expected` outputs.
    PayloadMismatch { resource: String, expected: usize, found: usize },
    /// An initializer reads from `name` before any resource of that name was
    /// built: the plan does not respect the dependencies.
    InternalConsistencyViolation { name: String },
    /// The resource `resource` has no input named `member` (field access) or
    /// no output whose getter is `member` (method call).
    UnknownMember { resource: String, member: String },
    /// The initializer of `field` in `resource` has a shape the engine does
    /// not evaluate.
    UnsupportedExpression { resource: String, field: String },
}

/// The capability that materializes a resource's outputs.
pub trait Provider {
    /// One value per output of `resource`, in the order of its outputs, or
    /// a description of the failure.
    fn get(&mut self, resource: &Resource) -> Result<Vec<Value>, String>;
}

/// The position of the first entry of `s` that satisfies `p`.
pub open spec fn first_match<T>(s: Seq<T>, p: spec_fn(T) -> bool) -> Option<int>
    decreases s.len(),
{
    if s.len() == 0 {
        None
    } else {
        match first_match(s.drop_last(), p) {
            Some(i) => Some(i),
            None => if p(s.last()) {
                Some(s.len() - 1)
            } else {
                None
            },
        }
    }
}

proof fn lemma_first_match_extends<T>(s: Seq<T>, p: spec_fn(T) -> bool, j: int, i: int)
    requires
        0 <= j <= s.len(),
        first_match(s.take(j), p) == Some(i),
    ensures
        first_match(s, p) == Some(i),
    decreases s.len(),
{
    if j < s.len() {
        assert(s.drop_last().take(j) =~= s.take(j));
        lemma_first_match_extends(s.drop_last(), p, j, i);
    } else {
        assert(s.take(j) =~= s);
    }
}

proof fn lemma_first_match_step<T>(s: Seq<T>, p: spec_fn(T) -> bool, i: int)
    requires
        0 <= i < s.len(),
        first_match(s.take(i), p) is None,
    ensures
        first_match(s.take(i + 1), p) == if p(s[i]) {
            Some(i)
        } else {
            None::<int>
        },
{
    assert(s.take(i + 1).drop_last() =~= s.take(i));
}

/// A resource named `n`.
pub open spec fn named(n: Seq<char>) -> spec_fn(ResourceView) -> bool {
    |r: ResourceView| r.name == n
}

/// An entry whose name is `m`.
pub open spec fn entry_named(m: Seq<char>) -> spec_fn((String, Value)) -> bool {
    |e: (String, Value)| e.0@ == m
}

/// An output entry whose getter is the method `m`: `get_` followed by the
/// output's name.
pub open spec fn getter_named(m: Seq<char>) -> spec_fn((String, Value)) -> bool {
    |e: (String, Value)| "get_"@ + e.0@ == m
}

/// The value of an initializer in `env`, the resources built so far; `owner`
/// and `field` name the declaration and field it belongs to.
pub open spec fn eval_expr(
    e: Expr,
    env: Seq<ResourceView>,
    owner: String,
    field: String,
) -> Result<Value, ExecutionError> {
    match e {
        Expr::Literal(v) => Ok(v),
        Expr::Field { receiver, member } => match *receiver {
            Expr::Path(r) => match first_match(env, named(r@)) {
                None => Err(ExecutionError::InternalConsistencyViolation { name: r }),
                Some(i) => match first_match(env[i].inputs, entry_named(member@)) {
                    Some(k) => Ok(env[i].inputs[k].1),
                    None => Err(ExecutionError::UnknownMember { resource: r, member }),
                },
            },
            _ => Err(ExecutionError::UnsupportedExpression { resource: owner, field }),
        },
        Expr::MethodCall { receiver, method, args } => match *receiver {
            Expr::Path(r) => if args@.len() > 0 {
                Err(ExecutionError::UnsupportedExpression { resource: owner, field })
            } else {
                match first_match(env, named(r@)) {
                    None => Err(ExecutionError::InternalConsistencyViolation { name: r }),
                    Some(i) => match first_match(env[i].outputs, getter_named(method@)) {
                        Some(k) => Ok(env[i].outputs[k].1),
                        None => Err(ExecutionError::UnknownMember { resource: r, member: method }),
                    },
                }
            },
            _ => Err(ExecutionError::UnsupportedExpression { resource: owner, field }),
        },
        _ => Err(ExecutionError::UnsupportedExpression { resource: owner, field }),
    }
}

/// The values of a declaration's fields in `env`, in field order; the first
/// field that fails decides the error.
pub open spec fn eval_fields(
    fields: Seq<(String, Expr)>,
    env: Seq<ResourceView>,
    owner: String,
) -> Result<Seq<(String, Value)>, ExecutionError>
    decreases fields.len(),
{
    if fields.len() == 0 {
        Ok(Seq::empty())
    } else {
        match eval_fields(fields.drop_last(), env, owner) {
            Err(e) => Err(e),
            Ok(vs) => match eval_expr(fields.last().1, env, owner, fields.last().0) {
                Ok(v) => Ok(vs.push((fields.last().0, v))),
                Err(e) => Err(e),
            },
        }
    }
}

/// The output entries of a declaration before its provider has answered.
pub open spec fn unset_outputs(outputs: Seq<String>) -> Seq<(String, Value)> {
    outputs.map_values(|o: String| (o, Value::Unit))
}

/// Output entries with their values replaced, in order, by `payload`.
pub open spec fn with_payload(outputs: Seq<(String, Value)>, payload: Seq<Value>) -> Seq<
    (String, Value),
> {
    Seq::new(outputs.len(), |k: int| (outputs[k].0, payload[k]))
}

/// The position of the first resource of `env` named `n`.
pub fn find_resource(env: &Vec<Resource>, n: &String) -> (r: Option<usize>)
    ensures
        match r {
            Some(i) => i < env@.len() && first_match(resource_views(env@), named(n@)) == Some(
                i as int,
            ),
            None => first_match(resource_views(env@), named(n@)) is None,
        },
{
    let ghost vs = resource_views(env@);
    let mut i: usize = 0;
    while i < env.len()
        invariant
            vs == resource_views(env@),
            i <= env@.len(),
            first_match(vs.take(i as int), named(n@)) is None,
        decreases env@.len() - i,
    {
        proof {
            lemma_first_match_step(vs, named(n@), i as int);
        }
        assert(vs[i as int] == env@[i as int]@);
        if env[i].name == *n {
            proof {
                lemma_first_match_extends(vs, named(n@), i + 1, i as int);
            }
            return Some(i);
        }
        i = i + 1;
    }
    assert(vs.take(i as int) =~= vs);
    None
}

/// The position of the first entry named `m`.
pub fn find_entry(entries: &Vec<(String, Value)>, m: &String) -> (r: Option<usize>)
    ensures
        match r {
            Some(k) => k < entries@.len() && first_match(entries@, entry_named(m@)) == Some(
                k as int,
            ),
            None => first_match(entries@, entry_named(m@)) is None,
        },
{
    let mut k: usize = 0;
    while k < entries.len()
        invariant
            k <= entries@.len(),
            first_match(entries@.take(k as int), entry_named(m@)) is None,
        decreases entries@.len() - k,
    {
        proof {
            lemma_first_match_step(entries@, entry_named(m@), k as int);
        }
        if entries[k].0 == *m {
            proof {
                lemma_first_match_extends(entries@, entry_named(m@), k + 1, k as int);
            }
            return Some(k);
        }
        k = k + 1;
    }
    assert(entries@.take(k as int) =~= entries@);
    None
}

/// The position of the first output entry whose getter is the method `m`.
pub fn find_getter(entries: &Vec<(String, Value)>, m: &String) -> (r: Option<usize>)
    ensures
        match r {
            Some(k) => k < entries@.len() && first_match(entries@, getter_named(m@)) == Some(
                k as int,
            ),
            None => first_match(entries@, getter_named(m@)) is None,
        },
{
    let mut k: usize = 0;
    while k < entries.len()
        invariant
            k <= entries@.len(),
            first_match(entries@.take(k as int), getter_named(m@)) is None,
        decreases entries@.len() - k,
    {
        proof {
            lemma_first_match_step(entries@, getter_named(m@), k as int);
        }
        let getter = String::from_str("get_").concat(entries[k].0.as_str());
        if getter == *m {
            proof {
                lemma_first_match_extends(entries@, getter_named(m@), k + 1, k as int);
            }
            return Some(k);
        }
        k = k + 1;
    }
    assert(entries@.take(k as int) =~= entries@);
    None
}

/// Evaluates one initializer against the resources built so far.
pub fn evaluate(e: &Expr, env: &Vec<Resource>, owner: &String, field: &String) -> (r: Result<
    Value,
    ExecutionError,
>)
    ensures
        r == eval_expr(*e, resource_views(env@), *owner, *field),
{
    let ghost vs = resource_views(env@);
    let unsupported = ExecutionError::UnsupportedExpression {
        resource: owner.clone(),
        field: field.clone(),
    };
    match e {
        Expr::Literal(v) => Ok(v.duplicate()),
        Expr::Field { receiver, member } => match &**receiver {
            Expr::Path(r) => match find_resource(env, r) {
                None => Err(ExecutionError::InternalConsistencyViolation { name: r.clone() }),
                Some(i) => {
                    assert(vs[i as int] == env@[i as int]@);
                    match find_entry(&env[i].inputs, member) {
                        Some(k) => Ok(env[i].inputs[k].1.duplicate()),
                        None => Err(
                            ExecutionError::UnknownMember {
                                resource: r.clone(),
                                member: member.clone(),
                            },
                        ),
                    }
                },
            },
            _ => Err(unsupported),
        },
        Expr::MethodCall { receiver, method, args } => match &**receiver {
            Expr::Path(r) => {
                if args.len() > 0 {
                    Err(unsupported)
                } else {
                    match find_resource(env, r) {
                        None => Err(
                            ExecutionError::InternalConsistencyViolation { name: r.clone() },
                        ),
                        Some(i) => {
                            assert(vs[i as int] == env@[i as int]@);
                            match find_getter(&env[i].outputs, method) {
                                Some(k) => Ok(env[i].outputs[k].1.duplicate()),
                                None => Err(
                                    ExecutionError::UnknownMember {
                                        resource: r.clone(),
                                        member: method.clone(),
                                    },
                                ),
                            }
                        },
                    }
                }
            },
            _ => Err(unsupported),
        },
        _ => Err(unsupported),
    }
}

proof fn lemma_eval_fields_error_extends(
    fields: Seq<(String, Expr)>,
    env: Seq<ResourceView>,
    owner: String,
    j: int,
    e: ExecutionError,
)
    requires
        0 <= j <= fields.len(),
        eval_fields(fields.take(j), env, owner) == Err::<Seq<(String, Value)>, ExecutionError>(e),
    ensures
        eval_fields(fields, env, owner) == Err::<Seq<(String, Value)>, ExecutionError>(e),
    decreases fields.len(),
{
    if j < fields.len() {
        assert(fields.drop_last().take(j) =~= fields.take(j));
        lemma_eval_fields_error_extends(fields.drop_last(), env, owner, j, e);
    } else {
        assert(fields.take(j) =~= fields);
    }
}

/// Builds the resource that `d` declares: evaluates its fields in `env` and
/// leaves its outputs unset.
pub fn instantiate(d: &ResourceDeclaration, env: &Vec<Resource>) -> (r: Result<
    Resource,
    ExecutionError,
>)
    ensures
        match r {
            Ok(res) => {
                &&& eval_fields(d.fields@, resource_views(env@), d.name) == Ok::<
                    Seq<(String, Value)>,
                    ExecutionError,
                >(res@.inputs)
                &&& res.name == d.name
                &&& res@.kind == d.kind@
                &&& res@.outputs == unset_outputs(d.outputs@)
            },
            Err(e) => eval_fields(d.fields@, resource_views(env@), d.name) == Err::<
                Seq<(String, Value)>,
                ExecutionError,
            >(e),
        },
{
    let ghost vs = resource_views(env@);
    let mut inputs: Vec<(String, Value)> = Vec::new();
    let mut i: usize = 0;
    while i < d.fields.len()
        invariant
            vs == resource_views(env@),
            i <= d.fields@.len(),
            eval_fields(d.fields@.take(i as int), vs, d.name) == Ok::<
                Seq<(String, Value)>,
                ExecutionError,
            >(inputs@),
        decreases d.fields@.len() - i,
    {
        assert(d.fields@.take(i + 1).drop_last() =~= d.fields@.take(i as int));
        let field = &d.fields[i];
        match evaluate(&field.1, env, &d.name, &field.0) {
            Ok(v) => {
                inputs.push((field.0.clone(), v));
            },
            Err(e) => {
                proof {
                    lemma_eval_fields_error_extends(d.fields@, vs, d.name, i + 1, e);
                }
                return Err(e);
            },
        }
        i = i + 1;
    }
    assert(d.fields@.take(i as int) =~= d.fields@);
    let mut outputs: Vec<(String, Value)> = Vec::new();
    let mut k: usize = 0;
    while k < d.outputs.len()
        invariant
            k <= d.outputs@.len(),
            outputs@ == unset_outputs(d.outputs@.take(k as int)),
        decreases d.outputs@.len() - k,
    {
        outputs.push((d.outputs[k].clone(), Value::Unit));
        assert(outputs@ =~= unset_outputs(d.outputs@.take(k + 1)));
        k = k + 1;
    }
    assert(d.outputs@.take(k as int) =~= d.outputs@);
    Ok(Resource { name: d.name.clone(), kind: d.kind.clone(), inputs, outputs })
}

/// Records the provider's payload as the values of the resource's outputs,
/// one value per output, in order.
pub fn apply_payload(res: Resource, payload: Vec<Value>) -> (r: Result<Resource, ExecutionError>)
    ensures
        payload@.len() == res.outputs@.len() ==> (r matches Ok(out) && out@ == (ResourceView {
            outputs: with_payload(res@.outputs, payload@),
            ..res@
        })),
        payload@.len() != res.outputs@.len() ==> r == (Err::<Resource, ExecutionError>(
            ExecutionError::PayloadMismatch {
                resource: res.name,
                expected: res.outputs.len(),
                found: payload.len(),
            },
        )),
{
    let Resource { name, kind, inputs, outputs } = res;
    if payload.len() != outputs.len() {
        return Err(
            ExecutionError::PayloadMismatch {
                resource: name,
                expected: outputs.len(),
                found: payload.len(),
            },
        );
    }
    let mut filled: Vec<(String, Value)> = Vec::new();
    let mut k: usize = 0;
    while k < outputs.len()
        invariant
            payload@.len() == outputs@.len(),
            k <= outputs@.len(),
            filled@ == with_payload(outputs@.take(k as int), payload@.take(k as int)),
        decreases outputs@.len() - k,
    {
        filled.push((outputs[k].0.clone(), payload[k].duplicate()));
        assert(filled@ =~= with_payload(outputs@.take(k + 1), payload@.take(k + 1)));
        k = k + 1;
    }
    assert(outputs@.take(k as int) =~= outputs@);
    assert(payload@.take(k as int) =~= payload@);
    Ok(Resource { name, kind, inputs, outputs: filled })
}

/// `r` is what `d` materializes to in `env`: its inputs are the values of
/// its fields and it has one output entry per declared output, in order.
pub open spec fn materializes(d: ResourceDeclaration, env: Seq<ResourceView>, r: ResourceView) -> bool {
    &&& r.name == d.name@
    &&& r.kind == d.kind@
    &&& eval_fields(d.fields@, env, d.name) == Ok::<Seq<(String, Value)>, ExecutionError>(r.inputs)
    &&& r.outputs.len() == d.outputs@.len()
    &&& forall|k: int| 0 <= k < r.outputs.len() ==> #[trigger] r.outputs[k].0 == d.outputs@[k]
}

/// `rs[i]` is what `plan[i]` materializes to, given the resources before it.
pub open spec fn run_matches(plan: Seq<ResourceDeclaration>, rs: Seq<ResourceView>) -> bool {
    &&& rs.len() == plan.len()
    &&& forall|i: int| 0 <= i < rs.len() ==> materializes(plan[i], rs.take(i), #[trigger] rs[i])
}

/// Building `d` in `env` ends with `e`: one of its fields fails, or it has
/// outputs and the provider fails or answers with the wrong number of values.
pub open spec fn step_fails(d: ResourceDeclaration, env: Seq<ResourceView>, e: ExecutionError) -> bool {
    match eval_fields(d.fields@, env, d.name) {
        Err(e2) => e == e2,
        Ok(_) => {
            &&& d.outputs@.len() > 0
            &&& match e {
                ExecutionError::ProviderError { resource, .. } => resource == d.name,
                ExecutionError::PayloadMismatch { resource, expected, found } => resource == d.name
                    && expected == d.outputs@.len() && found != expected,
                _ => false,
            }
        },
    }
}

/// Materializes the plan in order. A resource with outputs is handed to the
/// provider, and its payload becomes the output values; the first failure
/// stops the run.
pub fn execute<P: Provider>(plan: &ResolvedPlan, provider: &mut P) -> (r: Result<
    Vec<Resource>,
    ExecutionError,
>)
    ensures
        match r {
            Ok(rs) => run_matches(plan.declarations@, resource_views(rs@)),
            Err(e) => exists|env: Seq<ResourceView>|
                env.len() < plan.declarations@.len() && run_matches(
                    plan.declarations@.take(env.len() as int),
                    env,
                ) && #[trigger] step_fails(plan.declarations@[env.len() as int], env, e),
        },
{
    let ghost ds = plan.declarations@;
    let mut built: Vec<Resource> = Vec::new();
    let mut i: usize = 0;
    while i < plan.declarations.len()
        invariant
            ds == plan.declarations@,
            i <= ds.len(),
            built@.len() == i,
            run_matches(ds.take(i as int), resource_views(built@)),
        decreases ds.len() - i,
    {
        let d = &plan.declarations[i];
        let ghost env = resource_views(built@);
        assert(env.len() == i);
        let base = match instantiate(d, &built) {
            Ok(base) => base,
            Err(e) => {
                assert(step_fails(ds[env.len() as int], env, e));
                return Err(e);
            },
        };
        let res = if d.outputs.len() > 0 {
            let payload = match provider.get(&base) {
                Ok(payload) => payload,
                Err(cause) => {
                    let e = ExecutionError::ProviderError { resource: d.name.clone(), cause };
                    assert(step_fails(ds[env.len() as int], env, e));
                    return Err(e);
                },
            };
            match apply_payload(base, payload) {
                Ok(res) => res,
                Err(e) => {
                    assert(step_fails(ds[env.len() as int], env, e));
                    return Err(e);
                },
            }
        } else {
            base
        };
        assert(materializes(ds[i as int], env, res@)) by {
            assert forall|k: int| 0 <= k < res@.outputs.len() implies #[trigger] res@.outputs[k].0
                == d.outputs@[k] by {
                assert(unset_outputs(d.outputs@)[k].0 == d.outputs@[k]);
            }
        }
        built.push(res);
        proof {
            let now = resource_views(built@);
            assert(now =~= env.push(res@));
            assert forall|j: int| 0 <= j < now.len() implies materializes(
                ds.take(i + 1)[j],
                now.take(j),
                #[trigger] now[j],
            ) by {
                if j < i {
                    assert(now.take(j) =~= env.take(j));
                    assert(ds.take(i + 1)[j] == ds.take(i as int)[j]);
                } else {
                    assert(now.take(j) =~= env);
                }
            }
        }
        i = i + 1;
    }
    assert(ds.take(i as int) =~= ds);
    Ok(built)
}

/// The outputs of the resource built from `d` when the provider answers
/// with `payload`.
pub open spec fn answered_outputs(d: ResourceDeclaration, payload: Seq<Value>) -> Seq<
    (String, Value),
> {
    with_payload(unset_outputs(d.outputs@), payload)
}

/// Two runs of one plan against a provider whose payload for a resource
/// depends only on the resource's name, kind and inputs (a stub returning
/// fixed values, say) materialize the same resources, outputs included.
pub proof fn law_repeated_execution_agrees(
    plan: Seq<ResourceDeclaration>,
    first: Seq<ResourceView>,
    second: Seq<ResourceView>,
    answer: spec_fn(Seq<char>, Seq<char>, Seq<(String, Value)>) -> Seq<Value>,
)
    requires
        run_matches(plan, first),
        run_matches(plan, second),
        forall|i: int|
            0 <= i < first.len() ==> #[trigger] first[i].outputs == answered_outputs(
                plan[i],
                answer(first[i].name, first[i].kind, first[i].inputs),
            ),
        forall|i: int|
            0 <= i < second.len() ==> #[trigger] second[i].outputs == answered_outputs(
                plan[i],
                answer(second[i].name, second[i].kind, second[i].inputs),
            ),
    ensures
        first == second,
{
    lemma_runs_agree_up_to(plan, first, second, answer, first.len() as int);
    assert(first.take(first.len() as int) =~= first);
    assert(second.take(second.len() as int) =~= second);
}

proof fn lemma_runs_agree_up_to(
    plan: Seq<ResourceDeclaration>,
    first: Seq<ResourceView>,
    second: Seq<ResourceView>,
    answer: spec_fn(Seq<char>, Seq<char>, Seq<(String, Value)>) -> Seq<Value>,
    j: int,
)
    requires
        run_matches(plan, first),
        run_matches(plan, second),
        forall|i: int|
            0 <= i < first.len() ==> #[trigger] first[i].outputs == answered_outputs(
                plan[i],
                answer(first[i].name, first[i].kind, first[i].inputs),
            ),
        forall|i: int|
            0 <= i < second.len() ==> #[trigger] second[i].outputs == answered_outputs(
                plan[i],
                answer(second[i].name, second[i].kind, second[i].inputs),
            ),
        0 <= j <= first.len(),
    ensures
        first.take(j) == second.take(j),
    decreases j,
{
    if j > 0 {
        let i = j - 1;
        lemma_runs_agree_up_to(plan, first, second, answer, i);
        assert(materializes(plan[i], first.take(i), first[i]));
        assert(materializes(plan[i], second.take(i), second[i]));
        assert(first[i].inputs == second[i].inputs);
        assert(first[i].outputs == second[i].outputs);
        assert(first[i] == second[i]);
        assert(first.take(j) =~= first.take(i).push(first[i]));
        assert(second.take(j) =~= second.take(i).push(second[i]));
    } else {
        assert(first.take(j) =~= second.take(j));
    }
}

proof fn lemma_first_match_none<T>(s: Seq<T>, p: spec_fn(T) -> bool, j: int)
    requires
        first_match(s, p) is None,
        0 <= j < s.len(),
    ensures
        !p(s[j]),
    decreases s.len(),
{
    if j < s.len() - 1 {
        lemma_first_match_none(s.drop_last(), p, j);
    }
}

/// A field whose initializer reads from a resource that `env` lacks names
/// that resource as a dependency.
proof fn lemma_missing_read_is_dependency(
    fields: Seq<(String, Expr)>,
    env: Seq<ResourceView>,
    owner: String,
    name: String,
)
    requires
        eval_fields(fields, env, owner) == Err::<Seq<(String, Value)>, ExecutionError>(
            ExecutionError::InternalConsistencyViolation { name },
        ),
    ensures
        field_dependencies(fields).contains(name@),
        first_match(env, named(name@)) is None,
    decreases fields.len(),
{
    let rest = eval_fields(fields.drop_last(), env, owner);
    if rest is Err {
        lemma_missing_read_is_dependency(fields.drop_last(), env, owner, name);
        let deps = field_dependencies(fields.drop_last());
        let i = choose|i: int| 0 <= i < deps.len() && deps[i] == name@;
        match expr_dependency(fields.last().1) {
            Some(n) => assert(field_dependencies(fields)[i] == name@),
            None => {},
        }
    } else {
        assert(expr_dependency(fields.last().1) == Some(name@));
        assert(field_dependencies(fields).last() == name@);
    }
}

/// Running a plan that `resolve` produced never reads a resource before it
/// is built: no step of it can fail with `InternalConsistencyViolation`.
pub proof fn law_resolved_plan_reads_only_built_resources(
    ds: Seq<ResourceDeclaration>,
    plan: ResolvedPlan,
    env: Seq<ResourceView>,
    e: ExecutionError,
)
    requires
        resolve_outcome(ds, Ok(plan)),
        env.len() < plan.declarations@.len(),
        run_matches(plan.declarations@.take(env.len() as int), env),
        step_fails(plan.declarations@[env.len() as int], env, e),
    ensures
        !(e is InternalConsistencyViolation),
{
    let pl = plan.declarations@;
    let i = env.len() as int;
    match e {
        ExecutionError::InternalConsistencyViolation { name } => {
            let d = pl[i];
            lemma_missing_read_is_dependency(d.fields@, env, d.name, name);
            let deps = declaration_dependencies(d);
            let k = choose|k: int| 0 <= k < deps.len() && deps[k] == name@;
            let perm = choose|perm: Seq<int>| #[trigger] reorders(pl, ds, perm);
            assert(pl[i] == ds[perm[i]]);
            assert(is_declared(ds, declaration_dependencies(ds[perm[i]])[k]));
            let w = choose|w: int| 0 <= w < ds.len() && #[trigger] ds[w].name@ == name@;
            crate::plan::lemma_permutation_covers(perm, ds.len() as int, w);
            let j = choose|j: int| 0 <= j < perm.len() && #[trigger] perm[j] == w;
            assert(pl[j] == ds[w]);
            assert(depends_on(pl, i, j));
            assert(j < i);
            assert(materializes(pl.take(i)[j], env.take(j), env[j]));
            assert(env[j].name == name@);
            lemma_first_match_none(env, named(name@), j);
        },
        _ => {},
    }
}

} // verus!
