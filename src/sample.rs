use vstd::prelude::*;

use crate::declaration::{Expr, ResourceDeclaration, Value};
use crate::execute::{execute, Provider, Resource};
use crate::plan::resolve;

verus! {

/// A provider that answers every output of a resource with the resource's
/// kind.
pub struct DummyProvider;

impl Provider for DummyProvider {
    fn get(&mut self, resource: &Resource) -> Result<Vec<Value>, String> {
        let mut payload: Vec<Value> = Vec::new();
        let mut k: usize = 0;
        while k < resource.outputs.len()
            invariant
                k <= resource.outputs@.len(),
            decreases resource.outputs@.len() - k,
        {
            payload.push(Value::Str(resource.kind.clone()));
            k = k + 1;
        }
        Ok(payload)
    }
}

/// Plans and builds a two-resource state against `DummyProvider`:
/// `resource_a` reads the output of `resource_b`, which is declared after it.
pub fn _plan() {
    let resource_a = ResourceDeclaration {
        name: String::from_str("resource_a"),
        kind: String::from_str("DummyResourceB"),
        fields: vec![
            (
                String::from_str("id_b"),
                Expr::MethodCall {
                    receiver: Box::new(Expr::Path(String::from_str("resource_b"))),
                    method: String::from_str("get_output_id"),
                    args: Vec::new(),
                },
            ),
        ],
        outputs: Vec::new(),
    };
    let resource_b = ResourceDeclaration {
        name: String::from_str("resource_b"),
        kind: String::from_str("DummyResourceA"),
        fields: vec![(String::from_str("id_a"), Expr::Literal(Value::Int(10)))],
        outputs: vec![String::from_str("output_id")],
    };
    let mut provider = DummyProvider;
    match resolve(vec![resource_a, resource_b]) {
        Ok(plan) => {
            let _built = execute(&plan, &mut provider);
        },
        Err(_) => {},
    }
}

} // verus!
