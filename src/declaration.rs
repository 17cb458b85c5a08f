use vstd::prelude::*;

verus! {

/// A value that a field initializer evaluates to.
#[derive(Debug, Clone, PartialEq)]
pub enum Value {
    Int(i64),
    Str(String),
    Bool(bool),
    Unit,
}

impl Value {
    /// A copy of this value that is equal to it.
    pub fn duplicate(&self) -> (r: Value)
        ensures
            r == *self,
    {
        match self {
            Value::Int(i) => Value::Int(*i),
            Value::Str(s) => Value::Str(s.clone()),
            Value::Bool(b) => Value::Bool(*b),
            Value::Unit => Value::Unit,
        }
    }
}

/// A field initializer: a small expression tree.
#[derive(Debug, PartialEq)]
pub enum Expr {
    /// A literal value.
    Literal(Value),
    /// A bare identifier.
    Path(String),
    /// `receiver.member`
    Field { receiver: Box<Expr>, member: String },
    /// `receiver.method(args)`
    MethodCall { receiver: Box<Expr>, method: String, args: Vec<Expr> },
    /// Any other expression shape, kept as its source text.
    Other(String),
}

/// One declared resource: a name unique in its planning unit, the kind it
/// instantiates, its input field initializers in declaration order, and the
/// names of the output fields that its kind has a provider compute.
#[derive(Debug, PartialEq)]
pub struct ResourceDeclaration {
    pub name: String,
    pub kind: String,
    pub fields: Vec<(String, Expr)>,
    pub outputs: Vec<String>,
}

/// The resource name that an initializer depends on: the receiver of a
/// top-level field access or method call, when that receiver is a bare
/// identifier.
pub open spec fn expr_dependency(e: Expr) -> Option<Seq<char>> {
    match e {
        Expr::Field { receiver, .. } => match *receiver {
            Expr::Path(n) => Some(n@),
            _ => None,
        },
        Expr::MethodCall { receiver, .. } => match *receiver {
            Expr::Path(n) => Some(n@),
            _ => None,
        },
        _ => None,
    }
}

/// The dependencies of a field list: one entry per dependency-relevant
/// field, in field order, duplicates kept.
pub open spec fn field_dependencies(fields: Seq<(String, Expr)>) -> Seq<Seq<char>>
    decreases fields.len(),
{
    if fields.len() == 0 {
        Seq::empty()
    } else {
        let rest = field_dependencies(fields.drop_last());
        match expr_dependency(fields.last().1) {
            Some(n) => rest.push(n),
            None => rest,
        }
    }
}

/// The resource names that a declaration depends on.
pub open spec fn declaration_dependencies(d: ResourceDeclaration) -> Seq<Seq<char>> {
    field_dependencies(d.fields@)
}

/// The views of a sequence of strings.
pub open spec fn string_views(v: Seq<String>) -> Seq<Seq<char>> {
    v.map_values(|s: String| s@)
}

/// The dependency of one initializer, if it has one.
pub fn dependency_of(e: &Expr) -> (r: Option<String>)
    ensures
        match r {
            Some(n) => expr_dependency(*e) == Some(n@),
            None => expr_dependency(*e) is None,
        },
{
    match e {
        Expr::Field { receiver, .. } => match &**receiver {
            Expr::Path(n) => Some(n.clone()),
            _ => None,
        },
        Expr::MethodCall { receiver, .. } => match &**receiver {
            Expr::Path(n) => Some(n.clone()),
            _ => None,
        },
        _ => None,
    }
}

impl ResourceDeclaration {
    /// The names this declaration references, one per dependency-relevant
    /// field, in field order.
    pub fn get_dependencies(&self) -> (r: Vec<String>)
        ensures
            string_views(r@) == declaration_dependencies(*self),
    {
        let mut deps: Vec<String> = Vec::new();
        let mut i: usize = 0;
        while i < self.fields.len()
            invariant
                i <= self.fields@.len(),
                string_views(deps@) == field_dependencies(self.fields@.take(i as int)),
            decreases self.fields@.len() - i,
        {
            assert(self.fields@.take(i as int + 1).drop_last() == self.fields@.take(i as int));
            match dependency_of(&self.fields[i].1) {
                Some(n) => {
                    deps.push(n);
                },
                None => {},
            }
            i = i + 1;
        }
        assert(self.fields@.take(i as int) == self.fields@);
        deps
    }
}

} // verus!
