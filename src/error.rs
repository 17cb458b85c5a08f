use vstd::prelude::*;

verus! {

/// Why a declaration set has no plan.
#[derive(Debug, PartialEq)]
pub enum ResolutionError {
    /// Two declarations share this name.
    DuplicateResourceName { name: String },
    /// `referenced_by` reads from `name`, which no declaration has.
    UnknownResourceReference { name: String, referenced_by: String },
    /// The search came back to `name` while it was still on its own path.
    CycleDetected { name: String },
}

impl ResolutionError {
    /// A sentence describing the error.
    pub fn message(&self) -> (r: String)
        ensures
            r@ == match *self {
                ResolutionError::DuplicateResourceName { name } => "Resource '"@ + name@
                    + "' is declared more than once"@,
                ResolutionError::UnknownResourceReference { name, referenced_by } =>
                    "Resource '"@ + name@ + "' referenced by '"@ + referenced_by@
                    + "' is not declared"@,
                ResolutionError::CycleDetected { name } => "Cycle detected at '"@ + name@
                    + "' dependency"@,
            },
    {
        match self {
            ResolutionError::DuplicateResourceName { name } => {
                let mut r = String::from_str("Resource '");
                r.append(name.as_str());
                r.append("' is declared more than once");
                r
            },
            ResolutionError::UnknownResourceReference { name, referenced_by } => {
                let mut r = String::from_str("Resource '");
                r.append(name.as_str());
                r.append("' referenced by '");
                r.append(referenced_by.as_str());
                r.append("' is not declared");
                r
            },
            ResolutionError::CycleDetected { name } => {
                let mut r = String::from_str("Cycle detected at '");
                r.append(name.as_str());
                r.append("' dependency");
                r
            },
        }
    }
}

} // verus!
