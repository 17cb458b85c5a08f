//! Planning engine for declared resources: extracts the references between
//! declarations, orders them so that every resource comes after the
//! resources it reads from, rejects cycles and undefined references, and
//! materializes the resources in that order through a provider.

pub mod declaration;
pub mod error;
pub mod execute;
pub mod graph;
pub mod order;
pub mod plan;
pub mod sample;

pub use declaration::{Expr, ResourceDeclaration, Value};
pub use error::ResolutionError;
pub use execute::{execute, ExecutionError, Provider, Resource};
pub use graph::DependencyGraph;
pub use plan::{resolve, ResolvedPlan};
pub use sample::{DummyProvider, _plan};
