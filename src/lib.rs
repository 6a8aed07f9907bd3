//! Substitution-based unification for Hindley-Milner style type inference.
pub mod types;
pub mod context;

pub use types::{Type, TypeSchema, Variable, Term};
pub use context::{Context, ContextChange, UnificationError};
