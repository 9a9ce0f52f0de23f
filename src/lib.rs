//! Ownership ledger for code generation over a straight-line graph: decides,
//! at each use of a named value, whether the generated reference duplicates
//! the value or moves it.
use vstd::prelude::*;

pub mod ident;
pub mod laws;
pub mod scope;

pub use ident::sanitize_ident_name;
pub use scope::{Decision, Generation, Scope, ScopeError};

verus! {

} // verus!
