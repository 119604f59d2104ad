//! What the type checker records for later stages.

pub mod result;

use vstd::prelude::*;

verus! {

/// An expression, numbered across the whole compilation.
pub type ExprId = u32;

/// A type, as the type checker's type table numbers it.
pub type TyId = u32;

} // verus!
