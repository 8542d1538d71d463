//! A small HTML template engine: `x-data` scopes, `x-if`, `x-for`, `x-text`
//! and attribute bindings, evaluated against a stack of JSON scopes.
use vstd::prelude::*;

pub mod text;
pub mod json;
pub mod expressions;
pub mod html;
pub mod attributes;
pub mod compile;
pub mod data;

verus! {

} // verus!
