//! A scanner that walks parsed Dart syntax trees and reports nodes judged
//! undesirable: forced unwraps, casts, and comments marking pending work.
use vstd::prelude::*;

pub mod arguments;
pub mod dart;
pub mod finder;
pub mod report;
pub mod rules;
pub mod text;
pub mod traversal;
pub mod tree;

verus! {

} // verus!
