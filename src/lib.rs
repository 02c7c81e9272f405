//! Scene and runtime core of a visual page-design tool: the document tree and its
//! command protocol, style resolution for layout, a spatial index over resolved
//! boxes, and a bounded interpreter for trigger graphs.
use vstd::prelude::*;

pub mod value;
pub mod document;
pub mod style;
pub mod layout;
pub mod spatial;
pub mod logic;
pub mod a11y;
pub mod optimizer;
pub mod plugins;
pub mod native;
pub mod access;
pub mod autonomous;
pub mod sdk;
pub mod input;
pub mod engine;

verus! {

} // verus!
