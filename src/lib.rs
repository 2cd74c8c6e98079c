//! Graph interchange: a universal value model, its flattening, and codecs for
//! the DOT, TGF, GML and GraphML text formats.
use vstd::prelude::*;

pub mod bridge;
pub mod dot;
pub mod error;
pub mod flat;
pub mod gml;
pub mod graph;
pub mod graph_ops;
pub mod graphml;
pub mod graphml_read;
pub mod labeled;
pub mod laws;
pub mod parse;
pub mod sorted;
pub mod text;
pub mod tgf;
pub mod util;
pub mod value;
pub mod xml;

verus! {

} // verus!
