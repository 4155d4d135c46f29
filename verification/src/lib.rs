use vstd::prelude::*;

pub mod ids;
pub mod inline;
pub mod laws;
pub mod model;
pub mod node;
pub mod render;
pub mod split;
pub mod store;
pub mod strutil;
pub mod tables;
pub mod view;

pub use ids::ClassId;
pub use ids::NodeId;
pub use node::Class;
pub use node::ClassData;
pub use node::Node;
pub use split::SplitConflict;
pub use store::EGraph;

verus! {

/// The reserved placeholder glyph that stands for a not-yet-inlined
/// argument position in a rewritten label.
pub const MISSING_ARG_VALUE: &'static str = "\u{b7}";

} // verus!
