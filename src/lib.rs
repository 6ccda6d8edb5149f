//! An in-memory document tree for markup, kept in an arena of nodes, with
//! jQuery-style selection and editing over it.
//!
//! Nodes live in one growable storage and refer to each other by index. The
//! tree's well-formedness (every parent lists each of its children exactly
//! once, and sibling links agree with that list) is stated as a predicate
//! and kept by every edit: appending, inserting, detaching, moving children
//! and grafting a separately parsed fragment.

use vstd::prelude::*;

pub mod attrs;
pub mod classes;
pub mod document;
pub mod dom_tree;
pub mod matching;
pub mod node;
pub mod selection;
pub mod serialize;

pub use attrs::{AttrValue, Attrib};
pub use document::{Document, DocumentTreeSink, NodeOrText, QuirksMode};
pub use dom_tree::{InnerNode, NodeId, NodeRef, Tree};
pub use node::{Element, NodeData, Text};
pub use selection::Selection;
pub use serialize::{SerializeEvent, TraversalScope};

verus! {

} // verus!
