//! Parses markup text into a tree of typed nodes, rewrites such trees, and
//! writes them back as markup or as JSON records.
//!
//! - `nodes` and `try_nodes` parse: `tokenizer` scans the source for spans,
//!   `forest` nests them by containment, `decoder` reads the attributes of
//!   a tag, and `tree` builds the nodes.
//! - `traverse` rewrites a tree with a callback.
//! - `to_html` and `to_json` write a tree.
//! - `laws` holds what is proved of these together; `roundtrip` holds the
//!   proof that markup which was written parses to the tree it was written
//!   from.

pub mod attrs;
pub mod decoder;
pub mod forest;
pub mod json;
pub mod laws;
pub mod markup;
pub mod node;
pub mod roundtrip;
pub mod span;
pub mod text;
pub mod tokenizer;
pub mod traverse;
pub mod tree;

pub use attrs::{AttrMap, NodeAttrVal};
pub use json::{to_json, try_to_json, EncodeError};
pub use markup::to_html;
pub use node::{BlockNode, FragmentNode, Node, TextNode, VoidNode};
pub use span::ParseError;
pub use traverse::traverse;
pub use tree::{nodes, try_nodes};
