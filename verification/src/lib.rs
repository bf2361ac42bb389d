//! A reversible parser and serializer for the textual device-tree source
//! format, plus a small parser for extlinux boot configuration files.
//!
//! The tree model ([`node::DtbNode`], [`node::DtbProperty`]) holds one
//! brace-delimited block per node, with ordered properties and ordered
//! children.  The codec parses source text into a tree and renders a tree
//! back to text with an exact whitespace policy, and the round trip
//! parse -> serialize -> parse is proved to reproduce the same tree.

pub mod codec;
pub mod extlinux;
pub mod model;
pub mod node;
pub mod roundtrip;
pub mod text;
