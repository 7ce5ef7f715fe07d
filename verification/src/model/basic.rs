use vstd::prelude::*;

use super::{NodeId, Symbol};

verus! {

/// A group of consecutive comment lines.
#[derive(Debug, Clone)]
pub struct Comment {
    pub node_id: NodeId,
    pub lines: Vec<CommentLine>,
}

/// A single line within a comment block.
#[derive(Debug, Clone)]
pub struct CommentLine {
    pub node_id: NodeId,
    pub text: Vec<char>,
}

/// An identifier (normal or raw).
#[derive(Debug, Clone)]
pub struct Ident {
    pub node_id: NodeId,
    pub name: Symbol,
    pub is_raw: bool,
}

} // verus!
