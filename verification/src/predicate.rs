//! The predicate language: a small boolean expression tree over
//! `tag = value` comparisons, combined with `and` / `or`. Room is left
//! for negation, which the core evaluator rejects as unsupported.

use vstd::prelude::*;

verus! {

/// One node of a predicate expression tree.
#[derive(Debug)]
pub enum Node {
    /// `tag key = tag value`: a posting-list lookup.
    Equal(String, String),
    /// Intersection of the two operand sets.
    And(Box<Node>, Box<Node>),
    /// Union of the two operand sets.
    Or(Box<Node>, Box<Node>),
    /// Negation; carried in the tree but not interpreted by the core.
    Not(Box<Node>),
}

impl Node {
    /// Whether the core evaluator interprets every node of the tree.
    pub open spec fn supported(self) -> bool
        decreases self,
    {
        match self {
            Node::Equal(_, _) => true,
            Node::And(l, r) => l.supported() && r.supported(),
            Node::Or(l, r) => l.supported() && r.supported(),
            Node::Not(_) => false,
        }
    }
}

/// A predicate: an optional root node. A predicate without a root
/// cannot be evaluated.
#[derive(Debug)]
pub struct Predicate {
    pub root: Option<Node>,
}

} // verus!
