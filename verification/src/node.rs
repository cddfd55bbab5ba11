//! Graph nodes: boundaries (namespace containers), types, and impls.

use crate::strutil::str_eq;
use vstd::prelude::*;

verus! {

/// A node of the partition graph.
///
/// `exports` of a boundary and `imports` of a type/impl are plain reference
/// lists of node identifiers; they are cross-links, not graph edges.
#[derive(Debug, Clone)]
pub enum Node {
    /// A namespace container; `exports` lists the non-boundary direct
    /// children reachable from outside, sorted and deduplicated.
    Boundary { name: String, exports: Vec<usize> },
    /// A named type item; `imports` lists the glob-resolved import matches
    /// visible to the item, sorted and deduplicated.
    Type { name: String, imports: Vec<usize> },
    /// A named implementation item; same shape as `Type`.
    Impl { name: String, imports: Vec<usize> },
}

/// The name of a node, whatever its kind.
pub open spec fn node_name(n: Node) -> Seq<char> {
    match n {
        Node::Boundary { name, .. } => name@,
        Node::Type { name, .. } => name@,
        Node::Impl { name, .. } => name@,
    }
}

/// The reference list a node carries: a boundary's exports, an item's
/// imports.
pub open spec fn node_links(n: Node) -> Seq<usize> {
    match n {
        Node::Boundary { exports, .. } => exports@,
        Node::Type { imports, .. } => imports@,
        Node::Impl { imports, .. } => imports@,
    }
}

/// Two nodes are of the same kind iff both are boundaries, both types, or
/// both impls.
pub open spec fn same_kind(a: Node, b: Node) -> bool {
    ||| (a is Boundary && b is Boundary)
    ||| (a is Type && b is Type)
    ||| (a is Impl && b is Impl)
}

impl Node {
    /// The node's name.
    pub fn name(&self) -> (r: &String)
        ensures
            r@ == node_name(*self),
    {
        match self {
            Node::Boundary { name, .. } => name,
            Node::Type { name, .. } => name,
            Node::Impl { name, .. } => name,
        }
    }

    /// Whether the node is a boundary.
    pub fn is_boundary(&self) -> (r: bool)
        ensures
            r == (*self is Boundary),
    {
        match self {
            Node::Boundary { .. } => true,
            _ => false,
        }
    }

    /// Whether the node is a type item.
    pub fn is_type(&self) -> (r: bool)
        ensures
            r == (*self is Type),
    {
        match self {
            Node::Type { .. } => true,
            _ => false,
        }
    }

    /// Whether the node is an impl item.
    pub fn is_impl(&self) -> (r: bool)
        ensures
            r == (*self is Impl),
    {
        match self {
            Node::Impl { .. } => true,
            _ => false,
        }
    }

    /// Whether the node is a boundary with the given name.
    pub fn eq_boundary(&self, name: &str) -> (r: bool)
        ensures
            r == (*self is Boundary && node_name(*self) == name@),
    {
        match self {
            Node::Boundary { name: n, .. } => str_eq(n.as_str(), name),
            _ => false,
        }
    }

    /// Whether the node is a type item with the given name.
    pub fn eq_type(&self, name: &str) -> (r: bool)
        ensures
            r == (*self is Type && node_name(*self) == name@),
    {
        match self {
            Node::Type { name: n, .. } => str_eq(n.as_str(), name),
            _ => false,
        }
    }

    /// Whether the node is an impl item with the given name.
    pub fn eq_impl(&self, name: &str) -> (r: bool)
        ensures
            r == (*self is Impl && node_name(*self) == name@),
    {
        match self {
            Node::Impl { name: n, .. } => str_eq(n.as_str(), name),
            _ => false,
        }
    }

    /// The resolved import list of a type or impl node; `None` for a
    /// boundary.
    pub fn imports(&self) -> (r: Option<&Vec<usize>>)
        ensures
            *self is Boundary ==> r is None,
            !(*self is Boundary) ==> (r matches Some(v) && v@ == node_links(*self)),
    {
        match self {
            Node::Boundary { .. } => None,
            Node::Type { imports, .. } => Some(imports),
            Node::Impl { imports, .. } => Some(imports),
        }
    }

    /// The resolved export list of a boundary node; `None` for an item.
    pub fn exports(&self) -> (r: Option<&Vec<usize>>)
        ensures
            *self is Boundary ==> (r matches Some(v) && v@ == node_links(*self)),
            !(*self is Boundary) ==> r is None,
    {
        match self {
            Node::Boundary { exports, .. } => Some(exports),
            _ => None,
        }
    }
}

} // verus!
