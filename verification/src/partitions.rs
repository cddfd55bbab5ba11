//! The partition graph: an arena of nodes keyed by stable integer handles,
//! with containment edges from parent boundaries to child nodes, and the
//! three-phase extension algorithm that grows it from batches of parsed
//! files.

use crate::error::{
    dup_item_desc, export_not_found_desc, invalid_glob_desc, no_partition_desc, Category, Error,
};
use crate::name::{is_valid_part_name, name_error_spec, valid_part_name};
use crate::fuzzy::fuzzy_rank;
use crate::input::{clone_import, import_path_views, Directive, File, FsMap, Import};
use crate::strutil::{split_path, split_path_spec};
use crate::globs::{glob_match_name, glob_matches, glob_syntax_ok, glob_valid, MAX_GLOB_LEN};
use crate::node::{node_links, node_name, same_kind, Node};
use crate::strutil::{join_with, joined, seq_views};
use vstd::prelude::*;

verus! {

/// A sequence of node identifiers is strictly increasing: sorted with no
/// duplicates.
pub open spec fn strictly_sorted(s: Seq<usize>) -> bool {
    forall|i: int, j: int| 0 <= i < j < s.len() ==> s[i] < s[j]
}

/// A containment edge is well formed: both endpoints are in the arena, the
/// parent is a boundary created before its child, and no pinned root is a
/// child.
pub open spec fn edge_ok(nodes: Seq<Node>, e: (usize, usize)) -> bool {
    &&& (e.1 as int) < nodes.len()
    &&& (e.0 as int) < (e.1 as int)
    &&& 3 <= e.1
    &&& nodes[e.0 as int] is Boundary
}

/// The partition graph: the node arena, the containment edges, and the
/// three permanently pinned root boundaries.
#[derive(Debug)]
pub struct Partitions {
    pub root: usize,
    pub shell: usize,
    pub plugins: usize,
    pub nodes: Vec<Node>,
    pub edges: Vec<(usize, usize)>,
}

impl Partitions {
    /// The nodes of the graph, by identifier.
    pub open spec fn nodes_view(self) -> Seq<Node> {
        self.nodes@
    }

    /// The containment edges of the graph, in insertion order.
    pub open spec fn edges_view(self) -> Seq<(usize, usize)> {
        self.edges@
    }

    /// The node with identifier `i`.
    pub open spec fn node_at(self, i: usize) -> Node {
        self.nodes@[i as int]
    }

    /// Whether `i` is the identifier of a node of the graph.
    pub open spec fn valid_id(self, i: usize) -> bool {
        (i as int) < self.nodes@.len()
    }

    /// Whether the graph has a containment edge from `p` to `c`.
    pub open spec fn is_edge(self, p: usize, c: usize) -> bool {
        exists|k: int| 0 <= k < self.edges@.len() && #[trigger] self.edges@[k] == (p, c)
    }

    /// Whether `p` has a direct child boundary named `name`.
    pub open spec fn has_boundary_child_named(self, p: usize, name: Seq<char>) -> bool {
        exists|c: usize|
            #[trigger] self.is_edge(p, c) && self.valid_id(c) && self.node_at(c) is Boundary
                && node_name(self.node_at(c)) == name
    }

    /// The direct child boundary of `p` named `name`, if any; under a well
    /// formed graph there is at most one.
    pub open spec fn boundary_child_named(self, p: usize, name: Seq<char>) -> Option<usize> {
        if self.has_boundary_child_named(p, name) {
            Some(
                choose|c: usize|
                    #[trigger] self.is_edge(p, c) && self.valid_id(c) && self.node_at(
                        c,
                    ) is Boundary && node_name(self.node_at(c)) == name,
            )
        } else {
            None
        }
    }

    /// Resolve a chain of boundary names starting at `from`: each segment
    /// must name a direct child boundary of the node reached so far. The
    /// empty path resolves to `from` itself.
    pub open spec fn resolve_path(self, from: usize, segs: Seq<Seq<char>>) -> Option<usize>
        decreases segs.len(),
    {
        if segs.len() == 0 {
            Some(from)
        } else {
            match self.boundary_child_named(from, segs[0]) {
                Some(c) => self.resolve_path(c, segs.drop_first()),
                None => None,
            }
        }
    }

    /// Whether `p` has a direct child type item named `name`.
    pub open spec fn has_type_child_named(self, p: usize, name: Seq<char>) -> bool {
        exists|c: usize|
            #[trigger] self.is_edge(p, c) && self.valid_id(c) && self.node_at(c) is Type
                && node_name(self.node_at(c)) == name
    }

    /// Whether `p` has a direct child impl item named `name`.
    pub open spec fn has_impl_child_named(self, p: usize, name: Seq<char>) -> bool {
        exists|c: usize|
            #[trigger] self.is_edge(p, c) && self.valid_id(c) && self.node_at(c) is Impl
                && node_name(self.node_at(c)) == name
    }

    /// Whether `p` has a direct child of the same kind and name as `n`.
    pub open spec fn has_matching_child(self, p: usize, n: Node) -> bool {
        exists|c: usize|
            #[trigger] self.is_edge(p, c) && self.valid_id(c) && same_kind(self.node_at(c), n)
                && node_name(self.node_at(c)) == node_name(n)
    }

    /// The three pinned roots are the first three nodes, boundaries with
    /// their fixed names.
    pub open spec fn roots_wf(self) -> bool {
        &&& self.root == 0usize && self.shell == 1usize && self.plugins == 2usize
        &&& self.nodes@.len() >= 3
        &&& self.nodes@[0] is Boundary && node_name(self.nodes@[0]) == "<root>"@
        &&& self.nodes@[1] is Boundary && node_name(self.nodes@[1]) == "<shell>"@
        &&& self.nodes@[2] is Boundary && node_name(self.nodes@[2]) == "<plugins>"@
    }

    /// Every edge is well formed.
    pub open spec fn edges_wf(self) -> bool {
        forall|k: int| 0 <= k < self.edges@.len() ==> edge_ok(self.nodes@, #[trigger] self.edges@[k])
    }

    /// Containment is tree-shaped: no node has two parents.
    pub open spec fn parents_unique(self) -> bool {
        forall|i: int, j: int|
            0 <= i < j < self.edges@.len() ==> (#[trigger] self.edges@[i]).1 != (
            #[trigger] self.edges@[j]).1
    }

    /// Sibling names are unique per kind: two distinct children of one
    /// parent never share both kind and name.
    pub open spec fn siblings_unique(self) -> bool {
        forall|i: int, j: int|
            0 <= i < self.edges@.len() && 0 <= j < self.edges@.len() && i != j && (
            #[trigger] self.edges@[i]).0 == (#[trigger] self.edges@[j]).0 ==> !(same_kind(
                self.nodes@[self.edges@[i].1 as int],
                self.nodes@[self.edges@[j].1 as int],
            ) && node_name(self.nodes@[self.edges@[i].1 as int]) == node_name(
                self.nodes@[self.edges@[j].1 as int],
            ))
    }

    /// Every node except the three pinned roots has a parent, so the edge
    /// count determines the node count.
    pub open spec fn edge_count_wf(self) -> bool {
        self.edges@.len() + 3 == self.nodes@.len()
    }

    /// The reference list of node `n` is well formed: strictly sorted, with
    /// every identifier in the arena; a boundary's exports moreover point
    /// only at its own non-boundary children.
    pub open spec fn links_ok(self, n: usize) -> bool {
        let ls = node_links(self.nodes@[n as int]);
        &&& strictly_sorted(ls)
        &&& forall|k: int| 0 <= k < ls.len() ==> ((#[trigger] ls[k]) as int) < self.nodes@.len()
        &&& self.nodes@[n as int] is Boundary ==> forall|k: int|
            0 <= k < ls.len() ==> self.is_edge(n, #[trigger] ls[k]) && !(self.nodes@[ls[k] as int] is Boundary)
    }

    /// Reference lists of all nodes are well formed.
    pub open spec fn links_wf(self) -> bool {
        forall|n: usize| (n as int) < self.nodes@.len() ==> #[trigger] self.links_ok(n)
    }

    /// The graph invariant.
    pub open spec fn wf(self) -> bool {
        &&& self.roots_wf()
        &&& self.edges_wf()
        &&& self.parents_unique()
        &&& self.siblings_unique()
        &&& self.edge_count_wf()
        &&& self.links_wf()
    }

    /// Create the partition graph: exactly the three pinned root boundaries
    /// `<root>`, `<shell>` and `<plugins>`, and no edges.
    pub fn new() -> (r: Partitions)
        ensures
            r.wf(),
            r.nodes_view().len() == 3,
            r.edges_view().len() == 0,
            node_name(r.node_at(0)) == "<root>"@,
            node_name(r.node_at(1)) == "<shell>"@,
            node_name(r.node_at(2)) == "<plugins>"@,
            r.node_at(0) is Boundary && r.node_at(1) is Boundary && r.node_at(2) is Boundary,
            node_links(r.node_at(0)).len() == 0,
            node_links(r.node_at(1)).len() == 0,
            node_links(r.node_at(2)).len() == 0,
            r.root_id() == 0 && r.shell_id() == 1 && r.plugins_id() == 2,
    {
        let mut nodes: Vec<Node> = Vec::new();
        nodes.push(Node::Boundary { name: String::from_str("<root>"), exports: Vec::new() });
        nodes.push(Node::Boundary { name: String::from_str("<shell>"), exports: Vec::new() });
        nodes.push(Node::Boundary { name: String::from_str("<plugins>"), exports: Vec::new() });
        let r = Partitions { root: 0, shell: 1, plugins: 2, nodes, edges: Vec::new() };
        proof {
            assert forall|n: usize| (n as int) < r.nodes@.len() implies #[trigger] r.links_ok(
                n,
            ) by {
                assert(node_links(r.nodes@[n as int]).len() == 0);
            }
        }
        r
    }

    /// The identifier of the pinned `<root>` boundary.
    pub open spec fn root_id(self) -> usize {
        self.root
    }

    /// The identifier of the pinned `<shell>` boundary.
    pub open spec fn shell_id(self) -> usize {
        self.shell
    }

    /// The identifier of the pinned `<plugins>` boundary.
    pub open spec fn plugins_id(self) -> usize {
        self.plugins
    }

    /// The pinned `<root>` boundary.
    pub fn root(&self) -> (r: usize)
        ensures
            r == self.root_id(),
    {
        self.root
    }

    /// The pinned `<shell>` boundary.
    pub fn shell(&self) -> (r: usize)
        ensures
            r == self.shell_id(),
    {
        self.shell
    }

    /// The pinned `<plugins>` boundary.
    pub fn plugins(&self) -> (r: usize)
        ensures
            r == self.plugins_id(),
    {
        self.plugins
    }

    /// The number of nodes in the graph.
    pub fn node_count(&self) -> (r: usize)
        ensures
            r == self.nodes_view().len(),
    {
        self.nodes.len()
    }

    /// The number of containment edges in the graph.
    pub fn edge_count(&self) -> (r: usize)
        ensures
            r == self.edges_view().len(),
    {
        self.edges.len()
    }

    /// The node with identifier `i`, if it exists.
    pub fn node_weight(&self, i: usize) -> (r: Option<&Node>)
        ensures
            self.valid_id(i) ==> (r matches Some(n) && *n == self.node_at(i)),
            !self.valid_id(i) ==> r is None,
    {
        if i < self.nodes.len() {
            Some(&self.nodes[i])
        } else {
            None
        }
    }

    /// Whether the graph contains a containment edge from `a` to `b`.
    pub fn contains_edge(&self, a: usize, b: usize) -> (r: bool)
        ensures
            r == self.is_edge(a, b),
    {
        let mut k: usize = 0;
        while k < self.edges.len()
            invariant
                k <= self.edges@.len(),
                forall|t: int| 0 <= t < k ==> #[trigger] self.edges@[t] != (a, b),
            decreases self.edges@.len() - k,
        {
            let e = self.edges[k];
            if e.0 == a && e.1 == b {
                return true;
            }
            k += 1;
        }
        false
    }

    /// The direct child boundary of `parent` named `name`, if any.
    fn find_child_boundary(&self, parent: usize, name: &str) -> (r: Option<usize>)
        requires
            self.edges_wf(),
        ensures
            r matches Some(c) ==> self.is_edge(parent, c) && self.valid_id(c) && self.node_at(
                c,
            ) is Boundary && node_name(self.node_at(c)) == name@,
            r is None ==> !self.has_boundary_child_named(parent, name@),
    {
        let mut k: usize = 0;
        while k < self.edges.len()
            invariant
                self.edges_wf(),
                k <= self.edges@.len(),
                forall|t: int|
                    0 <= t < k ==> !((#[trigger] self.edges@[t]).0 == parent
                        && self.nodes@[self.edges@[t].1 as int] is Boundary && node_name(
                        self.nodes@[self.edges@[t].1 as int],
                    ) == name@),
            decreases self.edges@.len() - k,
        {
            let e = self.edges[k];
            if e.0 == parent {
                assert(edge_ok(self.nodes@, self.edges@[k as int]));
                if self.nodes[e.1].eq_boundary(name) {
                    return Some(e.1);
                }
            }
            k += 1;
        }
        proof {
            assert(!self.has_boundary_child_named(parent, name@)) by {
                if self.has_boundary_child_named(parent, name@) {
                    let c = choose|c: usize|
                        #[trigger] self.is_edge(parent, c) && self.valid_id(c) && self.node_at(
                            c,
                        ) is Boundary && node_name(self.node_at(c)) == name@;
                    let t = choose|t: int|
                        0 <= t < self.edges@.len() && #[trigger] self.edges@[t] == (parent, c);
                    assert(false);
                }
            }
        }
        None
    }

    /// Whether `parent` already has a direct child type named `name`.
    fn has_type_child(&self, parent: usize, name: &str) -> (r: bool)
        requires
            self.edges_wf(),
        ensures
            r == self.has_type_child_named(parent, name@),
    {
        let mut k: usize = 0;
        while k < self.edges.len()
            invariant
                self.edges_wf(),
                k <= self.edges@.len(),
                forall|t: int|
                    0 <= t < k ==> !((#[trigger] self.edges@[t]).0 == parent
                        && self.nodes@[self.edges@[t].1 as int] is Type && node_name(
                        self.nodes@[self.edges@[t].1 as int],
                    ) == name@),
            decreases self.edges@.len() - k,
        {
            let e = self.edges[k];
            if e.0 == parent {
                assert(edge_ok(self.nodes@, self.edges@[k as int]));
                if self.nodes[e.1].eq_type(name) {
                    proof {
                        assert(self.edges@[k as int] == (parent, e.1));
                        assert(self.is_edge(parent, e.1));
                    }
                    return true;
                }
            }
            k += 1;
        }
        proof {
            assert(!self.has_type_child_named(parent, name@)) by {
                if self.has_type_child_named(parent, name@) {
                    let c = choose|c: usize|
                        #[trigger] self.is_edge(parent, c) && self.valid_id(c) && self.node_at(
                            c,
                        ) is Type && node_name(self.node_at(c)) == name@;
                    let t = choose|t: int|
                        0 <= t < self.edges@.len() && #[trigger] self.edges@[t] == (parent, c);
                    assert(false);
                }
            }
        }
        false
    }

    /// Whether `parent` already has a direct child impl named `name`.
    fn has_impl_child(&self, parent: usize, name: &str) -> (r: bool)
        requires
            self.edges_wf(),
        ensures
            r == self.has_impl_child_named(parent, name@),
    {
        let mut k: usize = 0;
        while k < self.edges.len()
            invariant
                self.edges_wf(),
                k <= self.edges@.len(),
                forall|t: int|
                    0 <= t < k ==> !((#[trigger] self.edges@[t]).0 == parent
                        && self.nodes@[self.edges@[t].1 as int] is Impl && node_name(
                        self.nodes@[self.edges@[t].1 as int],
                    ) == name@),
            decreases self.edges@.len() - k,
        {
            let e = self.edges[k];
            if e.0 == parent {
                assert(edge_ok(self.nodes@, self.edges@[k as int]));
                if self.nodes[e.1].eq_impl(name) {
                    proof {
                        assert(self.edges@[k as int] == (parent, e.1));
                        assert(self.is_edge(parent, e.1));
                    }
                    return true;
                }
            }
            k += 1;
        }
        proof {
            assert(!self.has_impl_child_named(parent, name@)) by {
                if self.has_impl_child_named(parent, name@) {
                    let c = choose|c: usize|
                        #[trigger] self.is_edge(parent, c) && self.valid_id(c) && self.node_at(
                            c,
                        ) is Impl && node_name(self.node_at(c)) == name@;
                    let t = choose|t: int|
                        0 <= t < self.edges@.len() && #[trigger] self.edges@[t] == (parent, c);
                    assert(false);
                }
            }
        }
        false
    }

    /// Append `node` to the arena with an edge from `parent`, returning the
    /// new node's identifier.
    fn push_node(&mut self, parent: usize, node: Node) -> (r: usize)
        requires
            old(self).wf(),
            old(self).valid_id(parent),
            old(self).node_at(parent) is Boundary,
            node_links(node).len() == 0,
            !old(self).has_matching_child(parent, node),
        ensures
            final (self).wf(),
            final (self).nodes@ == old(self).nodes@.push(node),
            final (self).edges@ == old(self).edges@.push((parent, r)),
            r as int == old(self).nodes@.len(),
            final (self).root == old(self).root && final (self).shell == old(self).shell
                && final (self).plugins == old(self).plugins,
    {
        let r = self.nodes.len();
        self.nodes.push(node);
        self.edges.push((parent, r));
        proof {
            let n = old(self).edges@.len() as int;
            assert forall|k: int| 0 <= k < self.edges@.len() implies edge_ok(
                self.nodes@,
                #[trigger] self.edges@[k],
            ) by {
                if k < n {
                    assert(self.edges@[k] == old(self).edges@[k]);
                    assert(edge_ok(old(self).nodes@, old(self).edges@[k]));
                } else {
                    assert(self.edges@[k] == (parent, r));
                }
            }
            assert(self.siblings_unique()) by {
                assert forall|i: int, j: int|
                    0 <= i < self.edges@.len() && 0 <= j < self.edges@.len() && i != j && (
                    #[trigger] self.edges@[i]).0 == (#[trigger] self.edges@[j]).0 implies !(
                same_kind(
                    self.nodes@[self.edges@[i].1 as int],
                    self.nodes@[self.edges@[j].1 as int],
                ) && node_name(self.nodes@[self.edges@[i].1 as int]) == node_name(
                    self.nodes@[self.edges@[j].1 as int],
                )) by {
                    if i < n && j < n {
                        assert(edge_ok(old(self).nodes@, old(self).edges@[i]));
                        assert(edge_ok(old(self).nodes@, old(self).edges@[j]));
                    } else {
                        let o = if i < n {
                            i
                        } else {
                            j
                        };
                        assert(o < n);
                        assert(edge_ok(old(self).nodes@, old(self).edges@[o]));
                        let c = old(self).edges@[o].1;
                        if old(self).edges@[o].0 == parent {
                            assert(old(self).is_edge(parent, c));
                            assert(!(same_kind(old(self).node_at(c), node) && node_name(
                                old(self).node_at(c),
                            ) == node_name(node)));
                        }
                    }
                }
            }
            assert(self.links_wf()) by {
                assert forall|m: usize| (m as int) < self.nodes@.len() implies #[trigger] self.links_ok(
                    m,
                ) by {
                    if (m as int) < old(self).nodes@.len() {
                        assert(old(self).links_ok(m));
                        let ls = node_links(self.nodes@[m as int]);
                        assert(self.nodes@[m as int] == old(self).nodes@[m as int]);
                        if self.nodes@[m as int] is Boundary {
                            assert forall|k: int| 0 <= k < ls.len() implies self.is_edge(
                                m,
                                #[trigger] ls[k],
                            ) && !(self.nodes@[ls[k] as int] is Boundary) by {
                                assert(old(self).is_edge(m, ls[k]));
                                let t = choose|t: int|
                                    0 <= t < old(self).edges@.len() && #[trigger] old(
                                        self,
                                    ).edges@[t] == (m, ls[k]);
                                assert(self.edges@[t] == (m, ls[k]));
                                assert((ls[k] as int) < old(self).nodes@.len());
                            }
                        }
                    } else {
                        assert(node_links(self.nodes@[m as int]).len() == 0);
                    }
                }
            }
        }
        r
    }

    /// Declare a type named `name` under `parent`. A duplicate sibling type
    /// name is an error, never silently merged.
    pub fn add_type(&mut self, parent: usize, name: &str) -> (r: Result<usize, Error>)
        requires
            old(self).wf(),
            old(self).valid_id(parent),
            old(self).node_at(parent) is Boundary,
        ensures
            final (self).wf(),
            final (self).root == old(self).root && final (self).shell == old(self).shell
                && final (self).plugins == old(self).plugins,
            match r {
                Ok(i) => {
                    &&& !old(self).has_type_child_named(parent, name@)
                    &&& i as int == old(self).nodes@.len()
                    &&& final (self).nodes@.len() == old(self).nodes@.len() + 1
                    &&& forall|j: int|
                        0 <= j < old(self).nodes@.len() ==> final (self).nodes@[j] == old(self).nodes@[j]
                    &&& final (self).node_at(i) is Type
                    &&& node_name(final (self).node_at(i)) == name@
                    &&& node_links(final (self).node_at(i)).len() == 0
                    &&& final (self).edges@ == old(self).edges@.push((parent, i))
                },
                Err(e) => {
                    &&& old(self).has_type_child_named(parent, name@)
                    &&& *final (self) == *old(self)
                    &&& e.cat == Category::Definitions
                    &&& e.desc@ == dup_item_desc("type"@, name@)
                    &&& e.help_msg is None
                    &&& e.hard
                },
            },
    {
        if self.has_type_child(parent, name) {
            return Err(Error::item_already_defined("type", name));
        }
        let node = Node::Type { name: String::from_str(name), imports: Vec::new() };
        proof {
            assert(!old(self).has_matching_child(parent, node)) by {
                if old(self).has_matching_child(parent, node) {
                    let c = choose|c: usize|
                        #[trigger] old(self).is_edge(parent, c) && old(self).valid_id(c)
                            && same_kind(old(self).node_at(c), node) && node_name(
                            old(self).node_at(c),
                        ) == node_name(node);
                    assert(old(self).has_type_child_named(parent, name@));
                }
            }
        }
        let i = self.push_node(parent, node);
        Ok(i)
    }

    /// Declare an impl named `name` under `parent`. A duplicate sibling impl
    /// name is an error, never silently merged.
    pub fn add_impl(&mut self, parent: usize, name: &str) -> (r: Result<usize, Error>)
        requires
            old(self).wf(),
            old(self).valid_id(parent),
            old(self).node_at(parent) is Boundary,
        ensures
            final (self).wf(),
            final (self).root == old(self).root && final (self).shell == old(self).shell
                && final (self).plugins == old(self).plugins,
            match r {
                Ok(i) => {
                    &&& !old(self).has_impl_child_named(parent, name@)
                    &&& i as int == old(self).nodes@.len()
                    &&& final (self).nodes@.len() == old(self).nodes@.len() + 1
                    &&& forall|j: int|
                        0 <= j < old(self).nodes@.len() ==> final (self).nodes@[j] == old(self).nodes@[j]
                    &&& final (self).node_at(i) is Impl
                    &&& node_name(final (self).node_at(i)) == name@
                    &&& node_links(final (self).node_at(i)).len() == 0
                    &&& final (self).edges@ == old(self).edges@.push((parent, i))
                },
                Err(e) => {
                    &&& old(self).has_impl_child_named(parent, name@)
                    &&& *final (self) == *old(self)
                    &&& e.cat == Category::Definitions
                    &&& e.desc@ == dup_item_desc("impl"@, name@)
                    &&& e.help_msg is None
                    &&& e.hard
                },
            },
    {
        if self.has_impl_child(parent, name) {
            return Err(Error::item_already_defined("impl", name));
        }
        let node = Node::Impl { name: String::from_str(name), imports: Vec::new() };
        proof {
            assert(!old(self).has_matching_child(parent, node)) by {
                if old(self).has_matching_child(parent, node) {
                    let c = choose|c: usize|
                        #[trigger] old(self).is_edge(parent, c) && old(self).valid_id(c)
                            && same_kind(old(self).node_at(c), node) && node_name(
                            old(self).node_at(c),
                        ) == node_name(node);
                    assert(old(self).has_impl_child_named(parent, name@));
                }
            }
        }
        let i = self.push_node(parent, node);
        Ok(i)
    }
}


/// Chain node `j` is one of the chain entries `1..=upto`.
pub open spec fn chain_member(cs: Seq<usize>, upto: int, j: int) -> bool {
    exists|k: int| 1 <= k <= upto && ((#[trigger] cs[k]) as int) == j
}

/// Node `j` lies on the resolved chain of a path: some nonempty prefix of
/// the path resolves to it.
pub open spec fn on_created_chain(
    g: Partitions,
    from: usize,
    views: Seq<Seq<char>>,
    j: int,
) -> bool {
    exists|k: int|
        1 <= k <= views.len() && g.resolve_path(from, #[trigger] views.take(k)) == Some(
            j as usize,
        )
}

/// One step of a resolved boundary chain: the edge, the child's kind and
/// its name.
pub open spec fn chain_step_ok(g: Partitions, cs: Seq<usize>, segs: Seq<Seq<char>>, j: int) -> bool {
    &&& g.is_edge(cs[j], cs[j + 1])
    &&& g.valid_id(cs[j + 1])
    &&& g.node_at(cs[j + 1]) is Boundary
    &&& node_name(g.node_at(cs[j + 1])) == segs[j]
}

/// Under a well formed graph a parent has at most one child boundary of a
/// given name, so any witness determines `boundary_child_named`.
proof fn lemma_child_unique(g: Partitions, p: usize, c: usize, name: Seq<char>)
    requires
        g.wf(),
        g.is_edge(p, c),
        g.valid_id(c),
        g.node_at(c) is Boundary,
        node_name(g.node_at(c)) == name,
    ensures
        g.boundary_child_named(p, name) == Some(c),
{
    assert(g.has_boundary_child_named(p, name));
    let w = choose|w: usize|
        #[trigger] g.is_edge(p, w) && g.valid_id(w) && g.node_at(w) is Boundary && node_name(
            g.node_at(w),
        ) == name;
    if w != c {
        let i = choose|i: int| 0 <= i < g.edges@.len() && #[trigger] g.edges@[i] == (p, w);
        let j = choose|j: int| 0 <= j < g.edges@.len() && #[trigger] g.edges@[j] == (p, c);
        assert(i != j);
        assert(false);
    }
}

/// A chain of resolved boundary steps is exactly what `resolve_path`
/// computes: the path resolves to the chain's last node.
proof fn lemma_chain_resolve(g: Partitions, segs: Seq<Seq<char>>, cs: Seq<usize>)
    requires
        g.wf(),
        cs.len() == segs.len() + 1,
        forall|j: int| 0 <= j < segs.len() ==> #[trigger] chain_step_ok(g, cs, segs, j),
    ensures
        g.resolve_path(cs[0], segs) == Some(cs.last()),
    decreases segs.len(),
{
    if segs.len() == 0 {
    } else {
        assert(chain_step_ok(g, cs, segs, 0));
        lemma_child_unique(g, cs[0], cs[1], segs[0]);
        let cs2 = cs.drop_first();
        let segs2 = segs.drop_first();
        assert forall|j: int| 0 <= j < segs2.len() implies #[trigger] chain_step_ok(
            g,
            cs2,
            segs2,
            j,
        ) by {
            assert(chain_step_ok(g, cs, segs, j + 1));
            assert(cs2[j] == cs[j + 1]);
            assert(cs2[j + 1] == cs[j + 2]);
            assert(segs2[j] == segs[j + 1]);
        }
        lemma_chain_resolve(g, segs2, cs2);
        assert(cs2[0] == cs[1]);
        assert(cs2.last() == cs.last());
    }
}

/// Stepping a resolved prefix: if the first `i` segments resolve to `m` and
/// `m` has the child boundary `c` named by segment `i`, the first `i + 1`
/// segments resolve to `c`.
proof fn lemma_resolve_take_step(
    g: Partitions,
    from: usize,
    segs: Seq<Seq<char>>,
    i: int,
    m: usize,
    c: usize,
)
    requires
        0 <= i < segs.len(),
        g.resolve_path(from, segs.take(i)) == Some(m),
        g.boundary_child_named(m, segs[i]) == Some(c),
    ensures
        g.resolve_path(from, segs.take(i + 1)) == Some(c),
    decreases i,
{
    if i == 0 {
        assert(segs.take(0) =~= Seq::<Seq<char>>::empty());
        assert(m == from);
        let t1 = segs.take(1);
        assert(t1[0] == segs[0]);
        assert(t1.drop_first() =~= Seq::<Seq<char>>::empty());
        assert(g.resolve_path(c, t1.drop_first()) == Some(c));
    } else {
        let ti = segs.take(i);
        assert(ti[0] == segs[0]);
        let b0 = g.boundary_child_named(from, segs[0]);
        assert(b0 is Some);
        let c0 = b0->0;
        assert(ti.drop_first() =~= segs.drop_first().take(i - 1));
        assert(g.resolve_path(c0, segs.drop_first().take(i - 1)) == Some(m));
        assert(segs[i] == segs.drop_first()[i - 1]);
        lemma_resolve_take_step(g, c0, segs.drop_first(), i - 1, m, c);
        let t2 = segs.take(i + 1);
        assert(t2[0] == segs[0]);
        assert(t2.drop_first() =~= segs.drop_first().take(i));
        assert(g.resolve_path(from, t2) == g.resolve_path(c0, segs.drop_first().take(i)));
    }
}


/// Resolution persists as the graph grows: a path that resolves keeps
/// resolving to the same node in any well formed extension.
proof fn lemma_resolve_preserved(a: Partitions, b: Partitions, from: usize, segs: Seq<Seq<char>>)
    requires
        a.wf(),
        b.wf(),
        extends(a, b),
        a.resolve_path(from, segs) is Some,
    ensures
        b.resolve_path(from, segs) == a.resolve_path(from, segs),
    decreases segs.len(),
{
    if segs.len() == 0 {
    } else {
        let bc = a.boundary_child_named(from, segs[0]);
        assert(bc is Some);
        let c = choose|c: usize|
            #[trigger] a.is_edge(from, c) && a.valid_id(c) && a.node_at(c) is Boundary
                && node_name(a.node_at(c)) == segs[0];
        assert(bc == Some(c)) by {
            lemma_child_unique(a, from, c, segs[0]);
        }
        let k = choose|k: int| 0 <= k < a.edges@.len() && #[trigger] a.edges@[k] == (from, c);
        assert(a.edges@ =~= b.edges@.subrange(0, a.edges@.len() as int));
        assert(b.edges@[k] == (from, c));
        assert(b.is_edge(from, c));
        assert(edge_ok(a.nodes@, a.edges@[k]));
        assert(same_kind(b.nodes@[c as int], a.nodes@[c as int]));
        assert(node_name(b.nodes@[c as int]) == node_name(a.nodes@[c as int]));
        lemma_child_unique(b, from, c, segs[0]);
        lemma_resolve_preserved(a, b, c, segs.drop_first());
    }
}

/// Resolution never descends: each containment edge goes from a lower to a
/// higher identifier, so a resolved path ends at or above its start, and
/// strictly above it for a nonempty path.
proof fn lemma_resolve_ge(g: Partitions, from: usize, segs: Seq<Seq<char>>)
    requires
        g.wf(),
        g.resolve_path(from, segs) is Some,
    ensures
        g.resolve_path(from, segs)->0 >= from,
        segs.len() > 0 ==> g.resolve_path(from, segs)->0 > from,
    decreases segs.len(),
{
    if segs.len() == 0 {
    } else {
        let bc = g.boundary_child_named(from, segs[0]);
        assert(bc is Some);
        let c = choose|c: usize|
            #[trigger] g.is_edge(from, c) && g.valid_id(c) && g.node_at(c) is Boundary
                && node_name(g.node_at(c)) == segs[0];
        assert(bc == Some(c)) by {
            lemma_child_unique(g, from, c, segs[0]);
        }
        let k = choose|k: int| 0 <= k < g.edges@.len() && #[trigger] g.edges@[k] == (from, c);
        assert(edge_ok(g.nodes@, g.edges@[k]));
        lemma_resolve_ge(g, c, segs.drop_first());
    }
}

/// A path that resolves wholly inside the old part of a grown graph
/// resolved the same way before the growth.
proof fn lemma_resolve_restrict(
    a: Partitions,
    b: Partitions,
    from: usize,
    segs: Seq<Seq<char>>,
    x: usize,
)
    requires
        a.wf(),
        b.wf(),
        extends(a, b),
        b.resolve_path(from, segs) == Some(x),
        (x as int) < a.nodes@.len(),
        (from as int) < a.nodes@.len(),
    ensures
        a.resolve_path(from, segs) == Some(x),
    decreases segs.len(),
{
    if segs.len() == 0 {
    } else {
        let bc = b.boundary_child_named(from, segs[0]);
        assert(bc is Some);
        let c = choose|c: usize|
            #[trigger] b.is_edge(from, c) && b.valid_id(c) && b.node_at(c) is Boundary
                && node_name(b.node_at(c)) == segs[0];
        assert(bc == Some(c)) by {
            lemma_child_unique(b, from, c, segs[0]);
        }
        lemma_resolve_ge(b, c, segs.drop_first());
        assert((c as int) < a.nodes@.len());
        let k = choose|k: int| 0 <= k < b.edges@.len() && #[trigger] b.edges@[k] == (from, c);
        assert(k < a.edges@.len());
        assert(a.edges@ =~= b.edges@.subrange(0, a.edges@.len() as int));
        assert(a.edges@[k] == (from, c));
        assert(a.is_edge(from, c));
        assert(same_kind(b.nodes@[c as int], a.nodes@[c as int]));
        assert(node_name(b.nodes@[c as int]) == node_name(a.nodes@[c as int]));
        lemma_child_unique(a, from, c, segs[0]);
        lemma_resolve_restrict(a, b, c, segs.drop_first(), x);
    }
}

/// A resolved prefix of a fully resolving path can always take its next
/// step.
proof fn lemma_resolve_mid_step(
    g: Partitions,
    from: usize,
    segs: Seq<Seq<char>>,
    i: int,
    m: usize,
)
    requires
        g.resolve_path(from, segs) is Some,
        0 <= i < segs.len(),
        g.resolve_path(from, segs.take(i)) == Some(m),
    ensures
        g.boundary_child_named(m, segs[i]) is Some,
    decreases i,
{
    if i == 0 {
        assert(segs.take(0) =~= Seq::<Seq<char>>::empty());
        assert(m == from);
    } else {
        let b0 = g.boundary_child_named(from, segs[0]);
        assert(b0 is Some);
        let c0 = b0->0;
        let ti = segs.take(i);
        assert(ti[0] == segs[0]);
        assert(ti.drop_first() =~= segs.drop_first().take(i - 1));
        assert(g.resolve_path(c0, segs.drop_first().take(i - 1)) == Some(m));
        assert(g.resolve_path(c0, segs.drop_first()) is Some);
        assert(segs[i] == segs.drop_first()[i - 1]);
        lemma_resolve_mid_step(g, c0, segs.drop_first(), i - 1, m);
    }
}

/// The first `i` steps of a resolved chain resolve the path's first `i`
/// segments to the chain's node `i`.
proof fn lemma_chain_prefix_resolve(g: Partitions, views: Seq<Seq<char>>, cs: Seq<usize>, i: int)
    requires
        g.wf(),
        0 <= i <= views.len(),
        cs.len() >= i + 1,
        forall|j: int| 0 <= j < i ==> #[trigger] chain_step_ok(g, cs, views, j),
    ensures
        g.resolve_path(cs[0], views.take(i)) == Some(cs[i]),
{
    let tv = views.take(i);
    let tc = cs.take(i + 1);
    assert forall|j: int| 0 <= j < tv.len() implies #[trigger] chain_step_ok(g, tc, tv, j) by {
        assert(chain_step_ok(g, cs, views, j));
        assert(tc[j] == cs[j]);
        assert(tc[j + 1] == cs[j + 1]);
        assert(tv[j] == views[j]);
    }
    lemma_chain_resolve(g, tv, tc);
    assert(tc[0] == cs[0]);
    assert(tc.last() == cs[i]);
}

/// Dropping the head of a sequence suffix steps the suffix forward.
proof fn lemma_seq_skip_step<T>(s: Seq<T>, i: int)
    requires
        0 <= i < s.len(),
    ensures
        s.skip(i).drop_first() =~= s.skip(i + 1),
        s.skip(i)[0] == s[i],
        s.skip(i).len() == s.len() - i,
{
}

/// What a "did you mean" message is: the fixed prefix followed by a
/// comma-join of one or more names, each the name of a direct child
/// boundary of `parent`. Which candidates appear, and in what order, is
/// advisory and left to the approximate matcher.
pub open spec fn suggestion_msg_ok(g: Partitions, parent: usize, m: Seq<char>) -> bool {
    exists|names: Seq<Seq<char>>|
        {
            &&& m == "Did you mean any of these? "@ + joined(names, ", "@)
            &&& names.len() > 0
            &&& forall|t: int|
                0 <= t < names.len() ==> g.has_boundary_child_named(parent, #[trigger] names[t])
        }
}

impl Partitions {
    /// Collect "did you mean" suggestions for a failed segment: the names
    /// of child boundaries of `parent` ranked as approximately similar to
    /// `seg`, comma-joined. Purely advisory; never affects resolution.
    fn suggestions(&self, parent: usize, seg: &str) -> (r: Option<String>)
        requires
            self.wf(),
        ensures
            r matches Some(m) ==> suggestion_msg_ok(*self, parent, m@),
    {
        let mut cand_ids: Vec<usize> = Vec::new();
        let mut cand_names: Vec<String> = Vec::new();
        let mut k: usize = 0;
        while k < self.edges.len()
            invariant
                self.wf(),
                k <= self.edges@.len(),
                cand_ids@.len() == cand_names@.len(),
                forall|t: int|
                    0 <= t < cand_ids@.len() ==> ((#[trigger] cand_ids@[t]) as int)
                        < self.nodes@.len() && self.is_edge(parent, cand_ids@[t]),
            decreases self.edges@.len() - k,
        {
            let e = self.edges[k];
            if e.0 == parent {
                assert(edge_ok(self.nodes@, self.edges@[k as int]));
                proof {
                    assert(self.edges@[k as int] == (parent, e.1));
                    assert(self.is_edge(parent, e.1));
                }
                cand_ids.push(e.1);
                cand_names.push(self.nodes[e.1].name().clone());
            }
            k += 1;
        }
        let ranked = fuzzy_rank(seg, &cand_names);
        let mut sugg: Vec<String> = Vec::new();
        let mut t: usize = 0;
        while t < ranked.len()
            invariant
                self.wf(),
                t <= ranked@.len(),
                cand_ids@.len() == cand_names@.len(),
                forall|u: int|
                    0 <= u < cand_ids@.len() ==> ((#[trigger] cand_ids@[u]) as int)
                        < self.nodes@.len() && self.is_edge(parent, cand_ids@[u]),
                forall|u: int| 0 <= u < ranked@.len() ==> (#[trigger] ranked@[u]) < cand_names@.len(),
                forall|u: int|
                    0 <= u < sugg@.len() ==> self.has_boundary_child_named(
                        parent,
                        (#[trigger] sugg@[u])@,
                    ),
            decreases ranked@.len() - t,
        {
            let idx = ranked[t];
            let id = cand_ids[idx];
            if self.nodes[id].is_boundary() {
                proof {
                    assert(self.is_edge(parent, id));
                    assert(self.has_boundary_child_named(parent, node_name(self.nodes@[id as int])));
                }
                sugg.push(self.nodes[id].name().clone());
            }
            t += 1;
        }
        if sugg.len() > 0 {
            let mut m = String::from_str("Did you mean any of these? ");
            let joined_names = join_with(&sugg, ", ");
            m.append(joined_names.as_str());
            proof {
                let names = seq_views(sugg@);
                assert(names.len() > 0);
                assert forall|u: int| 0 <= u < names.len() implies self.has_boundary_child_named(
                    parent,
                    #[trigger] names[u],
                ) by {
                    assert(names[u] == sugg@[u]@);
                }
                assert(m@ == "Did you mean any of these? "@ + joined(names, ", "@));
                assert(suggestion_msg_ok(*self, parent, m@));
            }
            Some(m)
        } else {
            None
        }
    }

    /// Resolve a dotted boundary path: each segment must name a direct
    /// child boundary of the node reached so far, starting from `from`.
    /// An unresolved segment is a fatal error naming the segment, with an
    /// optional ranked suggestion list attached.
    pub fn find_boundary(&self, from: usize, path: &Vec<String>) -> (r: Result<usize, Error>)
        requires
            self.wf(),
            self.valid_id(from),
        ensures
            r matches Ok(b) ==> self.resolve_path(from, seq_views(path@)) == Some(b)
                && self.valid_id(b),
            r matches Err(e) ==> {
                &&& self.resolve_path(from, seq_views(path@)) is None
                &&& e.cat == Category::Definitions
                &&& e.hard
                &&& exists|i: int|
                    {
                        let pre = self.resolve_path(from, #[trigger] seq_views(path@).take(i));
                        &&& 0 <= i < path@.len()
                        &&& pre is Some
                        &&& self.boundary_child_named(pre->0, path@[i]@) is None
                        &&& e.desc@ == no_partition_desc(path@[i]@)
                        &&& (e.help_msg matches Some(h) ==> suggestion_msg_ok(*self, pre->0, h@))
                    }
            },
    {
        let ghost views = seq_views(path@);
        let mut cur = from;
        let mut i: usize = 0;
        proof {
            assert(views.skip(0) =~= views);
            assert(views.take(0) =~= Seq::<Seq<char>>::empty());
        }
        while i < path.len()
            invariant
                self.wf(),
                self.valid_id(cur),
                i <= path@.len(),
                views == seq_views(path@),
                views.len() == path@.len(),
                self.resolve_path(from, views) == self.resolve_path(cur, views.skip(i as int)),
                self.resolve_path(from, views.take(i as int)) == Some(cur),
            decreases path@.len() - i,
        {
            proof {
                lemma_seq_skip_step(views, i as int);
                assert(views[i as int] == path@[i as int]@);
            }
            match self.find_child_boundary(cur, path[i].as_str()) {
                Some(c) => {
                    proof {
                        lemma_child_unique(*self, cur, c, views[i as int]);
                        lemma_resolve_take_step(*self, from, views, i as int, cur, c);
                        assert(self.resolve_path(cur, views.skip(i as int)) == self.resolve_path(
                            c,
                            views.skip(i as int + 1),
                        ));
                    }
                    cur = c;
                },
                None => {
                    proof {
                        assert(self.boundary_child_named(cur, views[i as int]) is None);
                        assert(self.resolve_path(cur, views.skip(i as int)) is None);
                        assert(self.resolve_path(from, views.take(i as int))->0 == cur);
                    }
                    let help = self.suggestions(cur, path[i].as_str());
                    return Err(Error::no_matching_partition(path[i].as_str(), help));
                },
            }
            i += 1;
        }
        proof {
            assert(views.skip(path@.len() as int) =~= Seq::<Seq<char>>::empty());
        }
        Ok(cur)
    }

    /// Walk the boundary chain for `segs` from `from`, creating missing
    /// boundaries after validating their names. Requesting a segment that
    /// already exists returns the existing node; the empty path returns
    /// `from` itself and changes nothing.
    pub fn get_or_create_boundary_path(&mut self, from: usize, segs: &Vec<String>) -> (r: Result<
        usize,
        Error,
    >)
        requires
            old(self).wf(),
            old(self).valid_id(from),
            old(self).node_at(from) is Boundary,
        ensures
            final (self).wf(),
            old(self).nodes@.is_prefix_of(final (self).nodes@),
            old(self).edges@.is_prefix_of(final (self).edges@),
            forall|j: int|
                old(self).nodes@.len() <= j < final (self).nodes@.len()
                    ==> final (self).nodes@[j] is Boundary,
            forall|k: int|
                old(self).edges@.len() <= k < final (self).edges@.len()
                    ==> ((#[trigger] final (self).edges@[k]).1 as int) >= old(self).nodes@.len(),
            forall|j: int|
                old(self).nodes@.len() <= j < final (self).nodes@.len()
                    ==> #[trigger] on_created_chain(*final (self), from, seq_views(segs@), j),
            final (self).root == old(self).root && final (self).shell == old(self).shell
                && final (self).plugins == old(self).plugins,
            segs@.len() == 0 ==> (r matches Ok(b) && b == from && *final (self) == *old(self)),
            old(self).resolve_path(from, seq_views(segs@)) is Some ==> (*final (self) == *old(self)
                && r == Ok::<usize, Error>(old(self).resolve_path(from, seq_views(segs@))->0)),
            r matches Ok(b) ==> final (self).valid_id(b) && final (self).node_at(b) is Boundary
                && final (self).resolve_path(from, seq_views(segs@)) == Some(b),
            (forall|k: int| 0 <= k < segs@.len() ==> valid_part_name(#[trigger] seq_views(segs@)[k]))
                ==> r is Ok,
            r matches Err(e) ==> exists|k: int|
                {
                    &&& 0 <= k < segs@.len()
                    &&& !valid_part_name(#[trigger] seq_views(segs@)[k])
                    &&& name_error_spec(e, seq_views(segs@)[k])
                    &&& forall|j: int|
                        0 <= j < k ==> valid_part_name(seq_views(segs@)[j]) || old(
                            self,
                        ).resolve_path(from, seq_views(segs@).take(j + 1)) is Some
                },
    {
        let ghost views = seq_views(segs@);
        let mut cur = from;
        let mut i: usize = 0;
        let ghost mut cs: Seq<usize> = seq![from];
        while i < segs.len()
            invariant
                old(self).wf(),
                (from as int) < old(self).nodes@.len(),
                self.wf(),
                self.valid_id(cur),
                self.node_at(cur) is Boundary,
                i <= segs@.len(),
                views == seq_views(segs@),
                views.len() == segs@.len(),
                cs.len() == i + 1,
                cs[0] == from,
                cs.last() == cur,
                forall|j: int| 0 <= j < i ==> #[trigger] chain_step_ok(*self, cs, views, j),
                old(self).nodes@.is_prefix_of(self.nodes@),
                old(self).edges@.is_prefix_of(self.edges@),
                forall|j: int|
                    old(self).nodes@.len() <= j < self.nodes@.len() ==> self.nodes@[j] is Boundary,
                forall|k: int|
                    old(self).edges@.len() <= k < self.edges@.len() ==> ((
                    #[trigger] self.edges@[k]).1 as int) >= old(self).nodes@.len(),
                forall|j: int|
                    old(self).nodes@.len() <= j < self.nodes@.len() ==> valid_part_name(
                        node_name(#[trigger] self.nodes@[j]),
                    ),
                forall|j: int|
                    old(self).nodes@.len() <= j < self.nodes@.len() ==> #[trigger] chain_member(
                        cs,
                        i as int,
                        j,
                    ),
                self.root == old(self).root && self.shell == old(self).shell && self.plugins == old(
                    self,
                ).plugins,
                i == 0 ==> *self == *old(self),
                old(self).resolve_path(from, views) is Some ==> *self == *old(self),
                forall|j: int|
                    0 <= j < i ==> valid_part_name(views[j]) || old(self).resolve_path(
                        from,
                        #[trigger] views.take(j + 1),
                    ) is Some,
            decreases segs@.len() - i,
        {
            let ghost prev = *self;
            match self.find_child_boundary(cur, segs[i].as_str()) {
                Some(c) => {
                    proof {
                        assert(chain_step_ok(*self, cs.push(c), views, i as int)) by {
                            assert(cs.push(c)[i as int] == cur);
                            assert(cs.push(c)[i as int + 1] == c);
                        }
                        assert forall|j: int| 0 <= j < i + 1 implies #[trigger] chain_step_ok(
                            *self,
                            cs.push(c),
                            views,
                            j,
                        ) by {
                            if j < i {
                                assert(chain_step_ok(*self, cs, views, j));
                                assert(cs.push(c)[j] == cs[j]);
                                assert(cs.push(c)[j + 1] == cs[j + 1]);
                            }
                        }
                        assert forall|j: int|
                            old(self).nodes@.len() <= j < self.nodes@.len() implies
                            #[trigger] chain_member(cs.push(c), i + 1, j) by {
                            assert(chain_member(cs, i as int, j));
                            let k = choose|k: int|
                                1 <= k <= i && ((#[trigger] cs[k]) as int) == j;
                            assert(cs.push(c)[k] == cs[k]);
                        }
                        cs = cs.push(c);
                        if (c as int) < old(self).nodes@.len() {
                            lemma_chain_prefix_resolve(*self, views, cs, i + 1);
                            lemma_prefix_extends(*old(self), *self);
                            lemma_resolve_restrict(
                                *old(self),
                                *self,
                                from,
                                views.take(i + 1),
                                c,
                            );
                        } else {
                            assert(valid_part_name(views[i as int]));
                        }
                    }
                    cur = c;
                },
                None => {
                    proof {
                        if old(self).resolve_path(from, views) is Some {
                            lemma_chain_prefix_resolve(*self, views, cs, i as int);
                            lemma_resolve_mid_step(*self, from, views, i as int, cur);
                            assert(false);
                        }
                    }
                    match is_valid_part_name(segs[i].as_str()) {
                        Ok(_) => {},
                        Err(e) => {
                            proof {
                                assert(!valid_part_name(views[i as int]));
                                assert forall|j: int|
                                    old(self).nodes@.len() <= j < self.nodes@.len() implies
                                    #[trigger] on_created_chain(
                                    *self,
                                    from,
                                    seq_views(segs@),
                                    j,
                                ) by {
                                    assert(chain_member(cs, i as int, j));
                                    let k = choose|k: int|
                                        1 <= k <= i && ((#[trigger] cs[k]) as int) == j;
                                    lemma_chain_prefix_resolve(*self, views, cs, k);
                                    assert(self.resolve_path(from, seq_views(segs@).take(k))
                                        == Some(j as usize));
                                }
                            }
                            return Err(e);
                        },
                    }
                    let node = Node::Boundary {
                        name: String::from_str(segs[i].as_str()),
                        exports: Vec::new(),
                    };
                    proof {
                        assert(!prev.has_matching_child(cur, node)) by {
                            if prev.has_matching_child(cur, node) {
                                let w = choose|w: usize|
                                    #[trigger] prev.is_edge(cur, w) && prev.valid_id(w)
                                        && same_kind(prev.node_at(w), node) && node_name(
                                        prev.node_at(w),
                                    ) == node_name(node);
                                assert(prev.has_boundary_child_named(cur, views[i as int]));
                            }
                        }
                    }
                    let ghost prev_g = *self;
                    let c = self.push_node(cur, node);
                    proof {
                        assert forall|j: int|
                            old(self).nodes@.len() <= j < self.nodes@.len() implies
                            #[trigger] chain_member(cs.push(c), i + 1, j) by {
                            if j < prev_g.nodes@.len() {
                                assert(chain_member(cs, i as int, j));
                                let k = choose|k: int|
                                    1 <= k <= i && ((#[trigger] cs[k]) as int) == j;
                                assert(cs.push(c)[k] == cs[k]);
                            } else {
                                assert(j == c as int);
                                assert(cs.push(c)[i + 1] == c);
                            }
                        }
                        assert forall|j: int| 0 <= j < i + 1 implies #[trigger] chain_step_ok(
                            *self,
                            cs.push(c),
                            views,
                            j,
                        ) by {
                            if j < i {
                                assert(chain_step_ok(prev, cs, views, j));
                                assert(cs.push(c)[j] == cs[j]);
                                assert(cs.push(c)[j + 1] == cs[j + 1]);
                                assert(prev.is_edge(cs[j], cs[j + 1]));
                                let t = choose|t: int|
                                    0 <= t < prev.edges@.len() && #[trigger] prev.edges@[t] == (
                                    cs[j],
                                    cs[j + 1],
                                );
                                assert(self.edges@[t] == (cs[j], cs[j + 1]));
                                assert(self.is_edge(cs[j], cs[j + 1]));
                                assert((cs[j + 1] as int) < prev.nodes@.len());
                                assert(self.nodes@[cs[j + 1] as int] == prev.nodes@[cs[j
                                    + 1] as int]);
                            } else {
                                assert(cs.push(c)[i as int] == cur);
                                assert(cs.push(c)[i as int + 1] == c);
                                assert(self.edges@.last() == (cur, c));
                                assert(self.edges@[self.edges@.len() - 1] == (cur, c));
                                assert(self.is_edge(cur, c));
                                assert(self.node_at(c) == node);
                            }
                        }
                        cs = cs.push(c);
                        assert(old(self).nodes@.is_prefix_of(self.nodes@));
                        assert(old(self).edges@.is_prefix_of(self.edges@));
                    }
                    cur = c;
                },
            }
            i += 1;
        }
        proof {
            assert(views.take(views.len() as int) =~= views);
            lemma_chain_resolve(*self, views, cs);
            assert forall|j: int|
                old(self).nodes@.len() <= j < self.nodes@.len() implies
                #[trigger] on_created_chain(*self, from, seq_views(segs@), j) by {
                assert(chain_member(cs, i as int, j));
                let k = choose|k: int| 1 <= k <= i && ((#[trigger] cs[k]) as int) == j;
                lemma_chain_prefix_resolve(*self, views, cs, k);
                assert(self.resolve_path(from, seq_views(segs@).take(k)) == Some(j as usize));
            }
        }
        Ok(cur)
    }
}


/// The first non-boundary child of `b` named `name`, scanning the edges in
/// insertion order; `None` when no non-boundary child of `b` has the name.
/// Where a type and an impl under one boundary share the name, the
/// earlier-inserted of the two is chosen, deliberately: the tie is left
/// open upstream, and insertion order is the stable choice here.
pub open spec fn first_export_match(
    nodes: Seq<Node>,
    edges: Seq<(usize, usize)>,
    b: usize,
    name: Seq<char>,
) -> Option<usize>
    decreases edges.len(),
{
    if edges.len() == 0 {
        None
    } else {
        let e = edges[0];
        if e.0 == b && (e.1 as int) < nodes.len() && !(nodes[e.1 as int] is Boundary) && node_name(
            nodes[e.1 as int],
        ) == name {
            Some(e.1)
        } else {
            first_export_match(nodes, edges.drop_first(), b, name)
        }
    }
}

/// What a found export match is: a non-boundary child of `b` carrying the
/// export's name.
proof fn lemma_export_match_props(
    nodes: Seq<Node>,
    edges: Seq<(usize, usize)>,
    b: usize,
    name: Seq<char>,
)
    ensures
        first_export_match(nodes, edges, b, name) matches Some(c) ==> exists|t: int|
            0 <= t < edges.len() && #[trigger] edges[t] == (b, c) && (c as int) < nodes.len() && !(
            nodes[c as int] is Boundary) && node_name(nodes[c as int]) == name,
    decreases edges.len(),
{
    if edges.len() == 0 {
    } else {
        let e = edges[0];
        if e.0 == b && (e.1 as int) < nodes.len() && !(nodes[e.1 as int] is Boundary) && node_name(
            nodes[e.1 as int],
        ) == name {
            assert(edges[0] == (b, e.1));
        } else {
            lemma_export_match_props(nodes, edges.drop_first(), b, name);
            let r = first_export_match(nodes, edges, b, name);
            if r is Some {
                let c = r->0;
                let t = choose|t: int|
                    0 <= t < edges.drop_first().len() && #[trigger] edges.drop_first()[t] == (b, c)
                        && (c as int) < nodes.len() && !(nodes[c as int] is Boundary) && node_name(
                        nodes[c as int],
                    ) == name;
                assert(edges[t + 1] == (b, c));
            }
        }
    }
}

/// The children of `p` whose names match the glob pattern `pat`, in edge
/// insertion order.
pub open spec fn glob_matching_children(
    nodes: Seq<Node>,
    edges: Seq<(usize, usize)>,
    p: usize,
    pat: Seq<char>,
) -> Seq<usize>
    decreases edges.len(),
{
    if edges.len() == 0 {
        Seq::empty()
    } else {
        let rest = glob_matching_children(nodes, edges.drop_last(), p, pat);
        let e = edges.last();
        if e.0 == p && (e.1 as int) < nodes.len() && glob_matches(pat, node_name(nodes[e.1 as int])) {
            rest.push(e.1)
        } else {
            rest
        }
    }
}

/// Membership in the glob result: exactly the children of `p` in the arena
/// whose names the pattern matches.
proof fn lemma_glob_membership(
    nodes: Seq<Node>,
    edges: Seq<(usize, usize)>,
    p: usize,
    pat: Seq<char>,
    c: usize,
)
    ensures
        glob_matching_children(nodes, edges, p, pat).contains(c) <==> exists|t: int|
            0 <= t < edges.len() && #[trigger] edges[t] == (p, c) && (c as int) < nodes.len()
                && glob_matches(pat, node_name(nodes[c as int])),
    decreases edges.len(),
{
    if edges.len() == 0 {
    } else {
        let dl = edges.drop_last();
        lemma_glob_membership(nodes, dl, p, pat, c);
        let rest = glob_matching_children(nodes, dl, p, pat);
        let e = edges.last();
        let whole = glob_matching_children(nodes, edges, p, pat);
        if rest.contains(c) {
            let k = choose|k: int| 0 <= k < rest.len() && rest[k] == c;
            assert(whole[k] == c);
            assert(whole.contains(c));
            let t = choose|t: int|
                0 <= t < dl.len() && #[trigger] dl[t] == (p, c) && (c as int) < nodes.len()
                    && glob_matches(pat, node_name(nodes[c as int]));
            assert(edges[t] == (p, c));
        }
        if e.0 == p && (e.1 as int) < nodes.len() && glob_matches(pat, node_name(nodes[e.1 as int])) {
            assert(whole == rest.push(e.1));
            assert(whole.last() == e.1);
            assert(whole.contains(e.1)) by {
                assert(whole[whole.len() - 1] == e.1);
            }
            assert(edges[edges.len() - 1] == (p, e.1));
        }
        if whole.contains(c) {
            let k = choose|k: int| 0 <= k < whole.len() && whole[k] == c;
            if k < rest.len() {
                assert(rest[k] == c);
                assert(rest.contains(c));
            } else {
                assert(c == e.1);
            }
        }
        if exists|t: int|
            0 <= t < edges.len() && #[trigger] edges[t] == (p, c) && (c as int) < nodes.len()
                && glob_matches(pat, node_name(nodes[c as int])) {
            let t = choose|t: int|
                0 <= t < edges.len() && #[trigger] edges[t] == (p, c) && (c as int) < nodes.len()
                    && glob_matches(pat, node_name(nodes[c as int]));
            if t < edges.len() - 1 {
                assert(dl[t] == (p, c));
                assert(rest.contains(c));
                let k = choose|k: int| 0 <= k < rest.len() && rest[k] == c;
                assert(whole[k] == c);
            } else {
                assert(e == (p, c));
            }
        }
    }
}

/// Insert `x` into a strictly sorted identifier list, keeping it sorted and
/// deduplicated.
fn insert_sorted_unique(v: &mut Vec<usize>, x: usize)
    requires
        strictly_sorted(old(v)@),
    ensures
        strictly_sorted(final (v)@),
        forall|y: usize| final (v)@.contains(y) <==> (old(v)@.contains(y) || y == x),
{
    let mut k: usize = 0;
    while k < v.len() && v[k] < x
        invariant
            strictly_sorted(v@),
            v@ == old(v)@,
            k <= v@.len(),
            forall|j: int| 0 <= j < k ==> v@[j] < x,
        decreases v@.len() - k,
    {
        k += 1;
    }
    if k < v.len() && v[k] == x {
        proof {
            assert(v@.contains(x)) by {
                assert(v@[k as int] == x);
            }
        }
        return ;
    }
    let ghost pre = v@;
    v.insert(k, x);
    proof {
        pre.insert_ensures(k as int, x);
        assert(strictly_sorted(v@)) by {
            assert forall|i: int, j: int| 0 <= i < j < v@.len() implies v@[i] < v@[j] by {
                if (k as int) < pre.len() {
                    assert(pre[k as int] > x);
                }
                if j < k {
                    assert(v@[i] == pre[i] && v@[j] == pre[j]);
                } else if j == k {
                    assert(v@[i] == pre[i] && v@[j] == x);
                    assert(pre[i] < x);
                } else {
                    assert(v@[j] == pre[j - 1]);
                    if i < k {
                        assert(v@[i] == pre[i]);
                        assert(pre[i] < pre[j - 1]);
                    } else if i == k {
                        assert(v@[i] == x);
                        if j - 1 > k {
                            assert(pre[k as int] < pre[j - 1]);
                        }
                    } else {
                        assert(v@[i] == pre[i - 1] && v@[j] == pre[j - 1]);
                    }
                }
            }
        }
        assert forall|y: usize| v@.contains(y) <==> (pre.contains(y) || y == x) by {
            if v@.contains(y) {
                let t = choose|t: int| 0 <= t < v@.len() && v@[t] == y;
                if t < k {
                    assert(pre[t] == y);
                    assert(pre.contains(y));
                } else if t == k {
                    assert(y == x);
                } else {
                    assert(pre[t - 1] == y);
                    assert(pre.contains(y));
                }
            }
            if pre.contains(y) {
                let t = choose|t: int| 0 <= t < pre.len() && pre[t] == y;
                if t < k {
                    assert(v@[t] == y);
                } else {
                    assert(v@[t + 1] == y);
                }
                assert(v@.contains(y));
            }
            if y == x {
                assert(v@[k as int] == x);
                assert(v@.contains(y));
            }
        }
    }
}

impl Partitions {
    /// The first non-boundary child of `boundary` named `name`, if any.
    fn find_export_item(&self, boundary: usize, name: &str) -> (r: Option<usize>)
        requires
            self.edges_wf(),
        ensures
            r == first_export_match(self.nodes@, self.edges@, boundary, name@),
    {
        let mut k: usize = 0;
        proof {
            assert(self.edges@.skip(0) =~= self.edges@);
        }
        while k < self.edges.len()
            invariant
                self.edges_wf(),
                k <= self.edges@.len(),
                first_export_match(self.nodes@, self.edges@, boundary, name@)
                    == first_export_match(
                    self.nodes@,
                    self.edges@.skip(k as int),
                    boundary,
                    name@,
                ),
            decreases self.edges@.len() - k,
        {
            proof {
                lemma_seq_skip_step(self.edges@, k as int);
            }
            let e = self.edges[k];
            if e.0 == boundary {
                assert(edge_ok(self.nodes@, self.edges@[k as int]));
                let nd = &self.nodes[e.1];
                if !nd.is_boundary() {
                    let found = match nd {
                        Node::Type { name: n, .. } => crate::strutil::str_eq(n.as_str(), name),
                        Node::Impl { name: n, .. } => crate::strutil::str_eq(n.as_str(), name),
                        Node::Boundary { .. } => false,
                    };
                    if found {
                        return Some(e.1);
                    }
                }
            }
            k += 1;
        }
        proof {
            assert(self.edges@.skip(self.edges@.len() as int) =~= Seq::<(usize, usize)>::empty());
        }
        None
    }

    /// Find the children of `parent` whose names match the glob `pattern`.
    /// Zero matches is not an error; an empty or malformed pattern is a
    /// fatal parse error. Export status does not filter the matches: the
    /// export lists are queryable metadata only.
    pub fn glob_find(&self, parent: usize, pattern: &str) -> (r: Result<Vec<usize>, Error>)
        requires
            self.wf(),
            self.valid_id(parent),
        ensures
            (r is Ok) <==> (0 < pattern@.len() <= MAX_GLOB_LEN && glob_valid(pattern@)),
            r matches Ok(v) ==> v@ == glob_matching_children(
                self.nodes@,
                self.edges@,
                parent,
                pattern@,
            ),
            r matches Err(e) ==> e.cat == Category::Parsing && e.hard && e.desc@
                == invalid_glob_desc() && e.help_msg is None,
    {
        let plen = pattern.unicode_len();
        if plen == 0 || plen > MAX_GLOB_LEN {
            return Err(Error::invalid_glob());
        }
        if !glob_syntax_ok(pattern) {
            return Err(Error::invalid_glob());
        }
        let mut v: Vec<usize> = Vec::new();
        let mut k: usize = 0;
        proof {
            assert(self.edges@.take(0) =~= Seq::<(usize, usize)>::empty());
        }
        while k < self.edges.len()
            invariant
                self.wf(),
                glob_valid(pattern@),
                pattern@.len() <= MAX_GLOB_LEN,
                k <= self.edges@.len(),
                v@ == glob_matching_children(
                    self.nodes@,
                    self.edges@.take(k as int),
                    parent,
                    pattern@,
                ),
            decreases self.edges@.len() - k,
        {
            proof {
                assert(self.edges@.take(k + 1).drop_last() =~= self.edges@.take(k as int));
                assert(self.edges@.take(k + 1).last() == self.edges@[k as int]);
            }
            let e = self.edges[k];
            if e.0 == parent {
                assert(edge_ok(self.nodes@, self.edges@[k as int]));
                if glob_match_name(pattern, self.nodes[e.1].name().as_str()) {
                    v.push(e.1);
                }
            }
            k += 1;
        }
        proof {
            assert(self.edges@.take(self.edges@.len() as int) =~= self.edges@);
        }
        Ok(v)
    }

    /// Resolve the export names buffered for `boundary` against its direct
    /// non-boundary children and store the sorted, deduplicated identifier
    /// set as the boundary's export list, replacing any prior list. An
    /// unresolved name is a fatal error naming the export; the graph is
    /// then unchanged.
    pub fn add_exports(&mut self, boundary: usize, names: &Vec<String>) -> (r: Result<(), Error>)
        requires
            old(self).wf(),
            old(self).valid_id(boundary),
            old(self).node_at(boundary) is Boundary,
        ensures
            final (self).wf(),
            final (self).edges@ == old(self).edges@,
            final (self).nodes@.len() == old(self).nodes@.len(),
            final (self).root == old(self).root && final (self).shell == old(self).shell
                && final (self).plugins == old(self).plugins,
            forall|j: int|
                0 <= j < old(self).nodes@.len() && j != boundary ==> final (self).nodes@[j] == old(
                    self,
                ).nodes@[j],
            final (self).node_at(boundary) is Boundary && node_name(final (self).node_at(boundary))
                == node_name(old(self).node_at(boundary)),
            match r {
                Ok(_) => {
                    &&& forall|k: int|
                        0 <= k < names@.len() ==> first_export_match(
                            old(self).nodes@,
                            old(self).edges@,
                            boundary,
                            (#[trigger] names@[k])@,
                        ) is Some
                    &&& strictly_sorted(node_links(final (self).node_at(boundary)))
                    &&& forall|c: usize|
                        node_links(final (self).node_at(boundary)).contains(c) <==> exists|k: int|
                            0 <= k < names@.len() && first_export_match(
                                old(self).nodes@,
                                old(self).edges@,
                                boundary,
                                (#[trigger] names@[k])@,
                            ) == Some(c)
                },
                Err(e) => {
                    &&& *final (self) == *old(self)
                    &&& exists|k: int|
                        0 <= k < names@.len() && first_export_match(
                            old(self).nodes@,
                            old(self).edges@,
                            boundary,
                            (#[trigger] names@[k])@,
                        ) is None && e.desc@ == export_not_found_desc(names@[k]@)
                    &&& e.cat == Category::Definitions
                    &&& e.help_msg is None
                    &&& !e.hard
                },
            },
    {
        let mut xs: Vec<usize> = Vec::new();
        let mut k: usize = 0;
        while k < names.len()
            invariant
                self.wf(),
                *self == *old(self),
                self.valid_id(boundary),
                self.node_at(boundary) is Boundary,
                k <= names@.len(),
                strictly_sorted(xs@),
                forall|j: int|
                    0 <= j < k ==> first_export_match(
                        self.nodes@,
                        self.edges@,
                        boundary,
                        (#[trigger] names@[j])@,
                    ) is Some,
                forall|c: usize|
                    xs@.contains(c) <==> exists|j: int|
                        0 <= j < k && first_export_match(
                            self.nodes@,
                            self.edges@,
                            boundary,
                            (#[trigger] names@[j])@,
                        ) == Some(c),
            decreases names@.len() - k,
        {
            let ghost prev_xs = xs@;
            match self.find_export_item(boundary, names[k].as_str()) {
                Some(c) => {
                    insert_sorted_unique(&mut xs, c);
                    proof {
                        assert forall|y: usize| xs@.contains(y) implies exists|j: int|
                            0 <= j < k + 1 && first_export_match(
                                self.nodes@,
                                self.edges@,
                                boundary,
                                (#[trigger] names@[j])@,
                            ) == Some(y) by {
                            if prev_xs.contains(y) {
                                let j = choose|j: int|
                                    0 <= j < k && first_export_match(
                                        self.nodes@,
                                        self.edges@,
                                        boundary,
                                        (#[trigger] names@[j])@,
                                    ) == Some(y);
                                assert(0 <= j < k + 1 && first_export_match(
                                    self.nodes@,
                                    self.edges@,
                                    boundary,
                                    names@[j]@,
                                ) == Some(y));
                            } else {
                                assert(y == c);
                                assert(first_export_match(
                                    self.nodes@,
                                    self.edges@,
                                    boundary,
                                    names@[k as int]@,
                                ) == Some(y));
                            }
                        }
                        assert forall|j: int|
                            0 <= j < k + 1 && first_export_match(
                                self.nodes@,
                                self.edges@,
                                boundary,
                                (#[trigger] names@[j])@,
                            ) is Some implies xs@.contains(
                            first_export_match(self.nodes@, self.edges@, boundary, names@[j]@)->0,
                        ) by {
                            if j < k {
                                assert(prev_xs.contains(
                                    first_export_match(
                                        self.nodes@,
                                        self.edges@,
                                        boundary,
                                        names@[j]@,
                                    )->0,
                                ));
                            }
                        }
                    }
                },
                None => {
                    return Err(Error::export_not_found(names[k].as_str()));
                },
            }
            k += 1;
        }
        let name = self.nodes[boundary].name().clone();
        let ghost prev = *self;
        let node = Node::Boundary { name, exports: xs };
        self.nodes.set(boundary, node);
        proof {
            assert(node_name(self.node_at(boundary)) == node_name(prev.node_at(boundary)));
            assert(self.edges_wf()) by {
                assert forall|t: int| 0 <= t < self.edges@.len() implies edge_ok(
                    self.nodes@,
                    #[trigger] self.edges@[t],
                ) by {
                    assert(edge_ok(prev.nodes@, prev.edges@[t]));
                    assert(same_kind(self.nodes@[self.edges@[t].0 as int], prev.nodes@[self.edges@[t].0 as int]));
                }
            }
            assert(self.siblings_unique()) by {
                assert forall|i: int, j: int|
                    0 <= i < self.edges@.len() && 0 <= j < self.edges@.len() && i != j && (
                    #[trigger] self.edges@[i]).0 == (#[trigger] self.edges@[j]).0 implies !(
                same_kind(
                    self.nodes@[self.edges@[i].1 as int],
                    self.nodes@[self.edges@[j].1 as int],
                ) && node_name(self.nodes@[self.edges@[i].1 as int]) == node_name(
                    self.nodes@[self.edges@[j].1 as int],
                )) by {
                    assert(edge_ok(prev.nodes@, prev.edges@[i]));
                    assert(edge_ok(prev.nodes@, prev.edges@[j]));
                    assert(same_kind(self.nodes@[self.edges@[i].1 as int], prev.nodes@[self.edges@[i].1 as int]));
                    assert(node_name(self.nodes@[self.edges@[i].1 as int]) == node_name(prev.nodes@[self.edges@[i].1 as int]));
                    assert(same_kind(self.nodes@[self.edges@[j].1 as int], prev.nodes@[self.edges@[j].1 as int]));
                    assert(node_name(self.nodes@[self.edges@[j].1 as int]) == node_name(prev.nodes@[self.edges@[j].1 as int]));
                }
            }
            assert(self.links_wf()) by {
                assert forall|m: usize| (m as int) < self.nodes@.len() implies #[trigger] self.links_ok(
                    m,
                ) by {
                    assert(prev.links_ok(m));
                    if m == boundary {
                        assert(node_links(self.nodes@[m as int]) == xs@);
                        assert forall|t: int| 0 <= t < xs@.len() implies self.is_edge(
                            m,
                            #[trigger] xs@[t],
                        ) && !(self.nodes@[xs@[t] as int] is Boundary) && ((xs@[t] as int)
                            < self.nodes@.len()) by {
                            assert(xs@.contains(xs@[t]));
                            let j = choose|j: int|
                                0 <= j < names@.len() && first_export_match(
                                    prev.nodes@,
                                    prev.edges@,
                                    boundary,
                                    (#[trigger] names@[j])@,
                                ) == Some(xs@[t]);
                            lemma_export_match_props(prev.nodes@, prev.edges@, boundary, names@[j]@);
                            let u = choose|u: int|
                                0 <= u < prev.edges@.len() && #[trigger] prev.edges@[u] == (
                                boundary,
                                xs@[t],
                                ) && ((xs@[t] as int) < prev.nodes@.len()) && !(prev.nodes@[xs@[t] as int] is Boundary)
                                    && node_name(prev.nodes@[xs@[t] as int]) == names@[j]@;
                            assert(self.edges@[u] == (m, xs@[t]));
                            assert(xs@[t] != boundary);
                        }
                    } else {
                        assert(self.nodes@[m as int] == prev.nodes@[m as int]);
                        let ls = node_links(self.nodes@[m as int]);
                        if self.nodes@[m as int] is Boundary {
                            assert forall|t: int| 0 <= t < ls.len() implies self.is_edge(
                                m,
                                #[trigger] ls[t],
                            ) && !(self.nodes@[ls[t] as int] is Boundary) by {
                                assert(prev.is_edge(m, ls[t]));
                                let u = choose|u: int|
                                    0 <= u < prev.edges@.len() && #[trigger] prev.edges@[u] == (
                                    m,
                                    ls[t],
                                    );
                                assert(self.edges@[u] == (m, ls[t]));
                                assert((ls[t] as int) < prev.nodes@.len());
                                if (ls[t] as int) == boundary {
                                    assert(prev.nodes@[ls[t] as int] is Boundary);
                                    assert(!(prev.nodes@[ls[t] as int] is Boundary));
                                }
                                assert(self.nodes@[ls[t] as int] == prev.nodes@[ls[t] as int]);
                            }
                        }
                    }
                }
            }
        }
        Ok(())
    }
}


/// Whether a single import directive entry resolves: its path reaches a
/// boundary and its glob pattern is non-empty and well formed.
pub open spec fn import_ok(g: Partitions, from: usize, im: Import) -> bool {
    &&& g.resolve_path(from, import_path_views(im)) is Some
    &&& 0 < im.glob@.len() <= MAX_GLOB_LEN
    &&& glob_valid(im.glob@)
}

/// Whether node `c` is one of the matches of an import directive entry:
/// a child of the boundary the path resolves to, with a name the glob
/// matches.
pub open spec fn import_matches(g: Partitions, from: usize, im: Import, c: usize) -> bool {
    match g.resolve_path(from, import_path_views(im)) {
        Some(b) => g.is_edge(b, c) && g.valid_id(c) && glob_matches(
            im.glob@,
            node_name(g.node_at(c)),
        ),
        None => false,
    }
}

/// Copy an identifier list.
fn clone_ids(v: &Vec<usize>) -> (r: Vec<usize>)
    ensures
        r@ == v@,
{
    let mut r: Vec<usize> = Vec::new();
    let mut i: usize = 0;
    while i < v.len()
        invariant
            i <= v@.len(),
            r@ == v@.take(i as int),
        decreases v@.len() - i,
    {
        proof {
            assert(v@.take(i + 1) =~= v@.take(i as int).push(v@[i as int]));
        }
        r.push(v[i]);
        i += 1;
    }
    proof {
        assert(v@.take(v@.len() as int) =~= v@);
    }
    r
}

impl Partitions {
    /// Resolve every import of one file to a concrete identifier set, union
    /// and dedupe them, and attach the resulting list to every non-boundary
    /// node in `to` (the type/impl nodes the file declared). A failing
    /// import is a fatal error and leaves the graph unchanged.
    pub fn add_imports(&mut self, boundary: usize, imports: &Vec<Import>, to: &Vec<usize>) -> (r:
        Result<(), Error>)
        requires
            old(self).wf(),
            old(self).valid_id(boundary),
            forall|t: int| 0 <= t < to@.len() ==> old(self).valid_id(#[trigger] to@[t]),
        ensures
            final (self).wf(),
            final (self).edges@ == old(self).edges@,
            final (self).nodes@.len() == old(self).nodes@.len(),
            final (self).root == old(self).root && final (self).shell == old(self).shell
                && final (self).plugins == old(self).plugins,
            forall|j: int|
                0 <= j < final (self).nodes@.len() && !to@.contains(j as usize)
                    ==> final (self).nodes@[j] == old(self).nodes@[j],
            forall|j: int|
                0 <= j < final (self).nodes@.len() ==> same_kind(
                    #[trigger] final (self).nodes@[j],
                    old(self).nodes@[j],
                ) && node_name(final (self).nodes@[j]) == node_name(old(self).nodes@[j]),
            imports@.len() == 0 ==> (r is Ok && *final (self) == *old(self)),
            match r {
                Ok(_) => {
                    &&& forall|k: int|
                        0 <= k < imports@.len() ==> import_ok(
                            *old(self),
                            boundary,
                            #[trigger] imports@[k],
                        )
                    &&& imports@.len() > 0 ==> forall|t: int|
                        0 <= t < to@.len() && !(old(self).nodes@[(#[trigger] to@[t]) as int]
                            is Boundary) ==> {
                            let ls = node_links(final (self).nodes@[to@[t] as int]);
                            &&& strictly_sorted(ls)
                            &&& forall|c: usize|
                                ls.contains(c) <==> exists|k: int|
                                    0 <= k < imports@.len() && import_matches(
                                        *old(self),
                                        boundary,
                                        #[trigger] imports@[k],
                                        c,
                                    )
                        }
                    &&& forall|t: int|
                        0 <= t < to@.len() && old(self).nodes@[(#[trigger] to@[t]) as int]
                            is Boundary ==> final (self).nodes@[to@[t] as int] == old(
                            self,
                        ).nodes@[to@[t] as int]
                },
                Err(e) => {
                    &&& *final (self) == *old(self)
                    &&& exists|k: int|
                        0 <= k < imports@.len() && !import_ok(
                            *old(self),
                            boundary,
                            #[trigger] imports@[k],
                        )
                    &&& e.hard
                },
            },
    {
        if imports.len() == 0 {
            return Ok(());
        }
        let mut xs: Vec<usize> = Vec::new();
        let mut k: usize = 0;
        while k < imports.len()
            invariant
                self.wf(),
                *self == *old(self),
                self.valid_id(boundary),
                forall|t: int| 0 <= t < to@.len() ==> self.valid_id(#[trigger] to@[t]),
                k <= imports@.len(),
                strictly_sorted(xs@),
                forall|u: int| 0 <= u < xs@.len() ==> ((#[trigger] xs@[u]) as int) < self.nodes@.len(),
                forall|j: int|
                    0 <= j < k ==> import_ok(*self, boundary, #[trigger] imports@[j]),
                forall|c: usize|
                    xs@.contains(c) <==> exists|j: int|
                        0 <= j < k && import_matches(*self, boundary, #[trigger] imports@[j], c),
            decreases imports@.len() - k,
        {
            let im = &imports[k];
            let b = match self.find_boundary(boundary, &im.path) {
                Ok(b) => b,
                Err(e) => {
                    proof {
                        assert(!import_ok(*self, boundary, imports@[k as int]));
                    }
                    return Err(e);
                },
            };
            let ms = match self.glob_find(b, im.glob.as_str()) {
                Ok(v) => v,
                Err(e) => {
                    proof {
                        assert(!import_ok(*self, boundary, imports@[k as int]));
                    }
                    return Err(e);
                },
            };
            let ghost base_xs = xs@;
            let mut t: usize = 0;
            proof {
                assert(ms@.take(0) =~= Seq::<usize>::empty());
            }
            while t < ms.len()
                invariant
                    self.wf(),
                    *self == *old(self),
                    t <= ms@.len(),
                    strictly_sorted(xs@),
                    ms@ == glob_matching_children(self.nodes@, self.edges@, b, im.glob@),
                    forall|c: usize|
                        xs@.contains(c) <==> (base_xs.contains(c) || ms@.take(t as int).contains(
                            c,
                        )),
                decreases ms@.len() - t,
            {
                let ghost prev_xs = xs@;
                proof {
                    assert(forall|c: usize|
                        #[trigger] prev_xs.contains(c) <==> (base_xs.contains(c) || ms@.take(
                            t as int,
                        ).contains(c)));
                }
                insert_sorted_unique(&mut xs, ms[t]);
                proof {
                    assert(ms@.take(t + 1) =~= ms@.take(t as int).push(ms@[t as int]));
                    assert forall|c: usize|
                        xs@.contains(c) <==> (base_xs.contains(c) || ms@.take(t + 1).contains(
                            c,
                        )) by {
                        assert(xs@.contains(c) <==> (prev_xs.contains(c) || c == ms@[t as int]));
                        assert(prev_xs.contains(c) <==> (base_xs.contains(c) || ms@.take(
                            t as int,
                        ).contains(c)));
                        if ms@.take(t + 1).contains(c) {
                            let u = choose|u: int|
                                0 <= u < ms@.take(t + 1).len() && #[trigger] ms@.take(t + 1)[u]
                                    == c;
                            if u < t {
                                assert(ms@.take(t as int)[u] == c);
                                assert(ms@.take(t as int).contains(c));
                            } else {
                                assert(c == ms@[t as int]);
                            }
                        }
                        if ms@.take(t as int).contains(c) {
                            let u = choose|u: int|
                                0 <= u < ms@.take(t as int).len() && #[trigger] ms@.take(
                                    t as int,
                                )[u] == c;
                            assert(ms@.take(t + 1)[u] == c);
                            assert(ms@.take(t + 1).contains(c));
                        }
                        if c == ms@[t as int] {
                            assert(ms@.take(t + 1)[t as int] == c);
                            assert(ms@.take(t + 1).contains(c));
                        }
                    }
                }
                t += 1;
            }
            proof {
                assert(ms@.take(ms@.len() as int) =~= ms@);
                assert forall|c: usize|
                    xs@.contains(c) <==> exists|j: int|
                        0 <= j < k + 1 && import_matches(
                            *self,
                            boundary,
                            #[trigger] imports@[j],
                            c,
                        ) by {
                    assert(xs@.contains(c) <==> (base_xs.contains(c) || ms@.take(
                        ms@.len() as int,
                    ).contains(c)));
                    assert(base_xs.contains(c) <==> exists|j: int|
                        0 <= j < k && import_matches(*self, boundary, #[trigger] imports@[j], c));
                    lemma_glob_membership(self.nodes@, self.edges@, b, im.glob@, c);
                    assert(self.resolve_path(boundary, import_path_views(imports@[k as int]))
                        == Some(b));
                    assert(ms@.contains(c) == import_matches(
                        *self,
                        boundary,
                        imports@[k as int],
                        c,
                    ));
                    if xs@.contains(c) {
                        if base_xs.contains(c) {
                            let j = choose|j: int|
                                0 <= j < k && import_matches(
                                    *self,
                                    boundary,
                                    #[trigger] imports@[j],
                                    c,
                                );
                            assert(import_matches(*self, boundary, imports@[j], c));
                        }
                    }
                    if exists|j: int|
                        0 <= j < k + 1 && import_matches(
                            *self,
                            boundary,
                            #[trigger] imports@[j],
                            c,
                        ) {
                        let j = choose|j: int|
                            0 <= j < k + 1 && import_matches(
                                *self,
                                boundary,
                                #[trigger] imports@[j],
                                c,
                            );
                        if j < k {
                            assert(base_xs.contains(c));
                        } else {
                            assert(ms@.contains(c));
                        }
                    }
                }
                assert forall|u: int|
                    0 <= u < xs@.len() implies ((#[trigger] xs@[u]) as int)
                    < self.nodes@.len() by {
                    assert(xs@.contains(xs@[u]));
                }
            }
            k += 1;
        }
        let ghost resolved = *self;
        let ghost base = *old(self);
        let mut t: usize = 0;
        while t < to.len()
            invariant
                self.wf(),
                base == *old(self),
                t <= to@.len(),
                self.edges@ == base.edges@,
                self.nodes@.len() == base.nodes@.len(),
                self.root == base.root && self.shell == base.shell && self.plugins == base.plugins,
                forall|t2: int| 0 <= t2 < to@.len() ==> self.valid_id(#[trigger] to@[t2]),
                strictly_sorted(xs@),
                forall|u: int| 0 <= u < xs@.len() ==> ((#[trigger] xs@[u]) as int) < self.nodes@.len(),
                forall|k2: int|
                    0 <= k2 < imports@.len() ==> import_ok(base, boundary, #[trigger] imports@[k2]),
                forall|c: usize|
                    xs@.contains(c) <==> exists|j: int|
                        0 <= j < imports@.len() && import_matches(
                            base,
                            boundary,
                            #[trigger] imports@[j],
                            c,
                        ),
                forall|j: int|
                    0 <= j < self.nodes@.len() && !to@.contains(j as usize) ==> self.nodes@[j]
                        == base.nodes@[j],
                forall|j: int|
                    0 <= j < self.nodes@.len() ==> same_kind(#[trigger] self.nodes@[j], base.nodes@[j])
                        && node_name(self.nodes@[j]) == node_name(base.nodes@[j]),
                forall|j: int|
                    0 <= j < self.nodes@.len() && base.nodes@[j] is Boundary ==> self.nodes@[j]
                        == base.nodes@[j],
                forall|u: int|
                    0 <= u < t && !(base.nodes@[(#[trigger] to@[u]) as int] is Boundary) ==> {
                        let ls = node_links(self.nodes@[to@[u] as int]);
                        &&& ls == xs@
                    },
                forall|u: int|
                    0 <= u < t && base.nodes@[(#[trigger] to@[u]) as int] is Boundary
                        ==> self.nodes@[to@[u] as int] == base.nodes@[to@[u] as int],
            decreases to@.len() - t,
        {
            let id = to[t];
            let ghost prev = *self;
            let is_b = self.nodes[id].is_boundary();
            if !is_b {
                let name = self.nodes[id].name().clone();
                let is_t = self.nodes[id].is_type();
                let newnode = if is_t {
                    Node::Type { name, imports: clone_ids(&xs) }
                } else {
                    Node::Impl { name, imports: clone_ids(&xs) }
                };
                self.nodes.set(id, newnode);
                proof {
                    assert(same_kind(self.nodes@[id as int], prev.nodes@[id as int]));
                    assert(node_name(self.nodes@[id as int]) == node_name(prev.nodes@[id as int]));
                    assert(node_links(self.nodes@[id as int]) == xs@);
                    assert(self.edges_wf()) by {
                        assert forall|w: int| 0 <= w < self.edges@.len() implies edge_ok(
                            self.nodes@,
                            #[trigger] self.edges@[w],
                        ) by {
                            assert(edge_ok(prev.nodes@, prev.edges@[w]));
                            assert(same_kind(
                                self.nodes@[self.edges@[w].0 as int],
                                prev.nodes@[self.edges@[w].0 as int],
                            ));
                        }
                    }
                    assert(self.siblings_unique()) by {
                        assert forall|i: int, j: int|
                            0 <= i < self.edges@.len() && 0 <= j < self.edges@.len() && i != j && (
                            #[trigger] self.edges@[i]).0 == (#[trigger] self.edges@[j]).0 implies !(
                        same_kind(
                            self.nodes@[self.edges@[i].1 as int],
                            self.nodes@[self.edges@[j].1 as int],
                        ) && node_name(self.nodes@[self.edges@[i].1 as int]) == node_name(
                            self.nodes@[self.edges@[j].1 as int],
                        )) by {
                            assert(edge_ok(prev.nodes@, prev.edges@[i]));
                            assert(edge_ok(prev.nodes@, prev.edges@[j]));
                            assert(same_kind(
                                self.nodes@[self.edges@[i].1 as int],
                                prev.nodes@[self.edges@[i].1 as int],
                            ));
                            assert(same_kind(
                                self.nodes@[self.edges@[j].1 as int],
                                prev.nodes@[self.edges@[j].1 as int],
                            ));
                            assert(node_name(self.nodes@[self.edges@[i].1 as int]) == node_name(
                                prev.nodes@[self.edges@[i].1 as int],
                            ));
                            assert(node_name(self.nodes@[self.edges@[j].1 as int]) == node_name(
                                prev.nodes@[self.edges@[j].1 as int],
                            ));
                        }
                    }
                    assert(self.links_wf()) by {
                        assert forall|m: usize| (m as int)
                            < self.nodes@.len() implies #[trigger] self.links_ok(m) by {
                            assert(prev.links_ok(m));
                            if m == id {
                            } else {
                                assert(self.nodes@[m as int] == prev.nodes@[m as int]);
                                let ls = node_links(self.nodes@[m as int]);
                                if self.nodes@[m as int] is Boundary {
                                    assert forall|w: int| 0 <= w < ls.len() implies self.is_edge(
                                        m,
                                        #[trigger] ls[w],
                                    ) && !(self.nodes@[ls[w] as int] is Boundary) by {
                                        assert(prev.is_edge(m, ls[w]));
                                        let u = choose|u: int|
                                            0 <= u < prev.edges@.len() && #[trigger] prev.edges@[u]
                                                == (m, ls[w]);
                                        assert(self.edges@[u] == (m, ls[w]));
                                        assert((ls[w] as int) < prev.nodes@.len());
                                        assert(same_kind(
                                            self.nodes@[ls[w] as int],
                                            prev.nodes@[ls[w] as int],
                                        ));
                                    }
                                }
                            }
                        }
                    }
                }
            }
            t += 1;
        }
        Ok(())
    }
}


/// A type child persists as the graph grows.
proof fn lemma_type_child_persists(a: Partitions, b: Partitions, p: usize, name: Seq<char>)
    requires
        a.wf(),
        extends(a, b),
        a.has_type_child_named(p, name),
    ensures
        b.has_type_child_named(p, name),
{
    let c = choose|c: usize|
        #[trigger] a.is_edge(p, c) && a.valid_id(c) && a.node_at(c) is Type && node_name(
            a.node_at(c),
        ) == name;
    let k = choose|k: int| 0 <= k < a.edges@.len() && #[trigger] a.edges@[k] == (p, c);
    assert(a.edges@ =~= b.edges@.subrange(0, a.edges@.len() as int));
    assert(b.edges@[k] == (p, c));
    assert(b.is_edge(p, c));
    assert(same_kind(b.nodes@[c as int], a.nodes@[c as int]));
    assert(node_name(b.nodes@[c as int]) == node_name(a.nodes@[c as int]));
}

/// An impl child persists as the graph grows.
proof fn lemma_impl_child_persists(a: Partitions, b: Partitions, p: usize, name: Seq<char>)
    requires
        a.wf(),
        extends(a, b),
        a.has_impl_child_named(p, name),
    ensures
        b.has_impl_child_named(p, name),
{
    let c = choose|c: usize|
        #[trigger] a.is_edge(p, c) && a.valid_id(c) && a.node_at(c) is Impl && node_name(
            a.node_at(c),
        ) == name;
    let k = choose|k: int| 0 <= k < a.edges@.len() && #[trigger] a.edges@[k] == (p, c);
    assert(a.edges@ =~= b.edges@.subrange(0, a.edges@.len() as int));
    assert(b.edges@[k] == (p, c));
    assert(b.is_edge(p, c));
    assert(same_kind(b.nodes@[c as int], a.nodes@[c as int]));
    assert(node_name(b.nodes@[c as int]) == node_name(a.nodes@[c as int]));
}

/// Every type and impl a file declares stands as a direct child of
/// boundary `b`.
pub open spec fn file_items_present(g: Partitions, b: usize, f: File) -> bool {
    &&& forall|t: int|
        0 <= t < f.types@.len() ==> g.has_type_child_named(b, ((#[trigger] f.types@[t]).0)@)
    &&& forall|t: int|
        0 <= t < f.impls@.len() ==> g.has_impl_child_named(b, ((#[trigger] f.impls@[t]).0)@)
}

/// The structural outcome of the extension for the first `n` batch
/// entries: each entry's path resolves to a boundary, and every type and
/// impl declared by the entry's files stands under it.
pub open spec fn batch_structure(g: Partitions, fsmap: Seq<(String, Vec<File>)>, n: int) -> bool {
    forall|f2: int|
        0 <= f2 < n ==> {
            let b = g.resolve_path(g.root, split_path_spec((#[trigger] fsmap[f2]).0@));
            &&& b is Some
            &&& forall|g2: int|
                0 <= g2 < fsmap[f2].1@.len() ==> file_items_present(
                    g,
                    b->0,
                    #[trigger] fsmap[f2].1@[g2],
                )
        }
}

/// A file's declared items persist as the graph grows.
proof fn lemma_file_items_persist(a: Partitions, b: Partitions, bd: usize, f: File)
    requires
        a.wf(),
        extends(a, b),
        file_items_present(a, bd, f),
    ensures
        file_items_present(b, bd, f),
{
    assert forall|t: int| 0 <= t < f.types@.len() implies b.has_type_child_named(
        bd,
        ((#[trigger] f.types@[t]).0)@,
    ) by {
        lemma_type_child_persists(a, b, bd, f.types@[t].0@);
    }
    assert forall|t: int| 0 <= t < f.impls@.len() implies b.has_impl_child_named(
        bd,
        ((#[trigger] f.impls@[t]).0)@,
    ) by {
        lemma_impl_child_persists(a, b, bd, f.impls@[t].0@);
    }
}

/// The structural outcome persists as the graph grows.
proof fn lemma_batch_structure_preserved(
    a: Partitions,
    b: Partitions,
    fsmap: Seq<(String, Vec<File>)>,
    n: int,
)
    requires
        a.wf(),
        b.wf(),
        extends(a, b),
        batch_structure(a, fsmap, n),
    ensures
        batch_structure(b, fsmap, n),
{
    assert forall|f2: int| 0 <= f2 < n implies {
        let bd = b.resolve_path(b.root, split_path_spec((#[trigger] fsmap[f2]).0@));
        &&& bd is Some
        &&& forall|g2: int|
            0 <= g2 < fsmap[f2].1@.len() ==> file_items_present(
                b,
                bd->0,
                #[trigger] fsmap[f2].1@[g2],
            )
    } by {
        let segs = split_path_spec(fsmap[f2].0@);
        lemma_resolve_preserved(a, b, a.root, segs);
        let bd = a.resolve_path(a.root, segs)->0;
        assert forall|g2: int| 0 <= g2 < fsmap[f2].1@.len() implies file_items_present(
            b,
            bd,
            #[trigger] fsmap[f2].1@[g2],
        ) by {
            let f = fsmap[f2].1@[g2];
            assert(file_items_present(a, bd, f));
            assert forall|t: int| 0 <= t < f.types@.len() implies b.has_type_child_named(
                bd,
                ((#[trigger] f.types@[t]).0)@,
            ) by {
                lemma_type_child_persists(a, b, bd, f.types@[t].0@);
            }
            assert forall|t: int| 0 <= t < f.impls@.len() implies b.has_impl_child_named(
                bd,
                ((#[trigger] f.impls@[t]).0)@,
            ) by {
                lemma_impl_child_persists(a, b, bd, f.impls@[t].0@);
            }
        }
    }
}

/// The export names a directive contributes.
pub open spec fn directive_exports(dir: Directive) -> Seq<String> {
    match dir {
        Directive::Export(v) => v@,
        _ => Seq::empty(),
    }
}

/// The import entries a directive contributes.
pub open spec fn directive_imports(dir: Directive) -> Seq<Import> {
    match dir {
        Directive::Import(v) => v@,
        _ => Seq::empty(),
    }
}

/// Whether a file's export directives name `e`.
pub open spec fn file_exports_name(f: File, e: Seq<char>) -> bool {
    exists|d: int, w: int|
        0 <= d < f.directives@.len() && 0 <= w < directive_exports(
            #[trigger] f.directives@[d],
        ).len() && (#[trigger] directive_exports(f.directives@[d])[w])@ == e
}

/// Whether a file's import directives hold an entry with the given path
/// segments and glob.
pub open spec fn file_import_at(f: File, pv: Seq<Seq<char>>, gv: Seq<char>) -> bool {
    exists|d: int, w: int|
        0 <= d < f.directives@.len() && 0 <= w < directive_imports(
            #[trigger] f.directives@[d],
        ).len() && import_path_views(#[trigger] directive_imports(f.directives@[d])[w]) == pv
            && directive_imports(f.directives@[d])[w].glob@ == gv
}

/// A position of a declared item in a batch: entry, file, kind (0 = type,
/// 1 = impl), and index within the file's list of that kind.
pub open spec fn decl_in_range(fsmap: Seq<(String, Vec<File>)>, p: (int, int, int, int)) -> bool {
    &&& 0 <= p.0 < fsmap.len()
    &&& 0 <= p.1 < fsmap[p.0].1@.len()
    &&& (p.2 == 0 || p.2 == 1)
    &&& (p.2 == 0 ==> 0 <= p.3 < fsmap[p.0].1@[p.1].types@.len())
    &&& (p.2 == 1 ==> 0 <= p.3 < fsmap[p.0].1@[p.1].impls@.len())
}

/// The name the declaration at position `p` carries.
pub open spec fn decl_name(fsmap: Seq<(String, Vec<File>)>, p: (int, int, int, int)) -> Seq<
    char,
> {
    if p.2 == 0 {
        fsmap[p.0].1@[p.1].types@[p.3].0@
    } else {
        fsmap[p.0].1@[p.1].impls@[p.3].0@
    }
}

/// The path segments of the entry that holds position `p`.
pub open spec fn decl_segs(fsmap: Seq<(String, Vec<File>)>, p: (int, int, int, int)) -> Seq<
    Seq<char>,
> {
    split_path_spec(fsmap[p.0].0@)
}

/// Strict processing order of declaration positions: by entry, then file,
/// then types before impls, then index.
pub open spec fn decl_before(p: (int, int, int, int), q: (int, int, int, int)) -> bool {
    ||| p.0 < q.0
    ||| (p.0 == q.0 && p.1 < q.1)
    ||| (p.0 == q.0 && p.1 == q.1 && p.2 < q.2)
    ||| (p.0 == q.0 && p.1 == q.1 && p.2 == q.2 && p.3 < q.3)
}

/// A cause on which an extension call is allowed to fail: an invalid
/// segment name on some entry's path; the batch declaring one kind and
/// name twice at equal path segments; a declaration colliding with an
/// existing same-kind child at its path's boundary; an export name that
/// neither the batch (at equal segments) nor the existing boundary
/// provides; an import with an empty, overlong or malformed glob; or an
/// import whose path does not already resolve end to end in the graph
/// being extended (imports aimed at boundaries the same batch creates are
/// conservatively counted here too). A call on a batch with no such cause
/// must succeed.
pub open spec fn batch_fault(g: Partitions, fsmap: Seq<(String, Vec<File>)>) -> bool {
    ||| exists|fi: int, k: int|
        0 <= fi < fsmap.len() && 0 <= k < split_path_spec(fsmap[fi].0@).len()
            && !valid_part_name(#[trigger] split_path_spec(fsmap[fi].0@)[k])
    ||| exists|p: (int, int, int, int), q: (int, int, int, int)|
        #[trigger] decl_in_range(fsmap, p) && #[trigger] decl_in_range(fsmap, q) && p != q
            && p.2 == q.2 && decl_name(fsmap, p) == decl_name(fsmap, q) && decl_segs(fsmap, p)
            == decl_segs(fsmap, q)
    ||| exists|p: (int, int, int, int)|
        #[trigger] decl_in_range(fsmap, p) && {
            let b = g.resolve_path(g.root, decl_segs(fsmap, p));
            &&& b is Some
            &&& if p.2 == 0 {
                g.has_type_child_named(b->0, decl_name(fsmap, p))
            } else {
                g.has_impl_child_named(b->0, decl_name(fsmap, p))
            }
        }
    ||| exists|fi: int, gi: int, e: Seq<char>|
        0 <= fi < fsmap.len() && 0 <= gi < fsmap[fi].1@.len() && #[trigger] file_exports_name(
            fsmap[fi].1@[gi],
            e,
        ) && !(exists|p: (int, int, int, int)|
            #[trigger] decl_in_range(fsmap, p) && decl_segs(fsmap, p) == split_path_spec(
                fsmap[fi].0@,
            ) && decl_name(fsmap, p) == e) && !({
            let b = g.resolve_path(g.root, split_path_spec(fsmap[fi].0@));
            b is Some && first_export_match(g.nodes@, g.edges@, b->0, e) is Some
        })
    ||| exists|fi: int, gi: int, pv: Seq<Seq<char>>, gv: Seq<char>|
        0 <= fi < fsmap.len() && 0 <= gi < fsmap[fi].1@.len() && #[trigger] file_import_at(
            fsmap[fi].1@[gi],
            pv,
            gv,
        ) && !(0 < gv.len() <= MAX_GLOB_LEN && glob_valid(gv))
    ||| exists|fi: int, gi: int, pv: Seq<Seq<char>>, gv: Seq<char>|
        0 <= fi < fsmap.len() && 0 <= gi < fsmap[fi].1@.len() && #[trigger] file_import_at(
            fsmap[fi].1@[gi],
            pv,
            gv,
        ) && pv.len() > 0 && !({
            let b = g.resolve_path(g.root, split_path_spec(fsmap[fi].0@));
            b is Some && g.resolve_path(b->0, pv) is Some
        })
}

/// The buffered export names of slot `q`.
pub open spec fn slot_names(em: Seq<(usize, Vec<String>)>, q: int) -> Seq<String> {
    em[q].1@
}

/// The buffered imports of slot `q`.
pub open spec fn slot_imports(ic: Seq<(usize, Vec<Import>, Vec<usize>)>, q: int) -> Seq<Import> {
    ic[q].1@
}

/// One buffered export name is well formed against graph `g`: its slot's
/// boundary is where some batch entry's path resolves, and the name comes
/// from an export directive of a file at such an entry.
pub open spec fn export_entry_ok(
    g: Partitions,
    fsmap: Seq<(String, Vec<File>)>,
    em: Seq<(usize, Vec<String>)>,
    q: int,
    w: int,
) -> bool {
    &&& g.valid_id(em[q].0)
    &&& g.node_at(em[q].0) is Boundary
    &&& exists|fi: int, gi: int|
        0 <= fi < fsmap.len() && 0 <= gi < fsmap[fi].1@.len() && #[trigger] file_exports_name(
            fsmap[fi].1@[gi],
            (slot_names(em, q)[w])@,
        ) && g.resolve_path(g.root, split_path_spec(fsmap[fi].0@)) == Some(em[q].0)
}

/// The buffered export map is well formed against graph `g`.
pub open spec fn exports_map_ok(
    g: Partitions,
    fsmap: Seq<(String, Vec<File>)>,
    em: Seq<(usize, Vec<String>)>,
) -> bool {
    forall|q: int, w: int|
        0 <= q < em.len() && 0 <= w < slot_names(em, q).len() ==> #[trigger] export_entry_ok(
            g,
            fsmap,
            em,
            q,
            w,
        )
}

/// One buffered import is well formed against graph `g`.
pub open spec fn import_entry_ok(
    g: Partitions,
    fsmap: Seq<(String, Vec<File>)>,
    ic: Seq<(usize, Vec<Import>, Vec<usize>)>,
    q: int,
    w: int,
) -> bool {
    &&& g.valid_id(ic[q].0)
    &&& exists|fi: int, gi: int|
        0 <= fi < fsmap.len() && 0 <= gi < fsmap[fi].1@.len() && #[trigger] file_import_at(
            fsmap[fi].1@[gi],
            import_path_views(slot_imports(ic, q)[w]),
            slot_imports(ic, q)[w].glob@,
        ) && g.resolve_path(g.root, split_path_spec(fsmap[fi].0@)) == Some(ic[q].0)
}

/// The buffered import collection is well formed against graph `g`.
pub open spec fn imports_col_ok(
    g: Partitions,
    fsmap: Seq<(String, Vec<File>)>,
    ic: Seq<(usize, Vec<Import>, Vec<usize>)>,
) -> bool {
    forall|q: int, w: int|
        0 <= q < ic.len() && 0 <= w < slot_imports(ic, q).len() ==> #[trigger] import_entry_ok(
            g,
            fsmap,
            ic,
            q,
            w,
        )
}

/// Node `j`, an item created by the extension, is accounted for by a batch
/// declaration strictly before position `cur`: same kind and name, sitting
/// under the boundary its entry's path resolves to.
pub open spec fn batch_item_justified(
    g: Partitions,
    fsmap: Seq<(String, Vec<File>)>,
    cur: (int, int, int, int),
    j: int,
) -> bool {
    exists|p: (int, int, int, int)|
        {
            &&& #[trigger] decl_in_range(fsmap, p)
            &&& decl_before(p, cur)
            &&& (p.2 == 0 <==> g.nodes@[j] is Type)
            &&& decl_name(fsmap, p) == node_name(g.nodes@[j])
            &&& {
                let b = g.resolve_path(g.root, decl_segs(fsmap, p));
                b is Some && g.is_edge(b->0, j as usize)
            }
        }
}

/// Every non-boundary node the extension has created so far (indices
/// `base..hi`) is accounted for by an already-processed declaration.
pub open spec fn batch_items_justified(
    g: Partitions,
    fsmap: Seq<(String, Vec<File>)>,
    base: int,
    hi: int,
    cur: (int, int, int, int),
) -> bool {
    forall|j: int|
        base <= j < hi && !(g.nodes@[j] is Boundary) ==> #[trigger] batch_item_justified(
            g,
            fsmap,
            cur,
            j,
        )
}

/// A no-match export scan means no non-boundary child of `b` carries the
/// name.
proof fn lemma_export_match_none(
    nodes: Seq<Node>,
    edges: Seq<(usize, usize)>,
    b: usize,
    name: Seq<char>,
)
    requires
        first_export_match(nodes, edges, b, name) is None,
    ensures
        forall|t: int|
            0 <= t < edges.len() && (#[trigger] edges[t]).0 == b && (edges[t].1 as int)
                < nodes.len() ==> (nodes[edges[t].1 as int] is Boundary || node_name(
                nodes[edges[t].1 as int],
            ) != name),
    decreases edges.len(),
{
    if edges.len() == 0 {
    } else {
        lemma_export_match_none(nodes, edges.drop_first(), b, name);
        assert forall|t: int|
            0 <= t < edges.len() && (#[trigger] edges[t]).0 == b && (edges[t].1 as int)
                < nodes.len() implies (nodes[edges[t].1 as int] is Boundary || node_name(
            nodes[edges[t].1 as int],
        ) != name) by {
            if t > 0 {
                assert(edges.drop_first()[t - 1] == edges[t]);
            }
        }
    }
}

/// Buffered exports stay well formed as the graph grows.
proof fn lemma_exports_map_preserved(
    a: Partitions,
    b: Partitions,
    fsmap: Seq<(String, Vec<File>)>,
    em: Seq<(usize, Vec<String>)>,
)
    requires
        a.wf(),
        b.wf(),
        extends(a, b),
        exports_map_ok(a, fsmap, em),
    ensures
        exports_map_ok(b, fsmap, em),
{
    assert forall|q: int, w: int|
        0 <= q < em.len() && 0 <= w < slot_names(em, q).len() implies #[trigger] export_entry_ok(
        b,
        fsmap,
        em,
        q,
        w,
    ) by {
        assert(export_entry_ok(a, fsmap, em, q, w));
        assert(same_kind(b.nodes@[em[q].0 as int], a.nodes@[em[q].0 as int]));
        let (fi, gi) = choose|fi: int, gi: int|
            0 <= fi < fsmap.len() && 0 <= gi < fsmap[fi].1@.len() && #[trigger] file_exports_name(
                fsmap[fi].1@[gi],
                (slot_names(em, q)[w])@,
            ) && a.resolve_path(a.root, split_path_spec(fsmap[fi].0@)) == Some(em[q].0);
        lemma_resolve_preserved(a, b, a.root, split_path_spec(fsmap[fi].0@));
    }
}

/// Buffered imports stay well formed as the graph grows.
proof fn lemma_imports_col_preserved(
    a: Partitions,
    b: Partitions,
    fsmap: Seq<(String, Vec<File>)>,
    ic: Seq<(usize, Vec<Import>, Vec<usize>)>,
)
    requires
        a.wf(),
        b.wf(),
        extends(a, b),
        imports_col_ok(a, fsmap, ic),
    ensures
        imports_col_ok(b, fsmap, ic),
{
    assert forall|q: int, w: int|
        0 <= q < ic.len() && 0 <= w < slot_imports(ic, q).len() implies #[trigger] import_entry_ok(
        b,
        fsmap,
        ic,
        q,
        w,
    ) by {
        assert(import_entry_ok(a, fsmap, ic, q, w));
        let (fi, gi) = choose|fi: int, gi: int|
            0 <= fi < fsmap.len() && 0 <= gi < fsmap[fi].1@.len() && #[trigger] file_import_at(
                fsmap[fi].1@[gi],
                import_path_views(slot_imports(ic, q)[w]),
                slot_imports(ic, q)[w].glob@,
            ) && a.resolve_path(a.root, split_path_spec(fsmap[fi].0@)) == Some(ic[q].0);
        lemma_resolve_preserved(a, b, a.root, split_path_spec(fsmap[fi].0@));
    }
}

/// Item justification persists as the graph grows.
proof fn lemma_items_justified_preserved(
    a: Partitions,
    b: Partitions,
    fsmap: Seq<(String, Vec<File>)>,
    base: int,
    cur: (int, int, int, int),
)
    requires
        a.wf(),
        b.wf(),
        extends(a, b),
        batch_items_justified(a, fsmap, base, a.nodes@.len() as int, cur),
        0 <= base,
    ensures
        batch_items_justified(b, fsmap, base, a.nodes@.len() as int, cur),
{
    assert forall|j: int|
        base <= j < a.nodes@.len() && !(b.nodes@[j] is Boundary) implies
        #[trigger] batch_item_justified(b, fsmap, cur, j) by {
        assert(same_kind(b.nodes@[j], a.nodes@[j]));
        assert(!(a.nodes@[j] is Boundary));
        assert(batch_item_justified(a, fsmap, cur, j));
        let p = choose|p: (int, int, int, int)|
            {
                &&& #[trigger] decl_in_range(fsmap, p)
                &&& decl_before(p, cur)
                &&& (p.2 == 0 <==> a.nodes@[j] is Type)
                &&& decl_name(fsmap, p) == node_name(a.nodes@[j])
                &&& {
                    let bb = a.resolve_path(a.root, decl_segs(fsmap, p));
                    bb is Some && a.is_edge(bb->0, j as usize)
                }
            };
        lemma_resolve_preserved(a, b, a.root, decl_segs(fsmap, p));
        let bb = a.resolve_path(a.root, decl_segs(fsmap, p));
        let k = choose|k: int|
            0 <= k < a.edges@.len() && #[trigger] a.edges@[k] == (bb->0, j as usize);
        assert(a.edges@ =~= b.edges@.subrange(0, a.edges@.len() as int));
        assert(b.edges@[k] == (bb->0, j as usize));
        assert(b.is_edge(bb->0, j as usize));
    }
}

/// A nonempty resolved path decomposes at its last segment: the prefix
/// resolves to the unique parent, which steps to the result.
proof fn lemma_resolve_snoc(g: Partitions, from: usize, segs: Seq<Seq<char>>)
    requires
        g.resolve_path(from, segs) is Some,
        segs.len() > 0,
    ensures
        ({
            let x = g.resolve_path(from, segs)->0;
            let pre = g.resolve_path(from, segs.drop_last());
            &&& pre is Some
            &&& g.boundary_child_named(pre->0, segs.last()) == Some(x)
        }),
    decreases segs.len(),
{
    if segs.len() == 1 {
        assert(segs.drop_last() =~= Seq::<Seq<char>>::empty());
        assert(segs.last() == segs[0]);
        let c = g.boundary_child_named(from, segs[0])->0;
        assert(segs.drop_first() =~= Seq::<Seq<char>>::empty());
    } else {
        let c0 = g.boundary_child_named(from, segs[0])->0;
        lemma_resolve_snoc(g, c0, segs.drop_first());
        assert(segs.drop_first().drop_last() =~= segs.drop_last().drop_first());
        assert(segs.drop_last()[0] == segs[0]);
        assert(segs.drop_first().last() == segs.last());
        assert(g.resolve_path(from, segs.drop_last()) == g.resolve_path(
            c0,
            segs.drop_last().drop_first(),
        ));
        assert(g.resolve_path(from, segs) == g.resolve_path(c0, segs.drop_first()));
    }
}

/// Two paths resolving from one node to one node are the same path: each
/// node has a unique parent, so its root-chain and the segment names along
/// it are determined.
proof fn lemma_resolve_injective(
    g: Partitions,
    from: usize,
    sa: Seq<Seq<char>>,
    sb: Seq<Seq<char>>,
)
    requires
        g.wf(),
        g.resolve_path(from, sa) is Some,
        g.resolve_path(from, sa) == g.resolve_path(from, sb),
    ensures
        sa == sb,
    decreases sa.len(),
{
    let x = g.resolve_path(from, sa)->0;
    if sa.len() == 0 {
        if sb.len() > 0 {
            lemma_resolve_ge(g, from, sb);
            assert(false);
        } else {
            assert(sa =~= sb);
        }
    } else if sb.len() == 0 {
        lemma_resolve_ge(g, from, sa);
        assert(false);
    } else {
        lemma_resolve_snoc(g, from, sa);
        lemma_resolve_snoc(g, from, sb);
        let pa = g.resolve_path(from, sa.drop_last())->0;
        let pb = g.resolve_path(from, sb.drop_last())->0;
        let ca = choose|c: usize|
            #[trigger] g.is_edge(pa, c) && g.valid_id(c) && g.node_at(c) is Boundary
                && node_name(g.node_at(c)) == sa.last();
        assert(ca == x);
        let cb = choose|c: usize|
            #[trigger] g.is_edge(pb, c) && g.valid_id(c) && g.node_at(c) is Boundary
                && node_name(g.node_at(c)) == sb.last();
        assert(cb == x);
        let k1 = choose|k: int| 0 <= k < g.edges@.len() && #[trigger] g.edges@[k] == (pa, x);
        let k2 = choose|k: int| 0 <= k < g.edges@.len() && #[trigger] g.edges@[k] == (pb, x);
        assert(k1 == k2);
        assert(pa == pb);
        assert(sa.last() == node_name(g.node_at(x)));
        assert(sb.last() == node_name(g.node_at(x)));
        lemma_resolve_injective(g, from, sa.drop_last(), sb.drop_last());
        assert(sa =~= sa.drop_last().push(sa.last()));
        assert(sb =~= sb.drop_last().push(sb.last()));
    }
}

/// Justification survives moving the processing position forward.
proof fn lemma_justified_weaken(
    g: Partitions,
    fsmap: Seq<(String, Vec<File>)>,
    base: int,
    hi: int,
    cur: (int, int, int, int),
    cur2: (int, int, int, int),
)
    requires
        batch_items_justified(g, fsmap, base, hi, cur),
        cur == cur2 || decl_before(cur, cur2),
    ensures
        batch_items_justified(g, fsmap, base, hi, cur2),
{
    assert forall|j: int|
        base <= j < hi && !(g.nodes@[j] is Boundary) implies #[trigger] batch_item_justified(
        g,
        fsmap,
        cur2,
        j,
    ) by {
        assert(batch_item_justified(g, fsmap, cur, j));
        let p = choose|p: (int, int, int, int)|
            {
                &&& #[trigger] decl_in_range(fsmap, p)
                &&& decl_before(p, cur)
                &&& (p.2 == 0 <==> g.nodes@[j] is Type)
                &&& decl_name(fsmap, p) == node_name(g.nodes@[j])
                &&& {
                    let b = g.resolve_path(g.root, decl_segs(fsmap, p));
                    b is Some && g.is_edge(b->0, j as usize)
                }
            };
        assert(decl_before(p, cur2));
    }
}

/// Node `j`, a boundary the extension created, lies on the resolved chain
/// of some batch entry's path.
pub open spec fn boundary_on_batch_chain(
    g: Partitions,
    fsmap: Seq<(String, Vec<File>)>,
    j: int,
) -> bool {
    exists|fi: int|
        0 <= fi < fsmap.len() && #[trigger] on_created_chain(
            g,
            g.root,
            split_path_spec(fsmap[fi].0@),
            j,
        )
}

/// Every boundary the extension has created so far (indices `base..hi`)
/// lies on a batch entry's chain.
pub open spec fn batch_boundaries_justified(
    g: Partitions,
    fsmap: Seq<(String, Vec<File>)>,
    base: int,
    hi: int,
) -> bool {
    forall|j: int|
        base <= j < hi && g.nodes@[j] is Boundary ==> #[trigger] boundary_on_batch_chain(
            g,
            fsmap,
            j,
        )
}

/// Boundary justification persists as the graph grows.
proof fn lemma_boundaries_justified_preserved(
    a: Partitions,
    b: Partitions,
    fsmap: Seq<(String, Vec<File>)>,
    base: int,
)
    requires
        a.wf(),
        b.wf(),
        extends(a, b),
        batch_boundaries_justified(a, fsmap, base, a.nodes@.len() as int),
        0 <= base,
    ensures
        batch_boundaries_justified(b, fsmap, base, a.nodes@.len() as int),
{
    assert forall|j: int|
        base <= j < a.nodes@.len() && b.nodes@[j] is Boundary implies
        #[trigger] boundary_on_batch_chain(b, fsmap, j) by {
        assert(same_kind(b.nodes@[j], a.nodes@[j]));
        assert(boundary_on_batch_chain(a, fsmap, j));
        let fi = choose|fi: int|
            0 <= fi < fsmap.len() && #[trigger] on_created_chain(
                a,
                a.root,
                split_path_spec(fsmap[fi].0@),
                j,
            );
        let views = split_path_spec(fsmap[fi].0@);
        let k = choose|k: int|
            1 <= k <= views.len() && a.resolve_path(a.root, #[trigger] views.take(k)) == Some(
                j as usize,
            );
        lemma_resolve_preserved(a, b, a.root, views.take(k));
        assert(on_created_chain(b, b.root, views, j));
    }
}

/// The graph only grows: every node of `a` is still in `b` with its kind
/// and name, every edge of `a` still stands, and the pinned roots are
/// untouched. (Exports and imports of existing nodes may be recomputed.)
pub open spec fn extends(a: Partitions, b: Partitions) -> bool {
    &&& a.nodes@.len() <= b.nodes@.len()
    &&& forall|j: int|
        0 <= j < a.nodes@.len() ==> same_kind(#[trigger] b.nodes@[j], a.nodes@[j]) && node_name(
            b.nodes@[j],
        ) == node_name(a.nodes@[j])
    &&& a.edges@.is_prefix_of(b.edges@)
    &&& forall|k: int|
        a.edges@.len() <= k < b.edges@.len() ==> ((#[trigger] b.edges@[k]).1 as int)
            >= a.nodes@.len()
    &&& b.root == a.root && b.shell == a.shell && b.plugins == a.plugins
}

/// Growth is transitive.
proof fn lemma_extends_trans(a: Partitions, b: Partitions, c: Partitions)
    requires
        extends(a, b),
        extends(b, c),
    ensures
        extends(a, c),
{
    assert(a.edges@ =~= c.edges@.subrange(0, a.edges@.len() as int));
    assert forall|j: int| 0 <= j < a.nodes@.len() implies same_kind(
        #[trigger] c.nodes@[j],
        a.nodes@[j],
    ) && node_name(c.nodes@[j]) == node_name(a.nodes@[j]) by {
        assert(same_kind(b.nodes@[j], a.nodes@[j]));
        assert(same_kind(c.nodes@[j], b.nodes@[j]));
    }
    assert forall|k: int| a.edges@.len() <= k < c.edges@.len() implies ((
    #[trigger] c.edges@[k]).1 as int) >= a.nodes@.len() by {
        if k < b.edges@.len() {
            assert(c.edges@[k] == b.edges@[k]);
        }
    }
}

/// Prefix growth (nodes kept verbatim, edges appended) is growth.
proof fn lemma_prefix_extends(a: Partitions, b: Partitions)
    requires
        a.nodes@.is_prefix_of(b.nodes@),
        a.edges@.is_prefix_of(b.edges@),
        forall|k: int|
            a.edges@.len() <= k < b.edges@.len() ==> ((#[trigger] b.edges@[k]).1 as int)
                >= a.nodes@.len(),
        b.root == a.root && b.shell == a.shell && b.plugins == a.plugins,
    ensures
        extends(a, b),
{
    assert forall|j: int| 0 <= j < a.nodes@.len() implies same_kind(
        #[trigger] b.nodes@[j],
        a.nodes@[j],
    ) && node_name(b.nodes@[j]) == node_name(a.nodes@[j]) by {
        assert(b.nodes@[j] == a.nodes@[j]);
    }
}

impl Partitions {
    /// Extend the graph from `<root>` with a batch of files grouped by
    /// filesystem path, in three phases: structure (boundaries, types,
    /// impls), then export resolution, then import resolution. A failure
    /// aborts the remaining work of the call; phase-1 additions already
    /// made are kept (the extension is not transactional), though the
    /// consuming signature hands no graph back on error.
    ///
    /// Extending with an empty batch is a no-op, and a call may fail only
    /// on a batch with a `batch_fault` cause: a batch without one is owed
    /// success.
    #[verifier::rlimit(100)]
    pub fn extend_root(self, fsmap: FsMap) -> (r: Result<Partitions, Error>)
        requires
            self.wf(),
        ensures
            r matches Ok(p) ==> p.wf() && extends(self, p),
            r matches Ok(p) ==> batch_structure(p, fsmap@, fsmap@.len() as int),
            r matches Ok(p) ==> batch_items_justified(
                p,
                fsmap@,
                self.nodes@.len() as int,
                p.nodes@.len() as int,
                (fsmap@.len() as int, 0, 0, 0),
            ),
            r matches Ok(p) ==> batch_boundaries_justified(
                p,
                fsmap@,
                self.nodes@.len() as int,
                p.nodes@.len() as int,
            ),
            r is Err ==> batch_fault(self, fsmap@),
            fsmap@.len() == 0 ==> (r matches Ok(p) && p == self),
    {
        let ghost base_n = self.nodes@.len() as int;
        let mut s = self;
        let mut exports_map: Vec<(usize, Vec<String>)> = Vec::new();
        let mut imports_col: Vec<(usize, Vec<Import>, Vec<usize>)> = Vec::new();
        // Phase 1: create the structure of the graph given the map,
        // buffering the directives for the later phases.
        let mut fi: usize = 0;
        while fi < fsmap.len()
            invariant
                self.wf(),
                base_n == self.nodes@.len() as int,
                s.wf(),
                extends(self, s),
                fi <= fsmap@.len(),
                fsmap@.len() == 0 ==> s == self && exports_map@.len() == 0 && imports_col@.len()
                    == 0,
                batch_structure(s, fsmap@, fi as int),
                batch_items_justified(
                    s,
                    fsmap@,
                    base_n,
                    s.nodes@.len() as int,
                    (fi as int, 0, 0, 0),
                ),
                batch_boundaries_justified(s, fsmap@, base_n, s.nodes@.len() as int),
                exports_map_ok(s, fsmap@, exports_map@),
                imports_col_ok(s, fsmap@, imports_col@),
                forall|q: int|
                    0 <= q < exports_map@.len() ==> #[trigger] slot_names(
                        exports_map@,
                        q,
                    ).len() > 0,
                forall|q: int|
                    0 <= q < imports_col@.len() ==> #[trigger] slot_imports(
                        imports_col@,
                        q,
                    ).len() > 0,
                forall|q: int|
                    0 <= q < imports_col@.len() ==> (forall|w: int|
                        0 <= w < (#[trigger] imports_col@[q]).2@.len() ==> s.valid_id(
                            #[trigger] imports_col@[q].2@[w],
                        )),
            decreases fsmap@.len() - fi,
        {
            let segs = split_path(fsmap[fi].0.as_str());
            let root = s.root();
            let ghost before = s;
            let bnd = match s.get_or_create_boundary_path(root, &segs) {
                Ok(b) => b,
                Err(e) => {
                    proof {
                        assert(seq_views(segs@) == split_path_spec(fsmap@[fi as int].0@));
                        let k = choose|k: int|
                            {
                                &&& 0 <= k < segs@.len()
                                &&& !valid_part_name(#[trigger] seq_views(segs@)[k])
                                &&& name_error_spec(e, seq_views(segs@)[k])
                                &&& forall|j: int|
                                    0 <= j < k ==> valid_part_name(seq_views(segs@)[j])
                                        || before.resolve_path(
                                        root,
                                        seq_views(segs@).take(j + 1),
                                    ) is Some
                            };
                        assert(!valid_part_name(split_path_spec(fsmap@[fi as int].0@)[k]));
                        assert(batch_fault(self, fsmap@));
                    }
                    return Err(e);
                },
            };
            proof {
                lemma_prefix_extends(before, s);
                lemma_extends_trans(self, before, s);
                lemma_batch_structure_preserved(before, s, fsmap@, fi as int);
                lemma_exports_map_preserved(before, s, fsmap@, exports_map@);
                lemma_imports_col_preserved(before, s, fsmap@, imports_col@);
                lemma_items_justified_preserved(before, s, fsmap@, base_n, (fi as int, 0, 0, 0));
                assert forall|j: int|
                    base_n <= j < s.nodes@.len() && !(s.nodes@[j] is Boundary) implies
                    #[trigger] batch_item_justified(s, fsmap@, (fi as int, 0, 0, 0), j) by {
                    assert(j < before.nodes@.len());
                }
                lemma_boundaries_justified_preserved(before, s, fsmap@, base_n);
                assert forall|j: int|
                    base_n <= j < s.nodes@.len() && s.nodes@[j] is Boundary implies
                    #[trigger] boundary_on_batch_chain(s, fsmap@, j) by {
                    if j >= before.nodes@.len() {
                        assert(on_created_chain(s, root, seq_views(segs@), j));
                        assert(root == s.root);
                        assert(seq_views(segs@) == split_path_spec(fsmap@[fi as int].0@));
                    }
                }
                assert(s.resolve_path(s.root, split_path_spec(fsmap@[fi as int].0@)) == Some(
                    bnd,
                )) by {
                    assert(seq_views(segs@) == split_path_spec(fsmap@[fi as int].0@));
                }
            }
            let mut gi: usize = 0;
            while gi < fsmap[fi].1.len()
                invariant
                    self.wf(),
                    base_n == self.nodes@.len() as int,
                    s.wf(),
                    extends(self, s),
                    fi < fsmap@.len(),
                    gi <= fsmap@[fi as int].1@.len(),
                    s.valid_id(bnd),
                    s.node_at(bnd) is Boundary,
                    batch_structure(s, fsmap@, fi as int),
                    s.resolve_path(s.root, split_path_spec(fsmap@[fi as int].0@)) == Some(bnd),
                    forall|g2: int|
                        0 <= g2 < gi ==> file_items_present(
                            s,
                            bnd,
                            #[trigger] fsmap@[fi as int].1@[g2],
                        ),
                    batch_items_justified(
                        s,
                        fsmap@,
                        base_n,
                        s.nodes@.len() as int,
                        (fi as int, gi as int, 0, 0),
                    ),
                    batch_boundaries_justified(s, fsmap@, base_n, s.nodes@.len() as int),
                    exports_map_ok(s, fsmap@, exports_map@),
                    imports_col_ok(s, fsmap@, imports_col@),
                    forall|q: int|
                        0 <= q < exports_map@.len() ==> #[trigger] slot_names(
                            exports_map@,
                            q,
                        ).len() > 0,
                    forall|q: int|
                        0 <= q < imports_col@.len() ==> #[trigger] slot_imports(
                            imports_col@,
                            q,
                        ).len() > 0,
                    forall|q: int|
                        0 <= q < imports_col@.len() ==> (forall|w: int|
                            0 <= w < (#[trigger] imports_col@[q]).2@.len() ==> s.valid_id(
                                #[trigger] imports_col@[q].2@[w],
                            )),
                decreases fsmap@[fi as int].1@.len() - gi,
            {
                let file = &fsmap[fi].1[gi];
                // split the directives into raw import and export lists
                let mut imps: Vec<Import> = Vec::new();
                let mut exps: Vec<String> = Vec::new();
                let mut di: usize = 0;
                while di < file.directives.len()
                    invariant
                        fi < fsmap@.len(),
                        gi < fsmap@[fi as int].1@.len(),
                        file == &fsmap@[fi as int].1@[gi as int],
                        di <= file.directives@.len(),
                        forall|w: int|
                            0 <= w < exps@.len() ==> file_exports_name(
                                fsmap@[fi as int].1@[gi as int],
                                (#[trigger] exps@[w])@,
                            ),
                        forall|w: int|
                            0 <= w < imps@.len() ==> file_import_at(
                                fsmap@[fi as int].1@[gi as int],
                                import_path_views(#[trigger] imps@[w]),
                                imps@[w].glob@,
                            ),
                    decreases file.directives@.len() - di,
                {
                    match &file.directives[di] {
                        Directive::Import(v) => {
                            proof {
                                assert(directive_imports(file.directives@[di as int]) == v@);
                            }
                            let mut w: usize = 0;
                            while w < v.len()
                                invariant
                                    fi < fsmap@.len(),
                                    gi < fsmap@[fi as int].1@.len(),
                                    file == &fsmap@[fi as int].1@[gi as int],
                                    di < file.directives@.len(),
                                    directive_imports(file.directives@[di as int]) == v@,
                                    w <= v@.len(),
                                    forall|w2: int|
                                        0 <= w2 < imps@.len() ==> file_import_at(
                                            fsmap@[fi as int].1@[gi as int],
                                            import_path_views(#[trigger] imps@[w2]),
                                            imps@[w2].glob@,
                                        ),
                                decreases v@.len() - w,
                            {
                                imps.push(clone_import(&v[w]));
                                proof {
                                    assert(import_path_views(imps@.last()) == import_path_views(
                                        directive_imports(file.directives@[di as int])[w as int],
                                    ));
                                    assert(file_import_at(
                                        fsmap@[fi as int].1@[gi as int],
                                        import_path_views(imps@.last()),
                                        imps@.last().glob@,
                                    ));
                                }
                                w += 1;
                            }
                        },
                        Directive::Export(v) => {
                            proof {
                                assert(directive_exports(file.directives@[di as int]) == v@);
                            }
                            let mut w: usize = 0;
                            while w < v.len()
                                invariant
                                    fi < fsmap@.len(),
                                    gi < fsmap@[fi as int].1@.len(),
                                    file == &fsmap@[fi as int].1@[gi as int],
                                    di < file.directives@.len(),
                                    directive_exports(file.directives@[di as int]) == v@,
                                    w <= v@.len(),
                                    forall|w2: int|
                                        0 <= w2 < exps@.len() ==> file_exports_name(
                                            fsmap@[fi as int].1@[gi as int],
                                            (#[trigger] exps@[w2])@,
                                        ),
                                decreases v@.len() - w,
                            {
                                exps.push(v[w].clone());
                                proof {
                                    assert((exps@.last())@ == (directive_exports(
                                        file.directives@[di as int],
                                    )[w as int])@);
                                    assert(file_exports_name(
                                        fsmap@[fi as int].1@[gi as int],
                                        (exps@.last())@,
                                    ));
                                }
                                w += 1;
                            }
                        },
                        Directive::FailFast => {},
                        Directive::NoParallelise => {},
                    }
                    di += 1;
                }
                // accumulate the export names buffered for this boundary
                if exps.len() > 0 {
                    let mut pos: usize = exports_map.len();
                    let mut q: usize = 0;
                    while q < exports_map.len()
                        invariant
                            q <= exports_map@.len(),
                            pos == exports_map@.len() || (pos < exports_map@.len()
                                && exports_map@[pos as int].0 == bnd),
                        decreases exports_map@.len() - q,
                    {
                        if exports_map[q].0 == bnd && pos == exports_map.len() {
                            pos = q;
                        }
                        q += 1;
                    }
                    let ghost pre_map = exports_map@;
                    let ghost pre_exps = exps@;
                    if pos < exports_map.len() {
                        let mut merged = crate::input::clone_strings(&exports_map[pos].1);
                        let ghost pre_merged = merged@;
                        merged.append(&mut exps);
                        exports_map.set(pos, (bnd, merged));
                        proof {
                            assert(seq_views(pre_merged) == seq_views(pre_map[pos as int].1@));
                            assert(slot_names(exports_map@, pos as int) == pre_merged + pre_exps);
                            assert forall|q2: int, w: int|
                                0 <= q2 < exports_map@.len() && 0 <= w < slot_names(
                                    exports_map@,
                                    q2,
                                ).len() implies #[trigger] export_entry_ok(
                                s,
                                fsmap@,
                                exports_map@,
                                q2,
                                w,
                            ) by {
                                if q2 != pos {
                                    assert(exports_map@[q2] == pre_map[q2]);
                                    assert(slot_names(exports_map@, q2) == slot_names(
                                        pre_map,
                                        q2,
                                    ));
                                    assert(export_entry_ok(s, fsmap@, pre_map, q2, w));
                                } else {
                                    if w < pre_merged.len() {
                                        assert(seq_views(pre_merged).len() == pre_merged.len());
                                        assert(seq_views(pre_map[pos as int].1@).len()
                                            == pre_map[pos as int].1@.len());
                                        assert(pre_merged.len() == pre_map[pos as int].1@.len());
                                        assert(seq_views(pre_merged)[w] == pre_merged[w]@);
                                        assert(seq_views(pre_map[pos as int].1@)[w] == (
                                        pre_map[pos as int].1@[w])@);
                                        assert((slot_names(exports_map@, q2)[w])@ == (slot_names(
                                            pre_map,
                                            q2,
                                        )[w])@);
                                        assert(0 <= w < slot_names(pre_map, q2).len());
                                        assert(export_entry_ok(s, fsmap@, pre_map, q2, w));
                                    } else {
                                        assert(slot_names(exports_map@, q2)[w] == pre_exps[w
                                            - pre_merged.len()]);
                                        assert(file_exports_name(
                                            fsmap@[fi as int].1@[gi as int],
                                            (slot_names(exports_map@, q2)[w])@,
                                        ));
                                    }
                                }
                            }
                            assert forall|q2: int|
                                0 <= q2 < exports_map@.len() implies #[trigger] slot_names(
                                exports_map@,
                                q2,
                            ).len() > 0 by {
                                if q2 != pos {
                                    assert(slot_names(exports_map@, q2) == slot_names(
                                        pre_map,
                                        q2,
                                    ));
                                }
                            }
                        }
                    } else {
                        exports_map.push((bnd, exps));
                        exps = Vec::new();
                        proof {
                            assert forall|q2: int, w: int|
                                0 <= q2 < exports_map@.len() && 0 <= w < slot_names(
                                    exports_map@,
                                    q2,
                                ).len() implies #[trigger] export_entry_ok(
                                s,
                                fsmap@,
                                exports_map@,
                                q2,
                                w,
                            ) by {
                                if q2 < exports_map@.len() - 1 {
                                    assert(exports_map@[q2] == pre_map[q2]);
                                    assert(slot_names(exports_map@, q2) == slot_names(
                                        pre_map,
                                        q2,
                                    ));
                                    assert(export_entry_ok(s, fsmap@, pre_map, q2, w));
                                } else {
                                    assert(file_exports_name(
                                        fsmap@[fi as int].1@[gi as int],
                                        (slot_names(exports_map@, q2)[w])@,
                                    ));
                                }
                            }
                            assert forall|q2: int|
                                0 <= q2 < exports_map@.len() implies #[trigger] slot_names(
                                exports_map@,
                                q2,
                            ).len() > 0 by {
                                if q2 < exports_map@.len() - 1 {
                                    assert(slot_names(exports_map@, q2) == slot_names(
                                        pre_map,
                                        q2,
                                    ));
                                }
                            }
                        }
                    }
                }
                // create one node per declared type and impl
                let mut ns: Vec<usize> = Vec::new();
                let mut ti: usize = 0;
                while ti < file.types.len()
                    invariant
                        self.wf(),
                        base_n == self.nodes@.len() as int,
                        s.wf(),
                        extends(self, s),
                        fi < fsmap@.len(),
                        gi < fsmap@[fi as int].1@.len(),
                        ti <= file.types@.len(),
                        file == &fsmap@[fi as int].1@[gi as int],
                        s.valid_id(bnd),
                        s.node_at(bnd) is Boundary,
                        batch_structure(s, fsmap@, fi as int),
                        s.resolve_path(s.root, split_path_spec(fsmap@[fi as int].0@)) == Some(bnd),
                        forall|g2: int|
                            0 <= g2 < gi ==> file_items_present(
                                s,
                                bnd,
                                #[trigger] fsmap@[fi as int].1@[g2],
                            ),
                        forall|t2: int|
                            0 <= t2 < ti ==> s.has_type_child_named(
                                bnd,
                                ((#[trigger] file.types@[t2]).0)@,
                            ),
                        batch_items_justified(
                            s,
                            fsmap@,
                            base_n,
                            s.nodes@.len() as int,
                            (fi as int, gi as int, 0, ti as int),
                        ),
                        batch_boundaries_justified(s, fsmap@, base_n, s.nodes@.len() as int),
                        exports_map_ok(s, fsmap@, exports_map@),
                        imports_col_ok(s, fsmap@, imports_col@),
                        forall|q: int|
                            0 <= q < exports_map@.len() ==> #[trigger] slot_names(
                                exports_map@,
                                q,
                            ).len() > 0,
                        forall|q: int|
                            0 <= q < imports_col@.len() ==> #[trigger] slot_imports(
                                imports_col@,
                                q,
                            ).len() > 0,
                        forall|w: int| 0 <= w < ns@.len() ==> s.valid_id(#[trigger] ns@[w]),
                        forall|q: int|
                            0 <= q < imports_col@.len() ==> (forall|w: int|
                                0 <= w < (#[trigger] imports_col@[q]).2@.len() ==> s.valid_id(
                                    #[trigger] imports_col@[q].2@[w],
                                )),
                    decreases file.types@.len() - ti,
                {
                    let ghost before2 = s;
                    let id = match s.add_type(bnd, file.types[ti].0.as_str()) {
                        Ok(i) => i,
                        Err(e) => {
                            proof {
                                let ghost name = file.types@[ti as int].0@;
                                let c = choose|c: usize|
                                    #[trigger] s.is_edge(bnd, c) && s.valid_id(c) && s.node_at(
                                        c,
                                    ) is Type && node_name(s.node_at(c)) == name;
                                let k = choose|k: int|
                                    0 <= k < s.edges@.len() && #[trigger] s.edges@[k] == (bnd, c);
                                if (c as int) < base_n {
                                    assert(k < self.edges@.len());
                                    assert(self.edges@ =~= s.edges@.subrange(
                                        0,
                                        self.edges@.len() as int,
                                    ));
                                    assert(self.edges@[k] == (bnd, c));
                                    assert(edge_ok(self.nodes@, self.edges@[k]));
                                    lemma_resolve_restrict(
                                        self,
                                        s,
                                        s.root,
                                        split_path_spec(fsmap@[fi as int].0@),
                                        bnd,
                                    );
                                    assert(self.is_edge(bnd, c));
                                    assert(same_kind(s.nodes@[c as int], self.nodes@[c as int]));
                                    assert(self.has_type_child_named(bnd, name));
                                    let p = (fi as int, gi as int, 0int, ti as int);
                                    assert(decl_in_range(fsmap@, p));
                                    assert(decl_name(fsmap@, p) == name);
                                    assert(batch_fault(self, fsmap@));
                                } else {
                                    assert(batch_item_justified(
                                        s,
                                        fsmap@,
                                        (fi as int, gi as int, 0, ti as int),
                                        c as int,
                                    ));
                                    let p2 = choose|p2: (int, int, int, int)|
                                        {
                                            &&& #[trigger] decl_in_range(fsmap@, p2)
                                            &&& decl_before(
                                                p2,
                                                (fi as int, gi as int, 0, ti as int),
                                            )
                                            &&& (p2.2 == 0 <==> s.nodes@[c as int] is Type)
                                            &&& decl_name(fsmap@, p2) == node_name(
                                                s.nodes@[c as int],
                                            )
                                            &&& {
                                                let b = s.resolve_path(
                                                    s.root,
                                                    decl_segs(fsmap@, p2),
                                                );
                                                b is Some && s.is_edge(b->0, c)
                                            }
                                        };
                                    let b2 = s.resolve_path(s.root, decl_segs(fsmap@, p2))->0;
                                    let k2 = choose|k2: int|
                                        0 <= k2 < s.edges@.len() && #[trigger] s.edges@[k2] == (
                                        b2,
                                        c,
                                        );
                                    assert(k == k2);
                                    assert(b2 == bnd);
                                    lemma_resolve_injective(
                                        s,
                                        s.root,
                                        decl_segs(fsmap@, p2),
                                        split_path_spec(fsmap@[fi as int].0@),
                                    );
                                    let p = (fi as int, gi as int, 0int, ti as int);
                                    assert(decl_in_range(fsmap@, p));
                                    assert(p2 != p);
                                    assert(batch_fault(self, fsmap@));
                                }
                            }
                            return Err(e);
                        },
                    };
                    ns.push(id);
                    proof {
                        assert(before2.nodes@.is_prefix_of(s.nodes@)) by {
                            assert(before2.nodes@ =~= s.nodes@.subrange(
                                0,
                                before2.nodes@.len() as int,
                            ));
                        }
                        assert(before2.edges@.is_prefix_of(s.edges@)) by {
                            assert(before2.edges@ =~= s.edges@.subrange(
                                0,
                                before2.edges@.len() as int,
                            ));
                        }
                        lemma_prefix_extends(before2, s);
                        lemma_extends_trans(self, before2, s);
                        lemma_batch_structure_preserved(before2, s, fsmap@, fi as int);
                        lemma_resolve_preserved(
                            before2,
                            s,
                            before2.root,
                            split_path_spec(fsmap@[fi as int].0@),
                        );
                        lemma_exports_map_preserved(before2, s, fsmap@, exports_map@);
                        lemma_imports_col_preserved(before2, s, fsmap@, imports_col@);
                        assert forall|g2: int| 0 <= g2 < gi implies file_items_present(
                            s,
                            bnd,
                            #[trigger] fsmap@[fi as int].1@[g2],
                        ) by {
                            lemma_file_items_persist(before2, s, bnd, fsmap@[fi as int].1@[g2]);
                        }
                        assert forall|t2: int| 0 <= t2 < ti implies s.has_type_child_named(
                            bnd,
                            ((#[trigger] file.types@[t2]).0)@,
                        ) by {
                            lemma_type_child_persists(before2, s, bnd, file.types@[t2].0@);
                        }
                        assert(s.edges@.last() == (bnd, id));
                        assert(s.edges@[s.edges@.len() - 1] == (bnd, id));
                        assert(s.is_edge(bnd, id));
                        assert(s.has_type_child_named(bnd, file.types@[ti as int].0@));
                        lemma_items_justified_preserved(
                            before2,
                            s,
                            fsmap@,
                            base_n,
                            (fi as int, gi as int, 0, ti as int),
                        );
                        lemma_boundaries_justified_preserved(before2, s, fsmap@, base_n);
                        assert forall|j: int|
                            base_n <= j < s.nodes@.len() && s.nodes@[j] is Boundary implies
                            #[trigger] boundary_on_batch_chain(s, fsmap@, j) by {
                            if j >= before2.nodes@.len() {
                                assert(j == id as int);
                                assert(s.nodes@[j] is Type);
                                assert(false);
                            }
                        }
                        assert forall|j: int|
                            base_n <= j < s.nodes@.len() && !(s.nodes@[j] is Boundary) implies
                            #[trigger] batch_item_justified(
                            s,
                            fsmap@,
                            (fi as int, gi as int, 0, ti as int + 1),
                            j,
                        ) by {
                            if j < before2.nodes@.len() {
                                assert(batch_item_justified(
                                    s,
                                    fsmap@,
                                    (fi as int, gi as int, 0, ti as int),
                                    j,
                                ));
                                let p2 = choose|p2: (int, int, int, int)|
                                    {
                                        &&& #[trigger] decl_in_range(fsmap@, p2)
                                        &&& decl_before(p2, (fi as int, gi as int, 0, ti as int))
                                        &&& (p2.2 == 0 <==> s.nodes@[j] is Type)
                                        &&& decl_name(fsmap@, p2) == node_name(s.nodes@[j])
                                        &&& {
                                            let b = s.resolve_path(s.root, decl_segs(fsmap@, p2));
                                            b is Some && s.is_edge(b->0, j as usize)
                                        }
                                    };
                                assert(decl_before(p2, (fi as int, gi as int, 0, ti as int + 1)));
                            } else {
                                assert(j == id as int);
                                let p = (fi as int, gi as int, 0int, ti as int);
                                assert(decl_in_range(fsmap@, p));
                                assert(decl_before(p, (fi as int, gi as int, 0, ti as int + 1)));
                                assert(decl_name(fsmap@, p) == node_name(s.nodes@[j]));
                            }
                        }
                    }
                    ti += 1;
                }
                proof {
                    lemma_justified_weaken(
                        s,
                        fsmap@,
                        base_n,
                        s.nodes@.len() as int,
                        (fi as int, gi as int, 0, file.types@.len() as int),
                        (fi as int, gi as int, 1, 0),
                    );
                }
                let mut ii: usize = 0;
                while ii < file.impls.len()
                    invariant
                        self.wf(),
                        base_n == self.nodes@.len() as int,
                        s.wf(),
                        extends(self, s),
                        fi < fsmap@.len(),
                        gi < fsmap@[fi as int].1@.len(),
                        ii <= file.impls@.len(),
                        file == &fsmap@[fi as int].1@[gi as int],
                        s.valid_id(bnd),
                        s.node_at(bnd) is Boundary,
                        batch_structure(s, fsmap@, fi as int),
                        s.resolve_path(s.root, split_path_spec(fsmap@[fi as int].0@)) == Some(bnd),
                        forall|g2: int|
                            0 <= g2 < gi ==> file_items_present(
                                s,
                                bnd,
                                #[trigger] fsmap@[fi as int].1@[g2],
                            ),
                        forall|t2: int|
                            0 <= t2 < file.types@.len() ==> s.has_type_child_named(
                                bnd,
                                ((#[trigger] file.types@[t2]).0)@,
                            ),
                        forall|t2: int|
                            0 <= t2 < ii ==> s.has_impl_child_named(
                                bnd,
                                ((#[trigger] file.impls@[t2]).0)@,
                            ),
                        batch_items_justified(
                            s,
                            fsmap@,
                            base_n,
                            s.nodes@.len() as int,
                            (fi as int, gi as int, 1, ii as int),
                        ),
                        batch_boundaries_justified(s, fsmap@, base_n, s.nodes@.len() as int),
                        exports_map_ok(s, fsmap@, exports_map@),
                        imports_col_ok(s, fsmap@, imports_col@),
                        forall|q: int|
                            0 <= q < exports_map@.len() ==> #[trigger] slot_names(
                                exports_map@,
                                q,
                            ).len() > 0,
                        forall|q: int|
                            0 <= q < imports_col@.len() ==> #[trigger] slot_imports(
                                imports_col@,
                                q,
                            ).len() > 0,
                        forall|w: int| 0 <= w < ns@.len() ==> s.valid_id(#[trigger] ns@[w]),
                        forall|q: int|
                            0 <= q < imports_col@.len() ==> (forall|w: int|
                                0 <= w < (#[trigger] imports_col@[q]).2@.len() ==> s.valid_id(
                                    #[trigger] imports_col@[q].2@[w],
                                )),
                    decreases file.impls@.len() - ii,
                {
                    let ghost before2 = s;
                    let id = match s.add_impl(bnd, file.impls[ii].0.as_str()) {
                        Ok(i) => i,
                        Err(e) => {
                            proof {
                                let ghost name = file.impls@[ii as int].0@;
                                let c = choose|c: usize|
                                    #[trigger] s.is_edge(bnd, c) && s.valid_id(c) && s.node_at(
                                        c,
                                    ) is Impl && node_name(s.node_at(c)) == name;
                                let k = choose|k: int|
                                    0 <= k < s.edges@.len() && #[trigger] s.edges@[k] == (bnd, c);
                                if (c as int) < base_n {
                                    assert(k < self.edges@.len());
                                    assert(self.edges@ =~= s.edges@.subrange(
                                        0,
                                        self.edges@.len() as int,
                                    ));
                                    assert(self.edges@[k] == (bnd, c));
                                    assert(edge_ok(self.nodes@, self.edges@[k]));
                                    lemma_resolve_restrict(
                                        self,
                                        s,
                                        s.root,
                                        split_path_spec(fsmap@[fi as int].0@),
                                        bnd,
                                    );
                                    assert(self.is_edge(bnd, c));
                                    assert(same_kind(s.nodes@[c as int], self.nodes@[c as int]));
                                    assert(self.has_impl_child_named(bnd, name));
                                    let p = (fi as int, gi as int, 1int, ii as int);
                                    assert(decl_in_range(fsmap@, p));
                                    assert(decl_name(fsmap@, p) == name);
                                    assert(batch_fault(self, fsmap@));
                                } else {
                                    assert(batch_item_justified(
                                        s,
                                        fsmap@,
                                        (fi as int, gi as int, 1, ii as int),
                                        c as int,
                                    ));
                                    let p2 = choose|p2: (int, int, int, int)|
                                        {
                                            &&& #[trigger] decl_in_range(fsmap@, p2)
                                            &&& decl_before(
                                                p2,
                                                (fi as int, gi as int, 1, ii as int),
                                            )
                                            &&& (p2.2 == 0 <==> s.nodes@[c as int] is Type)
                                            &&& decl_name(fsmap@, p2) == node_name(
                                                s.nodes@[c as int],
                                            )
                                            &&& {
                                                let b = s.resolve_path(
                                                    s.root,
                                                    decl_segs(fsmap@, p2),
                                                );
                                                b is Some && s.is_edge(b->0, c)
                                            }
                                        };
                                    let b2 = s.resolve_path(s.root, decl_segs(fsmap@, p2))->0;
                                    let k2 = choose|k2: int|
                                        0 <= k2 < s.edges@.len() && #[trigger] s.edges@[k2] == (
                                        b2,
                                        c,
                                        );
                                    assert(k == k2);
                                    assert(b2 == bnd);
                                    lemma_resolve_injective(
                                        s,
                                        s.root,
                                        decl_segs(fsmap@, p2),
                                        split_path_spec(fsmap@[fi as int].0@),
                                    );
                                    let p = (fi as int, gi as int, 1int, ii as int);
                                    assert(decl_in_range(fsmap@, p));
                                    assert(p2 != p);
                                    assert(batch_fault(self, fsmap@));
                                }
                            }
                            return Err(e);
                        },
                    };
                    ns.push(id);
                    proof {
                        assert(before2.nodes@.is_prefix_of(s.nodes@)) by {
                            assert(before2.nodes@ =~= s.nodes@.subrange(
                                0,
                                before2.nodes@.len() as int,
                            ));
                        }
                        assert(before2.edges@.is_prefix_of(s.edges@)) by {
                            assert(before2.edges@ =~= s.edges@.subrange(
                                0,
                                before2.edges@.len() as int,
                            ));
                        }
                        lemma_prefix_extends(before2, s);
                        lemma_extends_trans(self, before2, s);
                        lemma_batch_structure_preserved(before2, s, fsmap@, fi as int);
                        lemma_resolve_preserved(
                            before2,
                            s,
                            before2.root,
                            split_path_spec(fsmap@[fi as int].0@),
                        );
                        lemma_exports_map_preserved(before2, s, fsmap@, exports_map@);
                        lemma_imports_col_preserved(before2, s, fsmap@, imports_col@);
                        assert forall|g2: int| 0 <= g2 < gi implies file_items_present(
                            s,
                            bnd,
                            #[trigger] fsmap@[fi as int].1@[g2],
                        ) by {
                            lemma_file_items_persist(before2, s, bnd, fsmap@[fi as int].1@[g2]);
                        }
                        assert forall|t2: int|
                            0 <= t2 < file.types@.len() implies s.has_type_child_named(
                            bnd,
                            ((#[trigger] file.types@[t2]).0)@,
                        ) by {
                            lemma_type_child_persists(before2, s, bnd, file.types@[t2].0@);
                        }
                        assert forall|t2: int| 0 <= t2 < ii implies s.has_impl_child_named(
                            bnd,
                            ((#[trigger] file.impls@[t2]).0)@,
                        ) by {
                            lemma_impl_child_persists(before2, s, bnd, file.impls@[t2].0@);
                        }
                        assert(s.edges@.last() == (bnd, id));
                        assert(s.edges@[s.edges@.len() - 1] == (bnd, id));
                        assert(s.is_edge(bnd, id));
                        assert(s.has_impl_child_named(bnd, file.impls@[ii as int].0@));
                        lemma_items_justified_preserved(
                            before2,
                            s,
                            fsmap@,
                            base_n,
                            (fi as int, gi as int, 1, ii as int),
                        );
                        lemma_boundaries_justified_preserved(before2, s, fsmap@, base_n);
                        assert forall|j: int|
                            base_n <= j < s.nodes@.len() && s.nodes@[j] is Boundary implies
                            #[trigger] boundary_on_batch_chain(s, fsmap@, j) by {
                            if j >= before2.nodes@.len() {
                                assert(j == id as int);
                                assert(s.nodes@[j] is Impl);
                                assert(false);
                            }
                        }
                        assert forall|j: int|
                            base_n <= j < s.nodes@.len() && !(s.nodes@[j] is Boundary) implies
                            #[trigger] batch_item_justified(
                            s,
                            fsmap@,
                            (fi as int, gi as int, 1, ii as int + 1),
                            j,
                        ) by {
                            if j < before2.nodes@.len() {
                                assert(batch_item_justified(
                                    s,
                                    fsmap@,
                                    (fi as int, gi as int, 1, ii as int),
                                    j,
                                ));
                                let p2 = choose|p2: (int, int, int, int)|
                                    {
                                        &&& #[trigger] decl_in_range(fsmap@, p2)
                                        &&& decl_before(p2, (fi as int, gi as int, 1, ii as int))
                                        &&& (p2.2 == 0 <==> s.nodes@[j] is Type)
                                        &&& decl_name(fsmap@, p2) == node_name(s.nodes@[j])
                                        &&& {
                                            let b = s.resolve_path(s.root, decl_segs(fsmap@, p2));
                                            b is Some && s.is_edge(b->0, j as usize)
                                        }
                                    };
                                assert(decl_before(p2, (fi as int, gi as int, 1, ii as int + 1)));
                            } else {
                                assert(j == id as int);
                                let p = (fi as int, gi as int, 1int, ii as int);
                                assert(decl_in_range(fsmap@, p));
                                assert(decl_before(p, (fi as int, gi as int, 1, ii as int + 1)));
                                assert(decl_name(fsmap@, p) == node_name(s.nodes@[j]));
                            }
                        }
                    }
                    ii += 1;
                }
                let ghost pre_ic = imports_col@;
                if ns.len() > 0 && imps.len() > 0 {
                    imports_col.push((bnd, imps, ns));
                    proof {
                        assert forall|q2: int, w: int|
                            0 <= q2 < imports_col@.len() && 0 <= w < slot_imports(
                                imports_col@,
                                q2,
                            ).len() implies #[trigger] import_entry_ok(
                            s,
                            fsmap@,
                            imports_col@,
                            q2,
                            w,
                        ) by {
                            if q2 < imports_col@.len() - 1 {
                                assert(imports_col@[q2] == pre_ic[q2]);
                                assert(slot_imports(imports_col@, q2) == slot_imports(
                                    pre_ic,
                                    q2,
                                ));
                                assert(import_entry_ok(s, fsmap@, pre_ic, q2, w));
                            } else {
                                assert(file_import_at(
                                    fsmap@[fi as int].1@[gi as int],
                                    import_path_views(slot_imports(imports_col@, q2)[w]),
                                    slot_imports(imports_col@, q2)[w].glob@,
                                ));
                            }
                        }
                        assert forall|q2: int|
                            0 <= q2 < imports_col@.len() implies #[trigger] slot_imports(
                            imports_col@,
                            q2,
                        ).len() > 0 by {
                            if q2 < imports_col@.len() - 1 {
                                assert(slot_imports(imports_col@, q2) == slot_imports(
                                    pre_ic,
                                    q2,
                                ));
                            }
                        }
                        assert forall|q2: int|
                            0 <= q2 < imports_col@.len() implies (forall|w: int|
                            0 <= w < (#[trigger] imports_col@[q2]).2@.len() ==> s.valid_id(
                                #[trigger] imports_col@[q2].2@[w],
                            )) by {
                            if q2 < imports_col@.len() - 1 {
                                assert(imports_col@[q2] == pre_ic[q2]);
                            }
                        }
                    }
                }
                proof {
                    assert(file_items_present(s, bnd, *file));
                    assert forall|g2: int| 0 <= g2 < gi + 1 implies file_items_present(
                        s,
                        bnd,
                        #[trigger] fsmap@[fi as int].1@[g2],
                    ) by {
                        if g2 == gi {
                            assert(fsmap@[fi as int].1@[g2] == *file);
                        }
                    }
                    lemma_justified_weaken(
                        s,
                        fsmap@,
                        base_n,
                        s.nodes@.len() as int,
                        (fi as int, gi as int, 1, file.impls@.len() as int),
                        (fi as int, gi as int + 1, 0, 0),
                    );
                }
                gi += 1;
            }
            proof {
                assert(batch_structure(s, fsmap@, fi + 1)) by {
                    assert forall|f2: int| 0 <= f2 < fi + 1 implies {
                        let b = s.resolve_path(s.root, split_path_spec((#[trigger] fsmap@[f2]).0@));
                        &&& b is Some
                        &&& forall|g2: int|
                            0 <= g2 < fsmap@[f2].1@.len() ==> file_items_present(
                                s,
                                b->0,
                                #[trigger] fsmap@[f2].1@[g2],
                            )
                    } by {
                        if f2 == fi {
                            assert(s.resolve_path(
                                s.root,
                                split_path_spec(fsmap@[f2].0@),
                            ) == Some(bnd));
                        }
                    }
                }
                lemma_justified_weaken(
                    s,
                    fsmap@,
                    base_n,
                    s.nodes@.len() as int,
                    (fi as int, fsmap@[fi as int].1@.len() as int, 0, 0),
                    (fi as int + 1, 0, 0, 0),
                );
            }
            fi += 1;
        }
        // Phase 2: resolve and store every boundary's buffered exports.
        let ghost nn = fsmap@.len() as int;
        let mut q: usize = 0;
        while q < exports_map.len()
            invariant
                self.wf(),
                base_n == self.nodes@.len() as int,
                nn == fsmap@.len() as int,
                s.wf(),
                extends(self, s),
                q <= exports_map@.len(),
                fsmap@.len() == 0 ==> s == self && exports_map@.len() == 0 && imports_col@.len()
                    == 0,
                batch_structure(s, fsmap@, nn),
                batch_items_justified(s, fsmap@, base_n, s.nodes@.len() as int, (nn, 0, 0, 0)),
                batch_boundaries_justified(s, fsmap@, base_n, s.nodes@.len() as int),
                exports_map_ok(s, fsmap@, exports_map@),
                imports_col_ok(s, fsmap@, imports_col@),
                forall|q2: int|
                    0 <= q2 < exports_map@.len() ==> #[trigger] slot_names(
                        exports_map@,
                        q2,
                    ).len() > 0,
                forall|q2: int|
                    0 <= q2 < imports_col@.len() ==> #[trigger] slot_imports(
                        imports_col@,
                        q2,
                    ).len() > 0,
                forall|q2: int|
                    0 <= q2 < imports_col@.len() ==> (forall|w: int|
                        0 <= w < (#[trigger] imports_col@[q2]).2@.len() ==> s.valid_id(
                            #[trigger] imports_col@[q2].2@[w],
                        )),
            decreases exports_map@.len() - q,
        {
            let ghost before = s;
            let pair = &exports_map[q];
            proof {
                assert(export_entry_ok(s, fsmap@, exports_map@, q as int, 0));
            }
            match s.add_exports(pair.0, &pair.1) {
                Ok(_) => {},
                Err(e) => {
                    proof {
                        let k = choose|k: int|
                            0 <= k < pair.1@.len() && first_export_match(
                                before.nodes@,
                                before.edges@,
                                pair.0,
                                ((#[trigger] pair.1@[k])@),
                            ) is None && e.desc@ == export_not_found_desc(pair.1@[k]@);
                        let ename = pair.1@[k]@;
                        assert(export_entry_ok(s, fsmap@, exports_map@, q as int, k));
                        let (fi2, gi2) = choose|fi2: int, gi2: int|
                            0 <= fi2 < fsmap@.len() && 0 <= gi2 < fsmap@[fi2].1@.len()
                                && #[trigger] file_exports_name(
                                fsmap@[fi2].1@[gi2],
                                (slot_names(exports_map@, q as int)[k])@,
                            ) && s.resolve_path(s.root, split_path_spec(fsmap@[fi2].0@)) == Some(
                                exports_map@[q as int].0,
                            );
                        lemma_export_match_none(before.nodes@, before.edges@, pair.0, ename);
                        assert(!(exists|p: (int, int, int, int)|
                            #[trigger] decl_in_range(fsmap@, p) && decl_segs(fsmap@, p)
                                == split_path_spec(fsmap@[fi2].0@) && decl_name(fsmap@, p)
                                == ename)) by {
                            if exists|p: (int, int, int, int)|
                                #[trigger] decl_in_range(fsmap@, p) && decl_segs(fsmap@, p)
                                    == split_path_spec(fsmap@[fi2].0@) && decl_name(fsmap@, p)
                                    == ename {
                                let p = choose|p: (int, int, int, int)|
                                    #[trigger] decl_in_range(fsmap@, p) && decl_segs(fsmap@, p)
                                        == split_path_spec(fsmap@[fi2].0@) && decl_name(fsmap@, p)
                                        == ename;
                                assert(file_items_present(
                                    s,
                                    s.resolve_path(
                                        s.root,
                                        split_path_spec(fsmap@[p.0].0@),
                                    )->0,
                                    fsmap@[p.0].1@[p.1],
                                ));
                                assert(s.resolve_path(s.root, split_path_spec(fsmap@[p.0].0@))
                                    == Some(pair.0));
                                if p.2 == 0 {
                                    assert(s.has_type_child_named(pair.0, ename));
                                    let c = choose|c: usize|
                                        #[trigger] s.is_edge(pair.0, c) && s.valid_id(c)
                                            && s.node_at(c) is Type && node_name(s.node_at(c))
                                            == ename;
                                    let t = choose|t: int|
                                        0 <= t < s.edges@.len() && #[trigger] s.edges@[t] == (
                                        pair.0,
                                        c,
                                        );
                                    assert(false);
                                } else {
                                    assert(s.has_impl_child_named(pair.0, ename));
                                    let c = choose|c: usize|
                                        #[trigger] s.is_edge(pair.0, c) && s.valid_id(c)
                                            && s.node_at(c) is Impl && node_name(s.node_at(c))
                                            == ename;
                                    let t = choose|t: int|
                                        0 <= t < s.edges@.len() && #[trigger] s.edges@[t] == (
                                        pair.0,
                                        c,
                                        );
                                    assert(false);
                                }
                            }
                        }
                        assert(!({
                            let b = self.resolve_path(
                                self.root,
                                split_path_spec(fsmap@[fi2].0@),
                            );
                            b is Some && first_export_match(
                                self.nodes@,
                                self.edges@,
                                b->0,
                                ename,
                            ) is Some
                        })) by {
                            let b = self.resolve_path(self.root, split_path_spec(fsmap@[fi2].0@));
                            if b is Some && first_export_match(
                                self.nodes@,
                                self.edges@,
                                b->0,
                                ename,
                            ) is Some {
                                lemma_resolve_preserved(
                                    self,
                                    s,
                                    self.root,
                                    split_path_spec(fsmap@[fi2].0@),
                                );
                                assert(b->0 == pair.0);
                                lemma_export_match_props(
                                    self.nodes@,
                                    self.edges@,
                                    b->0,
                                    ename,
                                );
                                let c = first_export_match(
                                    self.nodes@,
                                    self.edges@,
                                    b->0,
                                    ename,
                                )->0;
                                let t = choose|t: int|
                                    0 <= t < self.edges@.len() && #[trigger] self.edges@[t] == (
                                    b->0,
                                    c,
                                    ) && (c as int) < self.nodes@.len() && !(self.nodes@[c as int]
                                        is Boundary) && node_name(self.nodes@[c as int]) == ename;
                                assert(self.edges@ =~= s.edges@.subrange(
                                    0,
                                    self.edges@.len() as int,
                                ));
                                assert(s.edges@[t] == (pair.0, c));
                                assert(same_kind(s.nodes@[c as int], self.nodes@[c as int]));
                                assert(node_name(s.nodes@[c as int]) == node_name(
                                    self.nodes@[c as int],
                                ));
                                assert(false);
                            }
                        }
                        assert(batch_fault(self, fsmap@));
                    }
                    return Err(e);
                },
            }
            proof {
                assert(extends(before, s)) by {
                    assert(before.edges@ =~= s.edges@.subrange(0, before.edges@.len() as int));
                    assert forall|j: int| 0 <= j < before.nodes@.len() implies same_kind(
                        #[trigger] s.nodes@[j],
                        before.nodes@[j],
                    ) && node_name(s.nodes@[j]) == node_name(before.nodes@[j]) by {
                        if j != pair.0 {
                            assert(s.nodes@[j] == before.nodes@[j]);
                        }
                    }
                }
                lemma_extends_trans(self, before, s);
                lemma_batch_structure_preserved(before, s, fsmap@, nn);
                lemma_exports_map_preserved(before, s, fsmap@, exports_map@);
                lemma_imports_col_preserved(before, s, fsmap@, imports_col@);
                lemma_items_justified_preserved(before, s, fsmap@, base_n, (nn, 0, 0, 0));
                lemma_boundaries_justified_preserved(before, s, fsmap@, base_n);
            }
            q += 1;
        }
        // Phase 3: resolve each file's imports and attach the shared list
        // to the nodes the file declared.
        let mut q2: usize = 0;
        while q2 < imports_col.len()
            invariant
                self.wf(),
                base_n == self.nodes@.len() as int,
                nn == fsmap@.len() as int,
                s.wf(),
                extends(self, s),
                q2 <= imports_col@.len(),
                fsmap@.len() == 0 ==> s == self && imports_col@.len() == 0,
                batch_structure(s, fsmap@, nn),
                batch_items_justified(s, fsmap@, base_n, s.nodes@.len() as int, (nn, 0, 0, 0)),
                batch_boundaries_justified(s, fsmap@, base_n, s.nodes@.len() as int),
                imports_col_ok(s, fsmap@, imports_col@),
                forall|u: int|
                    0 <= u < imports_col@.len() ==> #[trigger] slot_imports(
                        imports_col@,
                        u,
                    ).len() > 0,
                forall|u: int|
                    0 <= u < imports_col@.len() ==> (forall|w: int|
                        0 <= w < (#[trigger] imports_col@[u]).2@.len() ==> s.valid_id(
                            #[trigger] imports_col@[u].2@[w],
                        )),
            decreases imports_col@.len() - q2,
        {
            let ghost before = s;
            let trip = &imports_col[q2];
            proof {
                assert(import_entry_ok(s, fsmap@, imports_col@, q2 as int, 0));
            }
            match s.add_imports(trip.0, &trip.1, &trip.2) {
                Ok(_) => {},
                Err(e) => {
                    proof {
                        let k = choose|k: int|
                            0 <= k < trip.1@.len() && !import_ok(
                                before,
                                trip.0,
                                #[trigger] trip.1@[k],
                            );
                        assert(import_entry_ok(s, fsmap@, imports_col@, q2 as int, k));
                        let (fi2, gi2) = choose|fi2: int, gi2: int|
                            0 <= fi2 < fsmap@.len() && 0 <= gi2 < fsmap@[fi2].1@.len()
                                && #[trigger] file_import_at(
                                fsmap@[fi2].1@[gi2],
                                import_path_views(slot_imports(imports_col@, q2 as int)[k]),
                                slot_imports(imports_col@, q2 as int)[k].glob@,
                            ) && s.resolve_path(s.root, split_path_spec(fsmap@[fi2].0@)) == Some(
                                imports_col@[q2 as int].0,
                            );
                        let pv = import_path_views(trip.1@[k]);
                        let gv = trip.1@[k].glob@;
                        if !(0 < gv.len() <= MAX_GLOB_LEN && glob_valid(gv)) {
                            assert(batch_fault(self, fsmap@));
                        } else {
                            assert(before.resolve_path(trip.0, pv) is None);
                            assert(pv.len() > 0);
                            assert(!({
                                let b = self.resolve_path(
                                    self.root,
                                    split_path_spec(fsmap@[fi2].0@),
                                );
                                b is Some && self.resolve_path(b->0, pv) is Some
                            })) by {
                                let b = self.resolve_path(
                                    self.root,
                                    split_path_spec(fsmap@[fi2].0@),
                                );
                                if b is Some && self.resolve_path(b->0, pv) is Some {
                                    lemma_resolve_preserved(
                                        self,
                                        s,
                                        self.root,
                                        split_path_spec(fsmap@[fi2].0@),
                                    );
                                    assert(b->0 == trip.0);
                                    lemma_resolve_preserved(self, s, b->0, pv);
                                    assert(false);
                                }
                            }
                            assert(batch_fault(self, fsmap@));
                        }
                    }
                    return Err(e);
                },
            }
            proof {
                assert(extends(before, s)) by {
                    assert(before.edges@ =~= s.edges@.subrange(0, before.edges@.len() as int));
                }
                lemma_extends_trans(self, before, s);
                lemma_batch_structure_preserved(before, s, fsmap@, nn);
                lemma_imports_col_preserved(before, s, fsmap@, imports_col@);
                lemma_items_justified_preserved(before, s, fsmap@, base_n, (nn, 0, 0, 0));
                lemma_boundaries_justified_preserved(before, s, fsmap@, base_n);
            }
            q2 += 1;
        }
        Ok(s)
    }
}

} // verus!
