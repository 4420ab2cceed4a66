use vstd::prelude::*;
use vstd::string::*;

use crate::graphs::directed::fresh_edge_id;
use crate::graphs::graph::{
    adjacency_view, ids_after_insert, ids_of, position_of_id, unique_ids, Graph, GraphEdge, Node,
};

verus! {

/// An undirected graph: each edge is walked from either of its two nodes.
#[derive(Debug)]
pub struct UndirectedGraph {
    pub nodes: Vec<Node>,
    pub edges: Vec<UndirectedEdge>,
}

/// Whether an edge joins `a` and `b`, in either order.
pub open spec fn joins(e: UndirectedEdge, a: Seq<char>, b: Seq<char>) -> bool {
    (e.a_node@ == a && e.b_node@ == b) || (e.a_node@ == b && e.b_node@ == a)
}

/// Whether some edge joins `a` and `b`, in either order.
pub open spec fn has_undirected_edge(edges: Seq<UndirectedEdge>, a: Seq<char>, b: Seq<char>) -> bool {
    exists|i: int| 0 <= i < edges.len() && joins(edges[i], a, b)
}

/// The other nodes and weights of the edges that touch `u`, in edge order.
pub open spec fn undirected_adjacent(edges: Seq<UndirectedEdge>, u: Seq<char>) -> Seq<(Seq<char>, u16)>
    decreases edges.len(),
{
    if edges.len() == 0 {
        Seq::empty()
    } else {
        let rest = undirected_adjacent(edges.drop_last(), u);
        let e = edges.last();
        if e.a_node@ == u {
            rest.push((e.b_node@, e.weight))
        } else if e.b_node@ == u {
            rest.push((e.a_node@, e.weight))
        } else {
            rest
        }
    }
}

/// Message of the error for an edge whose endpoints are already joined.
pub open spec fn undirected_duplicate_message(a: Seq<char>, b: Seq<char>) -> Seq<char> {
    "The edge "@ + a + "-"@ + b + " already exists in the graph!"@
}

/// Message of the error for an edge with an endpoint that is not a node of the graph.
pub open spec fn undirected_missing_node_message(a: Seq<char>, b: Seq<char>) -> Seq<char> {
    "One of the or both nodes in the edge "@ + a + "-"@ + b + " aren't part of the graph!"@
}

/// The neighbors of `u` are exactly the other nodes of the edges that touch `u`, whichever way
/// round the edge was stored, with their weights.
pub proof fn lemma_undirected_neighbors(edges: Seq<UndirectedEdge>, u: Seq<char>, v: Seq<char>, w: u16)
    ensures
        undirected_adjacent(edges, u).contains((v, w)) <==> exists|i: int|
            0 <= i < edges.len() && joins(edges[i], u, v) && edges[i].weight == w,
    decreases edges.len(),
{
    if edges.len() > 0 {
        let rest = edges.drop_last();
        lemma_undirected_neighbors(rest, u, v, w);
        let e = edges.last();
        let last = edges.len() - 1;
        let adj = undirected_adjacent(edges, u);
        let adj_rest = undirected_adjacent(rest, u);
        if adj.contains((v, w)) {
            if adj_rest.contains((v, w)) {
                let i = choose|i: int| 0 <= i < rest.len() && joins(rest[i], u, v) && rest[i].weight == w;
                assert(edges[i] == rest[i]);
            } else {
                let k = choose|k: int| 0 <= k < adj.len() && adj[k] == (v, w);
                assert(k == adj_rest.len());
                assert(edges[last] == e);
                assert(joins(edges[last], u, v));
            }
        }
        if exists|i: int| 0 <= i < edges.len() && joins(edges[i], u, v) && edges[i].weight == w {
            let i = choose|i: int| 0 <= i < edges.len() && joins(edges[i], u, v) && edges[i].weight == w;
            if i < last {
                assert(rest[i] == edges[i]);
                let k = choose|k: int| 0 <= k < adj_rest.len() && adj_rest[k] == (v, w);
                assert(adj[k] == (v, w));
            } else {
                assert(adj.last() == (v, w));
            }
        }
    }
}

impl UndirectedGraph {
    /// Creates a graph from its nodes and edges.
    pub fn new(nodes: Vec<Node>, edges: Vec<UndirectedEdge>) -> (r: Self)
        ensures
            r.nodes == nodes,
            r.edges == edges,
    {
        Self { nodes, edges }
    }
}

impl Default for UndirectedGraph {
    /// A graph with no nodes and no edges.
    fn default() -> (r: Self)
        ensures
            r.nodes@.len() == 0,
            r.edges@.len() == 0,
            r.wf(),
    {
        Self::new(Vec::new(), Vec::new())
    }
}

impl Graph for UndirectedGraph {
    type Edge = UndirectedEdge;

    type InsertionError = UndirectedGraphInsertionError;

    open spec fn node_ids(&self) -> Seq<Seq<char>> {
        ids_of(self.nodes@)
    }

    open spec fn adjacent(&self, u: Seq<char>) -> Seq<(Seq<char>, u16)> {
        undirected_adjacent(self.edges@, u)
    }

    open spec fn wf(&self) -> bool {
        &&& unique_ids(ids_of(self.nodes@))
        &&& forall|i: int|
            0 <= i < self.edges@.len() ==> ids_of(self.nodes@).contains(#[trigger] self.edges@[i].a_node@)
                && ids_of(self.nodes@).contains(self.edges@[i].b_node@)
        &&& forall|i: int, j: int|
            0 <= i < self.edges@.len() && 0 <= j < self.edges@.len() && i != j ==> !joins(
                #[trigger] self.edges@[i],
                self.edges@[j].a_node@,
                #[trigger] self.edges@[j].b_node@,
            )
    }

    proof fn lemma_unique_ids(&self) {
    }

    open spec fn spec_is_directed(&self) -> bool {
        false
    }

    open spec fn spec_is_weighted(&self) -> bool {
        true
    }

    fn neighbors(&self, u: &Node) -> (r: Vec<(Node, u16)>) {
        let mut out: Vec<(Node, u16)> = Vec::new();
        let mut i: usize = 0;
        while i < self.edges.len()
            invariant
                i <= self.edges@.len(),
                adjacency_view(out@) == undirected_adjacent(self.edges@.subrange(0, i as int), u@),
                self.wf() ==> forall|k: int|
                    0 <= k < out@.len() ==> self.node_ids().contains(#[trigger] out@[k].0@),
            decreases self.edges@.len() - i,
        {
            let e = &self.edges[i];
            let ghost before = out@;
            proof {
                if self.wf() {
                    assert(ids_of(self.nodes@).contains(self.edges@[i as int].a_node@));
                }
            }
            if e.a_node.id == u.id {
                out.push((e.b_node.duplicate(), e.weight));
                assert(adjacency_view(out@) =~= adjacency_view(before).push((e.b_node@, e.weight)));
                assert(out@[out@.len() - 1].0@ == self.edges@[i as int].b_node@);
                assert(forall|k: int| 0 <= k < before.len() ==> out@[k] == before[k]);
            } else if e.b_node.id == u.id {
                out.push((e.a_node.duplicate(), e.weight));
                assert(adjacency_view(out@) =~= adjacency_view(before).push((e.a_node@, e.weight)));
                assert(out@[out@.len() - 1].0@ == self.edges@[i as int].a_node@);
                assert(forall|k: int| 0 <= k < before.len() ==> out@[k] == before[k]);
            }
            assert(self.edges@.subrange(0, i + 1).drop_last() =~= self.edges@.subrange(0, i as int));
            i += 1;
        }
        assert(self.edges@.subrange(0, i as int) =~= self.edges@);
        out
    }

    fn is_directed(&self) -> (r: bool) {
        false
    }

    fn insert_node(&mut self, new_node: Node)
        ensures
            final(self).edges@ == old(self).edges@,
            old(self).node_ids().contains(new_node@) ==> final(self).nodes@ == old(self).nodes@,
            !old(self).node_ids().contains(new_node@) ==> final(self).nodes@ == old(
                self,
            ).nodes@.push(new_node),
    {
        if self.does_node_already_exist(&new_node) {
            return;
        }
        self.nodes.push(new_node);
        assert(ids_of(self.nodes@) =~= ids_of(old(self).nodes@).push(new_node@));
        proof {
            if old(self).wf() {
                let ids = ids_of(self.nodes@);
                let old_ids = ids_of(old(self).nodes@);
                assert forall|i: int| 0 <= i < self.edges@.len() implies ids.contains(
                    #[trigger] self.edges@[i].a_node@,
                ) && ids.contains(self.edges@[i].b_node@) by {
                    assert(old_ids.contains(old(self).edges@[i].a_node@));
                    assert(old_ids.contains(old(self).edges@[i].b_node@));
                    let a = choose|a: int| 0 <= a < old_ids.len() && old_ids[a] == self.edges@[i].a_node@;
                    let b = choose|b: int| 0 <= b < old_ids.len() && old_ids[b] == self.edges@[i].b_node@;
                    assert(ids[a] == self.edges@[i].a_node@);
                    assert(ids[b] == self.edges@[i].b_node@);
                }
            }
        }
    }

    fn insert_edge(&mut self, edge: UndirectedEdge) -> (r: Option<UndirectedGraphInsertionError>)
        ensures
            final(self).nodes@ == old(self).nodes@,
            r is None <==> !has_undirected_edge(old(self).edges@, edge.a_node@, edge.b_node@)
                && old(self).node_ids().contains(edge.a_node@) && old(self).node_ids().contains(
                edge.b_node@,
            ),
            r is None ==> final(self).edges@ == old(self).edges@.push(edge),
            r is Some ==> final(self).edges@ == old(self).edges@,
            r matches Some(e) ==> if has_undirected_edge(old(self).edges@, edge.a_node@, edge.b_node@) {
                e.message@ == undirected_duplicate_message(edge.a_node@, edge.b_node@)
            } else {
                e.message@ == undirected_missing_node_message(edge.a_node@, edge.b_node@)
            },
    {
        if self.does_edge_already_exist(&edge) {
            let mut m = String::from_str("The edge ");
            m.append(edge.a_node.id.as_str());
            m.append("-");
            m.append(edge.b_node.id.as_str());
            m.append(" already exists in the graph!");
            return Some(UndirectedGraphInsertionError::new(m));
        }
        if !self.does_node_already_exist(&edge.a_node) || !self.does_node_already_exist(&edge.b_node) {
            let mut m = String::from_str("One of the or both nodes in the edge ");
            m.append(edge.a_node.id.as_str());
            m.append("-");
            m.append(edge.b_node.id.as_str());
            m.append(" aren't part of the graph!");
            return Some(UndirectedGraphInsertionError::new(m));
        }
        self.edges.push(edge);
        proof {
            if old(self).wf() {
                let last = self.edges@.len() - 1;
                let olde = old(self).edges@;
                assert forall|i: int, j: int|
                    0 <= i < self.edges@.len() && 0 <= j < self.edges@.len() && i != j implies !joins(
                    #[trigger] self.edges@[i],
                    self.edges@[j].a_node@,
                    #[trigger] self.edges@[j].b_node@,
                ) by {
                    if i < last && j < last {
                        assert(self.edges@[i] == olde[i]);
                        assert(self.edges@[j] == olde[j]);
                        assert(!joins(olde[i], olde[j].a_node@, olde[j].b_node@));
                    } else if i == last {
                        assert(self.edges@[j] == olde[j]);
                        assert(!joins(olde[j], edge.a_node@, edge.b_node@));
                    } else {
                        assert(self.edges@[i] == olde[i]);
                        assert(!joins(olde[i], edge.a_node@, edge.b_node@));
                    }
                }
                assert forall|i: int| 0 <= i < self.edges@.len() implies ids_of(
                    self.nodes@,
                ).contains(#[trigger] self.edges@[i].a_node@) && ids_of(self.nodes@).contains(
                    self.edges@[i].b_node@,
                ) by {
                    if i < last {
                        assert(self.edges@[i] == olde[i]);
                        assert(ids_of(self.nodes@).contains(olde[i].a_node@));
                    }
                }
            }
        }
        None
    }

    fn does_edge_already_exist(&self, edge: &UndirectedEdge) -> (r: bool)
        ensures
            r == has_undirected_edge(self.edges@, edge.a_node@, edge.b_node@),
    {
        let mut i: usize = 0;
        while i < self.edges.len()
            invariant
                i <= self.edges@.len(),
                forall|j: int| 0 <= j < i ==> !joins(self.edges@[j], edge.a_node@, edge.b_node@),
            decreases self.edges@.len() - i,
        {
            let e = &self.edges[i];
            if (e.a_node.id == edge.a_node.id && e.b_node.id == edge.b_node.id) || (e.b_node.id
                == edge.a_node.id && e.a_node.id == edge.b_node.id) {
                return true;
            }
            i += 1;
        }
        false
    }

    fn does_node_already_exist(&self, node: &Node) -> (r: bool) {
        position_of_id(&self.nodes, &node.id).is_some()
    }

    fn get_edge_by_id(&self, id: u128) -> (r: Option<UndirectedEdge>)
        ensures
            r is Some <==> exists|i: int| 0 <= i < self.edges@.len() && self.edges@[i].id == id,
            r matches Some(e) ==> e.id == id && exists|i: int|
                0 <= i < self.edges@.len() && self.edges@[i] == e && forall|j: int|
                    0 <= j < i ==> self.edges@[j].id != id,
    {
        let mut i: usize = 0;
        while i < self.edges.len()
            invariant
                i <= self.edges@.len(),
                forall|j: int| 0 <= j < i ==> self.edges@[j].id != id,
            decreases self.edges@.len() - i,
        {
            if self.edges[i].id == id {
                let e = self.edges[i].duplicate();
                assert(self.edges@[i as int] == e);
                return Some(e);
            }
            i += 1;
        }
        None
    }

    fn get_node_by_id(&self, id: &str) -> (r: Option<Node>) {
        let key = id.to_owned();
        match position_of_id(&self.nodes, &key) {
            Some(i) => Some(self.nodes[i].duplicate()),
            None => None,
        }
    }

    fn get_all_nodes(&self) -> (r: &Vec<Node>) {
        &self.nodes
    }

    fn is_weighted(&self) -> (r: bool) {
        true
    }
}

/// An edge of an undirected graph, walked from either node to the other.
#[derive(Clone, PartialEq, Debug)]
pub struct UndirectedEdge {
    /// One node of the edge.
    pub a_node: Node,
    /// The other node of the edge.
    pub b_node: Node,
    /// The cost of walking along the edge.
    pub weight: u16,
    /// The edge's own id, drawn when the edge is created.
    pub id: u128,
}

impl UndirectedEdge {
    /// Creates an edge with a fresh id.
    pub fn new(a_node: Node, b_node: Node, weight: u16) -> (r: Self)
        ensures
            r.a_node == a_node,
            r.b_node == b_node,
            r.weight == weight,
    {
        Self { a_node, b_node, weight, id: fresh_edge_id() }
    }

    /// A copy of this edge, id included.
    pub fn duplicate(&self) -> (r: Self)
        ensures
            r == *self,
    {
        Self {
            a_node: self.a_node.duplicate(),
            b_node: self.b_node.duplicate(),
            weight: self.weight,
            id: self.id,
        }
    }
}

impl GraphEdge for UndirectedEdge {
    type ID = u128;

    fn get_id(&self) -> (r: u128)
        ensures
            r == self.id,
    {
        self.id
    }
}

/// The error returned when an insertion into an undirected graph fails.
#[derive(Debug)]
pub struct UndirectedGraphInsertionError {
    /// What went wrong.
    pub message: String,
}

impl UndirectedGraphInsertionError {
    /// Creates the error with its message.
    pub fn new(message: String) -> (r: Self)
        ensures
            r.message == message,
    {
        UndirectedGraphInsertionError { message }
    }

    /// The text to report for this error.
    pub fn display(&self) -> (r: String)
        ensures
            r@ == self.message@,
    {
        self.message.clone()
    }
}

} // verus!
