use vstd::prelude::*;
use vstd::string::*;

use crate::graphs::graph::{
    adjacency_view, ids_after_insert, ids_of, position_of_id, unique_ids, Graph, GraphEdge, Node,
};

verus! {

/// A directed graph: each edge is walked from `from` to `to` only.
#[derive(Debug)]
pub struct DirectedGraph {
    pub nodes: Vec<Node>,
    pub edges: Vec<DirectedEdge>,
}

/// Whether some edge leads from `from` to `to`.
pub open spec fn has_directed_edge(edges: Seq<DirectedEdge>, from: Seq<char>, to: Seq<char>) -> bool {
    exists|i: int| 0 <= i < edges.len() && edges[i].from@ == from && edges[i].to@ == to
}

/// The targets and weights of the edges that leave `u`, in edge order.
pub open spec fn directed_adjacent(edges: Seq<DirectedEdge>, u: Seq<char>) -> Seq<(Seq<char>, u16)>
    decreases edges.len(),
{
    if edges.len() == 0 {
        Seq::empty()
    } else {
        let rest = directed_adjacent(edges.drop_last(), u);
        let e = edges.last();
        if e.from@ == u {
            rest.push((e.to@, e.weight))
        } else {
            rest
        }
    }
}

/// Message of the error for an edge whose endpoints are already joined.
pub open spec fn directed_duplicate_message(from: Seq<char>, to: Seq<char>) -> Seq<char> {
    "The edge "@ + from + "->"@ + to + " already exists in the graph!"@
}

/// Message of the error for an edge with an endpoint that is not a node of the graph.
pub open spec fn directed_missing_node_message(from: Seq<char>, to: Seq<char>) -> Seq<char> {
    "One of the two nodes or both in the edge "@ + from + "->"@ + to + " doesn't exist!"@
}

/// The neighbors of `u` are exactly the targets of the edges that leave `u`, with their weights.
pub proof fn lemma_directed_neighbors(edges: Seq<DirectedEdge>, u: Seq<char>, v: Seq<char>, w: u16)
    ensures
        directed_adjacent(edges, u).contains((v, w)) <==> exists|i: int|
            0 <= i < edges.len() && edges[i].from@ == u && edges[i].to@ == v && edges[i].weight
                == w,
    decreases edges.len(),
{
    if edges.len() > 0 {
        let rest = edges.drop_last();
        lemma_directed_neighbors(rest, u, v, w);
        let e = edges.last();
        let last = edges.len() - 1;
        if directed_adjacent(edges, u).contains((v, w)) {
            if directed_adjacent(rest, u).contains((v, w)) {
                let i = choose|i: int|
                    0 <= i < rest.len() && rest[i].from@ == u && rest[i].to@ == v && rest[i].weight
                        == w;
                assert(edges[i] == rest[i]);
            } else {
                let k = choose|k: int|
                    0 <= k < directed_adjacent(edges, u).len() && directed_adjacent(edges, u)[k]
                        == (v, w);
                assert(k == directed_adjacent(rest, u).len());
                assert(edges[last] == e);
            }
        }
        if exists|i: int|
            0 <= i < edges.len() && edges[i].from@ == u && edges[i].to@ == v && edges[i].weight
                == w {
            let i = choose|i: int|
                0 <= i < edges.len() && edges[i].from@ == u && edges[i].to@ == v && edges[i].weight
                    == w;
            if i < last {
                assert(rest[i] == edges[i]);
                let k = choose|k: int|
                    0 <= k < directed_adjacent(rest, u).len() && directed_adjacent(rest, u)[k] == (
                    v,
                    w,
                );
                if e.from@ == u {
                    assert(directed_adjacent(edges, u)[k] == (v, w));
                }
            } else {
                assert(directed_adjacent(edges, u).last() == (v, w));
            }
        }
    }
}

impl DirectedGraph {
    /// Creates a graph from its nodes and edges.
    pub fn new(nodes: Vec<Node>, edges: Vec<DirectedEdge>) -> (r: Self)
        ensures
            r.nodes == nodes,
            r.edges == edges,
    {
        Self { nodes, edges }
    }
}

impl Default for DirectedGraph {
    /// A graph with no nodes and no edges.
    fn default() -> (r: Self)
        ensures
            r.nodes@.len() == 0,
            r.edges@.len() == 0,
            r.wf(),
    {
        Self::new(Vec::new(), Vec::new())
    }
}

impl Graph for DirectedGraph {
    type Edge = DirectedEdge;

    type InsertionError = DirectedGraphInsertionError;

    open spec fn node_ids(&self) -> Seq<Seq<char>> {
        ids_of(self.nodes@)
    }

    open spec fn adjacent(&self, u: Seq<char>) -> Seq<(Seq<char>, u16)> {
        directed_adjacent(self.edges@, u)
    }

    open spec fn wf(&self) -> bool {
        &&& unique_ids(ids_of(self.nodes@))
        &&& forall|i: int|
            0 <= i < self.edges@.len() ==> ids_of(self.nodes@).contains(#[trigger] self.edges@[i].from@)
                && ids_of(self.nodes@).contains(self.edges@[i].to@)
        &&& forall|i: int, j: int|
            0 <= i < self.edges@.len() && 0 <= j < self.edges@.len() && i != j ==> !(
            #[trigger] self.edges@[i].from@ == #[trigger] self.edges@[j].from@ && self.edges@[i].to@
                == self.edges@[j].to@)
    }

    proof fn lemma_unique_ids(&self) {
    }

    open spec fn spec_is_directed(&self) -> bool {
        true
    }

    open spec fn spec_is_weighted(&self) -> bool {
        true
    }

    fn neighbors(&self, u: &Node) -> (r: Vec<(Node, u16)>) {
        let mut out: Vec<(Node, u16)> = Vec::new();
        let mut i: usize = 0;
        while i < self.edges.len()
            invariant
                i <= self.edges@.len(),
                adjacency_view(out@) == directed_adjacent(self.edges@.subrange(0, i as int), u@),
                self.wf() ==> forall|k: int|
                    0 <= k < out@.len() ==> self.node_ids().contains(#[trigger] out@[k].0@),
            decreases self.edges@.len() - i,
        {
            let e = &self.edges[i];
            let ghost before = out@;
            if e.from.id == u.id {
                out.push((e.to.duplicate(), e.weight));
                assert(adjacency_view(out@) =~= adjacency_view(before).push((e.to@, e.weight)));
                assert(out@[out@.len() - 1].0@ == self.edges@[i as int].to@);
                assert(forall|k: int| 0 <= k < before.len() ==> out@[k] == before[k]);
                proof {
                    if self.wf() {
                        assert(ids_of(self.nodes@).contains(self.edges@[i as int].from@));
                    }
                }
            }
            assert(self.edges@.subrange(0, i + 1).drop_last() =~= self.edges@.subrange(0, i as int));
            i += 1;
        }
        assert(self.edges@.subrange(0, i as int) =~= self.edges@);
        out
    }

    fn is_directed(&self) -> (r: bool) {
        true
    }

    fn insert_node(&mut self, new_node: Node)
        ensures
            final(self).edges@ == old(self).edges@,
            old(self).node_ids().contains(new_node@) ==> final(self).nodes@ == old(self).nodes@,
            !old(self).node_ids().contains(new_node@) ==> final(self).nodes@ == old(
                self,
            ).nodes@.push(new_node),
    {
        if self.does_node_already_exist(&new_node) {
            return;
        }
        self.nodes.push(new_node);
        assert(ids_of(self.nodes@) =~= ids_of(old(self).nodes@).push(new_node@));
        proof {
            if old(self).wf() {
                let ids = ids_of(self.nodes@);
                let old_ids = ids_of(old(self).nodes@);
                assert forall|i: int| 0 <= i < self.edges@.len() implies ids.contains(
                    #[trigger] self.edges@[i].from@,
                ) && ids.contains(self.edges@[i].to@) by {
                    assert(old_ids.contains(old(self).edges@[i].from@));
                    assert(old_ids.contains(old(self).edges@[i].to@));
                    let a = choose|a: int| 0 <= a < old_ids.len() && old_ids[a] == self.edges@[i].from@;
                    let b = choose|b: int| 0 <= b < old_ids.len() && old_ids[b] == self.edges@[i].to@;
                    assert(ids[a] == self.edges@[i].from@);
                    assert(ids[b] == self.edges@[i].to@);
                }
            }
        }
    }

    fn insert_edge(&mut self, edge: DirectedEdge) -> (r: Option<DirectedGraphInsertionError>)
        ensures
            final(self).nodes@ == old(self).nodes@,
            r is None <==> !has_directed_edge(old(self).edges@, edge.from@, edge.to@)
                && old(self).node_ids().contains(edge.from@) && old(self).node_ids().contains(
                edge.to@,
            ),
            r is None ==> final(self).edges@ == old(self).edges@.push(edge),
            r is Some ==> final(self).edges@ == old(self).edges@,
            r matches Some(e) ==> if has_directed_edge(old(self).edges@, edge.from@, edge.to@) {
                e.message@ == directed_duplicate_message(edge.from@, edge.to@)
            } else {
                e.message@ == directed_missing_node_message(edge.from@, edge.to@)
            },
    {
        if self.does_edge_already_exist(&edge) {
            let mut m = String::from_str("The edge ");
            m.append(edge.from.id.as_str());
            m.append("->");
            m.append(edge.to.id.as_str());
            m.append(" already exists in the graph!");
            return Some(DirectedGraphInsertionError::new(m));
        }
        if !self.does_node_already_exist(&edge.from) || !self.does_node_already_exist(&edge.to) {
            let mut m = String::from_str("One of the two nodes or both in the edge ");
            m.append(edge.from.id.as_str());
            m.append("->");
            m.append(edge.to.id.as_str());
            m.append(" doesn't exist!");
            return Some(DirectedGraphInsertionError::new(m));
        }
        self.edges.push(edge);
        proof {
            if old(self).wf() {
                let last = self.edges@.len() - 1;
                let olde = old(self).edges@;
                assert forall|i: int, j: int|
                    0 <= i < self.edges@.len() && 0 <= j < self.edges@.len() && i != j implies !(
                    #[trigger] self.edges@[i].from@ == #[trigger] self.edges@[j].from@
                        && self.edges@[i].to@ == self.edges@[j].to@) by {
                    if i < last && j < last {
                        assert(self.edges@[i] == olde[i]);
                        assert(self.edges@[j] == olde[j]);
                        assert(!(olde[i].from@ == olde[j].from@ && olde[i].to@ == olde[j].to@));
                    } else if i == last {
                        assert(self.edges@[j] == olde[j]);
                        assert(!(olde[j].from@ == edge.from@ && olde[j].to@ == edge.to@));
                    } else {
                        assert(self.edges@[i] == olde[i]);
                        assert(!(olde[i].from@ == edge.from@ && olde[i].to@ == edge.to@));
                    }
                }
                assert forall|i: int| 0 <= i < self.edges@.len() implies ids_of(
                    self.nodes@,
                ).contains(#[trigger] self.edges@[i].from@) && ids_of(self.nodes@).contains(
                    self.edges@[i].to@,
                ) by {
                    if i < last {
                        assert(self.edges@[i] == olde[i]);
                        assert(ids_of(self.nodes@).contains(olde[i].from@));
                    }
                }
            }
        }
        None
    }

    fn does_edge_already_exist(&self, edge: &DirectedEdge) -> (r: bool)
        ensures
            r == has_directed_edge(self.edges@, edge.from@, edge.to@),
    {
        let mut i: usize = 0;
        while i < self.edges.len()
            invariant
                i <= self.edges@.len(),
                forall|j: int|
                    0 <= j < i ==> !(self.edges@[j].from@ == edge.from@ && self.edges@[j].to@
                        == edge.to@),
            decreases self.edges@.len() - i,
        {
            if self.edges[i].from.id == edge.from.id && self.edges[i].to.id == edge.to.id {
                return true;
            }
            i += 1;
        }
        false
    }

    fn does_node_already_exist(&self, node: &Node) -> (r: bool) {
        position_of_id(&self.nodes, &node.id).is_some()
    }

    fn get_edge_by_id(&self, id: u128) -> (r: Option<DirectedEdge>)
        ensures
            r is Some <==> exists|i: int| 0 <= i < self.edges@.len() && self.edges@[i].id == id,
            r matches Some(e) ==> e.id == id && exists|i: int|
                0 <= i < self.edges@.len() && self.edges@[i] == e && forall|j: int|
                    0 <= j < i ==> self.edges@[j].id != id,
    {
        let mut i: usize = 0;
        while i < self.edges.len()
            invariant
                i <= self.edges@.len(),
                forall|j: int| 0 <= j < i ==> self.edges@[j].id != id,
            decreases self.edges@.len() - i,
        {
            if self.edges[i].id == id {
                let e = self.edges[i].duplicate();
                assert(self.edges@[i as int] == e);
                return Some(e);
            }
            i += 1;
        }
        None
    }

    fn get_node_by_id(&self, id: &str) -> (r: Option<Node>) {
        let key = id.to_owned();
        match position_of_id(&self.nodes, &key) {
            Some(i) => Some(self.nodes[i].duplicate()),
            None => None,
        }
    }

    fn get_all_nodes(&self) -> (r: &Vec<Node>) {
        &self.nodes
    }

    fn is_weighted(&self) -> (r: bool) {
        true
    }
}

/// An edge of a directed graph, walked from `from` to `to`.
#[derive(Clone, PartialEq, Debug)]
pub struct DirectedEdge {
    /// Where a walk along the edge starts.
    pub from: Node,
    /// Where a walk along the edge ends.
    pub to: Node,
    /// The cost of walking along the edge.
    pub weight: u16,
    /// The edge's own id, drawn when the edge is created.
    pub id: u128,
}

/// Relies on uuid::Uuid::new_v4 for a random version 4 id, taken as its 128-bit value by
/// uuid::Uuid::as_u128: the version field holds 4 and the variant field holds 0b10.
#[verifier::external_body]
pub(crate) fn fresh_edge_id() -> (r: u128)
    ensures
        (r >> 76u128) & 0xfu128 == 4,
        (r >> 62u128) & 0x3u128 == 2,
{
    uuid::Uuid::new_v4().as_u128()
}

impl DirectedEdge {
    /// Creates an edge with a fresh id.
    pub fn new(from: Node, to: Node, weight: u16) -> (r: Self)
        ensures
            r.from == from,
            r.to == to,
            r.weight == weight,
    {
        Self { from, to, weight, id: fresh_edge_id() }
    }

    /// A copy of this edge, id included.
    pub fn duplicate(&self) -> (r: Self)
        ensures
            r == *self,
    {
        Self { from: self.from.duplicate(), to: self.to.duplicate(), weight: self.weight, id: self.id }
    }
}

impl GraphEdge for DirectedEdge {
    type ID = u128;

    fn get_id(&self) -> (r: u128)
        ensures
            r == self.id,
    {
        self.id
    }
}

/// The error returned when an insertion into a directed graph fails.
#[derive(Debug)]
pub struct DirectedGraphInsertionError {
    /// What went wrong.
    pub message: String,
}

impl DirectedGraphInsertionError {
    /// Creates the error with its message.
    pub fn new(message: String) -> (r: Self)
        ensures
            r.message == message,
    {
        DirectedGraphInsertionError { message }
    }

    /// The text to report for this error.
    pub fn display(&self) -> (r: String)
        ensures
            r@ == self.message@,
    {
        self.message.clone()
    }
}

} // verus!
