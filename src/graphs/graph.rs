use vstd::prelude::*;

use crate::text::chars_of;

verus! {

/// A node of a graph, directed or undirected, identified by its name.
#[derive(Clone, PartialEq, Eq, Hash, Debug, Ord, PartialOrd)]
pub struct Node {
    /// Key of the node in a graph, such as "A", "B" or "Ulm".
    pub id: String,
}

impl View for Node {
    type V = Seq<char>;

    /// A node is seen as its id: two nodes with the same id are the same node.
    open spec fn view(&self) -> Seq<char> {
        self.id@
    }
}

impl Node {
    /// Creates a node with the given id.
    pub fn new(id: String) -> (r: Self)
        ensures
            r.id == id,
            r@ == id@,
    {
        Self { id }
    }

    /// Whether this node's id comes before the other's in lexicographic order.
    pub fn comes_before(&self, other: &Node) -> (r: bool)
        ensures
            r == id_before(self@, other@),
    {
        let a = chars_of(self.id.as_str());
        let b = chars_of(other.id.as_str());
        let mut i: usize = 0;
        assert(a@.subrange(0, a@.len() as int) =~= a@ && b@.subrange(0, b@.len() as int) =~= b@);
        while i < a.len() && i < b.len() && a[i] == b[i]
            invariant
                i <= a@.len(),
                i <= b@.len(),
                id_before(a@, b@) == id_before(
                    a@.subrange(i as int, a@.len() as int),
                    b@.subrange(i as int, b@.len() as int),
                ),
            decreases a@.len() - i,
        {
            assert(a@.subrange(i as int, a@.len() as int).drop_first() =~= a@.subrange(
                i + 1,
                a@.len() as int,
            ));
            assert(b@.subrange(i as int, b@.len() as int).drop_first() =~= b@.subrange(
                i + 1,
                b@.len() as int,
            ));
            i += 1;
        }
        if i == a.len() {
            i < b.len()
        } else if i == b.len() {
            false
        } else {
            a[i] < b[i]
        }
    }

    /// A copy of this node.
    pub fn duplicate(&self) -> (r: Self)
        ensures
            r == *self,
            r@ == self@,
    {
        Self { id: self.id.clone() }
    }
}

/// Whether id `a` comes before id `b` in lexicographic order of their characters.
pub open spec fn id_before(a: Seq<char>, b: Seq<char>) -> bool
    decreases a.len(),
{
    if a.len() == 0 {
        b.len() > 0
    } else if b.len() == 0 {
        false
    } else if a[0] != b[0] {
        a[0] < b[0]
    } else {
        id_before(a.drop_first(), b.drop_first())
    }
}

/// No id comes before itself.
pub proof fn lemma_id_before_irreflexive(a: Seq<char>)
    ensures
        !id_before(a, a),
    decreases a.len(),
{
    if a.len() > 0 {
        lemma_id_before_irreflexive(a.drop_first());
    }
}

/// The order of ids is transitive.
pub proof fn lemma_id_before_transitive(a: Seq<char>, b: Seq<char>, c: Seq<char>)
    requires
        id_before(a, b),
        id_before(b, c),
    ensures
        id_before(a, c),
    decreases a.len(),
{
    if a.len() > 0 && a[0] == b[0] && b[0] == c[0] {
        lemma_id_before_transitive(a.drop_first(), b.drop_first(), c.drop_first());
    }
}

/// The ids of a sequence of nodes, in the same order.
pub open spec fn ids_of(nodes: Seq<Node>) -> Seq<Seq<char>> {
    nodes.map_values(|n: Node| n@)
}

/// No id occurs twice.
pub open spec fn unique_ids(ids: Seq<Seq<char>>) -> bool {
    forall|i: int, j: int| 0 <= i < ids.len() && 0 <= j < ids.len() && i != j ==> ids[i] != ids[j]
}

/// The node ids after inserting a node with id `id`: a new id is appended, a known one changes
/// nothing.
pub open spec fn ids_after_insert(ids: Seq<Seq<char>>, id: Seq<char>) -> Seq<Seq<char>> {
    if ids.contains(id) {
        ids
    } else {
        ids.push(id)
    }
}

/// The (neighbor id, weight) pairs of a neighbor list.
pub open spec fn adjacency_view(pairs: Seq<(Node, u16)>) -> Seq<(Seq<char>, u16)> {
    pairs.map_values(|p: (Node, u16)| (p.0@, p.1))
}

/// Position of the first node with the given id, if any.
pub fn position_of_id(nodes: &Vec<Node>, id: &String) -> (r: Option<usize>)
    ensures
        r is None <==> !ids_of(nodes@).contains(id@),
        r matches Some(i) ==> i < nodes@.len() && nodes@[i as int]@ == id@ && forall|j: int|
            0 <= j < i ==> nodes@[j]@ != id@,
{
    let mut i: usize = 0;
    while i < nodes.len()
        invariant
            i <= nodes@.len(),
            forall|j: int| 0 <= j < i ==> nodes@[j]@ != id@,
        decreases nodes@.len() - i,
    {
        if nodes[i].id == *id {
            assert(ids_of(nodes@)[i as int] == id@);
            return Some(i);
        }
        i += 1;
    }
    proof {
        if ids_of(nodes@).contains(id@) {
            let k = choose|k: int| 0 <= k < ids_of(nodes@).len() && ids_of(nodes@)[k] == id@;
            assert(nodes@[k]@ == id@);
        }
    }
    None
}

/// Gives every edge an id of its own, apart from its endpoints.
pub trait GraphEdge {
    type ID: Copy;

    /// The id of the edge.
    fn get_id(&self) -> Self::ID;
}

/// A weighted graph, directed or undirected, with nodes and edges kept in insertion order.
pub trait Graph {
    /// The edges of the graph.
    type Edge: GraphEdge;

    /// What an insertion that fails returns.
    type InsertionError;

    /// The ids of the nodes, in insertion order.
    spec fn node_ids(&self) -> Seq<Seq<char>>;

    /// What `neighbors` lists for the node with id `u`: the other end and the weight of each
    /// edge that can be walked from `u`, in edge order.
    spec fn adjacent(&self, u: Seq<char>) -> Seq<(Seq<char>, u16)>;

    /// Node ids are unique, every edge joins two nodes of the graph, and no two edges join the
    /// same endpoints.
    spec fn wf(&self) -> bool;

    /// In a well-formed graph no two nodes share an id.
    proof fn lemma_unique_ids(&self)
        requires
            self.wf(),
        ensures
            unique_ids(self.node_ids()),
    ;

    /// Whether edges are walked in one direction only.
    spec fn spec_is_directed(&self) -> bool;

    /// Whether edges carry weights.
    spec fn spec_is_weighted(&self) -> bool;

    /// The neighbors of `u` with the weights of the edges that lead to them.
    fn neighbors(&self, u: &Node) -> (r: Vec<(Node, u16)>)
        ensures
            adjacency_view(r@) == self.adjacent(u@),
            self.wf() ==> forall|i: int|
                0 <= i < r@.len() ==> self.node_ids().contains(#[trigger] r@[i].0@),
    ;

    /// Whether the graph is directed.
    fn is_directed(&self) -> (r: bool)
        ensures
            r == self.spec_is_directed(),
    ;

    /// Adds a node unless a node with its id is already there.
    fn insert_node(&mut self, new_node: Node)
        ensures
            final(self).node_ids() == ids_after_insert(old(self).node_ids(), new_node@),
            forall|u: Seq<char>| #[trigger] final(self).adjacent(u) == old(self).adjacent(u),
            old(self).wf() ==> final(self).wf(),
    ;

    /// Adds an edge, unless one with the same endpoints is there or an endpoint is missing.
    fn insert_edge(&mut self, edge: Self::Edge) -> (r: Option<Self::InsertionError>)
        ensures
            final(self).node_ids() == old(self).node_ids(),
            old(self).wf() ==> final(self).wf(),
    ;

    /// Whether an edge with the same endpoints is in the graph.
    fn does_edge_already_exist(&self, edge: &Self::Edge) -> bool;

    /// Whether a node with the same id is in the graph.
    fn does_node_already_exist(&self, node: &Node) -> (r: bool)
        ensures
            r == self.node_ids().contains(node@),
    ;

    /// The node with the given id.
    fn get_node_by_id(&self, id: &str) -> (r: Option<Node>)
        ensures
            r is Some <==> self.node_ids().contains(id@),
            r matches Some(n) ==> n@ == id@,
    ;

    /// The edge with the given edge id.
    fn get_edge_by_id(&self, id: u128) -> Option<Self::Edge>;

    /// All nodes, in insertion order.
    fn get_all_nodes(&self) -> (r: &Vec<Node>)
        ensures
            ids_of(r@) == self.node_ids(),
    ;

    /// Whether the graph is weighted.
    fn is_weighted(&self) -> (r: bool)
        ensures
            r == self.spec_is_weighted(),
    ;
}

/// Inserting a node twice into a well-formed graph leaves exactly one node with its id: the
/// second insertion changes nothing.
pub proof fn lemma_insert_node_twice<G: Graph>(g0: G, g1: G, g2: G, id: Seq<char>)
    requires
        g0.wf(),
        g1.node_ids() == ids_after_insert(g0.node_ids(), id),
        g2.node_ids() == ids_after_insert(g1.node_ids(), id),
    ensures
        g2.node_ids() == g1.node_ids(),
        exists|i: int|
            0 <= i < g2.node_ids().len() && g2.node_ids()[i] == id && (forall|j: int|
                0 <= j < g2.node_ids().len() && g2.node_ids()[j] == id ==> j == i),
{
    g0.lemma_unique_ids();
    let ids = g0.node_ids();
    let once = g1.node_ids();
    assert(once.contains(id)) by {
        if !ids.contains(id) {
            assert(once[ids.len() as int] == id);
        }
    }
    let i = choose|i: int| 0 <= i < once.len() && once[i] == id;
    assert(unique_ids(once)) by {
        if !ids.contains(id) {
            assert forall|a: int, b: int|
                0 <= a < once.len() && 0 <= b < once.len() && a != b implies once[a] != once[b] by {
                if a < ids.len() && b < ids.len() {
                    assert(once[a] == ids[a] && once[b] == ids[b]);
                } else if a < ids.len() {
                    assert(once[a] == ids[a]);
                } else if b < ids.len() {
                    assert(once[b] == ids[b]);
                }
            }
        }
    }
    assert(forall|j: int| 0 <= j < once.len() && once[j] == id ==> j == i);
}

/// Lets an algorithm work with the standard `Node` whatever node type a graph uses.
pub trait GraphNode {
    /// The node as a standard `Node`.
    fn get_self_as_standard_node(&self) -> Node;

    /// The node's own id.
    fn get_id(&self) -> String;
}

impl GraphNode for Node {
    fn get_self_as_standard_node(&self) -> (r: Node)
        ensures
            r@ == self@,
    {
        self.duplicate()
    }

    fn get_id(&self) -> (r: String)
        ensures
            r@ == self@,
    {
        self.id.clone()
    }
}

} // verus!
