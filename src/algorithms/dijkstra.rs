use vstd::prelude::*;
use vstd::string::*;

use crate::algorithms::algorithm::{Algorithm, SearchResult};
use crate::graphs::graph::{
    adjacency_view, id_before, ids_of, lemma_id_before_irreflexive, lemma_id_before_transitive,
    position_of_id, unique_ids, Graph, Node,
};

verus! {

/// The sum of a sequence of edge weights.
pub open spec fn sum_weights(ws: Seq<u16>) -> nat
    decreases ws.len(),
{
    if ws.len() == 0 {
        0
    } else {
        sum_weights(ws.drop_last()) + ws.last() as nat
    }
}

/// `p` is a walk through nodes of `g` whose step from `p[i]` to `p[i + 1]` takes an edge of
/// weight `ws[i]`.
pub open spec fn is_walk<G: Graph>(g: G, p: Seq<Seq<char>>, ws: Seq<u16>) -> bool {
    &&& p.len() == ws.len() + 1
    &&& forall|i: int| 0 <= i < p.len() ==> g.node_ids().contains(#[trigger] p[i])
    &&& forall|i: int| 0 <= i < ws.len() ==> g.adjacent(p[i]).contains((p[i + 1], #[trigger] ws[i]))
}

/// `p` is a walk of `g` from `start` to `end` with edge weights `ws`.
pub open spec fn is_walk_between<G: Graph>(
    g: G,
    p: Seq<Seq<char>>,
    ws: Seq<u16>,
    start: Seq<char>,
    end: Seq<char>,
) -> bool {
    is_walk(g, p, ws) && p[0] == start && p.last() == end
}

/// Some walk leads from `start` to `end` at a cost that fits in a `u64`.
pub open spec fn reachable<G: Graph>(g: G, start: Seq<char>, end: Seq<char>) -> bool {
    exists|p: Seq<Seq<char>>, ws: Seq<u16>|
        is_walk_between(g, p, ws, start, end) && sum_weights(ws) <= u64::MAX
}

/// Best known distance of a label, with "infinite" one above any `u64`.
spec fn label_weight(d: ShortestDistance) -> nat {
    match d.distance {
        Some(x) => x as nat,
        None => u64::MAX as nat + 1,
    }
}

/// The sum of the label weights; each improvement of a label lowers it.
spec fn potential(ds: Seq<ShortestDistance>) -> nat
    decreases ds.len(),
{
    if ds.len() == 0 {
        0
    } else {
        potential(ds.drop_last()) + label_weight(ds.last())
    }
}

/// The edge `j` out of node `v` cannot improve the label of its other end.
spec fn edge_relaxed<G: Graph>(
    g: G,
    ids: Seq<Seq<char>>,
    ds: Seq<ShortestDistance>,
    v: int,
    j: int,
) -> bool {
    let x = g.adjacent(ids[v])[j].0;
    let w = g.adjacent(ids[v])[j].1;
    ds[v].distance is Some && ds[v].distance->Some_0 + w <= u64::MAX ==> forall|t: int|
        0 <= t < ids.len() && ids[t] == x ==> ds[t].distance is Some && ds[t].distance->Some_0
            <= ds[v].distance->Some_0 + w
}

/// No edge out of node `v` can improve a label.
spec fn relaxed<G: Graph>(g: G, ids: Seq<Seq<char>>, ds: Seq<ShortestDistance>, v: int) -> bool {
    forall|j: int| 0 <= j < g.adjacent(ids[v]).len() ==> #[trigger] edge_relaxed(g, ids, ds, v, j)
}

/// Node `v`, if labelled and not the start, was reached from its predecessor by an edge of weight
/// `pw[v]`, and the predecessor comes first in the order of (distance, stamp).
spec fn pred_ok<G: Graph>(
    g: G,
    ids: Seq<Seq<char>>,
    ds: Seq<ShortestDistance>,
    stamps: Seq<nat>,
    pw: Seq<u16>,
    s: int,
    v: int,
) -> bool {
    let p = ds[v].previous_node->Some_0 as int;
    let dv = ds[v].distance->Some_0;
    v != s && ds[v].distance is Some ==> {
        &&& ds[v].previous_node is Some
        &&& 0 <= p < ids.len()
        &&& ds[p].distance is Some
        &&& g.adjacent(ids[p]).contains((ids[v], pw[v]))
        &&& ds[p].distance->Some_0 + pw[v] <= dv
        &&& (ds[p].distance->Some_0 < dv || stamps[p] < stamps[v])
    }
}

/// The labels hold for the start and along every predecessor link.
spec fn labels_ok<G: Graph>(
    g: G,
    ids: Seq<Seq<char>>,
    ds: Seq<ShortestDistance>,
    stamps: Seq<nat>,
    pw: Seq<u16>,
    s: int,
) -> bool {
    &&& ds.len() == ids.len()
    &&& stamps.len() == ids.len()
    &&& pw.len() == ids.len()
    &&& 0 <= s < ids.len()
    &&& ds[s] == ShortestDistance { distance: Some(0), previous_node: Some(s as usize) }
    &&& forall|v: int| 0 <= v < ids.len() ==> #[trigger] pred_ok(g, ids, ds, stamps, pw, s, v)
    &&& forall|v: int|
        0 <= v < ids.len() && (#[trigger] ds[v]).distance is None ==> ds[v].previous_node is None
}

/// Label `a` comes before label `b` in the order of (distance, stamp).
spec fn key_before(ds: Seq<ShortestDistance>, stamps: Seq<nat>, a: int, b: int) -> bool {
    ds[a].distance->Some_0 < ds[b].distance->Some_0 || (ds[a].distance->Some_0
        == ds[b].distance->Some_0 && stamps[a] < stamps[b])
}

/// A labelled node waits in the queue with its label, or no edge out of it can improve a label.
spec fn queued_or_relaxed<G: Graph>(
    g: G,
    ids: Seq<Seq<char>>,
    ds: Seq<ShortestDistance>,
    queue: Seq<QueueItem>,
    v: int,
) -> bool {
    ds[v].distance is Some ==> queue.contains(
        QueueItem { distance: ds[v].distance->Some_0, position: v as usize },
    ) || relaxed(g, ids, ds, v)
}

proof fn lemma_potential_update(ds: Seq<ShortestDistance>, i: int, x: ShortestDistance)
    requires
        0 <= i < ds.len(),
    ensures
        potential(ds.update(i, x)) + label_weight(ds[i]) == potential(ds) + label_weight(x),
    decreases ds.len(),
{
    let u = ds.update(i, x);
    if i < ds.len() - 1 {
        lemma_potential_update(ds.drop_last(), i, x);
        assert(u.drop_last() =~= ds.drop_last().update(i, x));
    } else {
        assert(u.drop_last() =~= ds.drop_last());
    }
}

/// Lowering the label of node `t` keeps every edge relaxed that does not leave `t`.
proof fn lemma_lower_label_keeps_relaxed<G: Graph>(
    g: G,
    ids: Seq<Seq<char>>,
    ds: Seq<ShortestDistance>,
    t: int,
    label: ShortestDistance,
    v: int,
)
    requires
        ds.len() == ids.len(),
        0 <= t < ds.len(),
        0 <= v < ds.len(),
        v != t,
        label.distance is Some,
        ds[t].distance is Some ==> label.distance->Some_0 < ds[t].distance->Some_0,
    ensures
        forall|j: int|
            #[trigger] edge_relaxed(g, ids, ds, v, j) ==> edge_relaxed(g, ids, ds.update(t, label), v, j),
        relaxed(g, ids, ds, v) ==> relaxed(g, ids, ds.update(t, label), v),
{
    let ds1 = ds.update(t, label);
    assert forall|j: int| #[trigger] edge_relaxed(g, ids, ds, v, j) implies edge_relaxed(g, ids, ds1, v, j) by {
        let x = g.adjacent(ids[v])[j].0;
        let w = g.adjacent(ids[v])[j].1;
        if ds1[v].distance is Some && ds1[v].distance->Some_0 + w <= u64::MAX {
            assert forall|tt: int| 0 <= tt < ids.len() && ids[tt] == x implies ds1[tt].distance is Some
                && ds1[tt].distance->Some_0 <= ds1[v].distance->Some_0 + w by {
                assert(ds[tt].distance is Some);
            }
        }
    }
    if relaxed(g, ids, ds, v) {
        assert forall|j: int| 0 <= j < g.adjacent(ids[v]).len() implies #[trigger] edge_relaxed(
            g,
            ids,
            ds1,
            v,
            j,
        ) by {
            assert(edge_relaxed(g, ids, ds, v, j));
        }
    }
}

/// Message of the error for a graph without weights.
pub open spec fn unweighted_message() -> Seq<char> {
    "The graph that was created needs to be weighted!"@
}

/// Message of the error for a node that is not in the graph.
pub open spec fn missing_node_message(id: Seq<char>) -> Seq<char> {
    "The node "@ + id + " is not in the graph!"@
}

/// Message of the error for an end node that no walk from the start reaches.
pub open spec fn no_path_message(start: Seq<char>, end: Seq<char>) -> Seq<char> {
    "Unable to determine a valid path from "@ + start + " to "@ + end + "!"@
}

/// `res` answers the query from `start` to `end`: for `start == end` the path is `[start, start]`
/// at distance 0; otherwise it is a walk from `start` to `end` that visits no node twice and
/// whose weights add up to the distance; and no walk from `start` to `end` costs less.
pub open spec fn is_shortest_path<G: Graph>(
    g: G,
    start: Seq<char>,
    end: Seq<char>,
    res: SearchResult,
) -> bool {
    &&& start == end ==> ids_of(res.path@) == seq![start, start] && res.distance == 0
    &&& start != end ==> exists|ws: Seq<u16>|
        is_walk_between(g, ids_of(res.path@), ws, start, end) && sum_weights(ws) == res.distance
    &&& start != end ==> forall|i: int, j: int|
        0 <= i < j < res.path@.len() ==> res.path@[i]@ != res.path@[j]@
    &&& forall|p: Seq<Seq<char>>, ws: Seq<u16>|
        is_walk_between(g, p, ws, start, end) ==> res.distance <= sum_weights(ws)
}

/// What a search from `start` to `end` in `g` returns: the checks fail in this order on an
/// unweighted graph, a missing start, a missing end and an end that cannot be reached; otherwise
/// the search succeeds with a shortest path.
pub open spec fn is_search_outcome<G: Graph>(
    g: G,
    start: Seq<char>,
    end: Seq<char>,
    r: Result<SearchResult, DijkstraError>,
) -> bool {
    if !g.spec_is_weighted() {
        r is Err && r->Err_0.message@ == unweighted_message()
    } else if !g.node_ids().contains(start) {
        r is Err && r->Err_0.message@ == missing_node_message(start)
    } else if !g.node_ids().contains(end) {
        r is Err && r->Err_0.message@ == missing_node_message(end)
    } else if !reachable(g, start, end) {
        r is Err && r->Err_0.message@ == no_path_message(start, end)
    } else {
        r is Ok && is_shortest_path(g, start, end, r->Ok_0)
    }
}

/// A search from a node of a weighted graph to itself succeeds with the path `[start, start]`
/// at distance 0.
pub proof fn lemma_search_to_itself<G: Graph>(
    g: G,
    start: Seq<char>,
    r: Result<SearchResult, DijkstraError>,
)
    requires
        g.spec_is_weighted(),
        g.node_ids().contains(start),
        is_search_outcome(g, start, start, r),
    ensures
        r is Ok,
        ids_of(r->Ok_0.path@) == seq![start, start],
        r->Ok_0.distance == 0,
{
    assert(is_walk_between(g, seq![start], Seq::<u16>::empty(), start, start));
    assert(sum_weights(Seq::<u16>::empty()) == 0);
}

/// Every node on a path that a search returns is a node of the graph.
pub proof fn lemma_path_nodes_exist<G: Graph>(
    g: G,
    start: Seq<char>,
    end: Seq<char>,
    res: SearchResult,
)
    requires
        is_search_outcome(g, start, end, Ok(res)),
    ensures
        forall|i: int| 0 <= i < res.path@.len() ==> g.node_ids().contains(#[trigger] res.path@[i]@),
{
    let ids = ids_of(res.path@);
    assert(g.node_ids().contains(start) && is_shortest_path(g, start, end, res));
    assert(ids.len() == res.path@.len());
    assert forall|i: int| 0 <= i < res.path@.len() implies g.node_ids().contains(
        #[trigger] res.path@[i]@,
    ) by {
        assert(ids[i] == res.path@[i]@);
        if start == end {
            assert(ids[i] == seq![start, start][i]);
        } else {
            let ws = choose|ws: Seq<u16>|
                is_walk_between(g, ids, ws, start, end) && sum_weights(ws) == res.distance;
            assert(g.node_ids().contains(ids[i]));
        }
    }
}

proof fn lemma_remove_keeps(q: Seq<QueueItem>, k: int, e: QueueItem)
    requires
        0 <= k < q.len(),
        q.contains(e),
        q[k] != e,
    ensures
        q.remove(k).contains(e),
{
    let i = choose|i: int| 0 <= i < q.len() && q[i] == e;
    if i < k {
        assert(q.remove(k)[i] == e);
    } else {
        assert(q.remove(k)[i - 1] == e);
    }
}

proof fn lemma_sum_weights_prepend(w: u16, ws: Seq<u16>)
    ensures
        sum_weights(seq![w] + ws) == w + sum_weights(ws),
    decreases ws.len(),
{
    if ws.len() > 0 {
        lemma_sum_weights_prepend(w, ws.drop_last());
        assert((seq![w] + ws).drop_last() =~= seq![w] + ws.drop_last());
        assert((seq![w] + ws).last() == ws.last());
        assert(sum_weights(seq![w] + ws) == sum_weights(seq![w] + ws.drop_last()) + ws.last());
    } else {
        assert((seq![w] + ws).drop_last() =~= Seq::<u16>::empty());
        assert((seq![w] + ws).last() == w);
        assert(sum_weights(Seq::<u16>::empty()) == 0);
        assert(sum_weights(seq![w] + ws) == sum_weights(Seq::<u16>::empty()) + w);
    }
}

/// Each walk from the start that a `u64` can pay for ends at a node whose label is no greater
/// than the walk's cost, once every labelled node is relaxed.
proof fn lemma_labels_bound_walks<G: Graph>(
    g: G,
    ids: Seq<Seq<char>>,
    ds: Seq<ShortestDistance>,
    s: int,
    p: Seq<Seq<char>>,
    ws: Seq<u16>,
)
    requires
        ids == g.node_ids(),
        unique_ids(ids),
        ds.len() == ids.len(),
        0 <= s < ids.len(),
        ds[s].distance == Some(0u64),
        forall|v: int| 0 <= v < ids.len() ==> relaxed(g, ids, ds, v),
        is_walk(g, p, ws),
        p[0] == ids[s],
        sum_weights(ws) <= u64::MAX,
    ensures
        forall|t: int|
            0 <= t < ids.len() && ids[t] == p.last() ==> ds[t].distance is Some
                && ds[t].distance->Some_0 <= sum_weights(ws),
    decreases p.len(),
{
    if ws.len() == 0 {
        assert forall|t: int| 0 <= t < ids.len() && ids[t] == p.last() implies ds[t].distance is Some
            && ds[t].distance->Some_0 <= sum_weights(ws) by {
            assert(t == s);
        }
    } else {
        let p0 = p.drop_last();
        let ws0 = ws.drop_last();
        let n = ws.len() - 1;
        assert(is_walk(g, p0, ws0)) by {
            assert forall|i: int| 0 <= i < ws0.len() implies g.adjacent(p0[i]).contains(
                (p0[i + 1], #[trigger] ws0[i]),
            ) by {
                assert(g.adjacent(p[i]).contains((p[i + 1], ws[i])));
            }
            assert forall|i: int| 0 <= i < p0.len() implies g.node_ids().contains(#[trigger] p0[i]) by {
                assert(g.node_ids().contains(p[i]));
            }
        }
        lemma_labels_bound_walks(g, ids, ds, s, p0, ws0);
        assert(g.node_ids().contains(p[n]));
        let u = choose|u: int| 0 <= u < ids.len() && ids[u] == p[n];
        assert(p0.last() == p[n]);
        assert(g.adjacent(p[n]).contains((p[n + 1], ws[n])));
        let j = choose|j: int|
            0 <= j < g.adjacent(ids[u]).len() && g.adjacent(ids[u])[j] == (p[n + 1], ws[n]);
        assert(relaxed(g, ids, ds, u));
        assert(edge_relaxed(g, ids, ds, u, j));
        assert(p.last() == p[n + 1]);
    }
}

/// The working label of a node during a search.
pub struct ShortestDistance {
    /// Best known distance from the start; `None` while the node has not been reached.
    pub distance: Option<u64>,
    /// Position of the node that the best known distance was reached from; the start names
    /// itself.
    pub previous_node: Option<usize>,
}

impl ShortestDistance {
    /// A label not yet reached.
    pub fn new(previous_node: Option<usize>) -> (r: Self)
        ensures
            r.distance is None,
            r.previous_node == previous_node,
    {
        Self { previous_node, distance: None }
    }
}

/// An entry of the search queue: a node position with a distance it was reached at.
struct QueueItem {
    /// Distance at which the node was reached.
    distance: u64,
    /// Position of the node.
    position: usize,
}

impl QueueItem {
    /// Creates an entry.
    fn new(distance: u64, position: usize) -> (r: Self)
        ensures
            r == (QueueItem { distance, position }),
    {
        Self { distance, position }
    }
}

/// Position of an entry with the smallest distance; among those, one whose node id comes first.
fn index_of_min(queue: &Vec<QueueItem>, nodes: &Vec<Node>) -> (k: usize)
    requires
        queue@.len() > 0,
        forall|i: int| 0 <= i < queue@.len() ==> #[trigger] queue@[i].position < nodes@.len(),
    ensures
        k < queue@.len(),
        forall|i: int|
            0 <= i < queue@.len() ==> queue@[k as int].distance <= #[trigger] queue@[i].distance,
        forall|i: int|
            0 <= i < queue@.len() && #[trigger] queue@[i].distance == queue@[k as int].distance
                ==> !id_before(
                nodes@[queue@[i].position as int]@,
                nodes@[queue@[k as int].position as int]@,
            ),
{
    let mut k: usize = 0;
    let mut i: usize = 1;
    proof {
        lemma_id_before_irreflexive(nodes@[queue@[0].position as int]@);
    }
    while i < queue.len()
        invariant
            0 < i <= queue@.len(),
            k < i,
            forall|j: int| 0 <= j < queue@.len() ==> #[trigger] queue@[j].position < nodes@.len(),
            forall|j: int| 0 <= j < i ==> queue@[k as int].distance <= #[trigger] queue@[j].distance,
            forall|j: int|
                0 <= j < i && #[trigger] queue@[j].distance == queue@[k as int].distance ==> !id_before(
                    nodes@[queue@[j].position as int]@,
                    nodes@[queue@[k as int].position as int]@,
                ),
        decreases queue@.len() - i,
    {
        let qi = &queue[i];
        let qk = &queue[k];
        if qi.distance < qk.distance || (qi.distance == qk.distance
            && nodes[qi.position].comes_before(&nodes[qk.position])) {
            proof {
                let idi = nodes@[queue@[i as int].position as int]@;
                let idk = nodes@[queue@[k as int].position as int]@;
                lemma_id_before_irreflexive(idi);
                assert forall|j: int|
                    0 <= j <= i && #[trigger] queue@[j].distance == queue@[i as int].distance
                        implies !id_before(nodes@[queue@[j].position as int]@, idi) by {
                    if j < i && id_before(nodes@[queue@[j].position as int]@, idi) {
                        lemma_id_before_transitive(nodes@[queue@[j].position as int]@, idi, idk);
                    }
                }
            }
            k = i;
        }
        i += 1;
    }
    k
}

/// The error a failed search returns.
#[derive(Debug)]
pub struct DijkstraError {
    /// What went wrong.
    pub message: String,
}

impl DijkstraError {
    /// Creates the error with its message.
    pub fn new(message: String) -> (r: Self)
        ensures
            r.message == message,
    {
        Self { message }
    }
}

/// The error for a node that is not in the graph.
fn missing_node_error(node: &Node) -> (r: DijkstraError)
    ensures
        r.message@ == missing_node_message(node@),
{
    let mut m = String::from_str("The node ");
    m.append(node.id.as_str());
    m.append(" is not in the graph!");
    DijkstraError::new(m)
}

/// Dijkstra's algorithm on a weighted graph of any representation.
pub struct DijkstraAlgorithm<G: Graph> {
    graph: G,
}

impl<G: Graph> DijkstraAlgorithm<G> {
    #[verifier::type_invariant]
    spec fn inv(self) -> bool {
        self.graph.wf()
    }

    /// The graph searched.
    pub closed spec fn graph_view(self) -> G {
        self.graph
    }

    /// Creates the algorithm for a well-formed graph.
    pub fn new(graph: G) -> (r: Self)
        requires
            graph.wf(),
        ensures
            r.graph_view() == graph,
    {
        Self { graph }
    }

    /// The starting labels: distance 0 for the start, which names itself as predecessor, and
    /// none for every other node.
    fn setup_shortest_distance(&self, start: usize) -> (r: Vec<ShortestDistance>)
        requires
            start < self.graph.node_ids().len(),
        ensures
            r@.len() == self.graph.node_ids().len(),
            r@[start as int] == (ShortestDistance { distance: Some(0), previous_node: Some(start) }),
            forall|v: int| 0 <= v < r@.len() && v != start ==> r@[v].distance is None,
            forall|v: int| 0 <= v < r@.len() && v != start ==> r@[v].previous_node is None,
    {
        let n = self.graph.get_all_nodes().len();
        let mut output: Vec<ShortestDistance> = Vec::new();
        let mut i: usize = 0;
        while i < n
            invariant
                n == self.graph.node_ids().len(),
                start < n,
                i <= n,
                output@.len() == i,
                forall|v: int| 0 <= v < i && v != start ==> output@[v].distance is None,
                forall|v: int| 0 <= v < i && v != start ==> output@[v].previous_node is None,
                start < i ==> output@[start as int] == (ShortestDistance {
                    distance: Some(0),
                    previous_node: Some(start),
                }),
            decreases n - i,
        {
            if i == start {
                output.push(ShortestDistance { distance: Some(0), previous_node: Some(i) });
            } else {
                output.push(ShortestDistance::new(None));
            }
            i += 1;
        }
        output
    }

    /// Runs the search from the node at position `start` until the queue is empty, and returns
    /// the labels with, in ghost form, the stamps and predecessor edge weights that order them.
    fn calculate_distances(&self, start: usize) -> (r: (
        Vec<ShortestDistance>,
        Ghost<Seq<nat>>,
        Ghost<Seq<u16>>,
    ))
        requires
            start < self.graph.node_ids().len(),
        ensures
            labels_ok(self.graph, self.graph.node_ids(), r.0@, r.1@, r.2@, start as int),
            forall|v: int|
                0 <= v < r.0@.len() && r.0@[v].distance is None ==> r.0@[v].previous_node is None,
            forall|v: int|
                0 <= v < self.graph.node_ids().len() ==> relaxed(
                    self.graph,
                    self.graph.node_ids(),
                    r.0@,
                    v,
                ),
    {
        proof {
            use_type_invariant(self);
        }
        let nodes = self.graph.get_all_nodes();
        let n = nodes.len();
        proof {
            self.graph.lemma_unique_ids();
        }
        let ghost g = self.graph;
        let ghost ids = g.node_ids();
        let ghost s = start as int;
        let mut ds = self.setup_shortest_distance(start);
        let ghost mut stamps: Seq<nat> = Seq::new(n as nat, |i: int| 0nat);
        let ghost mut pw: Seq<u16> = Seq::new(n as nat, |i: int| 0u16);
        let ghost mut clock: nat = 1;
        let mut queue: Vec<QueueItem> = Vec::new();
        queue.push(QueueItem::new(0, start));
        proof {
            assert forall|v: int| 0 <= v < n implies #[trigger] pred_ok(g, ids, ds@, stamps, pw, s, v) by {}
            assert forall|v: int| 0 <= v < n implies #[trigger] queued_or_relaxed(g, ids, ds@, queue@, v) by {
                if v == s {
                    assert(queue@[0] == QueueItem { distance: 0, position: start });
                }
            }
        }
        while queue.len() > 0
            invariant
                g == self.graph,
                g.wf(),
                ids == g.node_ids(),
                unique_ids(ids),
                ids_of(nodes@) == ids,
                n == ids.len(),
                s == start as int,
                labels_ok(g, ids, ds@, stamps, pw, s),
                forall|v: int| 0 <= v < n ==> stamps[v] < clock,
                forall|v: int| 0 <= v < n ==> #[trigger] queued_or_relaxed(g, ids, ds@, queue@, v),
                forall|k: int|
                    0 <= k < queue@.len() ==> {
                        let e = #[trigger] queue@[k];
                        &&& e.position < n
                        &&& ds@[e.position as int].distance is Some
                        &&& ds@[e.position as int].distance->Some_0 <= e.distance
                    },
            decreases queue@.len() + potential(ds@),
        {
            let ghost measure = queue@.len() + potential(ds@);
            let k = index_of_min(&queue, nodes);
            let ghost q0 = queue@;
            let item = queue.remove(k);
            let cur = item.position;
            let d = item.distance;
            assert(q0[k as int] == item);
            let cur_best = match ds[cur].distance {
                Some(x) => x,
                None => d,
            };
            proof {
                assert forall|v: int| 0 <= v < n && v != cur as int implies #[trigger] queued_or_relaxed(
                    g,
                    ids,
                    ds@,
                    queue@,
                    v,
                ) by {
                    assert(queued_or_relaxed(g, ids, ds@, q0, v));
                    if ds@[v].distance is Some && q0.contains(
                        QueueItem { distance: ds@[v].distance->Some_0, position: v as usize },
                    ) {
                        lemma_remove_keeps(
                            q0,
                            k as int,
                            QueueItem { distance: ds@[v].distance->Some_0, position: v as usize },
                        );
                    }
                }
                assert forall|kk: int| 0 <= kk < queue@.len() implies {
                    let e = #[trigger] queue@[kk];
                    &&& e.position < n
                    &&& ds@[e.position as int].distance is Some
                    &&& ds@[e.position as int].distance->Some_0 <= e.distance
                } by {
                    if kk < k {
                        assert(queue@[kk] == q0[kk]);
                    } else {
                        assert(queue@[kk] == q0[kk + 1]);
                    }
                }
            }
            if d > cur_best {
                proof {
                    let c = cur as int;
                    assert(queued_or_relaxed(g, ids, ds@, q0, c));
                    if !relaxed(g, ids, ds@, c) {
                        lemma_remove_keeps(
                            q0,
                            k as int,
                            QueueItem { distance: ds@[c].distance->Some_0, position: cur },
                        );
                    }
                    assert(queued_or_relaxed(g, ids, ds@, queue@, c));
                }
                continue;
            }
            let nbrs = self.graph.neighbors(&nodes[cur]);
            assert(nodes@[cur as int]@ == ids[cur as int]);
            let mut j: usize = 0;
            while j < nbrs.len()
                invariant
                    g == self.graph,
                    g.wf(),
                    ids == g.node_ids(),
                    unique_ids(ids),
                    ids_of(nodes@) == ids,
                    n == ids.len(),
                    s == start as int,
                    cur < n,
                    ds@[cur as int].distance == Some(d),
                    adjacency_view(nbrs@) == g.adjacent(ids[cur as int]),
                    forall|i: int| 0 <= i < nbrs@.len() ==> ids.contains(#[trigger] nbrs@[i].0@),
                    j <= nbrs@.len(),
                    labels_ok(g, ids, ds@, stamps, pw, s),
                    forall|v: int| 0 <= v < n ==> stamps[v] < clock,
                    forall|v: int|
                        0 <= v < n && v != cur as int ==> #[trigger] queued_or_relaxed(
                            g,
                            ids,
                            ds@,
                            queue@,
                            v,
                        ),
                    forall|i: int| 0 <= i < j ==> #[trigger] edge_relaxed(g, ids, ds@, cur as int, i),
                    forall|kk: int|
                        0 <= kk < queue@.len() ==> {
                            let e = #[trigger] queue@[kk];
                            &&& e.position < n
                            &&& ds@[e.position as int].distance is Some
                            &&& ds@[e.position as int].distance->Some_0 <= e.distance
                        },
                    queue@.len() + potential(ds@) < measure,
                decreases nbrs@.len() - j,
            {
                let w = nbrs[j].1;
                assert(adjacency_view(nbrs@)[j as int] == (nbrs@[j as int].0@, w));
                match position_of_id(nodes, &nbrs[j].0.id) {
                    None => {
                        assert(ids.contains(nbrs@[j as int].0@));
                    },
                    Some(t) => {
                        assert(ids[t as int] == nbrs@[j as int].0@);
                        assert(g.adjacent(ids[cur as int])[j as int] == (ids[t as int], w));
                        match d.checked_add(w as u64) {
                            None => {
                                assert(edge_relaxed(g, ids, ds@, cur as int, j as int));
                            },
                            Some(cand) => {
                                let better = match ds[t].distance {
                                    None => true,
                                    Some(o) => cand < o,
                                };
                                if better {
                                    let ghost ds0 = ds@;
                                    let ghost q1 = queue@;
                                    let ghost stamps0 = stamps;
                                    let label = ShortestDistance {
                                        distance: Some(cand),
                                        previous_node: Some(cur),
                                    };
                                    proof {
                                        lemma_potential_update(ds0, t as int, label);
                                    }
                                    ds.set(t, label);
                                    queue.push(QueueItem::new(cand, t));
                                    let ghost pw0 = pw;
                                    proof {
                                        stamps = stamps.update(t as int, clock);
                                        pw = pw.update(t as int, w);
                                        clock = clock + 1;
                                        let tt = t as int;
                                        let c = cur as int;
                                        assert(tt != c);
                                        assert(tt != s);
                                        assert(g.adjacent(ids[c])[j as int] == (ids[tt], w));
                                        assert(g.adjacent(ids[c]).contains((ids[tt], w)));
                                        assert forall|v: int| 0 <= v < n implies #[trigger] pred_ok(
                                            g,
                                            ids,
                                            ds@,
                                            stamps,
                                            pw,
                                            s,
                                            v,
                                        ) by {
                                            assert(pred_ok(g, ids, ds0, stamps0, pw0, s, v));
                                        }
                                        assert forall|v: int|
                                            0 <= v < n && v != c implies #[trigger] queued_or_relaxed(
                                            g,
                                            ids,
                                            ds@,
                                            queue@,
                                            v,
                                        ) by {
                                            if v == tt {
                                                assert(queue@.last() == QueueItem {
                                                    distance: cand,
                                                    position: t,
                                                });
                                            } else {
                                                assert(queued_or_relaxed(g, ids, ds0, q1, v));
                                                lemma_lower_label_keeps_relaxed(g, ids, ds0, tt, label, v);
                                                let e = QueueItem {
                                                    distance: ds0[v].distance->Some_0,
                                                    position: v as usize,
                                                };
                                                if ds0[v].distance is Some && q1.contains(e) {
                                                    let i = choose|i: int| 0 <= i < q1.len() && q1[i] == e;
                                                    assert(queue@[i] == e);
                                                }
                                            }
                                        }
                                        lemma_lower_label_keeps_relaxed(g, ids, ds0, tt, label, c);
                                        assert(edge_relaxed(g, ids, ds@, c, j as int));
                                        assert forall|i: int| 0 <= i < j implies #[trigger] edge_relaxed(
                                            g,
                                            ids,
                                            ds@,
                                            c,
                                            i,
                                        ) by {
                                            assert(edge_relaxed(g, ids, ds0, c, i));
                                        }
                                        assert forall|kk: int| 0 <= kk < queue@.len() implies {
                                            let e = #[trigger] queue@[kk];
                                            &&& e.position < n
                                            &&& ds@[e.position as int].distance is Some
                                            &&& ds@[e.position as int].distance->Some_0 <= e.distance
                                        } by {
                                            if kk < q1.len() {
                                                assert(queue@[kk] == q1[kk]);
                                            }
                                        }
                                    }
                                } else {
                                    assert(edge_relaxed(g, ids, ds@, cur as int, j as int));
                                }
                            },
                        }
                    },
                }
                j += 1;
            }
        }
        proof {
            assert forall|v: int| 0 <= v < n implies relaxed(g, ids, ds@, v) by {
                assert(queued_or_relaxed(g, ids, ds@, queue@, v));
                if ds@[v].distance is None {
                    assert forall|jj: int| 0 <= jj < g.adjacent(ids[v]).len() implies #[trigger] edge_relaxed(
                        g,
                        ids,
                        ds@,
                        v,
                        jj,
                    ) by {}
                }
            }
        }
        (ds, Ghost(stamps), Ghost(pw))
    }
}

impl<G: Graph> Algorithm for DijkstraAlgorithm<G> {
    type StepExecutionResult = ShortestDistance;

    type ExecutionError = DijkstraError;

    fn shortest_path(&self, start: Node, end: Node) -> (r: Result<SearchResult, DijkstraError>)
        ensures
            is_search_outcome(self.graph_view(), start@, end@, r),
    {
        proof {
            use_type_invariant(self);
        }
        if !self.graph.is_weighted() {
            return Err(DijkstraError::new(String::from_str("The graph that was created needs to be weighted!")));
        }
        let nodes = self.graph.get_all_nodes();
        proof {
            self.graph.lemma_unique_ids();
        }
        let ghost g = self.graph;
        let ghost ids = g.node_ids();
        let s = match position_of_id(nodes, &start.id) {
            Some(i) => i,
            None => {
                return Err(missing_node_error(&start));
            },
        };
        let e = match position_of_id(nodes, &end.id) {
            Some(i) => i,
            None => {
                return Err(missing_node_error(&end));
            },
        };
        assert(ids[s as int] == start@ && ids[e as int] == end@);
        let (ds, Ghost(stamps), Ghost(pw)) = self.calculate_distances(s);
        let total = match ds[e].distance {
            Some(x) => x,
            None => {
                proof {
                    if reachable(g, start@, end@) {
                        let (p, ws) = choose|p: Seq<Seq<char>>, ws: Seq<u16>|
                            is_walk_between(g, p, ws, start@, end@) && sum_weights(ws) <= u64::MAX;
                        lemma_labels_bound_walks(g, ids, ds@, s as int, p, ws);
                    }
                }
                let mut m = String::from_str("Unable to determine a valid path from ");
                m.append(start.id.as_str());
                m.append(" to ");
                m.append(end.id.as_str());
                m.append("!");
                return Err(DijkstraError::new(m));
            },
        };
        proof {
            assert forall|p: Seq<Seq<char>>, ws: Seq<u16>|
                is_walk_between(g, p, ws, start@, end@) implies total <= sum_weights(ws) by {
                if sum_weights(ws) <= u64::MAX {
                    lemma_labels_bound_walks(g, ids, ds@, s as int, p, ws);
                }
            }
        }
        let mut path: Vec<Node> = Vec::new();
        if e == s {
            path.push(start.duplicate());
            path.push(end.duplicate());
            proof {
                assert(ids_of(path@) =~= seq![start@, start@]);
                assert(is_walk_between(g, seq![start@], Seq::<u16>::empty(), start@, end@));
                assert(sum_weights(Seq::<u16>::empty()) == 0);
            }
        } else {
            // Walk back from the end along the predecessors until the start.
            let mut rev: Vec<usize> = Vec::new();
            rev.push(e);
            let mut cur: usize = e;
            let mut prev: usize = match ds[cur].previous_node {
                Some(p) => p,
                None => s,
            };
            let ghost mut gp: Seq<Seq<char>> = seq![ids[e as int]];
            let ghost mut gw: Seq<u16> = Seq::empty();
            proof {
                assert(pred_ok(g, ids, ds@, stamps, pw, s as int, e as int));
                assert(sum_weights(gw) == 0);
            }
            while prev != s
                invariant
                    g == self.graph,
                    ids == g.node_ids(),
                    unique_ids(ids),
                    ids_of(nodes@) == ids,
                    labels_ok(g, ids, ds@, stamps, pw, s as int),
                    ds@[e as int].distance == Some(total),
                    cur < ids.len(),
                    e < ids.len(),
                    cur != s,
                    ds@[cur as int].distance is Some,
                    ds@[cur as int].previous_node == Some(prev),
                    is_walk(g, gp, gw),
                    gp[0] == ids[cur as int],
                    gp.last() == ids[e as int],
                    sum_weights(gw) + ds@[cur as int].distance->Some_0 <= total,
                    rev@.len() == gp.len(),
                    forall|k: int|
                        0 <= k < rev@.len() ==> #[trigger] rev@[k] < ids.len() && ids[rev@[k] as int]
                            == gp[gp.len() - 1 - k],
                    rev@.len() > 0,
                    rev@[rev@.len() - 1] == cur,
                    forall|k: int| 0 <= k < rev@.len() ==> #[trigger] rev@[k] != s,
                    forall|k1: int, k2: int|
                        0 <= k1 < k2 < rev@.len() ==> key_before(
                            ds@,
                            stamps,
                            #[trigger] rev@[k2] as int,
                            #[trigger] rev@[k1] as int,
                        ),
                decreases ds@[cur as int].distance->Some_0, stamps[cur as int],
            {
                let ghost rev0 = rev@;
                let ghost cur0 = cur as int;
                proof {
                    assert(pred_ok(g, ids, ds@, stamps, pw, s as int, cur as int));
                    assert(key_before(ds@, stamps, prev as int, cur as int));
                    let gp1 = seq![ids[prev as int]] + gp;
                    let gw1 = seq![pw[cur as int]] + gw;
                    lemma_sum_weights_prepend(pw[cur as int], gw);
                    assert forall|i: int| 0 <= i < gp1.len() implies g.node_ids().contains(#[trigger] gp1[i]) by {
                        if i > 0 {
                            assert(gp1[i] == gp[i - 1]);
                        }
                    }
                    assert forall|i: int| 0 <= i < gw1.len() implies g.adjacent(gp1[i]).contains(
                        (gp1[i + 1], #[trigger] gw1[i]),
                    ) by {
                        if i > 0 {
                            assert(gw1[i] == gw[i - 1]);
                            assert(gp1[i] == gp[i - 1] && gp1[i + 1] == gp[i]);
                        }
                    }
                    gp = gp1;
                    gw = gw1;
                }
                rev.push(prev);
                cur = prev;
                prev = match ds[cur].previous_node {
                    Some(p) => p,
                    None => s,
                };
                proof {
                    assert(pred_ok(g, ids, ds@, stamps, pw, s as int, cur as int));
                    assert forall|k: int| 0 <= k < rev@.len() implies #[trigger] rev@[k] < ids.len()
                        && ids[rev@[k] as int] == gp[gp.len() - 1 - k] by {
                        if k < rev@.len() - 1 {
                            assert(gp[gp.len() - 1 - k] == gp.subrange(1, gp.len() as int)[gp.len() - 2 - k]);
                        }
                    }
                    assert forall|k1: int, k2: int| 0 <= k1 < k2 < rev@.len() implies key_before(
                        ds@,
                        stamps,
                        #[trigger] rev@[k2] as int,
                        #[trigger] rev@[k1] as int,
                    ) by {
                        assert(rev@[k1] == rev0[k1]);
                        if k2 < rev0.len() {
                            assert(rev@[k2] == rev0[k2]);
                        } else if k1 < rev0.len() - 1 {
                            assert(key_before(ds@, stamps, rev0[rev0.len() - 1] as int, rev0[k1] as int));
                        }
                    }
                    assert forall|k: int| 0 <= k < rev@.len() implies #[trigger] rev@[k] != s by {
                        if k < rev0.len() {
                            assert(rev@[k] == rev0[k]);
                        }
                    }
                }
            }
            proof {
                assert(pred_ok(g, ids, ds@, stamps, pw, s as int, cur as int));
                lemma_sum_weights_prepend(pw[cur as int], gw);
            }
            let ghost full_p = seq![ids[s as int]] + gp;
            let ghost full_w = seq![pw[cur as int]] + gw;
            proof {
                assert forall|i: int| 0 <= i < full_p.len() implies g.node_ids().contains(#[trigger] full_p[i]) by {
                    if i > 0 {
                        assert(full_p[i] == gp[i - 1]);
                    }
                }
                assert forall|i: int| 0 <= i < full_w.len() implies g.adjacent(full_p[i]).contains(
                    (full_p[i + 1], #[trigger] full_w[i]),
                ) by {
                    if i > 0 {
                        assert(full_w[i] == gw[i - 1]);
                        assert(full_p[i] == gp[i - 1] && full_p[i + 1] == gp[i]);
                    }
                }
                assert(is_walk_between(g, full_p, full_w, start@, end@));
                assert forall|i: int, j: int| 0 <= i < j < full_p.len() implies full_p[i] != full_p[j] by {
                    let kj = rev@.len() - j;
                    assert(full_p[j] == gp[j - 1]);
                    assert(full_p[j] == ids[rev@[kj] as int]);
                    if i == 0 {
                        assert(rev@[kj] != s);
                    } else {
                        let ki = rev@.len() - i;
                        assert(full_p[i] == gp[i - 1]);
                        assert(full_p[i] == ids[rev@[ki] as int]);
                        assert(key_before(ds@, stamps, rev@[ki] as int, rev@[kj] as int));
                    }
                }
            }
            path.push(start.duplicate());
            let mut k: usize = rev.len();
            while k > 0
                invariant
                    k <= rev@.len(),
                    rev@.len() == gp.len(),
                    full_p == seq![start@] + gp,
                    ids_of(nodes@) == ids,
                    forall|kk: int|
                        0 <= kk < rev@.len() ==> #[trigger] rev@[kk] < ids.len() && ids[rev@[kk] as int]
                            == gp[gp.len() - 1 - kk],
                    ids_of(path@) == full_p.subrange(0, (1 + rev@.len() - k) as int),
                decreases k,
            {
                k -= 1;
                let ghost before = path@;
                path.push(nodes[rev[k]].duplicate());
                proof {
                    assert(ids_of(path@) =~= ids_of(before).push(ids[rev@[k as int] as int]));
                    assert(full_p.subrange(0, (1 + rev@.len() - k) as int) =~= full_p.subrange(
                        0,
                        (rev@.len() - k) as int,
                    ).push(full_p[(rev@.len() - k) as int]));
                }
            }
            proof {
                assert(ids_of(path@) =~= full_p);
                assert(sum_weights(full_w) <= total);
                assert forall|i: int, j: int| 0 <= i < j < path@.len() implies path@[i]@ != path@[j]@ by {
                    assert(ids_of(path@)[i] == path@[i]@ && ids_of(path@)[j] == path@[j]@);
                }
            }
        }
        match SearchResult::new(path, total) {
            Ok(result) => Ok(result),
            Err(err) => Err(DijkstraError::new(err)),
        }
    }

    fn execute_step() -> (r: Option<ShortestDistance>)
        ensures
            r is None,
    {
        None
    }
}

} // verus!