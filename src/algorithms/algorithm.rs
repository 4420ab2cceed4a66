use vstd::prelude::*;
use vstd::string::*;

use crate::graphs::graph::Node;
use crate::text::string_of;

verus! {

/// The path finding algorithms a user can pick.
#[derive(Debug, PartialEq, Eq, Structural)]
pub enum Algorithms {
    Dijkstra,
}

impl Algorithms {
    /// The algorithm that a name selects; every name selects Dijkstra, the only one there is.
    pub fn get_from_string(src: &str) -> (r: Self)
        ensures
            r == Algorithms::Dijkstra,
    {
        Self::Dijkstra
    }
}

/// A path finding algorithm on a graph, directed or undirected.
pub trait Algorithm {
    /// What a single step of the algorithm yields.
    type StepExecutionResult;

    /// What a failed search returns.
    type ExecutionError;

    /// Finds a shortest path from `start` to `end`.
    fn shortest_path(&self, start: Node, end: Node) -> Result<SearchResult, Self::ExecutionError>;

    /// Runs a single step of the algorithm.
    fn execute_step() -> Option<Self::StepExecutionResult>;
}

/// The decimal digits of `n`, without leading zeros.
pub open spec fn decimal(n: nat) -> Seq<char>
    decreases n,
{
    if n < 10 {
        seq![('0' as int + n) as char]
    } else {
        decimal(n / 10) + seq![('0' as int + n % 10) as char]
    }
}

/// The ids of the path, each after an arrow: " -> A -> B".
pub open spec fn path_text(path: Seq<Node>) -> Seq<char>
    decreases path.len(),
{
    if path.len() == 0 {
        Seq::empty()
    } else {
        path_text(path.drop_last()) + " -> "@ + path.last()@
    }
}

/// The decimal digits of `n`.
fn decimal_text(n: u64) -> (r: Vec<char>)
    ensures
        r@ == decimal(n as nat),
    decreases n,
{
    let digits: [char; 10] = ['0', '1', '2', '3', '4', '5', '6', '7', '8', '9'];
    proof {
        assert(forall|d: int| 0 <= d < 10 ==> #[trigger] digits@[d] == ('0' as int + d) as char);
    }
    if n < 10 {
        let mut r: Vec<char> = Vec::new();
        r.push(digits[n as usize]);
        assert(r@ =~= decimal(n as nat));
        r
    } else {
        let mut r = decimal_text(n / 10);
        r.push(digits[(n % 10) as usize]);
        assert(r@ =~= decimal(n as nat));
        r
    }
}

/// Message of the error for a path of fewer than two nodes.
pub open spec fn short_path_message() -> Seq<char> {
    "There need to be at least 2 nodes in the path from one node A to another node B! Couldn't create a 'SearchResult'!"@
}

/// The answer to a shortest path query.
#[derive(Debug, Clone)]
pub struct SearchResult {
    /// The nodes from the start to the end node; at least two of them.
    pub path: Vec<Node>,
    /// The sum of the weights of the edges along the path.
    pub distance: u64,
}

impl SearchResult {
    /// Creates a result, which fails if the path holds fewer than two nodes.
    pub fn new(path: Vec<Node>, distance: u64) -> (r: Result<Self, String>)
        ensures
            r is Ok <==> path@.len() >= 2,
            r matches Ok(res) ==> res.path == path && res.distance == distance,
            r matches Err(m) ==> m@ == short_path_message(),
    {
        if path.len() < 2 {
            return Err(String::from_str(
                "There need to be at least 2 nodes in the path from one node A to another node B! Couldn't create a 'SearchResult'!",
            ));
        }
        Ok(Self { path, distance })
    }

    /// The result as text: the path as a chain of arrows and the distance.
    pub fn describe(&self) -> (r: String)
        ensures
            r@ == "\n            Path: "@ + path_text(self.path@) + ",\n            Distance: "@ + decimal(
                self.distance as nat,
            ) + "\n            "@,
    {
        let mut path_string = String::new();
        let mut i: usize = 0;
        while i < self.path.len()
            invariant
                i <= self.path@.len(),
                path_string@ == path_text(self.path@.subrange(0, i as int)),
            decreases self.path@.len() - i,
        {
            assert(self.path@.subrange(0, i + 1).drop_last() =~= self.path@.subrange(0, i as int));
            path_string.append(" -> ");
            path_string.append(self.path[i].id.as_str());
            i += 1;
        }
        assert(self.path@.subrange(0, i as int) =~= self.path@);
        let mut r = String::from_str("\n            Path: ");
        r.append(path_string.as_str());
        r.append(",\n            Distance: ");
        r.append(string_of(&decimal_text(self.distance)).as_str());
        r.append("\n            ");
        r
    }
}

} // verus!
