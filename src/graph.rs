//! Read-only access to the successors of the nodes of a directed graph.
use vstd::prelude::*;

verus! {

/// A successor lookup asked for a node that the graph does not have.
#[derive(Clone, Copy, Debug, PartialEq, Eq, Structural)]
pub struct AccessError {
    pub node: usize,
}

/// What a successor lookup on `adj` for `node` returns: the node's
/// successor list if the graph has the node, an error naming it otherwise.
pub open spec fn lookup_ok(adj: Seq<Seq<usize>>, node: usize, r: Result<Vec<usize>, AccessError>) -> bool {
    match r {
        Ok(v) => node < adj.len() && v@ == adj[node as int],
        Err(e) => node >= adj.len() && e == AccessError { node },
    }
}

/// A read-only directed graph whose nodes are `0..adjacency().len()`.
pub trait GraphAccessor {
    /// The successor list of each node, in the order the graph yields them.
    spec fn adjacency(&self) -> Seq<Seq<usize>>;

    /// The successors of `node`, or an error when the graph has no such node.
    fn successors(&self, node: usize) -> (r: Result<Vec<usize>, AccessError>)
        ensures
            lookup_ok(self.adjacency(), node, r),
    ;
}

/// A graph held in memory as one successor list per node.
pub struct AdjacencyGraph {
    lists: Vec<Vec<usize>>,
}

impl AdjacencyGraph {
    pub closed spec fn view(&self) -> Seq<Seq<usize>> {
        self.lists@.map_values(|l: Vec<usize>| l@)
    }

    /// A graph whose node `i` has the successors `lists[i]`.
    pub fn new(lists: Vec<Vec<usize>>) -> (g: AdjacencyGraph)
        ensures
            g@ == lists@.map_values(|l: Vec<usize>| l@),
    {
        AdjacencyGraph { lists }
    }

    /// The number of nodes.
    pub fn num_nodes(&self) -> (r: usize)
        ensures
            r == self@.len(),
    {
        self.lists.len()
    }
}

impl GraphAccessor for AdjacencyGraph {
    open spec fn adjacency(&self) -> Seq<Seq<usize>> {
        self@
    }

    fn successors(&self, node: usize) -> (r: Result<Vec<usize>, AccessError>) {
        if node >= self.lists.len() {
            return Err(AccessError { node });
        }
        let list = &self.lists[node];
        let mut out: Vec<usize> = Vec::new();
        let mut i: usize = 0;
        while i < list.len()
            invariant
                i <= list@.len(),
                out@ == list@.take(i as int),
            decreases list@.len() - i,
        {
            out.push(list[i]);
            i += 1;
            assert(out@ =~= list@.take(i as int));
        }
        assert(out@ =~= list@);
        Ok(out)
    }
}

} // verus!
