//! The bounded, level-synchronous breadth-first traversal.
use crate::color::Color;
use crate::graph::{AccessError, GraphAccessor};
use crate::lemmas::{distinct, lemma_depth_zero, lemma_no_repeated_nodes, lemma_no_successors};
use std::collections::HashSet;
use vstd::prelude::*;

verus! {

broadcast use vstd::std_specs::hash::group_hash_axioms;

/// The state of a traversal between two steps.
pub struct Walk {
    /// Nodes discovered during the current level, to be expanded in the next.
    pub frontier: Seq<usize>,
    /// Nodes discovered so far, the start node included.
    pub discovered: Set<usize>,
    /// Discovered nodes, in the order of discovery, the start node first.
    pub nodes: Seq<usize>,
    /// The color of each entry of `nodes`.
    pub colors: Seq<Color>,
    /// The edge along which each node after the start was discovered.
    pub edges: Seq<(usize, usize)>,
    /// The level at which each entry of `nodes` was discovered.
    pub depths: Seq<nat>,
}

/// The walk before anything is expanded: only the start node, in the color
/// of level zero.
pub open spec fn initial_walk(start: usize, root: Color) -> Walk {
    Walk {
        frontier: seq![start],
        discovered: set![start],
        nodes: seq![start],
        colors: seq![root],
        edges: seq![],
        depths: seq![0],
    }
}

/// Offers the successors `succs` of `src`, in order, to the walk: each one
/// not yet discovered is recorded as discovered at `level`, in `color`, along
/// the edge from `src`, and enqueued. An edge into a node already discovered,
/// whether expanded or still waiting, is dropped.
pub open spec fn absorb(w: Walk, src: usize, succs: Seq<usize>, color: Color, level: nat) -> Walk
    decreases succs.len(),
{
    if succs.len() == 0 {
        w
    } else {
        let prev = absorb(w, src, succs.drop_last(), color, level);
        let d = succs.last();
        if prev.discovered.contains(d) {
            prev
        } else {
            Walk {
                frontier: prev.frontier.push(d),
                discovered: prev.discovered.insert(d),
                nodes: prev.nodes.push(d),
                colors: prev.colors.push(color),
                edges: prev.edges.push((src, d)),
                depths: prev.depths.push(level),
            }
        }
    }
}

/// Expands the nodes of `level`, in order, absorbing the successors of each.
/// Fails on the first node that the graph does not have.
pub open spec fn expand_level(
    adj: Seq<Seq<usize>>,
    level: Seq<usize>,
    w: Walk,
    color: Color,
    depth: nat,
) -> Result<Walk, AccessError>
    decreases level.len(),
{
    if level.len() == 0 {
        Ok(w)
    } else {
        match expand_level(adj, level.drop_last(), w, color, depth) {
            Err(e) => Err(e),
            Ok(prev) => {
                let u = level.last();
                if u >= adj.len() {
                    Err(AccessError { node: u })
                } else {
                    Ok(absorb(prev, u, adj[u as int], color, depth))
                }
            }
        }
    }
}

/// Runs the remaining levels after `depth`: while the frontier is non-empty
/// and `depth < max_depth`, the whole frontier is expanded as level
/// `depth + 1`, in the color `level_colors[depth + 1]`, and its discoveries
/// form the next frontier.
pub open spec fn run_levels(
    adj: Seq<Seq<usize>>,
    w: Walk,
    depth: nat,
    max_depth: nat,
    level_colors: Seq<Color>,
) -> Result<Walk, AccessError>
    decreases max_depth - depth,
{
    if w.frontier.len() == 0 || depth >= max_depth {
        Ok(w)
    } else {
        let color = level_colors[depth + 1 as int];
        let cleared = Walk { frontier: Seq::empty(), ..w };
        match expand_level(adj, w.frontier, cleared, color, depth + 1) {
            Err(e) => Err(e),
            Ok(next) => run_levels(adj, next, depth + 1, max_depth, level_colors),
        }
    }
}

/// The complete traversal of `adj` from `start`, at most `max_depth` levels
/// deep, coloring the nodes of level `d` with `level_colors[d]`.
pub open spec fn bfs(
    adj: Seq<Seq<usize>>,
    start: usize,
    max_depth: nat,
    level_colors: Seq<Color>,
) -> Result<Walk, AccessError> {
    run_levels(adj, initial_walk(start, level_colors[0]), 0, max_depth, level_colors)
}

/// The records of a finished traversal.
#[derive(Clone, Debug, PartialEq, Eq)]
pub struct TraversalResult {
    /// Discovered nodes, in the order of discovery, the start node first.
    pub nodes: Vec<usize>,
    /// The color of each entry of `nodes`.
    pub colors: Vec<Color>,
    /// Directed edges `(source, destination)` along which nodes were discovered.
    pub edges: Vec<(usize, usize)>,
}

/// `r` is what `traverse` returns on these arguments: the records of the
/// walk `bfs` ends in, or the error it stops with.
pub open spec fn traverse_post(
    adj: Seq<Seq<usize>>,
    start: usize,
    max_depth: nat,
    level_colors: Seq<Color>,
    r: Result<TraversalResult, AccessError>,
) -> bool {
    let expected = bfs(adj, start, max_depth, level_colors);
    match r {
        Ok(t) => expected is Ok && t.nodes@ == expected->Ok_0.nodes && t.colors@
            == expected->Ok_0.colors && t.edges@ == expected->Ok_0.edges,
        Err(e) => expected == Err::<Walk, AccessError>(e),
    }
}

proof fn lemma_expand_error_sticks(
    adj: Seq<Seq<usize>>,
    level: Seq<usize>,
    w: Walk,
    color: Color,
    depth: nat,
    k: nat,
)
    requires
        k <= level.len(),
        expand_level(adj, level.take(k as int), w, color, depth) is Err,
    ensures
        expand_level(adj, level, w, color, depth) == expand_level(
            adj,
            level.take(k as int),
            w,
            color,
            depth,
        ),
    decreases level.len() - k,
{
    if k < level.len() {
        assert(level.take(k + 1 as int).drop_last() =~= level.take(k as int));
        lemma_expand_error_sticks(adj, level, w, color, depth, k + 1);
    } else {
        assert(level.take(k as int) =~= level);
    }
}

proof fn lemma_edge_cases(
    adj: Seq<Seq<usize>>,
    start: usize,
    max_depth: nat,
    level_colors: Seq<Color>,
)
    requires
        level_colors.len() > max_depth,
    ensures
        bfs(adj, start, max_depth, level_colors) is Ok ==> distinct(
            bfs(adj, start, max_depth, level_colors)->Ok_0.nodes,
        ),
        max_depth == 0 || (start < adj.len() && adj[start as int].len() == 0) ==> {
            let w = bfs(adj, start, max_depth, level_colors);
            &&& w is Ok
            &&& w->Ok_0.nodes == seq![start]
            &&& w->Ok_0.colors == seq![level_colors[0]]
            &&& w->Ok_0.edges.len() == 0
        },
{
    lemma_no_repeated_nodes(adj, start, max_depth, level_colors);
    if max_depth == 0 {
        lemma_depth_zero(adj, start, level_colors);
    } else if start < adj.len() && adj[start as int].len() == 0 {
        lemma_no_successors(adj, start, max_depth, level_colors);
    }
}

/// Traverses `graph` breadth-first from `start`, level by level, at most
/// `max_depth` levels deep. The start node gets the color `level_colors[0]`;
/// nodes first discovered at level `d` get `level_colors[d]`. A node is
/// recorded once, with the edge along which it was first discovered; an edge
/// into a node already discovered is dropped. Fails with the first node to
/// expand that the graph lacks.
pub fn traverse<G: GraphAccessor>(
    graph: &G,
    start: usize,
    max_depth: usize,
    level_colors: &Vec<Color>,
) -> (r: Result<TraversalResult, AccessError>)
    requires
        level_colors@.len() > max_depth,
    ensures
        traverse_post(graph.adjacency(), start, max_depth as nat, level_colors@, r),
        r is Ok ==> r->Ok_0.colors@.len() == r->Ok_0.nodes@.len(),
        r is Ok ==> distinct(r->Ok_0.nodes@),
        max_depth == 0 || (start < graph.adjacency().len() && graph.adjacency()[start as int].len()
            == 0) ==> {
            &&& r is Ok
            &&& r->Ok_0.nodes@ == seq![start]
            &&& r->Ok_0.colors@ == seq![level_colors@[0]]
            &&& r->Ok_0.edges@.len() == 0
        },
{
    let ghost adj = graph.adjacency();
    let ghost lc = level_colors@;
    let mut discovered: HashSet<usize> = HashSet::new();
    discovered.insert(start);
    let mut frontier: Vec<usize> = vec![start];
    let mut nodes: Vec<usize> = vec![start];
    let mut colors: Vec<Color> = vec![level_colors[0]];
    let mut edges: Vec<(usize, usize)> = Vec::new();
    let ghost mut depths: Seq<nat> = seq![0];
    let mut depth: usize = 0;
    proof {
        assert(discovered@ =~= set![start]);
        assert(frontier@ =~= seq![start]);
        assert(nodes@ =~= seq![start]);
        assert(colors@ =~= seq![lc[0]]);
        assert(edges@ =~= Seq::<(usize, usize)>::empty());
        assert((Walk {
            frontier: frontier@,
            discovered: discovered@,
            nodes: nodes@,
            colors: colors@,
            edges: edges@,
            depths,
        }) == initial_walk(start, lc[0]));
    }
    while frontier.len() > 0 && depth < max_depth
        invariant
            adj == graph.adjacency(),
            lc == level_colors@,
            lc.len() > max_depth,
            depth <= max_depth,
            nodes@.len() == colors@.len(),
            run_levels(
                adj,
                (Walk {
                    frontier: frontier@,
                    discovered: discovered@,
                    nodes: nodes@,
                    colors: colors@,
                    edges: edges@,
                    depths,
                }),
                depth as nat,
                max_depth as nat,
                lc,
            ) == bfs(adj, start, max_depth as nat, lc),
        decreases max_depth - depth,
    {
        let ghost w_start = Walk {
            frontier: frontier@,
            discovered: discovered@,
            nodes: nodes@,
            colors: colors@,
            edges: edges@,
            depths,
        };
        let ghost w0 = Walk { frontier: Seq::empty(), ..w_start };
        depth += 1;
        let color = level_colors[depth];
        let level = frontier;
        frontier = Vec::new();
        let mut i: usize = 0;
        proof {
            assert(level@.take(0) =~= Seq::<usize>::empty());
            assert(frontier@ =~= Seq::<usize>::empty());
        }
        while i < level.len()
            invariant
                adj == graph.adjacency(),
                lc == level_colors@,
                lc.len() > max_depth,
                1 <= depth <= max_depth,
                i <= level@.len(),
                level@ == w_start.frontier,
                w0 == (Walk { frontier: Seq::empty(), ..w_start }),
                color == lc[depth as int],
                run_levels(adj, w_start, (depth - 1) as nat, max_depth as nat, lc) == bfs(
                    adj,
                    start,
                    max_depth as nat,
                    lc,
                ),
                nodes@.len() == colors@.len(),
                expand_level(adj, level@.take(i as int), w0, color, depth as nat) == Ok::<
                    Walk,
                    AccessError,
                >(
                    Walk {
                        frontier: frontier@,
                        discovered: discovered@,
                        nodes: nodes@,
                        colors: colors@,
                        edges: edges@,
                        depths,
                    },
                ),
            decreases level@.len() - i,
        {
            let u = level[i];
            let ghost prev = Walk {
                frontier: frontier@,
                discovered: discovered@,
                nodes: nodes@,
                colors: colors@,
                edges: edges@,
                depths,
            };
            proof {
                assert(level@.take(i + 1).drop_last() =~= level@.take(i as int));
            }
            let succs = match graph.successors(u) {
                Ok(s) => s,
                Err(e) => {
                    proof {
                        lemma_edge_cases(adj, start, max_depth as nat, lc);
                        lemma_expand_error_sticks(adj, level@, w0, color, depth as nat, (i + 1) as nat);
                    }
                    return Err(e);
                },
            };
            let mut j: usize = 0;
            proof {
                assert(succs@.take(0) =~= Seq::<usize>::empty());
            }
            while j < succs.len()
                invariant
                    j <= succs@.len(),
                    nodes@.len() == colors@.len(),
                    absorb(prev, u, succs@.take(j as int), color, depth as nat) == (Walk {
                        frontier: frontier@,
                        discovered: discovered@,
                        nodes: nodes@,
                        colors: colors@,
                        edges: edges@,
                        depths,
                    }),
                decreases succs@.len() - j,
            {
                let d = succs[j];
                proof {
                    assert(succs@.take(j + 1).drop_last() =~= succs@.take(j as int));
                }
                if !discovered.contains(&d) {
                    discovered.insert(d);
                    frontier.push(d);
                    nodes.push(d);
                    colors.push(color);
                    edges.push((u, d));
                    proof {
                        depths = depths.push(depth as nat);
                    }
                }
                j += 1;
            }
            proof {
                assert(succs@.take(j as int) =~= succs@);
            }
            i += 1;
        }
        proof {
            assert(level@.take(i as int) =~= level@);
        }
    }
    proof {
        lemma_edge_cases(adj, start, max_depth as nat, lc);
    }
    Ok(TraversalResult { nodes, colors, edges })
}

} // verus!
