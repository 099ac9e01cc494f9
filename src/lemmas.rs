//! Facts about every traversal, proved from its definition.
use crate::color::Color;
use crate::graph::AccessError;
use crate::traverse::{
    absorb, bfs, expand_level, initial_walk, run_levels, traverse_post, TraversalResult, Walk,
};
use vstd::prelude::*;

verus! {

/// No value occurs twice in `s`.
pub open spec fn distinct(s: Seq<usize>) -> bool {
    forall|i: int, j: int| 0 <= i < j < s.len() ==> s[i] != s[j]
}

/// The records of `w` are aligned, start with the start node in the color of
/// level zero, are ordered by level, reach no deeper than `depth`, and each
/// later node has the color of its level.
pub open spec fn levels_ordered(w: Walk, depth: nat, level_colors: Seq<Color>) -> bool {
    &&& w.nodes.len() >= 1
    &&& w.colors.len() == w.nodes.len()
    &&& w.depths.len() == w.nodes.len()
    &&& w.edges.len() + 1 == w.nodes.len()
    &&& w.depths[0] == 0
    &&& w.colors[0] == level_colors[0]
    &&& forall|i: int, j: int| 0 <= i < j < w.depths.len() ==> w.depths[i] <= w.depths[j]
    &&& forall|i: int| 0 <= i < w.depths.len() ==> w.depths[i] <= depth
    &&& forall|i: int| 0 < i < w.depths.len() ==> 1 <= #[trigger] w.depths[i]
    &&& forall|i: int|
        0 < i < w.depths.len() ==> #[trigger] w.colors[i] == level_colors[w.depths[i] as int]
}

/// The walk lists no node twice, and has discovered exactly the nodes it lists.
pub open spec fn discovered_once(w: Walk) -> bool {
    &&& distinct(w.nodes)
    &&& forall|x: usize| #[trigger] w.discovered.contains(x) <==> w.nodes.contains(x)
}

proof fn lemma_absorb_ordered(
    w: Walk,
    src: usize,
    succs: Seq<usize>,
    level: nat,
    level_colors: Seq<Color>,
)
    requires
        level >= 1,
        levels_ordered(w, level, level_colors),
    ensures
        levels_ordered(
            absorb(w, src, succs, level_colors[level as int], level),
            level,
            level_colors,
        ),
    decreases succs.len(),
{
    if succs.len() > 0 {
        let color = level_colors[level as int];
        lemma_absorb_ordered(w, src, succs.drop_last(), level, level_colors);
        let prev = absorb(w, src, succs.drop_last(), color, level);
        let d = succs.last();
        if !prev.discovered.contains(d) {
            let next = absorb(w, src, succs, color, level);
            let n = prev.depths.len();
            assert(next.depths == prev.depths.push(level));
            assert(next.colors == prev.colors.push(color));
            assert forall|i: int, j: int| 0 <= i < j < next.depths.len() implies next.depths[i]
                <= next.depths[j] by {
                if j < n {
                    assert(prev.depths[i] <= prev.depths[j]);
                } else {
                    assert(prev.depths[i] <= level);
                }
            }
            assert forall|i: int| 0 < i < next.depths.len() implies 1 <= #[trigger] next.depths[i]
                && next.colors[i] == level_colors[next.depths[i] as int] by {
                if i < n {
                    assert(next.depths[i] == prev.depths[i]);
                    assert(next.colors[i] == prev.colors[i]);
                }
            }
        }
    }
}

proof fn lemma_absorb_once(w: Walk, src: usize, succs: Seq<usize>, color: Color, level: nat)
    requires
        discovered_once(w),
    ensures
        discovered_once(absorb(w, src, succs, color, level)),
        absorb(w, src, succs, color, level).nodes.len() >= w.nodes.len(),
        forall|i: int|
            0 <= i < w.nodes.len() ==> absorb(w, src, succs, color, level).nodes[i] == w.nodes[i],
    decreases succs.len(),
{
    if succs.len() > 0 {
        lemma_absorb_once(w, src, succs.drop_last(), color, level);
        let prev = absorb(w, src, succs.drop_last(), color, level);
        let d = succs.last();
        if !prev.discovered.contains(d) {
            let next = absorb(w, src, succs, color, level);
            assert(next.nodes == prev.nodes.push(d));
            assert(!prev.nodes.contains(d));
            assert forall|i: int, j: int| 0 <= i < j < next.nodes.len() implies next.nodes[i]
                != next.nodes[j] by {
                if j == prev.nodes.len() {
                    assert(prev.nodes[i] != d);
                }
            }
            assert forall|x: usize| #[trigger] next.discovered.contains(x) <==> next.nodes.contains(
                x,
            ) by {
                if next.nodes.contains(x) {
                    let k = choose|k: int| 0 <= k < next.nodes.len() && next.nodes[k] == x;
                    if k < prev.nodes.len() {
                        assert(prev.nodes[k] == x);
                        assert(prev.nodes.contains(x));
                    }
                }
                if prev.nodes.contains(x) {
                    let k = choose|k: int| 0 <= k < prev.nodes.len() && prev.nodes[k] == x;
                    assert(next.nodes[k] == x);
                }
                if x == d {
                    assert(next.nodes[prev.nodes.len() as int] == x);
                }
            }
        }
    }
}

proof fn lemma_expand_ordered(
    adj: Seq<Seq<usize>>,
    level: Seq<usize>,
    w: Walk,
    depth: nat,
    level_colors: Seq<Color>,
)
    requires
        depth >= 1,
        levels_ordered(w, depth, level_colors),
        discovered_once(w),
    ensures
        expand_level(adj, level, w, level_colors[depth as int], depth) is Ok ==> {
            let r = expand_level(adj, level, w, level_colors[depth as int], depth)->Ok_0;
            &&& levels_ordered(r, depth, level_colors)
            &&& discovered_once(r)
            &&& r.nodes.len() >= w.nodes.len()
            &&& forall|i: int| 0 <= i < w.nodes.len() ==> r.nodes[i] == w.nodes[i]
        },
    decreases level.len(),
{
    let color = level_colors[depth as int];
    if level.len() > 0 {
        lemma_expand_ordered(adj, level.drop_last(), w, depth, level_colors);
        let r = expand_level(adj, level.drop_last(), w, color, depth);
        if r is Ok {
            let prev = r->Ok_0;
            let u = level.last();
            if u < adj.len() {
                lemma_absorb_ordered(prev, u, adj[u as int], depth, level_colors);
                lemma_absorb_once(prev, u, adj[u as int], color, depth);
            }
        }
    }
}

proof fn lemma_run_ordered(
    adj: Seq<Seq<usize>>,
    w: Walk,
    depth: nat,
    max_depth: nat,
    level_colors: Seq<Color>,
)
    requires
        depth <= max_depth,
        level_colors.len() > max_depth,
        levels_ordered(w, depth, level_colors),
        discovered_once(w),
    ensures
        run_levels(adj, w, depth, max_depth, level_colors) is Ok ==> {
            let r = run_levels(adj, w, depth, max_depth, level_colors)->Ok_0;
            &&& levels_ordered(r, max_depth, level_colors)
            &&& discovered_once(r)
            &&& r.nodes[0] == w.nodes[0]
        },
    decreases max_depth - depth,
{
    if w.frontier.len() == 0 || depth >= max_depth {
    } else {
        let cleared = Walk { frontier: Seq::empty(), ..w };
        assert forall|i: int| 0 <= i < cleared.depths.len() implies cleared.depths[i] <= depth
            + 1 by {
            assert(w.depths[i] <= depth);
        }
        assert(levels_ordered(cleared, depth + 1, level_colors));
        lemma_expand_ordered(adj, w.frontier, cleared, depth + 1, level_colors);
        let r = expand_level(
            adj,
            w.frontier,
            cleared,
            level_colors[depth + 1 as int],
            depth + 1,
        );
        if r is Ok {
            lemma_run_ordered(adj, r->Ok_0, depth + 1, max_depth, level_colors);
        }
    }
}

proof fn lemma_initial(start: usize, level_colors: Seq<Color>)
    requires
        level_colors.len() > 0,
    ensures
        levels_ordered(initial_walk(start, level_colors[0]), 0, level_colors),
        discovered_once(initial_walk(start, level_colors[0])),
{
    let w = initial_walk(start, level_colors[0]);
    assert forall|x: usize| #[trigger] w.discovered.contains(x) <==> w.nodes.contains(x) by {
        if x == start {
            assert(w.nodes[0] == x);
        }
    }
}

/// Every finished traversal has one color per node and one edge per node
/// after the start; the start node comes first, in the color of level zero;
/// nodes appear in the order of the levels at which they were discovered; and
/// each node discovered at level `d`, `1 <= d <= max_depth`, has the color
/// `level_colors[d]`.
pub proof fn lemma_levels_ordered(
    adj: Seq<Seq<usize>>,
    start: usize,
    max_depth: nat,
    level_colors: Seq<Color>,
)
    requires
        level_colors.len() > max_depth,
        bfs(adj, start, max_depth, level_colors) is Ok,
    ensures
        ({
            let w = bfs(adj, start, max_depth, level_colors)->Ok_0;
            &&& w.colors.len() == w.nodes.len()
            &&& w.depths.len() == w.nodes.len()
            &&& w.edges.len() + 1 == w.nodes.len()
            &&& w.nodes[0] == start
            &&& w.depths[0] == 0
            &&& forall|i: int| 0 <= i < w.nodes.len() ==> #[trigger] w.depths[i] <= max_depth
            &&& w.colors[0] == level_colors[0]
            &&& forall|i: int, j: int|
                0 <= i < w.nodes.len() && 0 <= j < w.nodes.len() && w.depths[i] < w.depths[j]
                    ==> i < j
            &&& forall|i: int|
                0 < i < w.nodes.len() ==> 1 <= w.depths[i] <= max_depth && w.colors[i]
                    == level_colors[w.depths[i] as int]
        }),
{
    lemma_initial(start, level_colors);
    lemma_run_ordered(adj, initial_walk(start, level_colors[0]), 0, max_depth, level_colors);
}

/// A finished traversal lists no node twice.
pub proof fn lemma_no_repeated_nodes(
    adj: Seq<Seq<usize>>,
    start: usize,
    max_depth: nat,
    level_colors: Seq<Color>,
)
    requires
        level_colors.len() > max_depth,
    ensures
        bfs(adj, start, max_depth, level_colors) is Ok ==> distinct(
            bfs(adj, start, max_depth, level_colors)->Ok_0.nodes,
        ),
{
    lemma_initial(start, level_colors);
    lemma_run_ordered(adj, initial_walk(start, level_colors[0]), 0, max_depth, level_colors);
}

/// With a depth bound of zero nothing is expanded: the traversal yields the
/// start node alone, in the color of level zero, and no edge, whatever the
/// graph.
pub proof fn lemma_depth_zero(adj: Seq<Seq<usize>>, start: usize, level_colors: Seq<Color>)
    ensures
        bfs(adj, start, 0, level_colors) is Ok,
        bfs(adj, start, 0, level_colors)->Ok_0.nodes == seq![start],
        bfs(adj, start, 0, level_colors)->Ok_0.colors == seq![level_colors[0]],
        bfs(adj, start, 0, level_colors)->Ok_0.edges == Seq::<(usize, usize)>::empty(),
{
}

/// A start node that the graph has, without successors, yields itself alone,
/// in the color of level zero, and no edge, whatever the depth bound.
pub proof fn lemma_no_successors(
    adj: Seq<Seq<usize>>,
    start: usize,
    max_depth: nat,
    level_colors: Seq<Color>,
)
    requires
        start < adj.len(),
        adj[start as int].len() == 0,
    ensures
        bfs(adj, start, max_depth, level_colors) is Ok,
        bfs(adj, start, max_depth, level_colors)->Ok_0.nodes == seq![start],
        bfs(adj, start, max_depth, level_colors)->Ok_0.colors == seq![level_colors[0]],
        bfs(adj, start, max_depth, level_colors)->Ok_0.edges == Seq::<(usize, usize)>::empty(),
{
    let w0 = initial_walk(start, level_colors[0]);
    if max_depth > 0 {
        let color = level_colors[1];
        let cleared = Walk { frontier: Seq::empty(), ..w0 };
        let level = w0.frontier;
        assert(level.drop_last() =~= Seq::<usize>::empty());
        assert(expand_level(adj, level.drop_last(), cleared, color, 1) == Ok::<Walk, AccessError>(
            cleared,
        ));
        assert(absorb(cleared, start, adj[start as int], color, 1) == cleared);
        assert(expand_level(adj, level, cleared, color, 1) == Ok::<Walk, AccessError>(cleared));
        assert(run_levels(adj, cleared, 1, max_depth, level_colors) == Ok::<Walk, AccessError>(
            cleared,
        ));
    }
}

/// Two traversals with the same graph, start, depth bound and level colors
/// give the same outcome: the same nodes, colors and edges, or the same error.
pub proof fn lemma_deterministic(
    adj: Seq<Seq<usize>>,
    start: usize,
    max_depth: nat,
    level_colors: Seq<Color>,
    r1: Result<TraversalResult, AccessError>,
    r2: Result<TraversalResult, AccessError>,
)
    requires
        traverse_post(adj, start, max_depth, level_colors, r1),
        traverse_post(adj, start, max_depth, level_colors, r2),
    ensures
        r1 is Ok <==> r2 is Ok,
        r1 is Ok ==> r1->Ok_0.nodes@ == r2->Ok_0.nodes@ && r1->Ok_0.colors@ == r2->Ok_0.colors@
            && r1->Ok_0.edges@ == r2->Ok_0.edges@,
        r1 is Err ==> r1->Err_0 == r2->Err_0,
{
}

/// `v` is listed in `w` at a level no deeper than `level`.
pub open spec fn listed_within(w: Walk, v: usize, level: nat) -> bool {
    exists|k: int| 0 <= k < w.nodes.len() && w.nodes[k] == v && w.depths[k] <= level
}

/// Entry `k` was discovered along a graph edge from a node listed before it,
/// one level up.
pub open spec fn has_parent(adj: Seq<Seq<usize>>, w: Walk, k: int) -> bool {
    exists|j: int|
        0 <= j < k && w.nodes[j] == w.edges[k - 1].0 && w.depths[j] + 1 == w.depths[k]
            && w.edges[k - 1].1 == w.nodes[k] && w.nodes[j] < adj.len() && adj[w.nodes[
            j] as int].contains(w.nodes[k])
}

/// Every entry after the start has a parent.
pub open spec fn parented(adj: Seq<Seq<usize>>, w: Walk) -> bool {
    forall|k: int| 0 < k < w.nodes.len() ==> #[trigger] has_parent(adj, w, k)
}

/// Every node listed above `depth` is in the graph and has each of its
/// successors listed at most one level below it.
pub open spec fn closed_below(adj: Seq<Seq<usize>>, w: Walk, depth: nat) -> bool {
    forall|i: int|
        0 <= i < w.nodes.len() && w.depths[i] < depth ==> #[trigger] successors_listed(adj, w, i)
}

/// Entry `i` is a node of the graph whose successors are all listed at most
/// one level below it.
pub open spec fn successors_listed(adj: Seq<Seq<usize>>, w: Walk, i: int) -> bool {
    &&& w.nodes[i] < adj.len()
    &&& forall|p: int|
        0 <= p < adj[w.nodes[i] as int].len() ==> listed_within(
            w,
            #[trigger] adj[w.nodes[i] as int][p],
            w.depths[i] + 1,
        )
}

/// `r` extends `w`: its records start with those of `w`.
pub open spec fn extends(r: Walk, w: Walk) -> bool {
    &&& r.nodes.len() >= w.nodes.len()
    &&& r.nodes.len() == r.depths.len()
    &&& r.nodes.len() == r.edges.len() + 1
    &&& forall|k: int| 0 <= k < w.nodes.len() ==> r.nodes[k] == w.nodes[k]
    &&& forall|k: int| 0 <= k < w.nodes.len() ==> r.depths[k] == w.depths[k]
    &&& forall|k: int| 0 <= k < w.edges.len() ==> r.edges[k] == w.edges[k]
}

proof fn lemma_listed_grows(w: Walk, r: Walk, v: usize, level: nat)
    requires
        extends(r, w),
        listed_within(w, v, level),
    ensures
        listed_within(r, v, level),
{
    let k = choose|k: int| 0 <= k < w.nodes.len() && w.nodes[k] == v && w.depths[k] <= level;
    assert(r.nodes[k] == v && r.depths[k] <= level);
}

proof fn lemma_parented_grows(adj: Seq<Seq<usize>>, w: Walk, r: Walk, k: int)
    requires
        extends(r, w),
        w.nodes.len() == w.edges.len() + 1,
        0 < k < w.nodes.len(),
        has_parent(adj, w, k),
    ensures
        has_parent(adj, r, k),
{
    let j = choose|j: int|
        0 <= j < k && w.nodes[j] == w.edges[k - 1].0 && w.depths[j] + 1 == w.depths[k]
            && w.edges[k - 1].1 == w.nodes[k] && w.nodes[j] < adj.len() && adj[w.nodes[
            j] as int].contains(w.nodes[k]);
    assert(r.nodes[j] == w.nodes[j]);
    assert(r.nodes[k] == w.nodes[k]);
    assert(r.depths[j] == w.depths[j]);
    assert(r.depths[k] == w.depths[k]);
    assert(r.edges[k - 1] == w.edges[k - 1]);
}

proof fn lemma_successors_listed_grows(adj: Seq<Seq<usize>>, w: Walk, r: Walk, i: int)
    requires
        extends(r, w),
        0 <= i < w.nodes.len(),
        successors_listed(adj, w, i),
    ensures
        successors_listed(adj, r, i),
{
    assert forall|p: int| 0 <= p < adj[r.nodes[i] as int].len() implies listed_within(
        r,
        #[trigger] adj[r.nodes[i] as int][p],
        r.depths[i] + 1,
    ) by {
        lemma_listed_grows(w, r, adj[w.nodes[i] as int][p], w.depths[i] + 1);
    }
}

proof fn lemma_absorb_bfs(
    adj: Seq<Seq<usize>>,
    w: Walk,
    u: usize,
    ju: int,
    n: nat,
    color: Color,
    level: nat,
)
    requires
        w.nodes.len() == w.depths.len(),
        w.nodes.len() == w.edges.len() + 1,
        0 <= ju < w.nodes.len(),
        w.nodes[ju] == u,
        w.depths[ju] + 1 == level,
        u < adj.len(),
        n <= adj[u as int].len(),
        parented(adj, w),
        discovered_once(w),
        forall|k: int| 0 <= k < w.nodes.len() ==> w.depths[k] <= level,
    ensures
        ({
            let r = absorb(w, u, adj[u as int].take(n as int), color, level);
            &&& extends(r, w)
            &&& parented(adj, r)
            &&& discovered_once(r)
            &&& forall|k: int| 0 <= k < r.nodes.len() ==> r.depths[k] <= level
            &&& forall|k: int| w.nodes.len() <= k < r.nodes.len() ==> r.depths[k] == level
            &&& r.frontier == w.frontier + r.nodes.subrange(w.nodes.len() as int, r.nodes.len() as int)
            &&& forall|p: int| 0 <= p < n ==> listed_within(r, #[trigger] adj[u as int][p], level)
        }),
    decreases n,
{
    let succs = adj[u as int].take(n as int);
    let r = absorb(w, u, succs, color, level);
    if n == 0 {
        assert(r == w);
        assert(w.nodes.subrange(w.nodes.len() as int, w.nodes.len() as int) =~= Seq::<usize>::empty());
        assert(w.frontier + Seq::<usize>::empty() =~= w.frontier);
    } else {
        assert(succs.drop_last() =~= adj[u as int].take(n - 1));
        lemma_absorb_bfs(adj, w, u, ju, (n - 1) as nat, color, level);
        lemma_absorb_once(w, u, adj[u as int].take(n - 1), color, level);
        let prev = absorb(w, u, adj[u as int].take(n - 1), color, level);
        let d = succs.last();
        assert(d == adj[u as int][n - 1]);
        let m = prev.nodes.len() as int;
        if prev.discovered.contains(d) {
            assert(r == prev);
            assert(prev.nodes.contains(d));
            let k = choose|k: int| 0 <= k < prev.nodes.len() && prev.nodes[k] == d;
            assert(listed_within(r, adj[u as int][n - 1], level));
        } else {
            lemma_absorb_once(w, u, succs, color, level);
            assert(r.nodes == prev.nodes.push(d));
            assert(r.depths == prev.depths.push(level));
            assert(r.edges == prev.edges.push((u, d)));
            assert(r.frontier == prev.frontier.push(d));
            assert(extends(r, prev));
            assert forall|k: int| 0 < k < r.nodes.len() implies #[trigger] has_parent(adj, r, k) by {
                if k < m {
                    lemma_parented_grows(adj, prev, r, k);
                } else {
                    assert(r.nodes[ju] == u);
                    assert(adj[u as int][n - 1] == d);
                    assert(adj[u as int].contains(d));
                    assert(r.edges[k - 1] == (u, d));
                }
            }
            assert forall|p: int| 0 <= p < n implies listed_within(r, #[trigger] adj[u as int][p], level) by {
                if p < n - 1 {
                    lemma_listed_grows(prev, r, adj[u as int][p], level);
                } else {
                    assert(r.nodes[m] == d);
                }
            }
            assert(r.nodes.subrange(w.nodes.len() as int, r.nodes.len() as int)
                =~= prev.nodes.subrange(w.nodes.len() as int, m).push(d));
            assert(w.frontier + r.nodes.subrange(w.nodes.len() as int, r.nodes.len() as int)
                =~= (w.frontier + prev.nodes.subrange(w.nodes.len() as int, m)).push(d));
        }
    }
}

proof fn lemma_expand_bfs(
    adj: Seq<Seq<usize>>,
    lv: Seq<usize>,
    base: Walk,
    m: int,
    color: Color,
    level: nat,
)
    requires
        base.nodes.len() == base.depths.len(),
        base.nodes.len() == base.edges.len() + 1,
        parented(adj, base),
        discovered_once(base),
        forall|k: int| 0 <= k < base.nodes.len() ==> base.depths[k] <= level,
        0 <= m,
        m + lv.len() <= base.nodes.len(),
        forall|q: int|
            0 <= q < lv.len() ==> lv[q] == base.nodes[m + q] && base.depths[m + q] + 1 == level,
    ensures
        expand_level(adj, lv, base, color, level) is Ok ==> {
            let r = expand_level(adj, lv, base, color, level)->Ok_0;
            &&& extends(r, base)
            &&& parented(adj, r)
            &&& discovered_once(r)
            &&& forall|k: int| 0 <= k < r.nodes.len() ==> r.depths[k] <= level
            &&& forall|k: int| base.nodes.len() <= k < r.nodes.len() ==> r.depths[k] == level
            &&& r.frontier == base.frontier + r.nodes.subrange(
                base.nodes.len() as int,
                r.nodes.len() as int,
            )
            &&& forall|q: int| 0 <= q < lv.len() ==> #[trigger] successors_listed(adj, r, m + q)
        },
    decreases lv.len(),
{
    if lv.len() == 0 {
        let r = base;
        assert(base.nodes.subrange(base.nodes.len() as int, base.nodes.len() as int)
            =~= Seq::<usize>::empty());
        assert(base.frontier + Seq::<usize>::empty() =~= base.frontier);
    } else {
        let init = lv.drop_last();
        assert forall|q: int| 0 <= q < init.len() implies init[q] == base.nodes[m + q]
            && base.depths[m + q] + 1 == level by {
            assert(init[q] == lv[q]);
        }
        lemma_expand_bfs(adj, init, base, m, color, level);
        let pr = expand_level(adj, init, base, color, level);
        let u = lv.last();
        if pr is Ok && u < adj.len() {
            let prev = pr->Ok_0;
            let ju = m + lv.len() - 1;
            assert(prev.nodes[ju] == u);
            assert(prev.depths[ju] + 1 == level);
            assert(adj[u as int].take(adj[u as int].len() as int) =~= adj[u as int]);
            lemma_absorb_bfs(adj, prev, u, ju, adj[u as int].len(), color, level);
            let r = absorb(prev, u, adj[u as int], color, level);
            assert(extends(r, base));
            assert forall|q: int| 0 <= q < lv.len() implies #[trigger] successors_listed(
                adj,
                r,
                m + q,
            ) by {
                if q < lv.len() - 1 {
                    assert(init[q] == lv[q]);
                    lemma_successors_listed_grows(adj, prev, r, m + q);
                } else {
                    assert(r.nodes[ju] == u);
                    assert(r.depths[ju] + 1 == level);
                }
            }
            assert(r.frontier =~= base.frontier + r.nodes.subrange(
                base.nodes.len() as int,
                r.nodes.len() as int,
            ));
        }
    }
}

proof fn lemma_run_bfs(
    adj: Seq<Seq<usize>>,
    w: Walk,
    depth: nat,
    max_depth: nat,
    level_colors: Seq<Color>,
)
    requires
        depth <= max_depth,
        level_colors.len() > max_depth,
        levels_ordered(w, depth, level_colors),
        discovered_once(w),
        parented(adj, w),
        closed_below(adj, w, depth),
        w.frontier.len() <= w.nodes.len(),
        w.frontier == w.nodes.subrange(
            w.nodes.len() - w.frontier.len(),
            w.nodes.len() as int,
        ),
        forall|k: int|
            w.nodes.len() - w.frontier.len() <= k < w.nodes.len() ==> w.depths[k] == depth,
        forall|k: int| 0 <= k < w.nodes.len() - w.frontier.len() ==> w.depths[k] < depth,
    ensures
        run_levels(adj, w, depth, max_depth, level_colors) is Ok ==> {
            let r = run_levels(adj, w, depth, max_depth, level_colors)->Ok_0;
            &&& parented(adj, r)
            &&& closed_below(adj, r, max_depth)
        },
    decreases max_depth - depth,
{
    let len = w.nodes.len() as int;
    let m = len - w.frontier.len();
    if w.frontier.len() == 0 || depth >= max_depth {
        assert forall|i: int|
            0 <= i < w.nodes.len() && w.depths[i] < max_depth implies #[trigger] successors_listed(
            adj,
            w,
            i,
        ) by {
            if w.frontier.len() == 0 {
                assert(w.depths[i] < depth);
            }
        }
    } else {
        let l = depth + 1;
        let color = level_colors[l as int];
        let cleared = Walk { frontier: Seq::empty(), ..w };
        assert forall|k: int| 0 < k < cleared.nodes.len() implies #[trigger] has_parent(
            adj,
            cleared,
            k,
        ) by {
            assert(has_parent(adj, w, k));
        }
        assert forall|k: int| 0 <= k < cleared.nodes.len() implies cleared.depths[k] <= l by {
            assert(w.depths[k] <= depth);
        }
        assert forall|q: int| 0 <= q < w.frontier.len() implies w.frontier[q] == cleared.nodes[m
            + q] && cleared.depths[m + q] + 1 == l by {}
        lemma_expand_bfs(adj, w.frontier, cleared, m, color, l);
        assert(levels_ordered(cleared, l, level_colors));
        lemma_expand_ordered(adj, w.frontier, cleared, l, level_colors);
        let er = expand_level(adj, w.frontier, cleared, color, l);
        if er is Ok {
            let r1 = er->Ok_0;
            assert(r1.frontier =~= r1.nodes.subrange(len, r1.nodes.len() as int));
            assert forall|i: int|
                0 <= i < r1.nodes.len() && r1.depths[i] < l implies #[trigger] successors_listed(
                adj,
                r1,
                i,
            ) by {
                if i < m {
                    assert(w.depths[i] < depth);
                    assert(successors_listed(adj, w, i));
                    assert(extends(cleared, w));
                    lemma_successors_listed_grows(adj, w, cleared, i);
                    lemma_successors_listed_grows(adj, cleared, r1, i);
                } else if i < len {
                    assert(successors_listed(adj, r1, m + (i - m)));
                }
            }
            assert forall|k: int| 0 <= k < len implies r1.depths[k] < l by {
                assert(w.depths[k] <= depth);
            }
            lemma_run_bfs(adj, r1, l, max_depth, level_colors);
        }
    }
}

/// The levels of a finished traversal are breadth-first levels: every node
/// after the start was discovered along an edge of the graph from a node
/// listed before it one level up, so a node at level `d` lies `d` edges from
/// the start; and every successor of a node listed above `max_depth` is
/// listed at most one level below it, so no node is listed deeper than its
/// fewest edges from the start.
pub proof fn lemma_breadth_first_levels(
    adj: Seq<Seq<usize>>,
    start: usize,
    max_depth: nat,
    level_colors: Seq<Color>,
)
    requires
        level_colors.len() > max_depth,
        bfs(adj, start, max_depth, level_colors) is Ok,
    ensures
        parented(adj, bfs(adj, start, max_depth, level_colors)->Ok_0),
        closed_below(adj, bfs(adj, start, max_depth, level_colors)->Ok_0, max_depth),
{
    let w0 = initial_walk(start, level_colors[0]);
    lemma_initial(start, level_colors);
    assert(w0.frontier =~= w0.nodes.subrange(0, 1));
    lemma_run_bfs(adj, w0, 0, max_depth, level_colors);
}

/// `p` is a path in the graph from `start`: it begins there, and each of
/// its nodes but the last is a node of the graph with the next among its
/// successors. Its length in edges is `p.len() - 1`.
pub open spec fn is_path_from(adj: Seq<Seq<usize>>, start: usize, p: Seq<usize>) -> bool {
    &&& p.len() >= 1
    &&& p[0] == start
    &&& forall|i: int| 0 <= i < p.len() - 1 ==> #[trigger] path_step(adj, p, i)
}

/// Node `i` of `p` is a node of the graph with node `i + 1` among its successors.
pub open spec fn path_step(adj: Seq<Seq<usize>>, p: Seq<usize>, i: int) -> bool {
    p[i] < adj.len() && adj[p[i] as int].contains(p[i + 1])
}

proof fn lemma_path_to_entry(adj: Seq<Seq<usize>>, start: usize, w: Walk, k: int) -> (p: Seq<usize>)
    requires
        w.nodes.len() == w.depths.len(),
        w.nodes.len() == w.edges.len() + 1,
        w.nodes[0] == start,
        w.depths[0] == 0,
        parented(adj, w),
        0 <= k < w.nodes.len(),
    ensures
        is_path_from(adj, start, p),
        p.last() == w.nodes[k],
        p.len() == w.depths[k] + 1,
    decreases k,
{
    if k == 0 {
        seq![start]
    } else {
        assert(has_parent(adj, w, k));
        let j = choose|j: int|
            0 <= j < k && w.nodes[j] == w.edges[k - 1].0 && w.depths[j] + 1 == w.depths[k]
                && w.edges[k - 1].1 == w.nodes[k] && w.nodes[j] < adj.len() && adj[w.nodes[
                j] as int].contains(w.nodes[k]);
        let pj = lemma_path_to_entry(adj, start, w, j);
        let p = pj.push(w.nodes[k]);
        assert(p[0] == pj[0]);
        assert forall|i: int| 0 <= i < p.len() - 1 implies #[trigger] path_step(adj, p, i) by {
            if i < pj.len() - 1 {
                assert(path_step(adj, pj, i));
                assert(p[i] == pj[i] && p[i + 1] == pj[i + 1]);
            } else {
                assert(p[i] == w.nodes[j]);
            }
        }
        p
    }
}

proof fn lemma_path_listed(
    adj: Seq<Seq<usize>>,
    start: usize,
    w: Walk,
    max_depth: nat,
    p: Seq<usize>,
)
    requires
        w.nodes.len() == w.depths.len(),
        w.nodes.len() >= 1,
        w.nodes[0] == start,
        w.depths[0] == 0,
        closed_below(adj, w, max_depth),
        is_path_from(adj, start, p),
        p.len() <= max_depth + 1,
    ensures
        listed_within(w, p.last(), (p.len() - 1) as nat),
    decreases p.len(),
{
    if p.len() > 1 {
        let q = p.drop_last();
        assert forall|i: int| 0 <= i < q.len() - 1 implies #[trigger] path_step(adj, q, i) by {
            assert(path_step(adj, p, i));
            assert(p[i + 1] == q[i + 1]);
        }
        assert(q[0] == p[0]);
        lemma_path_listed(adj, start, w, max_depth, q);
        let k = choose|k: int|
            0 <= k < w.nodes.len() && w.nodes[k] == q.last() && w.depths[k] <= q.len() - 1;
        assert(successors_listed(adj, w, k));
        let x = p[p.len() - 2];
        assert(x == q.last());
        assert(path_step(adj, p, p.len() - 2));
        assert(adj[x as int].contains(p[p.len() - 2 + 1]));
        let pos = choose|pos: int| 0 <= pos < adj[x as int].len() && adj[x as int][pos] == p.last();
        assert(listed_within(w, adj[w.nodes[k] as int][pos], w.depths[k] + 1));
        let k2 = choose|k2: int|
            0 <= k2 < w.nodes.len() && w.nodes[k2] == p.last() && w.depths[k2] <= w.depths[k] + 1;
        assert(w.depths[k2] <= p.len() - 1);
    } else {
        assert(w.nodes[0] == p.last());
    }
}

/// In a finished traversal the level of each listed node is its distance
/// from the start: some path from the start reaches it in exactly that many
/// edges, and no path from the start reaches it in fewer.
pub proof fn lemma_levels_are_distances(
    adj: Seq<Seq<usize>>,
    start: usize,
    max_depth: nat,
    level_colors: Seq<Color>,
    i: int,
    p: Seq<usize>,
)
    requires
        level_colors.len() > max_depth,
        bfs(adj, start, max_depth, level_colors) is Ok,
        0 <= i < bfs(adj, start, max_depth, level_colors)->Ok_0.nodes.len(),
        is_path_from(adj, start, p),
        p.last() == bfs(adj, start, max_depth, level_colors)->Ok_0.nodes[i],
    ensures
        ({
            let w = bfs(adj, start, max_depth, level_colors)->Ok_0;
            &&& w.depths[i] <= p.len() - 1
            &&& exists|s: Seq<usize>|
                is_path_from(adj, start, s) && s.last() == w.nodes[i] && s.len() == w.depths[i] + 1
        }),
{
    let w = bfs(adj, start, max_depth, level_colors)->Ok_0;
    lemma_levels_ordered(adj, start, max_depth, level_colors);
    lemma_no_repeated_nodes(adj, start, max_depth, level_colors);
    lemma_breadth_first_levels(adj, start, max_depth, level_colors);
    let s = lemma_path_to_entry(adj, start, w, i);
    assert(w.depths[i] <= max_depth);
    if p.len() - 1 < w.depths[i] {
        lemma_path_listed(adj, start, w, max_depth, p);
        let k = choose|k: int|
            0 <= k < w.nodes.len() && w.nodes[k] == p.last() && w.depths[k] <= p.len() - 1;
        if k != i {
            if k < i {
                assert(w.nodes[k] != w.nodes[i]);
            } else {
                assert(w.nodes[i] != w.nodes[k]);
            }
        }
    }
}

} // verus!
