//! Packaging traversal records for a rendering sink that names nodes by string.
use crate::color::Color;
use crate::traverse::TraversalResult;
use vstd::prelude::*;

verus! {

/// The decimal digit character for `d < 10`.
pub open spec fn digit_char(d: nat) -> char {
    seq!['0', '1', '2', '3', '4', '5', '6', '7', '8', '9'][d as int]
}

/// The decimal digits of `n`, most significant first, with no sign and no
/// leading zeros.
pub open spec fn decimal(n: nat) -> Seq<char>
    decreases n,
{
    if n < 10 {
        seq![digit_char(n)]
    } else {
        decimal(n / 10).push(digit_char(n % 10))
    }
}

/// Relies on `usize::to_string`, which writes the value in decimal digits.
#[verifier::external_body]
fn node_label(n: usize) -> (r: String)
    ensures
        r@ == decimal(n as nat),
{
    n.to_string()
}

/// What a rendering sink receives: one identifier and one color per node,
/// optional display labels aligned with them, and the directed edges between
/// identifiers.
pub struct RenderPackage {
    pub ids: Vec<String>,
    pub colors: Vec<Color>,
    pub labels: Option<Vec<String>>,
    pub edges: Vec<(String, String)>,
}

/// Each entry of `ids` names the node at the same index.
pub open spec fn names_nodes(ids: Seq<String>, nodes: Seq<usize>) -> bool {
    &&& ids.len() == nodes.len()
    &&& forall|i: int| 0 <= i < nodes.len() ==> #[trigger] ids[i]@ == decimal(nodes[i] as nat)
}

/// Each entry of `names` names the endpoints of the edge at the same index.
pub open spec fn names_edges(names: Seq<(String, String)>, edges: Seq<(usize, usize)>) -> bool {
    &&& names.len() == edges.len()
    &&& forall|i: int|
        0 <= i < edges.len() ==> #[trigger] names[i].0@ == decimal(edges[i].0 as nat)
            && names[i].1@ == decimal(edges[i].1 as nat)
}

fn node_names(nodes: &Vec<usize>) -> (r: Vec<String>)
    ensures
        names_nodes(r@, nodes@),
{
    let mut r: Vec<String> = Vec::new();
    let mut i: usize = 0;
    while i < nodes.len()
        invariant
            i <= nodes@.len(),
            names_nodes(r@, nodes@.take(i as int)),
        decreases nodes@.len() - i,
    {
        r.push(node_label(nodes[i]));
        i += 1;
    }
    assert(nodes@.take(i as int) =~= nodes@);
    r
}

/// Names the nodes and edges of `result` by their decimal identifiers, keeps
/// the colors, and adds display labels, equal to the identifiers, exactly
/// when `with_labels` is set.
pub fn assemble(result: TraversalResult, with_labels: bool) -> (p: RenderPackage)
    ensures
        names_nodes(p.ids@, result.nodes@),
        p.colors@ == result.colors@,
        p.labels is Some <==> with_labels,
        p.labels is Some ==> names_nodes(p.labels->Some_0@, result.nodes@),
        names_edges(p.edges@, result.edges@),
{
    let ids = node_names(&result.nodes);
    let labels = if with_labels {
        Some(node_names(&result.nodes))
    } else {
        None
    };
    let mut edges: Vec<(String, String)> = Vec::new();
    let mut i: usize = 0;
    while i < result.edges.len()
        invariant
            i <= result.edges@.len(),
            names_edges(edges@, result.edges@.take(i as int)),
        decreases result.edges@.len() - i,
    {
        let (s, d) = result.edges[i];
        edges.push((node_label(s), node_label(d)));
        i += 1;
    }
    assert(result.edges@.take(i as int) =~= result.edges@);
    RenderPackage { ids, colors: result.colors, labels, edges }
}

} // verus!
