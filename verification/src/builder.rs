//! Assembly of the part of a raw edge list that hangs together with a seed
//! node, by repeated passes over the edges that could not be attached yet.

use crate::graph::{Graph, GraphView};
use crate::reach::{
    closed, component, lemma_assembled_component_exactly, lemma_assembled_is_component,
    lemma_assembled_stage, one_edge_per_id, stage, unbroken,
};
use vstd::prelude::*;

verus! {

/// Where one pass over the pending records stands: the graph so far, the
/// records put off to the next pass, and whether the pass has attached an
/// edge.
pub struct Pass {
    pub graph: GraphView,
    pub deferred: Seq<(u32, u32, u32)>,
    pub added: bool,
}

/// One record `(a, b, id)` of a pass. A record whose identifier is in use is
/// dropped. Otherwise the edge `a -> b` is attached if one of its endpoints is
/// in the graph, and put off if neither is.
pub open spec fn step(p: Pass, r: (u32, u32, u32)) -> Pass {
    if p.graph.has_edge(r.2) {
        p
    } else if p.graph.has_node(r.0) || p.graph.has_node(r.1) {
        Pass { graph: p.graph.with_edge(r.0, r.1, r.2), added: true, ..p }
    } else {
        Pass { deferred: p.deferred.push(r), ..p }
    }
}

/// One pass over `pending`, in order, starting from `g`.
pub open spec fn pass(g: GraphView, pending: Seq<(u32, u32, u32)>) -> Pass
    decreases pending.len(),
{
    if pending.len() == 0 {
        Pass { graph: g, deferred: Seq::empty(), added: false }
    } else {
        step(pass(g, pending.drop_last()), pending.last())
    }
}

/// Passes over what the pass before has put off, until one attaches nothing.
pub open spec fn saturate(g: GraphView, pending: Seq<(u32, u32, u32)>) -> GraphView
    decreases pending.len(),
    via saturate_decreases
{
    let p = pass(g, pending);
    if p.added {
        saturate(p.graph, p.deferred)
    } else {
        p.graph
    }
}

#[via_fn]
proof fn saturate_decreases(g: GraphView, pending: Seq<(u32, u32, u32)>) {
    lemma_pass_shrinks(g, pending);
}

/// The graph assembled from `raw` around the node `seed`.
pub open spec fn assembled(seed: u32, raw: Seq<(u32, u32, u32)>) -> GraphView {
    saturate(GraphView::empty().with_node(seed), raw)
}

/// A pass puts off no more records than it was given, and fewer if it has
/// attached an edge.
pub proof fn lemma_pass_shrinks(g: GraphView, pending: Seq<(u32, u32, u32)>)
    ensures
        pass(g, pending).deferred.len() <= pending.len(),
        pass(g, pending).added ==> pass(g, pending).deferred.len() < pending.len(),
    decreases pending.len(),
{
    if pending.len() > 0 {
        lemma_pass_shrinks(g, pending.drop_last());
    }
}

/// Builds the graph around `seed` from the raw records `(a, b, id)`, each an
/// edge `a -> b`. The result holds `seed`, every node that a chain of
/// attached edges joins to it, whatever their direction, and those edges. Of
/// two records with one identifier only the one attached first counts.
///
/// The graph is well formed and holds `seed`; its edges are records of
/// `raw_edges`, its nodes are linked to `seed`, and no record could still be
/// attached to it. Its nodes are exactly those that hang together with `seed`
/// unless an identifier is taken twice and the record that lost it leads out
/// of the graph; they are so, then, where records with one identifier join
/// the same two nodes.
pub fn create_graph(seed: u32, raw_edges: Vec<(u32, u32, u32)>) -> (g: Graph)
    ensures
        g@ == assembled(seed, raw_edges@),
        stage(g@, seed, raw_edges@),
        closed(g@, raw_edges@),
        g@.nodes.dom() == component(seed, raw_edges@) <==> unbroken(g@, raw_edges@),
        one_edge_per_id(raw_edges@) ==> g@.nodes.dom() == component(seed, raw_edges@),
{
    proof {
        lemma_assembled_stage(seed, raw_edges@);
        lemma_assembled_component_exactly(seed, raw_edges@);
        if one_edge_per_id(raw_edges@) {
            lemma_assembled_is_component(seed, raw_edges@);
        }
    }
    let ghost raw = raw_edges@;
    let mut g = Graph::new().add_node(seed);
    let mut pending = raw_edges;
    loop
        invariant_except_break
            saturate(g@, pending@) == assembled(seed, raw),
        ensures
            g@ == assembled(seed, raw),
        decreases pending.len(),
    {
        let ghost start = g@;
        let mut deferred: Vec<(u32, u32, u32)> = Vec::new();
        let mut added = false;
        let mut i: usize = 0;
        while i < pending.len()
            invariant
                i <= pending.len(),
                pass(start, pending@.take(i as int)) == (Pass {
                    graph: g@,
                    deferred: deferred@,
                    added,
                }),
            decreases pending.len() - i,
        {
            let r = pending[i];
            assert(pending@.take(i + 1).drop_last() =~= pending@.take(i as int));
            if !g.contains_edge(r.2) {
                if g.contains_node(r.0) || g.contains_node(r.1) {
                    g = g.add_edge(r.0, r.1, r.2);
                    added = true;
                } else {
                    deferred.push(r);
                }
            }
            i += 1;
        }
        assert(pending@.take(pending.len() as int) =~= pending@);
        if !added {
            break ;
        }
        proof {
            lemma_pass_shrinks(start, pending@);
        }
        pending = deferred;
    }
    g
}

} // verus!
