//! What an assembled graph holds of the raw records: the nodes that hang
//! together with the seed.

use crate::builder::{assembled, pass, saturate, step, Pass};
use crate::graph::GraphView;
use vstd::prelude::*;

verus! {

/// The record `r` is an edge between `x` and `y`, in either direction.
pub open spec fn joins(r: (u32, u32, u32), x: u32, y: u32) -> bool {
    (r.0 == x && r.1 == y) || (r.0 == y && r.1 == x)
}

/// Some record of `raw` is an edge between `x` and `y`.
pub open spec fn adjacent(raw: Seq<(u32, u32, u32)>, x: u32, y: u32) -> bool {
    exists|i: int| 0 <= i < raw.len() && joins(#[trigger] raw[i], x, y)
}

/// `path` is a row of nodes, each adjacent to the next.
pub open spec fn is_chain(raw: Seq<(u32, u32, u32)>, path: Seq<u32>) -> bool {
    &&& path.len() > 0
    &&& forall|i: int| 0 <= i < path.len() - 1 ==> adjacent(raw, #[trigger] path[i], path[i + 1])
}

/// A chain leads from `x` to `y`.
pub open spec fn linked(raw: Seq<(u32, u32, u32)>, x: u32, y: u32) -> bool {
    exists|path: Seq<u32>| #[trigger] is_chain(raw, path) && path.first() == x && path.last() == y
}

/// The nodes that hang together with `seed` when the direction of the edges
/// is left aside.
pub open spec fn component(seed: u32, raw: Seq<(u32, u32, u32)>) -> Set<u32> {
    Set::new(|n: u32| linked(raw, seed, n))
}

/// Records with one identifier join the same two nodes.
pub open spec fn one_edge_per_id(raw: Seq<(u32, u32, u32)>) -> bool {
    forall|i: int, j: int|
        #![trigger raw[i], raw[j]]
        0 <= i < raw.len() && 0 <= j < raw.len() && raw[i].2 == raw[j].2 ==> joins(
            raw[i],
            raw[j].0,
            raw[j].1,
        )
}

/// `g` is a stage of the assembly around `seed`: it is well formed and holds
/// `seed`, each of its edges is a record of `raw`, and each of its nodes is
/// linked to `seed`.
pub open spec fn stage(g: GraphView, seed: u32, raw: Seq<(u32, u32, u32)>) -> bool {
    &&& g.wf()
    &&& g.has_node(seed)
    &&& forall|e: u32| #[trigger]
        g.has_edge(e) ==> raw.contains((g.source(e), g.destination(e), e))
    &&& forall|n: u32| #[trigger] g.has_node(n) ==> linked(raw, seed, n)
}

/// Every record of `raw` has its identifier in `g` or waits in `pending`.
pub open spec fn covered(
    g: GraphView,
    pending: Seq<(u32, u32, u32)>,
    raw: Seq<(u32, u32, u32)>,
) -> bool {
    forall|i: int|
        0 <= i < raw.len() ==> g.has_edge((#[trigger] raw[i]).2) || pending.contains(raw[i])
}

/// No record of `raw` could still be attached to `g`: its identifier is in
/// use, or neither of its endpoints is in `g`.
pub open spec fn closed(g: GraphView, raw: Seq<(u32, u32, u32)>) -> bool {
    forall|i: int|
        0 <= i < raw.len() ==> g.has_edge((#[trigger] raw[i]).2) || (!g.has_node(raw[i].0)
            && !g.has_node(raw[i].1))
}

/// No record of `raw` has one endpoint in `g` and the other outside of it.
pub open spec fn unbroken(g: GraphView, raw: Seq<(u32, u32, u32)>) -> bool {
    forall|i: int| 0 <= i < raw.len() ==> g.has_node((#[trigger] raw[i]).0) == g.has_node(raw[i].1)
}

/// Every item of `part` is an item of `whole`.
pub open spec fn within<A>(part: Seq<A>, whole: Seq<A>) -> bool {
    forall|i: int| 0 <= i < part.len() ==> whole.contains(#[trigger] part[i])
}

/// A node linked to `seed` and adjacent to `y` links `y` to `seed`.
pub proof fn lemma_linked_step(raw: Seq<(u32, u32, u32)>, seed: u32, x: u32, y: u32)
    requires
        linked(raw, seed, x),
        adjacent(raw, x, y),
    ensures
        linked(raw, seed, y),
{
    let path = choose|path: Seq<u32>| #[trigger]
        is_chain(raw, path) && path.first() == seed && path.last() == x;
    let longer = path.push(y);
    assert forall|i: int| 0 <= i < longer.len() - 1 implies adjacent(
        raw,
        #[trigger] longer[i],
        longer[i + 1],
    ) by {
        if i < path.len() - 1 {
            assert(adjacent(raw, path[i], path[i + 1]));
        }
    }
    assert(is_chain(raw, longer) && longer.first() == seed && longer.last() == y);
}

/// A node is linked to itself.
pub proof fn lemma_linked_self(raw: Seq<(u32, u32, u32)>, x: u32)
    ensures
        linked(raw, x, x),
{
    let path = seq![x];
    assert(is_chain(raw, path) && path.first() == x && path.last() == x);
}

/// One record of `raw` takes a stage of the assembly to a stage.
pub proof fn lemma_step_stage(p: Pass, r: (u32, u32, u32), seed: u32, raw: Seq<(u32, u32, u32)>)
    requires
        stage(p.graph, seed, raw),
        raw.contains(r),
    ensures
        stage(step(p, r).graph, seed, raw),
{
    let g = p.graph;
    if !g.has_edge(r.2) && (g.has_node(r.0) || g.has_node(r.1)) {
        let h = g.with_edge(r.0, r.1, r.2);
        g.lemma_with_edge_wf(r.0, r.1, r.2);
        g.lemma_with_edge_content(r.0, r.1, r.2);
        let i = choose|i: int| 0 <= i < raw.len() && raw[i] == r;
        assert(joins(raw[i], r.0, r.1) && joins(raw[i], r.1, r.0));
        assert(adjacent(raw, r.0, r.1) && adjacent(raw, r.1, r.0));
        if g.has_node(r.0) {
            lemma_linked_step(raw, seed, r.0, r.1);
        } else {
            lemma_linked_step(raw, seed, r.1, r.0);
        }
        assert forall|e: u32| #[trigger] h.has_edge(e) implies raw.contains(
            (h.source(e), h.destination(e), e),
        ) by {
            if e != r.2 {
                assert(g.has_edge(e));
            }
        }
        assert forall|n: u32| #[trigger] h.has_node(n) implies linked(raw, seed, n) by {
            if n != r.0 && n != r.1 {
                assert(g.has_node(n));
            }
        }
        assert(h.has_node(seed));
    }
}

/// A pass over records of `raw` takes a stage of the assembly to a stage,
/// and puts off records of `raw` only.
pub proof fn lemma_pass_stage(
    g: GraphView,
    pending: Seq<(u32, u32, u32)>,
    seed: u32,
    raw: Seq<(u32, u32, u32)>,
)
    requires
        stage(g, seed, raw),
        within(pending, raw),
    ensures
        stage(pass(g, pending).graph, seed, raw),
        within(pass(g, pending).deferred, raw),
    decreases pending.len(),
{
    if pending.len() > 0 {
        let front = pending.drop_last();
        assert forall|i: int| 0 <= i < front.len() implies raw.contains(#[trigger] front[i]) by {
            assert(front[i] == pending[i]);
        }
        lemma_pass_stage(g, front, seed, raw);
        assert(raw.contains(pending[pending.len() - 1]));
        lemma_step_stage(pass(g, front), pending.last(), seed, raw);
    }
}

/// What one pass does to a graph: it takes nothing away; each record it was
/// given has its identifier in the graph afterwards or is put off; and a
/// pass that attaches nothing leaves the graph as it was, with none of the
/// records it puts off touching it.
pub proof fn lemma_pass_effect(g: GraphView, pending: Seq<(u32, u32, u32)>)
    ensures
        forall|n: u32| g.has_node(n) ==> #[trigger] pass(g, pending).graph.has_node(n),
        forall|e: u32| g.has_edge(e) ==> #[trigger] pass(g, pending).graph.has_edge(e),
        forall|i: int|
            0 <= i < pending.len() ==> pass(g, pending).graph.has_edge((#[trigger] pending[i]).2)
                || pass(g, pending).deferred.contains(pending[i]),
        !pass(g, pending).added ==> pass(g, pending).graph == g,
        !pass(g, pending).added ==> forall|i: int|
            0 <= i < pass(g, pending).deferred.len() ==> !g.has_node(
                (#[trigger] pass(g, pending).deferred[i]).0,
            ) && !g.has_node(pass(g, pending).deferred[i].1),
    decreases pending.len(),
{
    if pending.len() > 0 {
        let front = pending.drop_last();
        let r = pending.last();
        let before = pass(g, front);
        let after = pass(g, pending);
        lemma_pass_effect(g, front);
        before.graph.lemma_with_edge_content(r.0, r.1, r.2);
        assert forall|i: int| 0 <= i < pending.len() implies after.graph.has_edge(
            (#[trigger] pending[i]).2,
        ) || after.deferred.contains(pending[i]) by {
            if i < front.len() {
                assert(front[i] == pending[i]);
                if before.deferred.contains(front[i]) {
                    let j = choose|j: int|
                        0 <= j < before.deferred.len() && before.deferred[j] == front[i];
                    assert(after.deferred[j] == pending[i]);
                }
            } else {
                if !after.graph.has_edge(r.2) {
                    assert(after.deferred.last() == r);
                }
            }
        }
    }
}

/// A pass keeps every record of `raw` covered.
pub proof fn lemma_pass_covers(
    g: GraphView,
    pending: Seq<(u32, u32, u32)>,
    raw: Seq<(u32, u32, u32)>,
)
    requires
        covered(g, pending, raw),
    ensures
        covered(pass(g, pending).graph, pass(g, pending).deferred, raw),
{
    let p = pass(g, pending);
    lemma_pass_effect(g, pending);
    assert forall|i: int| 0 <= i < raw.len() implies p.graph.has_edge((#[trigger] raw[i]).2)
        || p.deferred.contains(raw[i]) by {
        if !g.has_edge(raw[i].2) {
            let j = choose|j: int| 0 <= j < pending.len() && pending[j] == raw[i];
            assert(p.graph.has_edge(pending[j].2) || p.deferred.contains(pending[j]));
        }
    }
}

/// Passing until nothing is attached takes a stage of the assembly, with
/// every record covered, to a stage to which no record can be attached.
pub proof fn lemma_saturate_stage(
    g: GraphView,
    pending: Seq<(u32, u32, u32)>,
    seed: u32,
    raw: Seq<(u32, u32, u32)>,
)
    requires
        stage(g, seed, raw),
        within(pending, raw),
        covered(g, pending, raw),
    ensures
        stage(saturate(g, pending), seed, raw),
        closed(saturate(g, pending), raw),
    decreases pending.len(),
{
    let p = pass(g, pending);
    lemma_pass_stage(g, pending, seed, raw);
    lemma_pass_covers(g, pending, raw);
    lemma_pass_effect(g, pending);
    crate::builder::lemma_pass_shrinks(g, pending);
    if p.added {
        lemma_saturate_stage(p.graph, p.deferred, seed, raw);
    } else {
        assert forall|i: int| 0 <= i < raw.len() implies g.has_edge((#[trigger] raw[i]).2) || (
        !g.has_node(raw[i].0) && !g.has_node(raw[i].1)) by {
            if !g.has_edge(raw[i].2) {
                let j = choose|j: int| 0 <= j < p.deferred.len() && p.deferred[j] == raw[i];
                assert(!g.has_node(p.deferred[j].0));
            }
        }
    }
}

/// The assembled graph is well formed and holds the seed; each of its edges
/// is a record of `raw`; each of its nodes is linked to the seed; and no
/// record of `raw` could still be attached to it.
pub proof fn lemma_assembled_stage(seed: u32, raw: Seq<(u32, u32, u32)>)
    ensures
        stage(assembled(seed, raw), seed, raw),
        closed(assembled(seed, raw), raw),
{
    let g = GraphView::empty().with_node(seed);
    GraphView::empty().lemma_with_node_wf(seed);
    lemma_linked_self(raw, seed);
    assert forall|i: int| 0 <= i < raw.len() implies raw.contains(#[trigger] raw[i]) by {}
    lemma_saturate_stage(g, raw, seed, raw);
}

/// A graph that holds the seed, and that no record leaves, holds every node
/// of a chain that starts at the seed.
pub proof fn lemma_unbroken_holds_chain(
    g: GraphView,
    seed: u32,
    raw: Seq<(u32, u32, u32)>,
    path: Seq<u32>,
    k: int,
)
    requires
        unbroken(g, raw),
        g.has_node(seed),
        is_chain(raw, path),
        path.first() == seed,
        0 <= k < path.len(),
    ensures
        g.has_node(path[k]),
    decreases k,
{
    if k > 0 {
        lemma_unbroken_holds_chain(g, seed, raw, path, k - 1);
        assert(adjacent(raw, path[k - 1], path[k - 1 + 1]));
        let i = choose|i: int| 0 <= i < raw.len() && joins(#[trigger] raw[i], path[k - 1], path[k]);
        assert(g.has_node(raw[i].0) == g.has_node(raw[i].1));
    }
}

/// Where records with one identifier join the same two nodes, no record
/// leaves a graph that is a stage of the assembly and to which no record can
/// be attached.
pub proof fn lemma_one_edge_per_id_unbroken(g: GraphView, seed: u32, raw: Seq<(u32, u32, u32)>)
    requires
        one_edge_per_id(raw),
        stage(g, seed, raw),
        closed(g, raw),
    ensures
        unbroken(g, raw),
{
    assert forall|i: int| 0 <= i < raw.len() implies g.has_node((#[trigger] raw[i]).0)
        == g.has_node(raw[i].1) by {
        let e = raw[i].2;
        if g.has_edge(e) {
            let stored = (g.source(e), g.destination(e), e);
            assert(raw.contains(stored));
            let j = choose|j: int| 0 <= j < raw.len() && raw[j] == stored;
            assert(joins(raw[i], raw[j].0, raw[j].1));
            assert(g.has_node(g.source(e)) && g.has_node(g.destination(e)));
        }
    }
}

/// The nodes of the assembled graph are those that hang together with the
/// seed if, and only if, no record has one endpoint in the graph and the
/// other outside of it. Such a record has an identifier that an attached
/// record has taken.
pub proof fn lemma_assembled_component_exactly(seed: u32, raw: Seq<(u32, u32, u32)>)
    ensures
        assembled(seed, raw).nodes.dom() == component(seed, raw) <==> unbroken(
            assembled(seed, raw),
            raw,
        ),
        forall|i: int|
            0 <= i < raw.len() && assembled(seed, raw).has_node((#[trigger] raw[i]).0)
                != assembled(seed, raw).has_node(raw[i].1) ==> assembled(seed, raw).has_edge(
                raw[i].2,
            ),
{
    let g = assembled(seed, raw);
    lemma_assembled_stage(seed, raw);
    if unbroken(g, raw) {
        assert forall|n: u32| g.nodes.dom().contains(n) <==> component(seed, raw).contains(n) by {
            if g.nodes.dom().contains(n) {
                assert(g.has_node(n));
            }
            if linked(raw, seed, n) {
                let path = choose|path: Seq<u32>| #[trigger]
                    is_chain(raw, path) && path.first() == seed && path.last() == n;
                lemma_unbroken_holds_chain(g, seed, raw, path, path.len() - 1);
            }
        }
        assert(g.nodes.dom() =~= component(seed, raw));
    }
    if g.nodes.dom() == component(seed, raw) {
        assert forall|i: int| 0 <= i < raw.len() implies g.has_node((#[trigger] raw[i]).0)
            == g.has_node(raw[i].1) by {
            assert(joins(raw[i], raw[i].0, raw[i].1) && joins(raw[i], raw[i].1, raw[i].0));
            assert(adjacent(raw, raw[i].0, raw[i].1) && adjacent(raw, raw[i].1, raw[i].0));
            if g.has_node(raw[i].0) {
                lemma_linked_step(raw, seed, raw[i].0, raw[i].1);
                assert(component(seed, raw).contains(raw[i].1));
            }
            if g.has_node(raw[i].1) {
                lemma_linked_step(raw, seed, raw[i].1, raw[i].0);
                assert(component(seed, raw).contains(raw[i].0));
            }
        }
    }
}

/// Where records with one identifier join the same two nodes, the nodes of
/// the assembled graph are those that hang together with the seed.
pub proof fn lemma_assembled_is_component(seed: u32, raw: Seq<(u32, u32, u32)>)
    requires
        one_edge_per_id(raw),
    ensures
        assembled(seed, raw).nodes.dom() == component(seed, raw),
{
    lemma_assembled_stage(seed, raw);
    lemma_one_edge_per_id_unbroken(assembled(seed, raw), seed, raw);
    lemma_assembled_component_exactly(seed, raw);
}

/// Where no record touches the seed, the assembled graph is the seed alone.
pub proof fn lemma_assembled_alone(seed: u32, raw: Seq<(u32, u32, u32)>)
    requires
        forall|i: int| 0 <= i < raw.len() ==> (#[trigger] raw[i]).0 != seed && raw[i].1 != seed,
    ensures
        assembled(seed, raw) == GraphView::empty().with_node(seed),
{
    lemma_pass_alone(seed, raw);
}

/// A pass over records that do not touch the seed, from the seed alone,
/// puts all of them off.
proof fn lemma_pass_alone(seed: u32, pending: Seq<(u32, u32, u32)>)
    requires
        forall|i: int|
            0 <= i < pending.len() ==> (#[trigger] pending[i]).0 != seed && pending[i].1 != seed,
    ensures
        pass(GraphView::empty().with_node(seed), pending) == (Pass {
            graph: GraphView::empty().with_node(seed),
            deferred: pending,
            added: false,
        }),
    decreases pending.len(),
{
    if pending.len() > 0 {
        let front = pending.drop_last();
        assert forall|i: int| 0 <= i < front.len() implies (#[trigger] front[i]).0 != seed
            && front[i].1 != seed by {
            assert(front[i] == pending[i]);
        }
        lemma_pass_alone(seed, front);
        assert(pending.last() == pending[pending.len() - 1]);
        assert(front.push(pending.last()) =~= pending);
    } else {
        assert(pending =~= Seq::empty());
    }
}

} // verus!
