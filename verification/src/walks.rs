//! What holds of every walk that a search reports, and which walks it
//! reports.

use crate::graph::GraphView;
use crate::search::{elementary_cycles, first_n, kept, search_of, Search};
use vstd::prelude::*;

verus! {

/// An item of two sequences in a row is an item of one of them.
pub proof fn lemma_contains_add<A>(x: Seq<A>, y: Seq<A>, item: A)
    ensures
        (x + y).contains(item) <==> x.contains(item) || y.contains(item),
{
    if (x + y).contains(item) {
        let i = choose|i: int| 0 <= i < (x + y).len() && (x + y)[i] == item;
        if i < x.len() {
            assert(x[i] == item);
        } else {
            assert(y[i - x.len()] == item);
        }
    }
    if x.contains(item) {
        let i = choose|i: int| 0 <= i < x.len() && x[i] == item;
        assert((x + y)[i] == item);
    }
    if y.contains(item) {
        let i = choose|i: int| 0 <= i < y.len() && y[i] == item;
        assert((x + y)[i + x.len()] == item);
    }
}

impl Search {
    /// `walk` is a closed walk through the target within the bounds: two
    /// edges or more, at least `min_nodes - 1` and fewer than `max_nodes`;
    /// no edge twice; it leaves the target, each edge starts where the one
    /// before it ends, and the last one ends at the target; and no node but
    /// the target is left twice.
    pub open spec fn is_cycle(self, walk: Seq<u32>) -> bool {
        &&& walk.len() >= 2
        &&& walk.len() >= self.min_nodes - 1
        &&& walk.len() < self.max_nodes
        &&& walk.no_duplicates()
        &&& forall|i: int| 0 <= i < walk.len() ==> self.graph.has_edge(#[trigger] walk[i])
        &&& self.graph.source(walk[0]) == self.target
        &&& self.graph.destination(walk.last()) == self.target
        &&& forall|i: int|
            0 <= i < walk.len() - 1 ==> self.graph.destination(#[trigger] walk[i])
                == self.graph.source(walk[i + 1])
        &&& forall|i: int, j: int|
            #![trigger walk[i], walk[j]]
            0 <= i < j < walk.len() && self.graph.source(walk[i]) == self.graph.source(walk[j])
                ==> self.graph.source(walk[i]) == self.target
    }

    /// The search stands at `current` after a walk from the target through
    /// `nodes` along `edges`: `edges[i]` leaves `nodes[i]`, the last edge
    /// ends at `current`, no edge is used twice, and no node but the target
    /// is left twice.
    pub open spec fn on_track(self, current: u32, nodes: Seq<u32>, edges: Seq<u32>) -> bool {
        &&& nodes.len() == edges.len()
        &&& self.graph.has_node(current)
        &&& edges.no_duplicates()
        &&& forall|i: int|
            0 <= i < edges.len() ==> self.graph.has_edge(#[trigger] edges[i]) && self.graph.source(
                edges[i],
            ) == nodes[i]
        &&& forall|i: int|
            0 <= i < edges.len() - 1 ==> self.graph.destination(#[trigger] edges[i]) == nodes[i
                + 1]
        &&& edges.len() > 0 ==> self.graph.destination(edges.last()) == current && nodes[0]
            == self.target
        &&& edges.len() == 0 ==> current == self.target
        &&& forall|i: int, j: int|
            #![trigger nodes[i], nodes[j]]
            0 <= i < j < nodes.len() && nodes[i] == nodes[j] ==> nodes[i] == self.target
    }

    /// A walk that is on track stays so when it goes on along an unused edge
    /// that leaves `current`, provided that `current` is the target or new
    /// to the walk.
    pub proof fn lemma_on_track_step(self, current: u32, nodes: Seq<u32>, edges: Seq<u32>, k: int)
        requires
            self.graph.wf(),
            self.on_track(current, nodes, edges),
            !nodes.contains(current) || current == self.target,
            0 <= k < self.graph.outgoing(current).len(),
            !edges.contains(self.graph.outgoing(current)[k]),
        ensures
            self.on_track(
                self.graph.destination(self.graph.outgoing(current)[k]),
                nodes.push(current),
                edges.push(self.graph.outgoing(current)[k]),
            ),
    {
        let e = self.graph.outgoing(current)[k];
        let nodes1 = nodes.push(current);
        let edges1 = edges.push(e);
        assert(self.graph.has_edge(e) && self.graph.source(e) == current);
        assert(self.graph.has_node(self.graph.destination(e)));
        assert forall|i: int, j: int| 0 <= i < j < edges1.len() implies edges1[i] != edges1[j] by {
            if j == edges.len() {
                assert(edges.contains(edges[i]));
            }
        }
        assert forall|i: int| 0 <= i < edges1.len() implies self.graph.has_edge(
            #[trigger] edges1[i],
        ) && self.graph.source(edges1[i]) == nodes1[i] by {
            if i < edges.len() {
                assert(self.graph.has_edge(edges[i]));
            }
        }
        assert forall|i: int| 0 <= i < edges1.len() - 1 implies self.graph.destination(
            #[trigger] edges1[i],
        ) == nodes1[i + 1] by {
            if i < edges.len() - 1 {
                assert(self.graph.destination(edges[i]) == nodes[i + 1]);
            }
        }
        assert forall|i: int, j: int|
            #![trigger nodes1[i], nodes1[j]]
            0 <= i < j < nodes1.len() && nodes1[i] == nodes1[j] implies nodes1[i]
            == self.target by {
            if j == nodes.len() {
                assert(nodes.contains(nodes[i]));
            } else {
                assert(nodes[i] == nodes[j]);
            }
        }
        if edges.len() > 0 {
            assert(nodes1[0] == nodes[0]);
        }
    }

    /// A walk that is on track and closes is a cycle.
    pub proof fn lemma_closed_is_cycle(self, current: u32, nodes: Seq<u32>, edges: Seq<u32>)
        requires
            self.on_track(current, nodes, edges),
            self.closes(current, nodes.len()),
            edges.len() < self.max_nodes,
        ensures
            self.is_cycle(edges),
    {
        assert(self.graph.has_edge(edges[0]));
        assert forall|i: int| 0 <= i < edges.len() - 1 implies self.graph.destination(
            #[trigger] edges[i],
        ) == self.graph.source(edges[i + 1]) by {
            assert(self.graph.has_edge(edges[i + 1]));
        }
        assert forall|i: int, j: int|
            #![trigger edges[i], edges[j]]
            0 <= i < j < edges.len() && self.graph.source(edges[i]) == self.graph.source(
                edges[j],
            ) implies self.graph.source(edges[i]) == self.target by {
            assert(self.graph.has_edge(edges[i]) && self.graph.has_edge(edges[j]));
            assert(nodes[i] == nodes[j]);
        }
    }

    /// Every walk reported from a state that is on track is a cycle.
    pub proof fn lemma_walks_from_sound(
        self,
        current: u32,
        nodes: Seq<u32>,
        edges: Seq<u32>,
        walk: Seq<u32>,
    )
        requires
            self.graph.wf(),
            self.on_track(current, nodes, edges),
            self.walks_from(current, nodes, edges).contains(walk),
        ensures
            self.is_cycle(walk),
        decreases self.max_nodes - edges.len(), self.graph.outgoing(current).len() + 1,
    {
        if edges.len() < self.max_nodes {
            let here = if self.closes(current, nodes.len()) {
                seq![edges]
            } else {
                Seq::empty()
            };
            if here.contains(walk) {
                assert(here[0] == edges);
                self.lemma_closed_is_cycle(current, nodes, edges);
            } else {
                let n = self.graph.outgoing(current).len();
                lemma_contains_add(here, self.walks_over(current, nodes, edges, n), walk);
                self.lemma_walks_over_sound(current, nodes, edges, n, walk);
            }
        }
    }

    /// Every walk reported through the edges that leave a node, from a state
    /// that is on track, is a cycle.
    pub proof fn lemma_walks_over_sound(
        self,
        current: u32,
        nodes: Seq<u32>,
        edges: Seq<u32>,
        k: nat,
        walk: Seq<u32>,
    )
        requires
            self.graph.wf(),
            self.on_track(current, nodes, edges),
            !nodes.contains(current) || current == self.target,
            k <= self.graph.outgoing(current).len(),
            self.walks_over(current, nodes, edges, k).contains(walk),
        ensures
            self.is_cycle(walk),
        decreases self.max_nodes - edges.len(), k,
    {
        if k > 0 && edges.len() < self.max_nodes {
            let e = self.graph.outgoing(current)[k - 1];
            let before = self.walks_over(current, nodes, edges, (k - 1) as nat);
            if before.contains(walk) {
                self.lemma_walks_over_sound(current, nodes, edges, (k - 1) as nat, walk);
            } else {
                let next = self.graph.destination(e);
                let child = self.walks_from(next, nodes.push(current), edges.push(e));
                lemma_contains_add(before, child, walk);
                self.lemma_on_track_step(current, nodes, edges, k - 1);
                self.lemma_walks_from_sound(next, nodes.push(current), edges.push(e), walk);
            }
        }
    }

    /// The node at which `walk` stands after its first `k` edges.
    pub open spec fn node_after(self, walk: Seq<u32>, k: int) -> u32 {
        if k == 0 {
            self.target
        } else {
            self.graph.destination(walk[k - 1])
        }
    }

    /// The nodes that the first `k` edges of `walk` leave, in order.
    pub open spec fn nodes_before(self, walk: Seq<u32>, k: int) -> Seq<u32> {
        Seq::new(k as nat, |i: int| self.graph.source(walk[i]))
    }

    /// What is reported through the first `j` edges that leave a node is
    /// reported through its first `k` edges, for `j <= k`.
    pub proof fn lemma_walks_over_grows(
        self,
        current: u32,
        nodes: Seq<u32>,
        edges: Seq<u32>,
        j: nat,
        k: nat,
        walk: Seq<u32>,
    )
        requires
            j <= k,
            self.walks_over(current, nodes, edges, j).contains(walk),
        ensures
            self.walks_over(current, nodes, edges, k).contains(walk),
        decreases k,
    {
        if j < k {
            self.lemma_walks_over_grows(current, nodes, edges, j, (k - 1) as nat, walk);
            if edges.len() < self.max_nodes {
                let e = self.graph.outgoing(current)[k - 1];
                let before = self.walks_over(current, nodes, edges, (k - 1) as nat);
                if !edges.contains(e) {
                    lemma_contains_add(
                        before,
                        self.walks_from(
                            self.graph.destination(e),
                            nodes.push(current),
                            edges.push(e),
                        ),
                        walk,
                    );
                }
            }
        }
    }

    /// A cycle is reported from each state that the search is in while it
    /// walks along it.
    pub proof fn lemma_cycle_is_reported_from(self, walk: Seq<u32>, k: nat)
        requires
            self.graph.wf(),
            self.is_cycle(walk),
            k <= walk.len(),
        ensures
            self.walks_from(
                self.node_after(walk, k as int),
                self.nodes_before(walk, k as int),
                walk.take(k as int),
            ).contains(walk),
        decreases walk.len() - k,
    {
        let current = self.node_after(walk, k as int);
        let nodes = self.nodes_before(walk, k as int);
        let edges = walk.take(k as int);
        let n = self.graph.outgoing(current).len();
        let here = if self.closes(current, nodes.len()) {
            seq![edges]
        } else {
            Seq::empty()
        };
        if k == walk.len() {
            assert(edges =~= walk);
            assert(here[0] == walk);
            lemma_contains_add(here, self.walks_over(current, nodes, edges, n), walk);
        } else {
            let e = walk[k as int];
            assert(self.graph.has_edge(e));
            assert(current == self.graph.source(e)) by {
                if k > 0 {
                    assert(self.graph.destination(walk[k - 1]) == self.graph.source(
                        walk[k - 1 + 1],
                    ));
                }
            }
            if nodes.contains(current) {
                let i = choose|i: int| 0 <= i < nodes.len() && nodes[i] == current;
                assert(self.graph.source(walk[i]) == self.graph.source(walk[k as int]));
            }
            assert(!edges.contains(e)) by {
                if edges.contains(e) {
                    let i = choose|i: int| 0 <= i < edges.len() && edges[i] == e;
                    assert(walk[i] == walk[k as int]);
                }
            }
            let j = choose|j: int| 0 <= j < n && self.graph.outgoing(current)[j] == e;
            self.lemma_cycle_is_reported_from(walk, k + 1);
            assert(nodes.push(current) =~= self.nodes_before(walk, k as int + 1));
            assert(edges.push(e) =~= walk.take(k as int + 1));
            let child = self.walks_from(
                self.graph.destination(e),
                nodes.push(current),
                edges.push(e),
            );
            lemma_contains_add(self.walks_over(current, nodes, edges, j as nat), child, walk);
            assert(self.walks_over(current, nodes, edges, (j + 1) as nat).contains(walk));
            self.lemma_walks_over_grows(current, nodes, edges, (j + 1) as nat, n, walk);
            lemma_contains_add(here, self.walks_over(current, nodes, edges, n), walk);
        }
    }

    /// A search without a limit on its results reports the cycles through
    /// its target, and nothing else.
    pub proof fn lemma_reports_the_cycles(self, walk: Seq<u32>)
        requires
            self.graph.wf(),
            self.graph.has_node(self.target),
        ensures
            self.walks_from(self.target, Seq::empty(), Seq::empty()).contains(walk)
                <==> self.is_cycle(walk),
    {
        let none = Seq::<u32>::empty();
        if self.walks_from(self.target, none, none).contains(walk) {
            self.lemma_walks_from_sound(self.target, none, none, walk);
        }
        if self.is_cycle(walk) {
            self.lemma_cycle_is_reported_from(walk, 0);
            assert(self.nodes_before(walk, 0) =~= none);
            assert(walk.take(0) =~= none);
        }
    }

    /// Every walk reported from a state goes on from the edges walked so
    /// far.
    pub proof fn lemma_walks_from_extend(
        self,
        current: u32,
        nodes: Seq<u32>,
        edges: Seq<u32>,
        walk: Seq<u32>,
    )
        requires
            self.walks_from(current, nodes, edges).contains(walk),
        ensures
            edges.is_prefix_of(walk),
        decreases self.max_nodes - edges.len(), self.graph.outgoing(current).len() + 1,
    {
        if edges.len() < self.max_nodes {
            let here = if self.closes(current, nodes.len()) {
                seq![edges]
            } else {
                Seq::empty()
            };
            if here.contains(walk) {
                assert(here[0] == edges);
            } else {
                let n = self.graph.outgoing(current).len();
                lemma_contains_add(here, self.walks_over(current, nodes, edges, n), walk);
                self.lemma_walks_over_extend(current, nodes, edges, n, walk);
            }
        }
    }

    /// Every walk reported through the first `k` edges that leave a node
    /// goes on from the edges walked so far along one of these edges.
    pub proof fn lemma_walks_over_extend(
        self,
        current: u32,
        nodes: Seq<u32>,
        edges: Seq<u32>,
        k: nat,
        walk: Seq<u32>,
    ) -> (j: int)
        requires
            self.walks_over(current, nodes, edges, k).contains(walk),
        ensures
            0 <= j < k,
            edges.push(self.graph.outgoing(current)[j]).is_prefix_of(walk),
            edges.is_prefix_of(walk),
            self.walks_from(
                self.graph.destination(self.graph.outgoing(current)[j]),
                nodes.push(current),
                edges.push(self.graph.outgoing(current)[j]),
            ).contains(walk),
            !edges.contains(self.graph.outgoing(current)[j]),
        decreases self.max_nodes - edges.len(), k,
    {
        let e = self.graph.outgoing(current)[k - 1];
        let before = self.walks_over(current, nodes, edges, (k - 1) as nat);
        if before.contains(walk) {
            self.lemma_walks_over_extend(current, nodes, edges, (k - 1) as nat, walk)
        } else {
            let next = self.graph.destination(e);
            let child = self.walks_from(next, nodes.push(current), edges.push(e));
            lemma_contains_add(before, child, walk);
            self.lemma_walks_from_extend(next, nodes.push(current), edges.push(e), walk);
            assert(edges.is_prefix_of(walk)) by {
                assert(edges =~= edges.push(e).take(edges.len() as int));
            }
            k - 1
        }
    }

    /// No walk is reported twice from one state.
    pub proof fn lemma_walks_from_distinct(self, current: u32, nodes: Seq<u32>, edges: Seq<u32>)
        requires
            self.graph.wf(),
            self.graph.has_node(current),
        ensures
            self.walks_from(current, nodes, edges).no_duplicates(),
        decreases self.max_nodes - edges.len(), self.graph.outgoing(current).len() + 1,
    {
        if edges.len() < self.max_nodes {
            let here = if self.closes(current, nodes.len()) {
                seq![edges]
            } else {
                Seq::empty()
            };
            let n = self.graph.outgoing(current).len();
            let over = self.walks_over(current, nodes, edges, n);
            if !(nodes.contains(current) && current != self.target) {
                self.lemma_walks_over_distinct(current, nodes, edges, n);
                assert forall|i: int, j: int| 0 <= i < here.len() && 0 <= j < over.len() implies here[i]
                    != over[j] by {
                    assert(over.contains(over[j]));
                    let m = self.lemma_walks_over_extend(current, nodes, edges, n, over[j]);
                }
                lemma_no_duplicates_add(here, over);
            }
        }
    }

    /// No walk is reported twice through the edges that leave a node.
    pub proof fn lemma_walks_over_distinct(
        self,
        current: u32,
        nodes: Seq<u32>,
        edges: Seq<u32>,
        k: nat,
    )
        requires
            self.graph.wf(),
            self.graph.has_node(current),
            k <= self.graph.outgoing(current).len(),
        ensures
            self.walks_over(current, nodes, edges, k).no_duplicates(),
        decreases self.max_nodes - edges.len(), k,
    {
        if k > 0 && edges.len() < self.max_nodes {
            let e = self.graph.outgoing(current)[k - 1];
            let before = self.walks_over(current, nodes, edges, (k - 1) as nat);
            self.lemma_walks_over_distinct(current, nodes, edges, (k - 1) as nat);
            if !edges.contains(e) {
                let next = self.graph.destination(e);
                let child = self.walks_from(next, nodes.push(current), edges.push(e));
                assert(self.graph.has_edge(e));
                self.lemma_walks_from_distinct(next, nodes.push(current), edges.push(e));
                assert forall|i: int, j: int|
                    0 <= i < before.len() && 0 <= j < child.len() implies before[i]
                    != child[j] by {
                    assert(before.contains(before[i]));
                    assert(child.contains(child[j]));
                    let m = self.lemma_walks_over_extend(
                        current,
                        nodes,
                        edges,
                        (k - 1) as nat,
                        before[i],
                    );
                    self.lemma_walks_from_extend(
                        next,
                        nodes.push(current),
                        edges.push(e),
                        child[j],
                    );
                    let len = edges.len() as int;
                    assert(edges.push(self.graph.outgoing(current)[m])[len] == before[i][len]);
                    assert(edges.push(e)[len] == child[j][len]);
                    assert(self.graph.outgoing(current)[m] != self.graph.outgoing(current)[k - 1]);
                }
                lemma_no_duplicates_add(before, child);
            }
        }
    }
}

/// Two sequences without a repeated item, and without an item in common,
/// make one without a repeated item.
pub proof fn lemma_no_duplicates_add<A>(x: Seq<A>, y: Seq<A>)
    requires
        x.no_duplicates(),
        y.no_duplicates(),
        forall|i: int, j: int| 0 <= i < x.len() && 0 <= j < y.len() ==> x[i] != y[j],
    ensures
        (x + y).no_duplicates(),
{
}

/// What is kept of a run of walks is its beginning.
pub proof fn lemma_kept_is_prefix<A>(walks: Seq<A>, max_paths: u32, have: nat)
    ensures
        kept(walks, max_paths, have).is_prefix_of(walks),
        max_paths != 0 ==> have + kept(walks, max_paths, have).len() <= max_paths || kept(
            walks,
            max_paths,
            have,
        ).len() == 0,
{
}

/// Every walk that a search returns is a cycle: it has two edges or more,
/// at least `min_nodes - 1` and fewer than the bound that `max_nodes` stands
/// for; it uses no edge twice; it leaves the target and comes back to it,
/// each edge starting where the one before it ends; and it leaves no node but
/// the target twice.
pub proof fn lemma_found_are_cycles(
    g: GraphView,
    target: u32,
    min_nodes: u16,
    max_nodes: u16,
    max_paths: u32,
)
    requires
        g.wf(),
        g.has_node(target),
    ensures
        forall|i: int|
            0 <= i < elementary_cycles(g, target, min_nodes, max_nodes, max_paths).len()
                ==> search_of(g, target, min_nodes, max_nodes).is_cycle(
                #[trigger] elementary_cycles(g, target, min_nodes, max_nodes, max_paths)[i],
            ),
{
    let s = search_of(g, target, min_nodes, max_nodes);
    let all = s.walks_from(target, Seq::empty(), Seq::empty());
    let found = elementary_cycles(g, target, min_nodes, max_nodes, max_paths);
    lemma_kept_is_prefix(all, max_paths, 0);
    assert forall|i: int| 0 <= i < found.len() implies s.is_cycle(#[trigger] found[i]) by {
        assert(found[i] == all[i]);
        assert(all.contains(found[i]));
        s.lemma_reports_the_cycles(found[i]);
    }
}

/// A search returns no walk twice.
pub proof fn lemma_found_once(
    g: GraphView,
    target: u32,
    min_nodes: u16,
    max_nodes: u16,
    max_paths: u32,
)
    requires
        g.wf(),
        g.has_node(target),
    ensures
        elementary_cycles(g, target, min_nodes, max_nodes, max_paths).no_duplicates(),
{
    let s = search_of(g, target, min_nodes, max_nodes);
    let all = s.walks_from(target, Seq::empty(), Seq::empty());
    let found = elementary_cycles(g, target, min_nodes, max_nodes, max_paths);
    lemma_kept_is_prefix(all, max_paths, 0);
    s.lemma_walks_from_distinct(target, Seq::empty(), Seq::empty());
    assert forall|i: int, j: int| 0 <= i < j < found.len() implies found[i] != found[j] by {
        assert(found[i] == all[i] && found[j] == all[j]);
    }
}

/// A search with a limit on its results returns no more than that.
pub proof fn lemma_found_within_limit(
    g: GraphView,
    target: u32,
    min_nodes: u16,
    max_nodes: u16,
    max_paths: u32,
)
    requires
        max_paths != 0,
    ensures
        elementary_cycles(g, target, min_nodes, max_nodes, max_paths).len() <= max_paths,
{
}

/// A search with a limit on its results returns the first results of the
/// search without one.
pub proof fn lemma_found_first(
    g: GraphView,
    target: u32,
    min_nodes: u16,
    max_nodes: u16,
    max_paths: u32,
)
    ensures
        elementary_cycles(g, target, min_nodes, max_nodes, max_paths) == (if max_paths == 0 {
            elementary_cycles(g, target, min_nodes, max_nodes, 0)
        } else {
            first_n(
                elementary_cycles(g, target, min_nodes, max_nodes, 0),
                max_paths as int,
            )
        }),
{
}

/// A search without a limit on its results returns every cycle.
pub proof fn lemma_cycles_are_found(
    g: GraphView,
    target: u32,
    min_nodes: u16,
    max_nodes: u16,
    walk: Seq<u32>,
)
    requires
        g.wf(),
        g.has_node(target),
        search_of(g, target, min_nodes, max_nodes).is_cycle(walk),
    ensures
        elementary_cycles(g, target, min_nodes, max_nodes, 0).contains(walk),
{
    search_of(g, target, min_nodes, max_nodes).lemma_reports_the_cycles(walk);
}

} // verus!
