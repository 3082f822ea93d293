//! Depth-first enumeration of the closed walks through a target node, within
//! a window of lengths and up to a number of results.

use crate::graph::{Graph, GraphView};
use crate::walks::{
    lemma_cycles_are_found, lemma_found_are_cycles, lemma_found_once, lemma_found_within_limit,
};
use vstd::prelude::*;

verus! {

/// What a search looks for: closed walks through `target` in `graph`, of at
/// least `min_nodes - 1` and fewer than `max_nodes` edges.
pub struct Search {
    pub graph: GraphView,
    pub target: u32,
    pub min_nodes: u16,
    pub max_nodes: u16,
}

impl Search {
    /// Whether a walk of `walked` edges that stands at `current` is reported:
    /// it is back at the target, after two edges or more, and long enough.
    pub open spec fn closes(self, current: u32, walked: nat) -> bool {
        current == self.target && walked > 1 && walked >= self.min_nodes - 1
    }

    /// The walks reported from the moment the search enters `current`, having
    /// come through `nodes` along `edges`, in the order of their discovery.
    ///
    /// Nothing is reported once `max_nodes` edges are walked. The walk so far
    /// is reported if it closes. The search then goes on through each edge
    /// that leaves `current`, unless `current` was met before and is not the
    /// target.
    pub open spec fn walks_from(self, current: u32, nodes: Seq<u32>, edges: Seq<u32>) -> Seq<
        Seq<u32>,
    >
        decreases self.max_nodes - edges.len(), self.graph.outgoing(current).len() + 1,
    {
        if edges.len() >= self.max_nodes {
            Seq::empty()
        } else {
            let here = if self.closes(current, nodes.len()) {
                seq![edges]
            } else {
                Seq::empty()
            };
            if nodes.contains(current) && current != self.target {
                here
            } else {
                here + self.walks_over(
                    current,
                    nodes,
                    edges,
                    self.graph.outgoing(current).len(),
                )
            }
        }
    }

    /// The walks reported through the first `k` edges that leave `current`,
    /// taken in their order. An edge that the walk has used is passed over.
    pub open spec fn walks_over(
        self,
        current: u32,
        nodes: Seq<u32>,
        edges: Seq<u32>,
        k: nat,
    ) -> Seq<Seq<u32>>
        decreases self.max_nodes - edges.len(), k,
    {
        if k == 0 || edges.len() >= self.max_nodes {
            Seq::empty()
        } else {
            let e = self.graph.outgoing(current)[k - 1];
            let before = self.walks_over(current, nodes, edges, (k - 1) as nat);
            if edges.contains(e) {
                before
            } else {
                before + self.walks_from(
                    self.graph.destination(e),
                    nodes.push(current),
                    edges.push(e),
                )
            }
        }
    }
}

/// The first `n` items of `s`, all of them if it has no more, none if `n` is
/// negative.
pub open spec fn first_n<A>(s: Seq<A>, n: int) -> Seq<A> {
    if n <= 0 {
        Seq::empty()
    } else if n >= s.len() {
        s
    } else {
        s.take(n)
    }
}

/// What a search that already has `have` results keeps of `walks`: as many as
/// are missing up to `max_paths` results, or all where `max_paths` is zero.
pub open spec fn kept<A>(walks: Seq<A>, max_paths: u32, have: nat) -> Seq<A> {
    if max_paths == 0 {
        walks
    } else {
        first_n(walks, max_paths - have)
    }
}

/// Keeping from two runs of walks in turn is keeping from both at once.
pub proof fn lemma_kept_add<A>(x: Seq<A>, y: Seq<A>, max_paths: u32, have: nat)
    ensures
        kept(x + y, max_paths, have) == kept(x, max_paths, have) + kept(
            y,
            max_paths,
            have + kept(x, max_paths, have).len(),
        ),
{
    assert(kept(x + y, max_paths, have) =~= kept(x, max_paths, have) + kept(
        y,
        max_paths,
        have + kept(x, max_paths, have).len(),
    ));
}

/// The edge sequences that a vector of results holds.
pub open spec fn cycles_of(found: Seq<Vec<u32>>) -> Seq<Seq<u32>> {
    found.map_values(|c: Vec<u32>| c@)
}

/// Whether `x` occurs in `v`.
pub fn occurs(v: &Vec<u32>, x: u32) -> (present: bool)
    ensures
        present == v@.contains(x),
{
    let mut i: usize = 0;
    while i < v.len()
        invariant
            i <= v.len(),
            forall|j: int| 0 <= j < i ==> v@[j] != x,
        decreases v.len() - i,
    {
        if v[i] == x {
            return true;
        }
        i += 1;
    }
    false
}

/// One step of the depth-first search: enters `current`, having come through
/// `visited` along `edges_used`, and appends to `found` what is reported from
/// there on, as long as `found` holds fewer than `max_paths` results (a
/// `max_paths` of zero sets no limit). The two paths are handed back as they
/// came.
pub fn dfs1(
    graph: &Graph,
    current: u32,
    visited: &mut Vec<u32>,
    edges_used: &mut Vec<u32>,
    target_id: u32,
    min_nodes: u16,
    max_nodes: u16,
    max_paths: u32,
    found: &mut Vec<Vec<u32>>,
)
    requires
        graph@.has_node(current),
    ensures
        final(visited)@ == old(visited)@,
        final(edges_used)@ == old(edges_used)@,
        cycles_of(final(found)@) == cycles_of(old(found)@) + kept(
            (Search { graph: graph@, target: target_id, min_nodes, max_nodes }).walks_from(
                current,
                old(visited)@,
                old(edges_used)@,
            ),
            max_paths,
            old(found)@.len(),
        ),
    decreases max_nodes - old(edges_used)@.len(),
{
    let ghost s = Search { graph: graph@, target: target_id, min_nodes, max_nodes };
    let ghost nodes0 = visited@;
    let ghost edges0 = edges_used@;
    let ghost found0 = cycles_of(found@);
    let ghost have = found@.len();
    if edges_used.len() >= max_nodes as usize {
        assert(found0 + Seq::<Seq<u32>>::empty() =~= found0);
        return ;
    }
    if max_paths != 0 && found.len() >= max_paths as usize {
        assert(found0 + Seq::<Seq<u32>>::empty() =~= found0);
        return ;
    }
    let ghost here = if s.closes(current, nodes0.len()) {
        seq![edges0]
    } else {
        Seq::empty()
    };
    if current == target_id && visited.len() > 1 && (min_nodes <= 1 || visited.len() >= (min_nodes
        - 1) as usize) {
        let cycle = edges_used.clone();
        assert(cycle@ =~= edges0);
        found.push(cycle);
    }
    assert(cycles_of(found@) =~= found0 + kept(here, max_paths, have));
    if occurs(visited, current) && current != target_id {
        return ;
    }
    let node = graph.node(current).unwrap();
    visited.push(current);
    let mut k: usize = 0;
    assert(here + s.walks_over(current, nodes0, edges0, 0) =~= here);
    while k < node.starts.len()
        invariant
            k <= node.starts.len(),
            graph@.wf(),
            graph@.has_node(current),
            node@ == graph@.nodes[current],
            s == (Search { graph: graph@, target: target_id, min_nodes, max_nodes }),
            visited@ == nodes0.push(current),
            edges_used@ == edges0,
            edges0 == old(edges_used)@,
            edges0.len() < max_nodes,
            found0.len() == have,
            cycles_of(found@) == found0 + kept(
                here + s.walks_over(current, nodes0, edges0, k as nat),
                max_paths,
                have,
            ),
        decreases node.starts.len() - k,
    {
        let e = node.starts[k];
        let ghost before = here + s.walks_over(current, nodes0, edges0, k as nat);
        let ghost mid = cycles_of(found@);
        assert(e == s.graph.outgoing(current)[k as int]);
        assert(graph@.has_edge(e));
        if !occurs(edges_used, e) {
            let next = graph.edge(e).unwrap().end;
            edges_used.push(e);
            dfs1(
                graph,
                next,
                visited,
                edges_used,
                target_id,
                min_nodes,
                max_nodes,
                max_paths,
                found,
            );
            edges_used.pop();
            assert(edges_used@ =~= edges0);
            proof {
                let child = s.walks_from(next, nodes0.push(current), edges0.push(e));
                lemma_kept_add(
                    here,
                    s.walks_over(current, nodes0, edges0, k as nat),
                    max_paths,
                    have,
                );
                lemma_kept_add(before, child, max_paths, have);
                assert(here + (s.walks_over(current, nodes0, edges0, k as nat) + child) =~= before
                    + child);
                assert(mid.len() == have + kept(before, max_paths, have).len());
                assert(cycles_of(found@) =~= found0 + kept(before + child, max_paths, have));
            }
        }
        k += 1;
    }
    visited.pop();
    assert(visited@ =~= nodes0);
}

/// Why a search was not run.
#[derive(Clone, Copy, Debug, PartialEq, Eq, Structural)]
pub enum SearchError {
    /// The least length asked for was zero.
    InvalidBound,
    /// The graph does not hold the node to search from.
    TargetAbsent,
}

/// The bound on the edges of a walk that `max_nodes` stands for: itself, or
/// the largest bound there is where it is zero.
pub open spec fn edge_cap(max_nodes: u16) -> u16 {
    if max_nodes == 0 {
        u16::MAX
    } else {
        max_nodes
    }
}

/// The search that the parameters of [`find_elementary_cycles`] stand for.
pub open spec fn search_of(g: GraphView, target: u32, min_nodes: u16, max_nodes: u16) -> Search {
    Search { graph: g, target, min_nodes, max_nodes: edge_cap(max_nodes) }
}

/// The closed walks through `target` that a search reports, in the order of
/// their discovery: those of at least `min_nodes - 1` and fewer than
/// `edge_cap(max_nodes)` edges, and of these the first `max_paths` where
/// `max_paths` is not zero.
pub open spec fn elementary_cycles(
    g: GraphView,
    target: u32,
    min_nodes: u16,
    max_nodes: u16,
    max_paths: u32,
) -> Seq<Seq<u32>> {
    kept(
        search_of(g, target, min_nodes, max_nodes).walks_from(target, Seq::empty(), Seq::empty()),
        max_paths,
        0,
    )
}

/// Searches `graph` for the closed walks through `the_vertex` and returns
/// them, each as the identifiers of its edges in the order walked. The search
/// is refused if `min_nodes` is zero or if the graph does not hold
/// `the_vertex`.
///
/// Every walk returned is a cycle in the sense of [`Search::is_cycle`], none
/// is returned twice, and no more than `max_paths` are returned unless
/// `max_paths` is zero; then every cycle is returned.
///
/// The search calls itself once for each edge of the walk it stands in. A
/// [`crate::enumerator::CycleEnumerator`] does the same search on a stack of
/// its own.
pub fn find_elementary_cycles(
    graph: &Graph,
    the_vertex: u32,
    min_nodes: u16,
    max_nodes: u16,
    max_paths: u32,
) -> (result: Result<Vec<Vec<u32>>, SearchError>)
    ensures
        match result {
            Ok(found) => {
                &&& min_nodes != 0
                &&& graph@.has_node(the_vertex)
                &&& cycles_of(found@) == elementary_cycles(
                    graph@,
                    the_vertex,
                    min_nodes,
                    max_nodes,
                    max_paths,
                )
                &&& forall|i: int|
                    0 <= i < found.len() ==> search_of(
                        graph@,
                        the_vertex,
                        min_nodes,
                        max_nodes,
                    ).is_cycle(#[trigger] found[i]@)
                &&& cycles_of(found@).no_duplicates()
                &&& max_paths != 0 ==> found.len() <= max_paths
                &&& max_paths == 0 ==> forall|walk: Seq<u32>|
                    search_of(graph@, the_vertex, min_nodes, max_nodes).is_cycle(walk)
                        ==> #[trigger] cycles_of(found@).contains(walk)
            },
            Err(SearchError::InvalidBound) => min_nodes == 0,
            Err(SearchError::TargetAbsent) => min_nodes != 0 && !graph@.has_node(the_vertex),
        },
{
    if min_nodes == 0 {
        return Err(SearchError::InvalidBound);
    }
    if !graph.contains_node(the_vertex) {
        return Err(SearchError::TargetAbsent);
    }
    let max_nodes_r: u16 = if max_nodes == 0 {
        u16::MAX
    } else {
        max_nodes
    };
    let mut found: Vec<Vec<u32>> = Vec::new();
    let mut visited: Vec<u32> = Vec::new();
    let mut edges_used: Vec<u32> = Vec::new();
    dfs1(
        graph,
        the_vertex,
        &mut visited,
        &mut edges_used,
        the_vertex,
        min_nodes,
        max_nodes_r,
        max_paths,
        &mut found,
    );
    assert(cycles_of(found@) =~= elementary_cycles(
        graph@,
        the_vertex,
        min_nodes,
        max_nodes,
        max_paths,
    ));
    proof {
        lemma_found_are_cycles(graph@, the_vertex, min_nodes, max_nodes, max_paths);
        lemma_found_once(graph@, the_vertex, min_nodes, max_nodes, max_paths);
        if max_paths != 0 {
            lemma_found_within_limit(graph@, the_vertex, min_nodes, max_nodes, max_paths);
        }
        assert forall|i: int| 0 <= i < found.len() implies search_of(
            graph@,
            the_vertex,
            min_nodes,
            max_nodes,
        ).is_cycle(#[trigger] found[i]@) by {
            assert(cycles_of(found@)[i] == found[i]@);
        }
        assert forall|walk: Seq<u32>|
            max_paths == 0 && search_of(graph@, the_vertex, min_nodes, max_nodes).is_cycle(
                walk,
            ) implies #[trigger] cycles_of(found@).contains(walk) by {
            lemma_cycles_are_found(graph@, the_vertex, min_nodes, max_nodes, walk);
        }
    }
    Ok(found)
}

} // verus!
