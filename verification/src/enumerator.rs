//! The search as a sequence that is produced on demand: an enumerator that
//! keeps the walk under way on a stack of its own and hands out one cycle at
//! a time.

use crate::graph::Graph;
use crate::search::{
    elementary_cycles, kept, lemma_kept_add, occurs, search_of, Search, SearchError,
};
use vstd::prelude::*;

verus! {

impl Search {
    /// The walks reported through the edges that leave `current`, from the
    /// `k`-th on.
    pub open spec fn walks_after(
        self,
        current: u32,
        nodes: Seq<u32>,
        edges: Seq<u32>,
        k: nat,
    ) -> Seq<Seq<u32>>
        decreases self.graph.outgoing(current).len() - k,
    {
        if k >= self.graph.outgoing(current).len() || edges.len() >= self.max_nodes {
            Seq::empty()
        } else {
            let e = self.graph.outgoing(current)[k as int];
            let through = if edges.contains(e) {
                Seq::empty()
            } else {
                self.walks_from(self.graph.destination(e), nodes.push(current), edges.push(e))
            };
            through + self.walks_after(current, nodes, edges, k + 1)
        }
    }

    /// The walks reported through the edges that leave a node are those
    /// through its first `k` edges, then those through the others.
    pub proof fn lemma_walks_split(self, current: u32, nodes: Seq<u32>, edges: Seq<u32>, k: nat)
        requires
            k <= self.graph.outgoing(current).len(),
        ensures
            self.walks_over(current, nodes, edges, self.graph.outgoing(current).len())
                == self.walks_over(current, nodes, edges, k) + self.walks_after(
                current,
                nodes,
                edges,
                k,
            ),
        decreases self.graph.outgoing(current).len() - k,
    {
        let n = self.graph.outgoing(current).len();
        let done = self.walks_over(current, nodes, edges, k);
        let rest = self.walks_after(current, nodes, edges, k);
        if k < n && edges.len() < self.max_nodes {
            self.lemma_walks_split(current, nodes, edges, k + 1);
            let e = self.graph.outgoing(current)[k as int];
            let through = if edges.contains(e) {
                Seq::empty()
            } else {
                self.walks_from(self.graph.destination(e), nodes.push(current), edges.push(e))
            };
            assert(self.walks_over(current, nodes, edges, k + 1) =~= done + through);
            assert(done + (through + self.walks_after(current, nodes, edges, k + 1)) =~= (done
                + through) + self.walks_after(current, nodes, edges, k + 1));
        } else if k < n {
            self.lemma_walks_over_capped(current, nodes, edges, n);
            self.lemma_walks_over_capped(current, nodes, edges, k);
            assert(done + rest =~= done);
        } else {
            assert(done + rest =~= done);
        }
    }

    /// Nothing is reported through the edges of a node once the bound on the
    /// edges of a walk is reached.
    pub proof fn lemma_walks_over_capped(
        self,
        current: u32,
        nodes: Seq<u32>,
        edges: Seq<u32>,
        k: nat,
    )
        requires
            edges.len() >= self.max_nodes,
        ensures
            self.walks_over(current, nodes, edges, k) == Seq::<Seq<u32>>::empty(),
    {
    }

    /// Whether the search, standing at `current`, goes on into the node at
    /// the end of the edge `e`: the edge is unused, the walk stays under the
    /// bound, and the node is the target or new to the walk.
    pub open spec fn enters(self, current: u32, nodes: Seq<u32>, edges: Seq<u32>, e: u32) -> bool {
        &&& !edges.contains(e)
        &&& edges.len() + 1 < self.max_nodes
        &&& !nodes.push(current).contains(self.graph.destination(e)) || self.graph.destination(e)
            == self.target
    }

    /// The steps that the enumerator still takes at `current` and below it,
    /// from the `k`-th edge that leaves `current` on: one for each edge
    /// looked at, and one to go back.
    pub open spec fn effort_after(
        self,
        current: u32,
        nodes: Seq<u32>,
        edges: Seq<u32>,
        k: nat,
    ) -> nat
        decreases self.max_nodes - edges.len(), self.graph.outgoing(current).len() - k,
    {
        if k >= self.graph.outgoing(current).len() || edges.len() >= self.max_nodes {
            1
        } else {
            let e = self.graph.outgoing(current)[k as int];
            let below = if self.enters(current, nodes, edges, e) {
                self.effort_after(self.graph.destination(e), nodes.push(current), edges.push(e), 0)
            } else {
                0
            };
            1 + below + self.effort_after(current, nodes, edges, k + 1)
        }
    }

    /// The walks that an enumerator has still to report when its stack holds
    /// the walk `nodes`, `edges` and, for each node of the walk, the number
    /// `nexts[i]` of the edges it has looked at there: those of the last
    /// node first.
    pub open spec fn pending(self, nexts: Seq<usize>, nodes: Seq<u32>, edges: Seq<u32>) -> Seq<
        Seq<u32>,
    >
        decreases nexts.len(),
    {
        if nexts.len() == 0 {
            Seq::empty()
        } else {
            let top = nexts.len() - 1;
            self.walks_after(nodes[top], nodes.take(top), edges.take(top), nexts[top] as nat)
                + self.pending(nexts.drop_last(), nodes, edges)
        }
    }

    /// The steps that an enumerator still takes from such a stack.
    pub open spec fn effort(self, nexts: Seq<usize>, nodes: Seq<u32>, edges: Seq<u32>) -> nat
        decreases nexts.len(),
    {
        if nexts.len() == 0 {
            0
        } else {
            let top = nexts.len() - 1;
            self.effort_after(nodes[top], nodes.take(top), edges.take(top), nexts[top] as nat)
                + self.effort(nexts.drop_last(), nodes, edges)
        }
    }

    /// What is pending depends on the walk only as far as the stack reaches.
    pub proof fn lemma_pending_agrees(
        self,
        nexts: Seq<usize>,
        nodes: Seq<u32>,
        edges: Seq<u32>,
        nodes2: Seq<u32>,
        edges2: Seq<u32>,
    )
        requires
            nexts.len() <= nodes.len(),
            nexts.len() <= nodes2.len(),
            nexts.len() <= edges.len() + 1,
            nexts.len() <= edges2.len() + 1,
            forall|i: int| 0 <= i < nexts.len() ==> nodes[i] == nodes2[i],
            forall|i: int| 0 <= i < nexts.len() - 1 ==> edges[i] == edges2[i],
        ensures
            self.pending(nexts, nodes, edges) == self.pending(nexts, nodes2, edges2),
            self.effort(nexts, nodes, edges) == self.effort(nexts, nodes2, edges2),
        decreases nexts.len(),
    {
        if nexts.len() > 0 {
            let top = nexts.len() - 1;
            assert(nodes.take(top) =~= nodes2.take(top));
            assert(edges.take(top) =~= edges2.take(top));
            self.lemma_pending_agrees(nexts.drop_last(), nodes, edges, nodes2, edges2);
        }
    }
}

/// A walk without its last edge, if it has one.
pub open spec fn shorter(edges: Seq<u32>) -> Seq<u32> {
    if edges.len() > 0 {
        edges.drop_last()
    } else {
        edges
    }
}

impl Search {
    /// Going back from a node whose edges are all looked at takes one step
    /// and leaves what is pending as it was.
    pub proof fn lemma_go_back(self, nexts: Seq<usize>, nodes: Seq<u32>, edges: Seq<u32>)
        requires
            stacked(self, nexts, nodes, edges),
            nexts.len() > 0,
            nexts.last() >= self.graph.outgoing(nodes.last()).len(),
        ensures
            stacked(self, nexts.drop_last(), nodes.drop_last(), shorter(edges)),
            self.pending(nexts.drop_last(), nodes.drop_last(), shorter(edges))
                == self.pending(nexts, nodes, edges),
            self.effort(nexts, nodes, edges) == 1 + self.effort(
                nexts.drop_last(),
                nodes.drop_last(),
                shorter(edges),
            ),
    {
        let top = nexts.len() - 1;
        let rest = self.pending(nexts.drop_last(), nodes, edges);
        assert(self.walks_after(nodes[top], nodes.take(top), edges.take(top), nexts[top] as nat)
            =~= Seq::<Seq<u32>>::empty());
        assert(Seq::<Seq<u32>>::empty() + rest =~= rest);
        self.lemma_pending_agrees(
            nexts.drop_last(),
            nodes,
            edges,
            nodes.drop_last(),
            shorter(edges),
        );
        assert forall|i: int| 0 <= i < nexts.drop_last().len() implies self.graph.has_node(
            #[trigger] nodes.drop_last()[i],
        ) && nexts.drop_last()[i] <= self.graph.outgoing(nodes.drop_last()[i]).len() by {
            assert(self.graph.has_node(nodes[i]));
        }
    }

    /// Looking at the next edge of the last node takes one step, and what
    /// lies below that edge; what was pending is what is reported through
    /// that edge and what is pending then.
    pub proof fn lemma_look_at(self, nexts: Seq<usize>, nodes: Seq<u32>, edges: Seq<u32>)
        requires
            stacked(self, nexts, nodes, edges),
            nexts.len() > 0,
            nexts.last() < self.graph.outgoing(nodes.last()).len() <= usize::MAX,
        ensures
            ({
                let k = nexts.last();
                let seen = nexts.drop_last().push((k + 1) as usize);
                let e = self.graph.outgoing(nodes.last())[k as int];
                let next = self.graph.destination(e);
                let through = if edges.contains(e) {
                    Seq::empty()
                } else {
                    self.walks_from(next, nodes, edges.push(e))
                };
                let below: nat = if self.enters(nodes.last(), nodes.drop_last(), edges, e) {
                    self.effort_after(next, nodes, edges.push(e), 0)
                } else {
                    0
                };
                &&& k + 1 <= usize::MAX
                &&& self.graph.has_edge(e)
                &&& self.graph.has_node(next)
                &&& edges.len() < self.max_nodes
                &&& stacked(self, seen, nodes, edges)
                &&& self.pending(nexts, nodes, edges) == through + self.pending(seen, nodes, edges)
                &&& self.effort(nexts, nodes, edges) == 1 + below + self.effort(seen, nodes, edges)
            }),
    {
        let top = nexts.len() - 1;
        let k = nexts.last();
        let seen = nexts.drop_last().push((k + 1) as usize);
        let current = nodes.last();
        let e = self.graph.outgoing(current)[k as int];
        assert(self.graph.has_node(nodes[top]));
        assert(self.graph.has_edge(e));
        assert(nodes.take(top) =~= nodes.drop_last());
        assert(nodes.take(top).push(current) =~= nodes);
        assert(edges.take(top) =~= edges);
        assert(seen.drop_last() =~= nexts.drop_last());
        assert(seen.last() == k + 1);
        let through = if edges.contains(e) {
            Seq::empty()
        } else {
            self.walks_from(self.graph.destination(e), nodes, edges.push(e))
        };
        assert(self.walks_after(current, nodes.take(top), edges, k as nat) == through
            + self.walks_after(current, nodes.take(top), edges, (k + 1) as nat));
        assert((through + self.walks_after(current, nodes.take(top), edges, (k + 1) as nat))
            + self.pending(nexts.drop_last(), nodes, edges) =~= through + (self.walks_after(
            current,
            nodes.take(top),
            edges,
            (k + 1) as nat,
        ) + self.pending(nexts.drop_last(), nodes, edges)));
        assert forall|i: int| 0 <= i < seen.len() implies self.graph.has_node(#[trigger] nodes[i])
            && seen[i] <= self.graph.outgoing(nodes[i]).len() by {
            if i < top {
                assert(seen[i] == nexts[i]);
            }
        }
    }

    /// Going on into a node puts its walks first among those pending, and
    /// its steps on top of those still to take. What is reported from the
    /// node is the walk that led there, if it closes, and then the walks
    /// through its edges.
    pub proof fn lemma_go_down(
        self,
        nexts: Seq<usize>,
        nodes: Seq<u32>,
        edges: Seq<u32>,
        e: u32,
        next: u32,
    )
        requires
            stacked(self, nexts, nodes, edges),
            nexts.len() > 0,
            edges.len() + 1 < self.max_nodes,
            self.graph.has_node(next),
        ensures
            stacked(self, nexts.push(0), nodes.push(next), edges.push(e)),
            self.pending(nexts.push(0), nodes.push(next), edges.push(e)) == self.walks_after(
                next,
                nodes,
                edges.push(e),
                0,
            ) + self.pending(nexts, nodes, edges),
            self.effort(nexts.push(0), nodes.push(next), edges.push(e)) == self.effort_after(
                next,
                nodes,
                edges.push(e),
                0,
            ) + self.effort(nexts, nodes, edges),
            !nodes.contains(next) || next == self.target ==> self.walks_from(
                next,
                nodes,
                edges.push(e),
            ) == (if self.closes(next, nodes.len()) {
                seq![edges.push(e)]
            } else {
                Seq::empty()
            }) + self.walks_after(next, nodes, edges.push(e), 0),
    {
        let top = nexts.len() as int;
        let nexts2 = nexts.push(0);
        let nodes2 = nodes.push(next);
        let edges2 = edges.push(e);
        assert(nodes2.take(top) =~= nodes);
        assert(edges2.take(top) =~= edges2);
        assert(nexts2.drop_last() =~= nexts);
        self.lemma_pending_agrees(nexts, nodes, edges, nodes2, edges2);
        assert forall|i: int| 0 <= i < nexts2.len() implies self.graph.has_node(
            #[trigger] nodes2[i],
        ) && nexts2[i] <= self.graph.outgoing(nodes2[i]).len() by {
            if i < top {
                assert(self.graph.has_node(nodes[i]));
            }
        }
        if !nodes.contains(next) || next == self.target {
            self.lemma_walks_split(next, nodes, edges2, 0);
            let n = self.graph.outgoing(next).len();
            assert(self.walks_over(next, nodes, edges2, n) =~= self.walks_after(
                next,
                nodes,
                edges2,
                0,
            ));
        }
    }
}

/// A search under way. It reports the walks of [`elementary_cycles`] one at a
/// time, in their order, and keeps of the walk it stands in only the nodes,
/// the edges and, for each node, how many of its edges it has looked at.
pub struct CycleEnumerator<'a> {
    graph: &'a Graph,
    target: u32,
    min_nodes: u16,
    max_nodes: u16,
    max_paths: u32,
    found: u32,
    visited: Vec<u32>,
    edges_used: Vec<u32>,
    nexts: Vec<usize>,
}

/// Whether a stack is one that an enumerator can stand in: it has a count
/// for each node of the walk, an edge between each two nodes, every node is
/// in the graph, no count is beyond the edges of its node, and the walk is
/// under the bound.
pub open spec fn stacked(s: Search, nexts: Seq<usize>, nodes: Seq<u32>, edges: Seq<u32>) -> bool {
    &&& s.graph.wf()
    &&& nodes.len() == nexts.len()
    &&& nexts.len() > 0 ==> edges.len() + 1 == nexts.len()
    &&& nexts.len() == 0 ==> edges.len() == 0
    &&& nexts.len() <= s.max_nodes
    &&& forall|i: int|
        0 <= i < nexts.len() ==> s.graph.has_node(#[trigger] nodes[i]) && nexts[i]
            <= s.graph.outgoing(nodes[i]).len()
}

impl<'a> CycleEnumerator<'a> {
    spec fn search(self) -> Search {
        Search {
            graph: self.graph@,
            target: self.target,
            min_nodes: self.min_nodes,
            max_nodes: self.max_nodes,
        }
    }

    #[verifier::type_invariant]
    spec fn inv(self) -> bool {
        &&& stacked(self.search(), self.nexts@, self.visited@, self.edges_used@)
        &&& self.found <= self.max_paths
    }

    /// The walks that are still to come, in their order.
    pub closed spec fn remaining(self) -> Seq<Seq<u32>> {
        kept(
            self.search().pending(self.nexts@, self.visited@, self.edges_used@),
            self.max_paths,
            self.found as nat,
        )
    }

    /// Starts a search of `graph` for the closed walks through `the_vertex`.
    /// It is refused if `min_nodes` is zero or if the graph does not hold
    /// `the_vertex`.
    pub fn new(
        graph: &'a Graph,
        the_vertex: u32,
        min_nodes: u16,
        max_nodes: u16,
        max_paths: u32,
    ) -> (result: Result<CycleEnumerator<'a>, SearchError>)
        ensures
            match result {
                Ok(search) => {
                    &&& min_nodes != 0
                    &&& graph@.has_node(the_vertex)
                    &&& search.remaining() == elementary_cycles(
                        graph@,
                        the_vertex,
                        min_nodes,
                        max_nodes,
                        max_paths,
                    )
                },
                Err(SearchError::InvalidBound) => min_nodes == 0,
                Err(SearchError::TargetAbsent) => min_nodes != 0 && !graph@.has_node(the_vertex),
            },
    {
        if min_nodes == 0 {
            return Err(SearchError::InvalidBound);
        }
        if !graph.contains_node(the_vertex) {
            return Err(SearchError::TargetAbsent);
        }
        let max_nodes_r: u16 = if max_nodes == 0 {
            u16::MAX
        } else {
            max_nodes
        };
        let mut visited: Vec<u32> = Vec::new();
        let edges_used: Vec<u32> = Vec::new();
        let mut nexts: Vec<usize> = Vec::new();
        visited.push(the_vertex);
        nexts.push(0);
        proof {
            let s = search_of(graph@, the_vertex, min_nodes, max_nodes);
            let none = Seq::<u32>::empty();
            let n = s.graph.outgoing(the_vertex).len();
            s.lemma_walks_split(the_vertex, none, none, 0);
            assert(visited@.take(0) =~= none);
            assert(edges_used@.take(0) =~= none);
            assert(nexts@.drop_last() =~= Seq::<usize>::empty());
            assert(s.pending(nexts@.drop_last(), visited@, edges_used@) =~= Seq::<
                Seq<u32>,
            >::empty());
            assert(s.walks_from(the_vertex, none, none) =~= s.walks_after(
                the_vertex,
                none,
                none,
                0,
            ));
            assert(s.pending(nexts@, visited@, edges_used@) =~= s.walks_after(
                the_vertex,
                none,
                none,
                0,
            ));
        }
        Ok(
            CycleEnumerator {
                graph,
                target: the_vertex,
                min_nodes,
                max_nodes: max_nodes_r,
                max_paths,
                found: 0,
                visited,
                edges_used,
                nexts,
            },
        )
    }

    /// Hands out the next walk, if there is one, and the search that goes on
    /// from there.
    pub fn next_cycle(self) -> (out: (Option<Vec<u32>>, CycleEnumerator<'a>))
        ensures
            match out.0 {
                Some(cycle) => {
                    &&& self.remaining().len() > 0
                    &&& cycle@ == self.remaining()[0]
                    &&& out.1.remaining() == self.remaining().skip(1)
                },
                None => self.remaining().len() == 0 && out.1.remaining().len() == 0,
            },
    {
        proof {
            use_type_invariant(&self);
        }
        let ghost s = self.search();
        let ghost goal = self.remaining();
        let CycleEnumerator {
            graph,
            target,
            min_nodes,
            max_nodes,
            max_paths,
            found,
            mut visited,
            mut edges_used,
            mut nexts,
        } = self;
        if max_paths != 0 && found >= max_paths {
            return (
                None,
                CycleEnumerator {
                    graph,
                    target,
                    min_nodes,
                    max_nodes,
                    max_paths,
                    found,
                    visited,
                    edges_used,
                    nexts,
                },
            );
        }
        let after: u32 = if max_paths != 0 {
            found + 1
        } else {
            found
        };
        let mut cycle: Option<Vec<u32>> = None;
        while nexts.len() > 0 && cycle.is_none()
            invariant
                s == (Search { graph: graph@, target, min_nodes, max_nodes }),
                stacked(s, nexts@, visited@, edges_used@),
                max_paths == 0 || found < max_paths,
                after == (if max_paths != 0 {
                    found + 1
                } else {
                    found as int
                }),
                match cycle {
                    None => goal == kept(
                        s.pending(nexts@, visited@, edges_used@),
                        max_paths,
                        found as nat,
                    ),
                    Some(walk) => goal == seq![walk@] + kept(
                        s.pending(nexts@, visited@, edges_used@),
                        max_paths,
                        after as nat,
                    ),
                },
            decreases s.effort(nexts@, visited@, edges_used@),
        {
            let top = nexts.len() - 1;
            let current = visited[top];
            let k = nexts[top];
            let ghost nexts0 = nexts@;
            let ghost nodes0 = visited@;
            let ghost edges0 = edges_used@;
            let node = graph.node(current).unwrap();
            if k >= node.starts.len() {
                proof {
                    s.lemma_go_back(nexts0, nodes0, edges0);
                }
                nexts.pop();
                visited.pop();
                edges_used.pop();
                assert(edges_used@ =~= shorter(edges0));
            } else {
                let e = node.starts[k];
                proof {
                    s.lemma_look_at(nexts0, nodes0, edges0);
                }
                nexts.pop();
                nexts.push(k + 1);
                let ghost seen = nexts@;
                let ghost rest = s.pending(seen, nodes0, edges0);
                if !occurs(&edges_used, e) && edges_used.len() + 1 < max_nodes as usize {
                    let next = graph.edge(e).unwrap().end;
                    let closes = next == target && visited.len() > 1 && (min_nodes <= 1
                        || visited.len() >= (min_nodes - 1) as usize);
                    let enters = !occurs(&visited, next) || next == target;
                    proof {
                        s.lemma_go_down(seen, nodes0, edges0, e, next);
                    }
                    if closes {
                        let mut walk = edges_used.clone();
                        walk.push(e);
                        assert(walk@ =~= edges0.push(e));
                        cycle = Some(walk);
                    }
                    if enters {
                        edges_used.push(e);
                        visited.push(next);
                        nexts.push(0);
                    }
                    proof {
                        let here = if closes {
                            seq![edges0.push(e)]
                        } else {
                            Seq::empty()
                        };
                        let below = if enters {
                            s.walks_after(next, nodes0, edges0.push(e), 0)
                        } else {
                            Seq::empty()
                        };
                        let now = s.pending(nexts@, visited@, edges_used@);
                        assert(now =~= below + rest);
                        assert(s.walks_from(next, nodes0, edges0.push(e)) =~= here + below);
                        assert(s.pending(nexts0, nodes0, edges0) =~= here + now);
                        if closes {
                            lemma_kept_add(here, now, max_paths, found as nat);
                        } else {
                            assert(here + now =~= now);
                        }
                    }
                } else {
                    assert(!edges0.contains(e) ==> s.walks_from(
                        s.graph.destination(e),
                        nodes0,
                        edges0.push(e),
                    ) =~= Seq::<Seq<u32>>::empty());
                    assert(Seq::<Seq<u32>>::empty() + rest =~= rest);
                }
            }
        }
        proof {
            if cycle.is_none() {
                assert(s.pending(nexts@, visited@, edges_used@) =~= Seq::<Seq<u32>>::empty());
            } else {
                assert(goal.skip(1) =~= kept(
                    s.pending(nexts@, visited@, edges_used@),
                    max_paths,
                    after as nat,
                ));
            }
        }
        let found = if cycle.is_some() {
            after
        } else {
            found
        };
        (
            cycle,
            CycleEnumerator {
                graph,
                target,
                min_nodes,
                max_nodes,
                max_paths,
                found,
                visited,
                edges_used,
                nexts,
            },
        )
    }
}

} // verus!
