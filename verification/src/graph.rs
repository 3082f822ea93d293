//! The graph store: nodes and edges owned by identifier.

use std::collections::HashMap;
use vstd::prelude::*;
use vstd::std_specs::hash::group_hash_axioms;

verus! {

/// A directed edge `start -> end`, known by its identifier.
#[derive(Clone, Copy, Debug, PartialEq, Eq, Structural)]
pub struct Edge {
    pub id: u32,
    pub start: u32,
    pub end: u32,
}

/// A node with the identifiers of the edges that leave it (`starts`) and of
/// those that arrive at it (`ends`), each in the order of attachment.
#[derive(Clone, Debug)]
pub struct Node {
    pub id: u32,
    pub starts: Vec<u32>,
    pub ends: Vec<u32>,
}

/// The mathematical value of a [`Node`].
pub struct NodeView {
    pub id: u32,
    pub starts: Seq<u32>,
    pub ends: Seq<u32>,
}

impl View for Node {
    type V = NodeView;

    open spec fn view(&self) -> NodeView {
        NodeView { id: self.id, starts: self.starts@, ends: self.ends@ }
    }
}

impl Edge {
    /// The edge `start -> end` with identifier `id`.
    pub fn new(id: u32, start: u32, end: u32) -> (edge: Edge)
        ensures
            edge == (Edge { id, start, end }),
    {
        Edge { id, start, end }
    }
}

impl Node {
    /// A node without edges.
    pub fn new(id: u32) -> (node: Node)
        ensures
            node@ == (NodeView { id, starts: Seq::empty(), ends: Seq::empty() }),
    {
        Node { id, starts: Vec::new(), ends: Vec::new() }
    }

    /// Attaches an edge: to the leaving edges if `is_start`, else to the
    /// arriving ones.
    pub fn add_edge(&mut self, edge: u32, is_start: bool)
        ensures
            final(self)@ == (if is_start {
                NodeView { starts: old(self)@.starts.push(edge), ..old(self)@ }
            } else {
                NodeView { ends: old(self)@.ends.push(edge), ..old(self)@ }
            }),
    {
        if is_start {
            self.starts.push(edge);
        } else {
            self.ends.push(edge);
        }
    }
}


/// The mathematical value of a [`Graph`]: its nodes and its edges, each by
/// identifier.
pub struct GraphView {
    pub nodes: Map<u32, NodeView>,
    pub edges: Map<u32, Edge>,
}

impl GraphView {
    /// The graph without nodes and edges.
    pub open spec fn empty() -> GraphView {
        GraphView { nodes: Map::empty(), edges: Map::empty() }
    }

    /// Whether the graph holds the node `n`.
    pub open spec fn has_node(self, n: u32) -> bool {
        self.nodes.contains_key(n)
    }

    /// Whether the graph holds the edge `e`.
    pub open spec fn has_edge(self, e: u32) -> bool {
        self.edges.contains_key(e)
    }

    /// The edges that leave `n`, in the order of attachment.
    pub open spec fn outgoing(self, n: u32) -> Seq<u32> {
        self.nodes[n].starts
    }

    /// The edges that arrive at `n`, in the order of attachment.
    pub open spec fn incoming(self, n: u32) -> Seq<u32> {
        self.nodes[n].ends
    }

    /// The node that the edge `e` leaves.
    pub open spec fn source(self, e: u32) -> u32 {
        self.edges[e].start
    }

    /// The node at which the edge `e` arrives.
    pub open spec fn destination(self, e: u32) -> u32 {
        self.edges[e].end
    }

    /// The graph with node `n`; a node that is there already stays as it is.
    pub open spec fn with_node(self, n: u32) -> GraphView {
        if self.has_node(n) {
            self
        } else {
            GraphView {
                nodes: self.nodes.insert(
                    n,
                    NodeView { id: n, starts: Seq::empty(), ends: Seq::empty() },
                ),
                ..self
            }
        }
    }

    /// The graph with the edge `a -> b` under the identifier `e`: the
    /// endpoints are created where they are missing, and `e` is appended to
    /// the leaving edges of `a` and to the arriving edges of `b`.
    pub open spec fn with_edge(self, a: u32, b: u32, e: u32) -> GraphView {
        let g = self.with_node(a).with_node(b);
        let na = g.nodes[a];
        let nodes_a = g.nodes.insert(a, NodeView { starts: na.starts.push(e), ..na });
        let nb = nodes_a[b];
        let nodes_b = nodes_a.insert(b, NodeView { ends: nb.ends.push(e), ..nb });
        GraphView { nodes: nodes_b, edges: g.edges.insert(e, Edge { id: e, start: a, end: b }) }
    }

    /// Every entity is stored under its own identifier, every edge joins two
    /// nodes of the graph, and a node lists exactly the edges that leave it
    /// and those that arrive at it, each once.
    pub open spec fn wf(self) -> bool {
        &&& self.nodes.dom().finite()
        &&& self.edges.dom().finite()
        &&& forall|n: u32| #[trigger] self.has_node(n) ==> self.nodes[n].id == n
        &&& forall|n: u32| #[trigger]
            self.has_node(n) ==> self.outgoing(n).no_duplicates() && self.incoming(
                n,
            ).no_duplicates()
        &&& forall|e: u32| #[trigger]
            self.has_edge(e) ==> {
                &&& self.edges[e].id == e
                &&& self.has_node(self.source(e))
                &&& self.has_node(self.destination(e))
                &&& self.outgoing(self.source(e)).contains(e)
                &&& self.incoming(self.destination(e)).contains(e)
            }
        &&& forall|n: u32, i: int|
            self.has_node(n) && 0 <= i < self.outgoing(n).len() ==> self.has_edge(
                #[trigger] self.outgoing(n)[i],
            ) && self.source(self.outgoing(n)[i]) == n
        &&& forall|n: u32, i: int|
            self.has_node(n) && 0 <= i < self.incoming(n).len() ==> self.has_edge(
                #[trigger] self.incoming(n)[i],
            ) && self.destination(self.incoming(n)[i]) == n
    }

    /// No two edges of a well-formed graph share an identifier, and an edge
    /// is listed by the node it leaves and by the node it arrives at, and by
    /// no other.
    pub proof fn lemma_edge_ids_distinct(self, x: u32, y: u32)
        requires
            self.wf(),
            self.has_edge(x),
            self.has_edge(y),
            self.edges[x].id == self.edges[y].id,
        ensures
            x == y,
            forall|n: u32|
                self.has_node(n) && #[trigger] self.outgoing(n).contains(x) ==> n == self.source(x),
            forall|n: u32|
                self.has_node(n) && #[trigger] self.incoming(n).contains(x) ==> n
                    == self.destination(x),
    {
        assert forall|n: u32|
            self.has_node(n) && #[trigger] self.outgoing(n).contains(x) implies n == self.source(
            x,
        ) by {
            let i = choose|i: int| 0 <= i < self.outgoing(n).len() && self.outgoing(n)[i] == x;
            assert(self.source(self.outgoing(n)[i]) == n);
        }
        assert forall|n: u32|
            self.has_node(n) && #[trigger] self.incoming(n).contains(x) implies n
            == self.destination(x) by {
            let i = choose|i: int| 0 <= i < self.incoming(n).len() && self.incoming(n)[i] == x;
            assert(self.destination(self.incoming(n)[i]) == n);
        }
    }

    /// Adding a node keeps a graph well formed.
    pub proof fn lemma_with_node_wf(self, n: u32)
        requires
            self.wf(),
        ensures
            self.with_node(n).wf(),
    {
        let g = self.with_node(n);
        if !self.has_node(n) {
            assert forall|m: u32| #[trigger] g.has_node(m) implies g.nodes[m].id == m
                && g.outgoing(m).no_duplicates() && g.incoming(m).no_duplicates() by {
                if m != n {
                    assert(self.has_node(m));
                }
            }
            assert forall|e: u32| #[trigger] g.has_edge(e) implies {
                &&& g.edges[e].id == e
                &&& g.has_node(g.source(e))
                &&& g.has_node(g.destination(e))
                &&& g.outgoing(g.source(e)).contains(e)
                &&& g.incoming(g.destination(e)).contains(e)
            } by {
                assert(self.has_edge(e));
                assert(self.has_node(self.source(e)));
                assert(self.has_node(self.destination(e)));
            }
            assert forall|m: u32, i: int|
                g.has_node(m) && 0 <= i < g.outgoing(m).len() implies g.has_edge(
                #[trigger] g.outgoing(m)[i],
            ) && g.source(g.outgoing(m)[i]) == m by {
                assert(self.has_node(m));
                assert(self.has_edge(self.outgoing(m)[i]));
            }
            assert forall|m: u32, i: int|
                g.has_node(m) && 0 <= i < g.incoming(m).len() implies g.has_edge(
                #[trigger] g.incoming(m)[i],
            ) && g.destination(g.incoming(m)[i]) == m by {
                assert(self.has_node(m));
                assert(self.has_edge(self.incoming(m)[i]));
            }
        }
    }

    /// What a graph holds once an edge is added: the nodes it had and the
    /// two endpoints, the edges it had and the new one.
    pub proof fn lemma_with_edge_content(self, a: u32, b: u32, e: u32)
        ensures
            forall|n: u32| #[trigger]
                self.with_edge(a, b, e).has_node(n) <==> self.has_node(n) || n == a || n == b,
            forall|x: u32| #[trigger]
                self.with_edge(a, b, e).has_edge(x) <==> self.has_edge(x) || x == e,
            self.with_edge(a, b, e).edges[e] == (Edge { id: e, start: a, end: b }),
            forall|x: u32| x != e ==> #[trigger] self.with_edge(a, b, e).edges[x] == self.edges[x],
    {
    }

    /// Adding an edge under a fresh identifier keeps a graph well formed.
    pub proof fn lemma_with_edge_wf(self, a: u32, b: u32, e: u32)
        requires
            self.wf(),
            !self.has_edge(e),
        ensures
            self.with_edge(a, b, e).wf(),
    {
        self.lemma_with_node_wf(a);
        self.with_node(a).lemma_with_node_wf(b);
        let g0 = self.with_node(a).with_node(b);
        let g = self.with_edge(a, b, e);
        assert(g.nodes.dom() =~= g0.nodes.dom());
        assert(g0.has_node(a) && g0.has_node(b));
        assert forall|m: u32| g0.has_node(m) implies !g0.outgoing(m).contains(e)
            && !g0.incoming(m).contains(e) by {
            if g0.outgoing(m).contains(e) {
                let i = choose|i: int| 0 <= i < g0.outgoing(m).len() && g0.outgoing(m)[i] == e;
                assert(g0.has_edge(g0.outgoing(m)[i]));
            }
            if g0.incoming(m).contains(e) {
                let i = choose|i: int| 0 <= i < g0.incoming(m).len() && g0.incoming(m)[i] == e;
                assert(g0.has_edge(g0.incoming(m)[i]));
            }
        }
        assert forall|m: u32| #[trigger] g.has_node(m) implies {
            &&& g.nodes[m].id == m
            &&& g.outgoing(m) == (if m == a {
                g0.outgoing(m).push(e)
            } else {
                g0.outgoing(m)
            })
            &&& g.incoming(m) == (if m == b {
                g0.incoming(m).push(e)
            } else {
                g0.incoming(m)
            })
        } by {
            assert(g0.has_node(m));
        }
        assert forall|m: u32| #[trigger] g.has_node(m) implies g.outgoing(m).no_duplicates()
            && g.incoming(m).no_duplicates() by {
            assert(g0.has_node(m));
            assert(g0.outgoing(m).no_duplicates());
            assert(g0.incoming(m).no_duplicates());
        }
        assert forall|x: u32| #[trigger] g.has_edge(x) implies {
            &&& g.edges[x].id == x
            &&& g.has_node(g.source(x))
            &&& g.has_node(g.destination(x))
            &&& g.outgoing(g.source(x)).contains(x)
            &&& g.incoming(g.destination(x)).contains(x)
        } by {
            if x == e {
                assert(g.outgoing(a).last() == e);
                assert(g.incoming(b).last() == e);
            } else {
                assert(g0.has_edge(x));
                let s = g0.source(x);
                let d = g0.destination(x);
                assert(g0.has_node(s) && g0.has_node(d));
                assert(g.has_node(s) && g.has_node(d));
                let i = choose|i: int| 0 <= i < g0.outgoing(s).len() && g0.outgoing(s)[i] == x;
                assert(g.outgoing(s)[i] == x);
                let j = choose|j: int| 0 <= j < g0.incoming(d).len() && g0.incoming(d)[j] == x;
                assert(g.incoming(d)[j] == x);
            }
        }
        assert forall|m: u32, i: int|
            g.has_node(m) && 0 <= i < g.outgoing(m).len() implies g.has_edge(
            #[trigger] g.outgoing(m)[i],
        ) && g.source(g.outgoing(m)[i]) == m by {
            assert(g0.has_node(m));
            if i < g0.outgoing(m).len() {
                assert(g0.has_edge(g0.outgoing(m)[i]));
            }
        }
        assert forall|m: u32, i: int|
            g.has_node(m) && 0 <= i < g.incoming(m).len() implies g.has_edge(
            #[trigger] g.incoming(m)[i],
        ) && g.destination(g.incoming(m)[i]) == m by {
            assert(g0.has_node(m));
            if i < g0.incoming(m).len() {
                assert(g0.has_edge(g0.incoming(m)[i]));
            }
        }
    }
}

/// The graph store. It owns its nodes and edges by identifier; an edge names
/// its endpoints, and a node its edges, by identifier only.
pub struct Graph {
    nodes: HashMap<u32, Node>,
    edges: HashMap<u32, Edge>,
}

impl View for Graph {
    type V = GraphView;

    closed spec fn view(&self) -> GraphView {
        model(self.nodes@, self.edges@)
    }
}

/// The graph that two maps of stored entities stand for.
spec fn model(nodes: Map<u32, Node>, edges: Map<u32, Edge>) -> GraphView {
    GraphView { nodes: nodes.map_values(|n: Node| n@), edges }
}

impl Graph {
    #[verifier::type_invariant]
    spec fn inv(self) -> bool {
        self@.wf()
    }

    /// The empty store.
    pub fn new() -> (g: Graph)
        ensures
            g@ == GraphView::empty(),
    {
        let nodes: HashMap<u32, Node> = HashMap::new();
        let edges: HashMap<u32, Edge> = HashMap::new();
        assert(model(nodes@, edges@).nodes =~= Map::empty());
        Graph { nodes, edges }
    }

    /// Whether the store holds the node `id`.
    pub fn contains_node(&self, id: u32) -> (present: bool)
        ensures
            self@.wf(),
            present == self@.has_node(id),
    {
        broadcast use group_hash_axioms;

        proof {
            use_type_invariant(self);
        }
        self.nodes.contains_key(&id)
    }

    /// Whether the store holds the edge `id`.
    pub fn contains_edge(&self, id: u32) -> (present: bool)
        ensures
            self@.wf(),
            present == self@.has_edge(id),
    {
        broadcast use group_hash_axioms;

        proof {
            use_type_invariant(self);
        }
        self.edges.contains_key(&id)
    }

    /// The node stored under `id`.
    pub fn node(&self, id: u32) -> (found: Option<&Node>)
        ensures
            self@.wf(),
            match found {
                Some(node) => self@.has_node(id) && node@ == self@.nodes[id],
                None => !self@.has_node(id),
            },
    {
        broadcast use group_hash_axioms;

        proof {
            use_type_invariant(self);
        }
        self.nodes.get(&id)
    }

    /// The edge stored under `id`.
    pub fn edge(&self, id: u32) -> (found: Option<Edge>)
        ensures
            self@.wf(),
            match found {
                Some(edge) => self@.has_edge(id) && edge == self@.edges[id],
                None => !self@.has_edge(id),
            },
    {
        broadcast use group_hash_axioms;

        proof {
            use_type_invariant(self);
        }
        match self.edges.get(&id) {
            Some(edge) => Some(*edge),
            None => None,
        }
    }

    /// The number of nodes.
    pub fn node_count(&self) -> (count: usize)
        ensures
            count == self@.nodes.len(),
    {
        broadcast use group_hash_axioms;

        assert(self@.nodes.dom() =~= self.nodes@.dom());
        self.nodes.len()
    }

    /// The number of edges.
    pub fn edge_count(&self) -> (count: usize)
        ensures
            count == self@.edges.len(),
    {
        broadcast use group_hash_axioms;

        self.edges.len()
    }

    /// The store with the node `id`, created unless it is there already.
    pub fn add_node(self, id: u32) -> (g: Graph)
        ensures
            g@ == self@.with_node(id),
            g@.wf(),
    {
        broadcast use group_hash_axioms;

        proof {
            use_type_invariant(&self);
            self@.lemma_with_node_wf(id);
        }
        let ghost before = self@;
        let Graph { mut nodes, edges } = self;
        if !nodes.contains_key(&id) {
            nodes.insert(id, Node::new(id));
        }
        assert(model(nodes@, edges@).nodes =~= before.with_node(id).nodes);
        Graph { nodes, edges }
    }

    /// The store with the edge `a -> b` under the identifier `id`, its
    /// endpoints created where they are missing. An identifier that is in use
    /// keeps the edge it has: the store is then handed back unchanged.
    pub fn add_edge(self, a: u32, b: u32, id: u32) -> (g: Graph)
        ensures
            g@ == (if self@.has_edge(id) {
                self@
            } else {
                self@.with_edge(a, b, id)
            }),
            g@.wf(),
    {
        broadcast use group_hash_axioms;

        proof {
            use_type_invariant(&self);
        }
        if self.edges.contains_key(&id) {
            return self;
        }
        let ghost before = self@;
        proof {
            before.lemma_with_edge_wf(a, b, id);
        }
        let with_ends = self.add_node(a).add_node(b);
        let ghost g0 = with_ends@;
        let Graph { mut nodes, mut edges } = with_ends;
        let ghost n0 = nodes@;
        assert(g0.has_node(a) && g0.has_node(b));
        assert(n0.contains_key(a) && n0.contains_key(b));
        let mut from = nodes.remove(&a).unwrap();
        from.add_edge(id, true);
        nodes.insert(a, from);
        let ghost n1 = nodes@;
        assert(n1 =~= n0.insert(a, n1[a]));
        assert(n1[a]@ == (NodeView { starts: g0.nodes[a].starts.push(id), ..g0.nodes[a] }));
        let mut to = nodes.remove(&b).unwrap();
        to.add_edge(id, false);
        nodes.insert(b, to);
        let ghost n2 = nodes@;
        assert(n2 =~= n1.insert(b, n2[b]));
        assert(n2[b]@ == (NodeView { ends: n1[b]@.ends.push(id), ..n1[b]@ }));
        edges.insert(id, Edge::new(id, a, b));
        let ghost target = before.with_edge(a, b, id);
        assert forall|m: u32| #[trigger] target.nodes.contains_key(m) implies model(
            nodes@,
            edges@,
        ).nodes.contains_key(m) && model(nodes@, edges@).nodes[m] == target.nodes[m] by {
            assert(n0.contains_key(m));
            assert(g0.nodes[m] == n0[m]@);
        }
        assert(model(nodes@, edges@).nodes =~= before.with_edge(a, b, id).nodes);
        Graph { nodes, edges }
    }
}

} // verus!
