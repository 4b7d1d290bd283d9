//! A directed acyclic graph of [`NodeInstance`]s with port-level connections,
//! cycle rejection, dirty-flag propagation and topological ordering.

use std::collections::{HashMap, HashSet, VecDeque};

use petgraph::stable_graph::StableGraph;
use petgraph::Directed;
use vstd::prelude::*;

use crate::node::NodeInstance;
use crate::text::{decimal, text_around_number, text_of};
use crate::kahn::{
    freed, id_ordered, kahn_order, kahn_run, lemma_in_id_order_is, lemma_kahn_step, lists_in_id_order,
    out_edges, sources,
};
use crate::order::{sort_by_key, sorted_by_key};
use crate::paths::{
    acyclic, fed_from_within, lemma_fed_set_is_empty, pending_in, closed_under_edges, has_edge, lemma_acyclic_insert, lemma_acyclic_submap,
    lemma_closed_contains_reachable, lemma_reaches_refl, lemma_reaches_step, reaches, EdgeMap,
};
use crate::topology::{
    topo_add_edge, topo_add_node, topo_clear, topo_edge_count, topo_incoming, topo_new,
    topo_node_count, topo_node_indices, topo_node_weight, topo_outgoing, topo_remove_edge,
    topo_remove_node, topo_set_node_weight, topology_capacity, topology_edges, topology_nodes,
};

verus! {

broadcast use vstd::std_specs::hash::group_hash_axioms;

/// Why a connection was refused.
#[derive(Clone, Copy, Debug, PartialEq, Eq, Structural)]
pub enum GraphError {
    /// The source node id is not in the graph.
    SourceNotFound(u64),
    /// The target node id is not in the graph.
    TargetNotFound(u64),
    /// The edge would close a cycle (this includes self-loops).
    WouldCycle,
}

/// The message the toolkit reports for `e`: node ids in decimal.
pub open spec fn graph_error_text(e: GraphError) -> Seq<char> {
    match e {
        GraphError::SourceNotFound(id) => "Source node "@ + decimal(id as nat) + " not found"@,
        GraphError::TargetNotFound(id) => "Target node "@ + decimal(id as nat) + " not found"@,
        GraphError::WouldCycle => "Connection would create a cycle"@,
    }
}

impl GraphError {
    /// The message the toolkit reports for this error, such as
    /// `Source node 7 not found`.
    pub fn message(&self) -> (r: String)
        ensures
            r@ == graph_error_text(*self),
    {
        match self {
            GraphError::SourceNotFound(id) => text_around_number("Source node ", *id, " not found"),
            GraphError::TargetNotFound(id) => text_around_number("Target node ", *id, " not found"),
            GraphError::WouldCycle => text_of("Connection would create a cycle"),
        }
    }
}

/// Directed acyclic graph of node instances with connection tracking and
/// dirty-flag propagation.
pub struct NodeGraph {
    graph: StableGraph<NodeInstance, (usize, usize), Directed, u32>,
    id_to_index: HashMap<u64, usize>,
    next_id: u64,
}

/// `b` has the same ids and template names as `a`, on the same indices.
pub open spec fn same_records(a: Map<usize, NodeInstance>, b: Map<usize, NodeInstance>) -> bool {
    &&& a.dom() == b.dom()
    &&& forall|i: usize| #[trigger] a.contains_key(i) ==> b[i].id == a[i].id && b[i].template_name@ == a[i].template_name@
}

impl NodeGraph {
    /// Live nodes by graph index.
    pub closed spec fn nodes(&self) -> Map<usize, NodeInstance> {
        topology_nodes(self.graph)
    }

    /// Live connections by edge index: `(source index, target index, from_port, to_port)`.
    pub closed spec fn edges(&self) -> EdgeMap {
        topology_edges(self.graph)
    }

    /// Node id to graph index.
    pub closed spec fn index_of(&self) -> Map<u64, usize> {
        self.id_to_index@
    }

    /// The ids of the nodes in the graph.
    pub open spec fn ids(&self) -> Set<u64> {
        self.index_of().dom()
    }

    /// The id the next `add_node` hands out.
    pub closed spec fn next_id(&self) -> u64 {
        self.next_id
    }

    /// The instance stored for node `id`.
    pub open spec fn instance(&self, id: u64) -> NodeInstance {
        self.nodes()[self.index_of()[id]]
    }

    /// Node `a` reaches node `b` by following zero or more connections.
    pub open spec fn id_reaches(&self, a: u64, b: u64) -> bool {
        reaches(self.edges(), self.index_of()[a], self.index_of()[b])
    }

    /// The graph's invariant: ids and indices correspond one to one, every
    /// connection joins live nodes, ids are below `next_id`, and no
    /// connection closes a cycle.
    pub open spec fn wf(&self) -> bool {
        &&& self.nodes().dom().finite()
        &&& self.edges().dom().finite()
        &&& forall|id: u64| #[trigger] self.index_of().contains_key(id) ==> {
            &&& self.nodes().contains_key(self.index_of()[id])
            &&& self.nodes()[self.index_of()[id]].id == id
        }
        &&& forall|i: usize| #[trigger] self.nodes().contains_key(i) ==> {
            &&& self.index_of().contains_key(self.nodes()[i].id)
            &&& self.index_of()[self.nodes()[i].id] == i
            &&& self.nodes()[i].id < self.next_id()
            &&& i < topology_capacity()
        }
        &&& forall|e: usize| #[trigger] self.edges().contains_key(e) ==> {
            &&& self.nodes().contains_key(self.edges()[e].0)
            &&& self.nodes().contains_key(self.edges()[e].1)
        }
        &&& acyclic(self.edges())
    }

    /// There are as many ids as live nodes.
    pub proof fn lemma_id_count(&self)
        requires
            self.wf(),
        ensures
            self.ids().finite(),
            self.ids().len() == self.nodes().len(),
    {
        let x = self.nodes().dom();
        let f = |i: usize| self.nodes()[i].id;
        assert(vstd::relations::injective_on(f, x)) by {
            assert forall|i: usize, j: usize| x.contains(i) && x.contains(j) && #[trigger] f(i) == #[trigger] f(j) implies i == j by {
                assert(self.nodes().contains_key(i));
                assert(self.nodes().contains_key(j));
            }
        }
        assert(x.map(f) =~= self.ids()) by {
            assert forall|id: u64| #[trigger] self.ids().contains(id) implies x.map(f).contains(id) by {
                assert(self.index_of().contains_key(id));
                let i = self.index_of()[id];
                assert(x.contains(i) && f(i) == id);
            }
            assert forall|id: u64| #[trigger] x.map(f).contains(id) implies self.ids().contains(id) by {
                let i = choose|i: usize| x.contains(i) && f(i) == id;
                assert(self.nodes().contains_key(i));
            }
        }
        vstd::set_lib::lemma_map_size(x, self.ids(), f);
    }

    /// An empty graph.
    pub fn new() -> (g: NodeGraph)
        ensures
            g.wf(),
            g.nodes().is_empty(),
            g.edges().is_empty(),
            g.ids().is_empty(),
            g.next_id() == 1,
    {
        let g = NodeGraph { graph: topo_new(), id_to_index: HashMap::new(), next_id: 1 };
        proof {
            assert(g.nodes() =~= Map::empty());
            assert(g.edges() =~= Map::empty());
        }
        g
    }

    /// Add a new node instantiating `template_name`; it starts dirty.
    /// Returns its fresh id.
    pub fn add_node(&mut self, template_name: String) -> (id: u64)
        requires
            old(self).wf(),
            old(self).next_id() < u64::MAX,
            old(self).nodes().len() < topology_capacity(),
        ensures
            final(self).wf(),
            id == old(self).next_id(),
            final(self).next_id() == old(self).next_id() + 1,
            !old(self).ids().contains(id),
            final(self).ids() == old(self).ids().insert(id),
            final(self).index_of() == old(self).index_of().insert(id, final(self).index_of()[id]),
            !old(self).nodes().contains_key(final(self).index_of()[id]),
            final(self).nodes().remove(final(self).index_of()[id]) == old(self).nodes(),
            final(self).instance(id).id == id,
            final(self).instance(id).template_name@ == template_name@,
            final(self).instance(id).dirty,
            final(self).edges() == old(self).edges(),
    {
        let id = self.next_id;
        proof {
            if self.index_of().contains_key(id) {
                assert(self.nodes().contains_key(self.index_of()[id]));
            }
        }
        let instance = NodeInstance::new(id, template_name);
        let idx = topo_add_node(&mut self.graph, instance);
        self.id_to_index.insert(id, idx);
        self.next_id = id + 1;
        proof {
            assert(self.nodes().remove(idx) =~= old(self).nodes());
        }
        id
    }

    /// Remove a node and all its connections. Returns `true` if it existed.
    pub fn remove_node(&mut self, id: u64) -> (r: bool)
        requires
            old(self).wf(),
        ensures
            final(self).wf(),
            r == old(self).ids().contains(id),
            final(self).next_id() == old(self).next_id(),
            r ==> final(self).ids() == old(self).ids().remove(id),
            r ==> final(self).nodes() == old(self).nodes().remove(old(self).index_of()[id]),
            r ==> final(self).nodes().len() == old(self).nodes().len() - 1,
            r ==> final(self).edges() == Map::new(
                |e: usize| old(self).edges().contains_key(e)
                    && old(self).edges()[e].0 != old(self).index_of()[id]
                    && old(self).edges()[e].1 != old(self).index_of()[id],
                |e: usize| old(self).edges()[e],
            ),
            !r ==> final(self).nodes() == old(self).nodes() && final(self).edges() == old(self).edges()
                && final(self).index_of() == old(self).index_of(),
    {
        match self.id_to_index.remove(&id) {
            Some(idx) => {
                proof {
                    assert(old(self).index_of().contains_key(id));
                    assert(old(self).index_of()[id] == idx);
                }
                let ghost old_edges = self.edges();
                topo_remove_node(&mut self.graph, idx);
                proof {
                    assert(self.index_of() == old(self).index_of().remove(id));
                    assert forall|k: u64| #[trigger] self.index_of().contains_key(k) implies {
                        &&& self.nodes().contains_key(self.index_of()[k])
                        &&& self.nodes()[self.index_of()[k]].id == k
                    } by {
                        assert(old(self).index_of().contains_key(k));
                        assert(old(self).nodes().contains_key(old(self).index_of()[k]));
                    }
                    assert forall|i: usize| #[trigger] self.nodes().contains_key(i) implies {
                        &&& self.index_of().contains_key(self.nodes()[i].id)
                        &&& self.index_of()[self.nodes()[i].id] == i
                        &&& self.nodes()[i].id < self.next_id()
                    } by {
                        assert(old(self).nodes().contains_key(i));
                    }
                    assert forall|e: usize| #[trigger] self.edges().contains_key(e) implies {
                        &&& self.nodes().contains_key(self.edges()[e].0)
                        &&& self.nodes().contains_key(self.edges()[e].1)
                    } by {
                        assert(old_edges.contains_key(e));
                    }
                    assert(self.edges().submap_of(old_edges));
                    assert(self.edges().dom().subset_of(old_edges.dom()));
                    vstd::set_lib::lemma_len_subset(self.edges().dom(), old_edges.dom());
                    lemma_acyclic_submap(self.edges(), old_edges);
                }
                true
            },
            None => {
                proof {
                    assert(self.index_of() =~= old(self).index_of());
                }
                false
            },
        }
    }

    /// DFS reachability: can `from` reach `to` following directed edges?
    fn can_reach(&self, from: usize, to: usize) -> (r: bool)
        requires
            self.wf(),
            self.nodes().contains_key(from),
        ensures
            r == reaches(self.edges(), from, to),
    {
        let ghost edges = self.edges();
        let ghost dom = self.nodes().dom();
        let mut visited: HashSet<usize> = HashSet::new();
        let mut stack: Vec<usize> = Vec::new();
        stack.push(from);
        proof {
            assert(stack@[0] == from);
            lemma_reaches_refl(edges, from);
        }
        while stack.len() > 0
            invariant
                self.wf(),
                edges == self.edges(),
                dom == self.nodes().dom(),
                dom.finite(),
                visited@.subset_of(dom),
                forall|i: int| 0 <= i < stack.len() ==> dom.contains(#[trigger] stack[i]),
                forall|v: usize| #[trigger] visited@.contains(v) ==> reaches(edges, from, v),
                forall|i: int| 0 <= i < stack.len() ==> reaches(edges, from, #[trigger] stack[i]),
                !visited@.contains(to),
                visited@.contains(from) || stack@.contains(from),
                forall|e: usize| edges.contains_key(e) && #[trigger] visited@.contains(edges[e].0)
                    ==> visited@.contains(edges[e].1) || stack@.contains(edges[e].1),
            decreases dom.len() - visited@.len(), stack.len(),
        {
            let ghost s_before = stack@;
            let current = stack.pop().unwrap();
            proof {
                assert(s_before == stack@.push(current));
                assert(s_before[s_before.len() - 1] == current);
            }
            if current == to {
                return true;
            }
            let ghost visited_before = visited@;
            proof {
                vstd::set_lib::lemma_len_subset(visited@, dom);
            }
            if visited.insert(current) {
                proof {
                    vstd::set_lib::lemma_len_subset(visited@, dom);
                }
                let out = topo_outgoing(&self.graph, current);
                let ghost s0 = stack@;
                let mut k: usize = 0;
                while k < out.len()
                    invariant
                        self.wf(),
                        edges == self.edges(),
                        dom == self.nodes().dom(),
                        0 <= k <= out.len(),
                        stack@.len() == s0.len() + k,
                        forall|j: int| 0 <= j < s0.len() ==> stack@[j] == s0[j],
                        forall|j: int| 0 <= j < k ==> stack@[s0.len() + j] == #[trigger] out[j].1.1,
                        forall|i: int| 0 <= i < s0.len() ==> dom.contains(#[trigger] s0[i]),
                        forall|i: int| 0 <= i < s0.len() ==> reaches(edges, from, #[trigger] s0[i]),
                        reaches(edges, from, current),
                        forall|i: int| 0 <= i < out.len() ==> {
                            &&& edges.contains_key(#[trigger] out[i].0)
                            &&& edges[out[i].0] == out[i].1
                            &&& out[i].1.0 == current
                        },
                    decreases out.len() - k,
                {
                    let t = out[k].1.1;
                    proof {
                        assert(edges.contains_key(out[k as int].0));
                        assert(has_edge(edges, current, t));
                        lemma_reaches_step(edges, from, current, t);
                    }
                    stack.push(t);
                    k = k + 1;
                }
                proof {
                    assert forall|i: int| 0 <= i < stack.len() implies dom.contains(#[trigger] stack[i])
                        && reaches(edges, from, stack[i]) by {
                        if i >= s0.len() {
                            let j = i - s0.len();
                            assert(stack@[s0.len() + j] == out[j].1.1);
                            assert(edges.contains_key(out[j].0));
                            assert(has_edge(edges, current, out[j].1.1));
                            lemma_reaches_step(edges, from, current, out[j].1.1);
                        } else {
                            assert(stack@[i] == s0[i]);
                        }
                    }
                    assert forall|e: usize| edges.contains_key(e) && #[trigger] visited@.contains(edges[e].0)
                        implies visited@.contains(edges[e].1) || stack@.contains(edges[e].1) by {
                        if edges[e].0 == current {
                            let i = choose|i: int| 0 <= i < out.len() && #[trigger] out[i].0 == e;
                            assert(stack@[s0.len() + i] == out[i].1.1);
                        } else {
                            assert(visited_before.contains(edges[e].0));
                            if s_before.contains(edges[e].1) {
                                let i = choose|i: int| 0 <= i < s_before.len() && s_before[i] == edges[e].1;
                                if i < s0.len() {
                                    assert(stack@[i] == s0[i]);
                                }
                            }
                        }
                    }
                    if s_before.contains(from) && from != current {
                        let i = choose|i: int| 0 <= i < s_before.len() && s_before[i] == from;
                        assert(stack@[i] == s0[i]);
                    }
                }
            } else {
                proof {
                    assert forall|e: usize| edges.contains_key(e) && #[trigger] visited@.contains(edges[e].0)
                        implies visited@.contains(edges[e].1) || stack@.contains(edges[e].1) by {
                        if s_before.contains(edges[e].1) && edges[e].1 != current {
                            let i = choose|i: int| 0 <= i < s_before.len() && s_before[i] == edges[e].1;
                            assert(stack@[i] == s_before[i]);
                        }
                    }
                    if s_before.contains(from) && from != current {
                        let i = choose|i: int| 0 <= i < s_before.len() && s_before[i] == from;
                        assert(stack@[i] == s_before[i]);
                    }
                }
            }
        }
        proof {
            assert(closed_under_edges(edges, visited@));
            if reaches(edges, from, to) {
                lemma_closed_contains_reachable(edges, visited@, from, to);
            }
        }
        false
    }

    /// A graph that differs from a well-formed one only in dirty flags is
    /// well-formed.
    proof fn lemma_records_preserve_wf(a: &NodeGraph, b: &NodeGraph)
        requires
            a.wf(),
            b.edges() == a.edges(),
            b.index_of() == a.index_of(),
            b.next_id() == a.next_id(),
            same_records(a.nodes(), b.nodes()),
        ensures
            b.wf(),
    {
        assert forall|id: u64| #[trigger] b.index_of().contains_key(id) implies {
            &&& b.nodes().contains_key(b.index_of()[id])
            &&& b.nodes()[b.index_of()[id]].id == id
        } by {
            assert(a.index_of().contains_key(id));
            assert(a.nodes().contains_key(a.index_of()[id]));
        }
        assert forall|i: usize| #[trigger] b.nodes().contains_key(i) implies {
            &&& b.index_of().contains_key(b.nodes()[i].id)
            &&& b.index_of()[b.nodes()[i].id] == i
            &&& b.nodes()[i].id < b.next_id()
        } by {
            assert(a.nodes().contains_key(i));
        }
        assert forall|e: usize| #[trigger] b.edges().contains_key(e) implies {
            &&& b.nodes().contains_key(b.edges()[e].0)
            &&& b.nodes().contains_key(b.edges()[e].1)
        } by {
            assert(a.edges().contains_key(e));
        }
    }

    /// Set the dirty flag of the node at live index `idx`.
    fn set_dirty_at(&mut self, idx: usize, dirty: bool)
        requires
            old(self).wf(),
            old(self).nodes().contains_key(idx),
        ensures
            final(self).wf(),
            final(self).edges() == old(self).edges(),
            final(self).index_of() == old(self).index_of(),
            final(self).next_id() == old(self).next_id(),
            same_records(old(self).nodes(), final(self).nodes()),
            final(self).nodes()[idx].dirty == dirty,
            forall|i: usize| i != idx ==> #[trigger] final(self).nodes()[i] == old(self).nodes()[i],
    {
        match topo_node_weight(&self.graph, idx) {
            Some(w) => {
                let nw = w.with_dirty(dirty);
                topo_set_node_weight(&mut self.graph, idx, nw);
                proof {
                    assert(self.nodes().dom() =~= old(self).nodes().dom());
                    Self::lemma_records_preserve_wf(old(self), self);
                }
            },
            None => {},
        }
    }

    /// Mark a node and everything downstream of it dirty (breadth-first).
    /// Unknown ids change nothing.
    pub fn mark_dirty(&mut self, id: u64)
        requires
            old(self).wf(),
        ensures
            final(self).wf(),
            final(self).edges() == old(self).edges(),
            final(self).index_of() == old(self).index_of(),
            final(self).next_id() == old(self).next_id(),
            same_records(old(self).nodes(), final(self).nodes()),
            forall|i: usize| #[trigger] old(self).nodes().contains_key(i) ==> final(self).nodes()[i].dirty
                == (old(self).nodes()[i].dirty || (old(self).ids().contains(id)
                    && reaches(old(self).edges(), old(self).index_of()[id], i))),
    {
        let start = match self.id_to_index.get(&id) {
            Some(i) => *i,
            None => {
                return;
            },
        };
        let ghost edges = self.edges();
        let ghost nodes0 = self.nodes();
        let ghost dom = nodes0.dom();
        proof {
            assert(self.index_of().contains_key(id));
            assert(self.nodes().contains_key(start));
            lemma_reaches_refl(edges, start);
        }
        let mut queue: VecDeque<usize> = VecDeque::new();
        let mut visited: HashSet<usize> = HashSet::new();
        queue.push_back(start);
        visited.insert(start);
        let ghost mut processed: Set<usize> = Set::empty();
        proof {
            assert(queue@[0] == start);
        }
        while queue.len() > 0
            invariant
                self.wf(),
                self.edges() == edges,
                self.index_of() == old(self).index_of(),
                self.next_id() == old(self).next_id(),
                nodes0 == old(self).nodes(),
                edges == old(self).edges(),
                start == old(self).index_of()[id],
                same_records(nodes0, self.nodes()),
                dom == nodes0.dom(),
                dom.finite(),
                dom.contains(start),
                visited@.subset_of(dom),
                processed.subset_of(visited@),
                processed.finite(),
                forall|i: int| 0 <= i < queue@.len() ==> visited@.contains(#[trigger] queue@[i]) && !processed.contains(queue@[i]),
                forall|i: int, j: int| 0 <= i < j < queue@.len() ==> queue@[i] != queue@[j],
                forall|v: usize| #[trigger] visited@.contains(v) ==> processed.contains(v) || queue@.contains(v),
                forall|v: usize| #[trigger] visited@.contains(v) ==> reaches(edges, start, v),
                visited@.contains(start),
                forall|e: usize| edges.contains_key(e) && #[trigger] processed.contains(edges[e].0) ==> visited@.contains(edges[e].1),
                forall|i: usize| #[trigger] dom.contains(i) ==> self.nodes()[i].dirty == (nodes0[i].dirty || processed.contains(i)),
            decreases dom.len() - processed.len(),
        {
            let ghost q0 = queue@;
            let idx = queue.pop_front().unwrap();
            proof {
                assert(q0[0] == idx);
                assert(visited@.contains(idx));
                vstd::set_lib::lemma_len_subset(processed, dom);
            }
            let ghost nodes_before = self.nodes();
            self.set_dirty_at(idx, true);
            proof {
                processed = processed.insert(idx);
                vstd::set_lib::lemma_len_subset(processed, dom);
                assert forall|i: usize| #[trigger] dom.contains(i) implies self.nodes()[i].dirty == (nodes0[i].dirty || processed.contains(i)) by {
                    if i != idx {
                        assert(self.nodes()[i] == nodes_before[i]);
                    }
                }
                assert forall|i: int| 0 <= i < queue@.len() implies visited@.contains(#[trigger] queue@[i]) && !processed.contains(queue@[i]) by {
                    assert(queue@[i] == q0[i + 1]);
                    assert(q0[i + 1] != q0[0]);
                }
                assert forall|v: usize| #[trigger] visited@.contains(v) implies processed.contains(v) || queue@.contains(v) by {
                    if !processed.contains(v) {
                        assert(q0.contains(v));
                        let j = choose|j: int| 0 <= j < q0.len() && q0[j] == v;
                        assert(j != 0);
                        assert(queue@[j - 1] == v);
                    }
                }
                assert(same_records(nodes0, self.nodes()));
            }
            let out = topo_outgoing(&self.graph, idx);
            let mut k: usize = 0;
            while k < out.len()
                invariant
                    self.wf(),
                    self.edges() == edges,
                    self.index_of() == old(self).index_of(),
                    self.next_id() == old(self).next_id(),
                    nodes0 == old(self).nodes(),
                    edges == old(self).edges(),
                    start == old(self).index_of()[id],
                    same_records(nodes0, self.nodes()),
                    dom == nodes0.dom(),
                    dom.finite(),
                    dom.contains(start),
                    dom.contains(idx),
                    0 <= k <= out.len(),
                    processed.contains(idx),
                    visited@.subset_of(dom),
                    processed.subset_of(visited@),
                    processed.finite(),
                    forall|i: int| 0 <= i < queue@.len() ==> visited@.contains(#[trigger] queue@[i]) && !processed.contains(queue@[i]),
                    forall|i: int, j: int| 0 <= i < j < queue@.len() ==> queue@[i] != queue@[j],
                    forall|v: usize| #[trigger] visited@.contains(v) ==> processed.contains(v) || queue@.contains(v),
                    forall|v: usize| #[trigger] visited@.contains(v) ==> reaches(edges, start, v),
                    visited@.contains(start),
                    forall|e: usize| edges.contains_key(e) && #[trigger] processed.contains(edges[e].0) && edges[e].0 != idx ==> visited@.contains(edges[e].1),
                    forall|j: int| 0 <= j < k ==> visited@.contains(#[trigger] out[j].1.1),
                    forall|i: usize| #[trigger] dom.contains(i) ==> self.nodes()[i].dirty == (nodes0[i].dirty || processed.contains(i)),
                    forall|i: int| 0 <= i < out.len() ==> {
                        &&& edges.contains_key(#[trigger] out[i].0)
                        &&& edges[out[i].0] == out[i].1
                        &&& out[i].1.0 == idx
                    },
                decreases out.len() - k,
            {
                let nb = out[k].1.1;
                proof {
                    assert(edges.contains_key(out[k as int].0));
                    assert(has_edge(edges, idx, nb));
                    lemma_reaches_step(edges, start, idx, nb);
                    assert(dom.contains(nb));
                }
                let ghost qk = queue@;
                if visited.insert(nb) {
                    queue.push_back(nb);
                    proof {
                        assert(queue@[queue@.len() - 1] == nb);
                        assert forall|i: int| 0 <= i < queue@.len() implies visited@.contains(#[trigger] queue@[i]) && !processed.contains(queue@[i]) by {
                            if i < qk.len() {
                                assert(queue@[i] == qk[i]);
                            }
                        }
                        assert forall|i: int, j: int| 0 <= i < j < queue@.len() implies queue@[i] != queue@[j] by {
                            if j == queue@.len() - 1 {
                                assert(queue@[i] == qk[i]);
                                assert(visited@.contains(qk[i]));
                            } else {
                                assert(queue@[i] == qk[i]);
                                assert(queue@[j] == qk[j]);
                            }
                        }
                        assert forall|v: usize| #[trigger] visited@.contains(v) implies processed.contains(v) || queue@.contains(v) by {
                            if v != nb && !processed.contains(v) {
                                let j = choose|j: int| 0 <= j < qk.len() && qk[j] == v;
                                assert(queue@[j] == v);
                            }
                        }
                    }
                }
                k = k + 1;
            }
            proof {
                assert forall|e: usize| edges.contains_key(e) && #[trigger] processed.contains(edges[e].0) implies visited@.contains(edges[e].1) by {
                    if edges[e].0 == idx {
                        let j = choose|j: int| 0 <= j < out.len() && #[trigger] out[j].0 == e;
                    }
                }
            }
        }
        proof {
            assert forall|v: usize| #[trigger] visited@.contains(v) implies processed.contains(v) by {
                if !processed.contains(v) {
                    let j = choose|j: int| 0 <= j < queue@.len() && queue@[j] == v;
                }
            }
            assert(closed_under_edges(edges, processed));
            assert forall|i: usize| #[trigger] old(self).nodes().contains_key(i) implies self.nodes()[i].dirty
                == (old(self).nodes()[i].dirty || (old(self).ids().contains(id)
                    && reaches(old(self).edges(), old(self).index_of()[id], i))) by {
                assert(dom.contains(i));
                if reaches(edges, start, i) {
                    assert(processed.contains(start));
                    lemma_closed_contains_reachable(edges, processed, start, i);
                }
            }
        }
    }

    /// Connect output port `from_port` of `from_node` to input port
    /// `to_port` of `to_node`, then mark the target and its downstream dirty.
    /// Refused when either node is missing, or when the edge would close a
    /// cycle (the target already reaches the source, which includes
    /// `from_node == to_node`).
    pub fn connect(&mut self, from_node: u64, from_port: usize, to_node: u64, to_port: usize) -> (r: Result<(), GraphError>)
        requires
            old(self).wf(),
            old(self).edges().len() < topology_capacity(),
        ensures
            final(self).wf(),
            (r == Err::<(), GraphError>(GraphError::SourceNotFound(from_node))) == !old(self).ids().contains(from_node),
            (r == Err::<(), GraphError>(GraphError::TargetNotFound(to_node))) == (old(self).ids().contains(from_node)
                && !old(self).ids().contains(to_node)),
            (r == Err::<(), GraphError>(GraphError::WouldCycle)) == (old(self).ids().contains(from_node)
                && old(self).ids().contains(to_node) && old(self).id_reaches(to_node, from_node)),
            r.is_ok() == (old(self).ids().contains(from_node) && old(self).ids().contains(to_node)
                && !old(self).id_reaches(to_node, from_node)),
            r.is_err() ==> final(self).nodes() == old(self).nodes() && final(self).edges() == old(self).edges()
                && final(self).index_of() == old(self).index_of() && final(self).next_id() == old(self).next_id(),
            r.is_ok() ==> {
                &&& exists|e: usize| !old(self).edges().contains_key(e) && #[trigger] final(self).edges()
                    == old(self).edges().insert(e, (old(self).index_of()[from_node], old(self).index_of()[to_node], from_port, to_port))
                &&& final(self).index_of() == old(self).index_of()
                &&& final(self).next_id() == old(self).next_id()
                &&& same_records(old(self).nodes(), final(self).nodes())
                &&& forall|i: usize| #[trigger] old(self).nodes().contains_key(i) ==> final(self).nodes()[i].dirty
                    == (old(self).nodes()[i].dirty || reaches(final(self).edges(), old(self).index_of()[to_node], i))
            },
    {
        let from_idx = match self.id_to_index.get(&from_node) {
            Some(i) => *i,
            None => {
                return Err(GraphError::SourceNotFound(from_node));
            },
        };
        let to_idx = match self.id_to_index.get(&to_node) {
            Some(i) => *i,
            None => {
                return Err(GraphError::TargetNotFound(to_node));
            },
        };
        proof {
            assert(self.index_of().contains_key(from_node));
            assert(self.index_of().contains_key(to_node));
            assert(self.nodes().contains_key(to_idx));
        }
        if from_idx == to_idx {
            proof {
                lemma_reaches_refl(self.edges(), to_idx);
            }
            return Err(GraphError::WouldCycle);
        }
        if self.can_reach(to_idx, from_idx) {
            return Err(GraphError::WouldCycle);
        }
        let ghost edges0 = self.edges();
        let e = topo_add_edge(&mut self.graph, from_idx, to_idx, from_port, to_port);
        proof {
            lemma_acyclic_insert(edges0, e, from_idx, to_idx, from_port, to_port);
            assert forall|k: usize| #[trigger] self.edges().contains_key(k) implies {
                &&& self.nodes().contains_key(self.edges()[k].0)
                &&& self.nodes().contains_key(self.edges()[k].1)
            } by {
                if k != e {
                    assert(edges0.contains_key(k));
                }
            }
        }
        let ghost mid = self.edges();
        self.mark_dirty(to_node);
        proof {
            assert(!edges0.contains_key(e) && self.edges() == edges0.insert(e, (from_idx, to_idx, from_port, to_port)));
        }
        Ok(())
    }

    /// The instance stored for `id`, if the node exists.
    pub fn node(&self, id: u64) -> (r: Option<&NodeInstance>)
        requires
            self.wf(),
        ensures
            match r {
                Some(n) => self.ids().contains(id) && *n == self.instance(id),
                None => !self.ids().contains(id),
            },
    {
        match self.id_to_index.get(&id) {
            Some(i) => {
                proof {
                    assert(self.index_of().contains_key(id));
                    assert(self.nodes().contains_key(*i));
                }
                topo_node_weight(&self.graph, *i)
            },
            None => None,
        }
    }

    /// Set the dirty flag of node `id` alone (no propagation). Returns
    /// `false`, changing nothing, if the node does not exist.
    pub fn set_dirty(&mut self, id: u64, dirty: bool) -> (r: bool)
        requires
            old(self).wf(),
        ensures
            final(self).wf(),
            r == old(self).ids().contains(id),
            final(self).edges() == old(self).edges(),
            final(self).index_of() == old(self).index_of(),
            final(self).next_id() == old(self).next_id(),
            same_records(old(self).nodes(), final(self).nodes()),
            r ==> final(self).instance(id).dirty == dirty,
            forall|i: usize| i != old(self).index_of()[id] ==> #[trigger] final(self).nodes()[i] == old(self).nodes()[i],
            !r ==> final(self).nodes() == old(self).nodes(),
    {
        match self.id_to_index.get(&id) {
            Some(i) => {
                let idx = *i;
                proof {
                    assert(self.index_of().contains_key(id));
                    assert(self.nodes().contains_key(idx));
                }
                self.set_dirty_at(idx, dirty);
                true
            },
            None => {
                proof {
                    assert(self.nodes() =~= old(self).nodes());
                }
                false
            },
        }
    }

    /// `r` holds the nodes at graph indices `ix`, which are all the live
    /// indices in increasing order.
    pub open spec fn lists_nodes_at(&self, r: Seq<&NodeInstance>, ix: Seq<usize>) -> bool {
        &&& ix.len() == r.len()
        &&& forall|i: int, j: int| 0 <= i < j < ix.len() ==> ix[i] < ix[j]
        &&& forall|k: usize| #[trigger] ix.contains(k) <==> self.nodes().contains_key(k)
        &&& forall|i: int| 0 <= i < ix.len() ==> *r[i] == self.nodes()[#[trigger] ix[i]]
    }

    /// Every node, in increasing graph-index order.
    pub fn all_nodes(&self) -> (r: Vec<&NodeInstance>)
        requires
            self.wf(),
        ensures
            exists|ix: Seq<usize>| #[trigger] self.lists_nodes_at(r@, ix),
    {
        let indices = topo_node_indices(&self.graph);
        let mut r: Vec<&NodeInstance> = Vec::new();
        let mut k: usize = 0;
        while k < indices.len()
            invariant
                self.wf(),
                0 <= k <= indices.len(),
                r@.len() == k,
                forall|i: int| 0 <= i < indices.len() ==> self.nodes().contains_key(#[trigger] indices[i]),
                forall|i: int| 0 <= i < k ==> *r@[i] == self.nodes()[#[trigger] indices[i]],
            decreases indices.len() - k,
        {
            let w = topo_node_weight(&self.graph, indices[k]).unwrap();
            r.push(w);
            k = k + 1;
        }
        proof {
            assert forall|x: usize| #[trigger] indices@.contains(x) <==> self.nodes().contains_key(x) by {
                if indices@.contains(x) {
                    let i = choose|i: int| 0 <= i < indices.len() && indices[i] == x;
                }
            }
            assert(self.lists_nodes_at(r@, indices@));
        }
        r
    }

    /// Number of nodes.
    pub fn node_count(&self) -> (n: usize)
        requires
            self.wf(),
        ensures
            n == self.nodes().len(),
    {
        topo_node_count(&self.graph)
    }

    /// Number of connections.
    pub fn connection_count(&self) -> (n: usize)
        requires
            self.wf(),
        ensures
            n == self.edges().len(),
    {
        topo_edge_count(&self.graph)
    }

    /// Remove every node and connection. Ids keep counting up, so ids handed
    /// out before are never reused.
    pub fn clear(&mut self)
        requires
            old(self).wf(),
        ensures
            final(self).wf(),
            final(self).nodes().is_empty(),
            final(self).edges().is_empty(),
            final(self).ids().is_empty(),
            final(self).next_id() == old(self).next_id(),
    {
        topo_clear(&mut self.graph);
        self.id_to_index.clear();
        proof {
            assert(self.nodes() =~= Map::empty());
            assert(self.edges() =~= Map::empty());
        }
    }

    /// The id of the node at index `i`.
    pub open spec fn id_at(&self, i: usize) -> u64 {
        self.nodes()[i].id
    }

    /// Every connection's source id appears before its target id in `r`.
    pub open spec fn respects_edges(&self, r: Seq<u64>) -> bool {
        forall|e: usize, i: int, j: int|
            #![trigger self.edges()[e], r[i], r[j]]
            self.edges().contains_key(e) && 0 <= i < r.len() && 0 <= j < r.len()
                && r[i] == self.id_at(self.edges()[e].0) && r[j] == self.id_at(self.edges()[e].1) ==> i < j
    }

    /// `incoming` (as the wrapper describes it) counts the edges into `v`.
    proof fn lemma_incoming_count(edges: EdgeMap, v: usize, incoming: Seq<(usize, (usize, usize, usize, usize))>)
        requires
            edges.dom().finite(),
            forall|i: int| 0 <= i < incoming.len() ==> {
                &&& edges.contains_key(#[trigger] incoming[i].0)
                &&& edges[incoming[i].0] == incoming[i].1
                &&& incoming[i].1.1 == v
            },
            forall|e: usize| edges.contains_key(e) && edges[e].1 == v
                ==> exists|i: int| 0 <= i < incoming.len() && #[trigger] incoming[i].0 == e,
            forall|i: int, j: int| 0 <= i < j < incoming.len() ==> incoming[i].0 != incoming[j].0,
        ensures
            pending_in(edges, v, Set::empty()).len() == incoming.len(),
            pending_in(edges, v, Set::empty()).finite(),
    {
        let ids = incoming.map_values(|x: (usize, (usize, usize, usize, usize))| x.0);
        assert forall|i: int, j: int| 0 <= i < ids.len() && 0 <= j < ids.len() && i != j implies ids[i] != ids[j] by {
            if i < j {
                assert(incoming[i].0 != incoming[j].0);
            } else {
                assert(incoming[j].0 != incoming[i].0);
            }
        }
        ids.unique_seq_to_set();
        assert forall|e: usize| #[trigger] ids.to_set().contains(e) == pending_in(edges, v, Set::empty()).contains(e) by {
            if pending_in(edges, v, Set::empty()).contains(e) {
                let i = choose|i: int| 0 <= i < incoming.len() && #[trigger] incoming[i].0 == e;
                assert(ids[i] == e);
            }
            if ids.to_set().contains(e) {
                let i = choose|i: int| 0 <= i < ids.len() && ids[i] == e;
                assert(incoming[i].0 == e);
            }
        }
        assert(ids.to_set() =~= pending_in(edges, v, Set::empty()));
    }

    /// Removing one more pending edge lowers the pending count by one.
    proof fn lemma_pending_remove(edges: EdgeMap, v: usize, removed: Set<usize>, e: usize)
        requires
            edges.dom().finite(),
            pending_in(edges, v, removed).contains(e),
        ensures
            pending_in(edges, v, removed.insert(e)) == pending_in(edges, v, removed).remove(e),
            pending_in(edges, v, removed.insert(e)).len() + 1 == pending_in(edges, v, removed).len(),
    {
        assert(pending_in(edges, v, removed.insert(e)) =~= pending_in(edges, v, removed).remove(e));
    }

    /// Each node's id, by graph index.
    pub open spec fn node_ids(&self) -> Map<usize, u64> {
        self.nodes().map_values(|n: NodeInstance| n.id)
    }

    /// The ids of the nodes in the order Kahn's algorithm with id
    /// tie-breaking visits them.
    pub open spec fn kahn_ids(&self) -> Seq<u64> {
        kahn_order(self.edges(), self.node_ids(), self.nodes().dom()).map_values(|i: usize| self.nodes()[i].id)
    }

    /// All node ids in a valid topological evaluation order (Kahn's
    /// algorithm; ties are broken by ascending id).
    pub fn topological_order(&self) -> (r: Vec<u64>)
        requires
            self.wf(),
        ensures
            forall|i: int, j: int| 0 <= i < j < r.len() ==> r[i] != r[j],
            forall|i: int| 0 <= i < r.len() ==> self.ids().contains(#[trigger] r[i]),
            forall|id: u64| #[trigger] self.ids().contains(id) ==> r@.contains(id),
            r.len() == self.nodes().len(),
            self.respects_edges(r@),
            r@ == self.kahn_ids(),
    {
        let ghost edges = self.edges();
        let ghost nodes = self.nodes();
        let ghost dom = nodes.dom();
        let indices = topo_node_indices(&self.graph);
        let mut in_degree: HashMap<usize, usize> = HashMap::new();
        let mut k: usize = 0;
        while k < indices.len()
            invariant
                self.wf(),
                edges == self.edges(),
                nodes == self.nodes(),
                dom == nodes.dom(),
                0 <= k <= indices.len(),
                forall|i: int| 0 <= i < indices.len() ==> dom.contains(#[trigger] indices[i]),
                forall|i: int, j: int| 0 <= i < j < indices.len() ==> indices[i] < indices[j],
                forall|v: usize| #[trigger] in_degree@.contains_key(v) <==> exists|i: int| 0 <= i < k && indices[i] == v,
                forall|v: usize| #[trigger] in_degree@.contains_key(v) ==> in_degree@[v] == pending_in(edges, v, Set::empty()).len(),
            decreases indices.len() - k,
        {
            let v = indices[k];
            let inc = topo_incoming(&self.graph, v);
            proof {
                Self::lemma_incoming_count(edges, v, inc@);
            }
            in_degree.insert(v, inc.len());
            proof {
                assert forall|w: usize| #[trigger] in_degree@.contains_key(w) <==> exists|i: int| 0 <= i < k + 1 && indices[i] == w by {
                    if w == v {
                        assert(indices[k as int] == v);
                    }
                }
            }
            k = k + 1;
        }
        let ghost empty_removed: Set<usize> = Set::empty();
        proof {
            assert forall|v: usize| #[trigger] in_degree@.contains_key(v) <==> dom.contains(v) by {
                if dom.contains(v) {
                    assert(indices@.contains(v));
                }
            }
        }
        // Start from the nodes without incoming connections, in id order.
        let mut zero: Vec<(u64, usize)> = Vec::new();
        let mut k: usize = 0;
        while k < indices.len()
            invariant
                self.wf(),
                edges == self.edges(),
                nodes == self.nodes(),
                dom == nodes.dom(),
                0 <= k <= indices.len(),
                forall|i: int| 0 <= i < indices.len() ==> dom.contains(#[trigger] indices[i]),
                forall|i: int, j: int| 0 <= i < j < indices.len() ==> indices[i] < indices[j],
                forall|v: usize| #[trigger] in_degree@.contains_key(v) <==> dom.contains(v),
                forall|v: usize| #[trigger] in_degree@.contains_key(v) ==> in_degree@[v] == pending_in(edges, v, Set::empty()).len(),
                forall|i: int| 0 <= i < zero.len() ==> dom.contains(#[trigger] zero[i].1) && zero[i].0 == nodes[zero[i].1].id
                    && pending_in(edges, zero[i].1, Set::empty()).len() == 0,
                forall|i: int| 0 <= i < zero.len() ==> exists|j: int| 0 <= j < k && indices[j] == #[trigger] zero[i].1,
                forall|i: int, j: int| 0 <= i < j < zero.len() ==> zero[i].1 < zero[j].1,
                forall|j: int| 0 <= j < k && pending_in(edges, #[trigger] indices[j], Set::empty()).len() == 0
                    ==> exists|i: int| 0 <= i < zero.len() && zero[i].1 == indices[j],
            decreases indices.len() - k,
        {
            let v = indices[k];
            let ghost z0 = zero@;
            proof {
                assert(in_degree@.contains_key(v));
            }
            let d = *in_degree.get(&v).unwrap();
            if d == 0 {
                let id = topo_node_weight(&self.graph, v).unwrap().id;
                zero.push((id, v));
            }
            proof {
                assert forall|j: int| 0 <= j < k + 1 && pending_in(edges, #[trigger] indices[j], Set::empty()).len() == 0
                    implies exists|i: int| 0 <= i < zero.len() && zero[i].1 == indices[j] by {
                    if j == k {
                        assert(zero[zero.len() - 1].1 == v);
                    } else {
                        let i = choose|i: int| 0 <= i < z0.len() && z0[i].1 == indices[j];
                        assert(zero[i] == z0[i]);
                    }
                }
                assert forall|i: int, i2: int| 0 <= i < i2 < zero.len() implies zero[i].1 < zero[i2].1 by {
                    if i2 == z0.len() {
                        let j = choose|j: int| 0 <= j < k && indices[j] == #[trigger] z0[i].1;
                        assert(zero[i] == z0[i]);
                        assert(indices[j] < indices[k as int]);
                    } else {
                        assert(zero[i] == z0[i] && zero[i2] == z0[i2]);
                    }
                }
                assert forall|i: int| 0 <= i < zero.len() implies exists|j: int| 0 <= j < k + 1 && indices[j] == #[trigger] zero[i].1 by {
                    if i == z0.len() {
                        assert(indices[k as int] == zero[i].1);
                    } else {
                        assert(zero[i] == z0[i]);
                    }
                }
            }
            k = k + 1;
        }
        let sorted = sort_by_key(&zero);
        let mut queue: VecDeque<usize> = VecDeque::new();
        let mut k: usize = 0;
        while k < sorted.len()
            invariant
                0 <= k <= sorted.len(),
                queue@.len() == k,
                forall|i: int| 0 <= i < k ==> queue@[i] == #[trigger] sorted[i].1,
            decreases sorted.len() - k,
        {
            queue.push_back(sorted[k].1);
            k = k + 1;
        }
        proof {
            broadcast use vstd::seq_lib::group_to_multiset_ensures;
            // queue entries are exactly the zero-in-degree nodes, once each
            assert forall|i: int| 0 <= i < queue@.len() implies dom.contains(#[trigger] queue@[i])
                && pending_in(edges, queue@[i], empty_removed).len() == 0 by {
                assert(sorted@.contains(sorted[i]));
                assert(sorted@.to_multiset().count(sorted[i]) > 0);
                assert(zero@.contains(sorted[i]));
                let a = choose|a: int| 0 <= a < zero@.len() && zero@[a] == sorted[i];
                assert(zero[a].1 == queue@[i]);
            }
            assert(zero@.no_duplicates()) by {
                assert forall|i: int, j: int| 0 <= i < zero.len() && 0 <= j < zero.len() && i != j implies zero[i] != zero[j] by {
                    if i < j { assert(zero[i].1 < zero[j].1); } else { assert(zero[j].1 < zero[i].1); }
                }
            }
        }
        proof {
            broadcast use vstd::seq_lib::group_to_multiset_ensures;
            assert forall|v: usize| dom.contains(v) && pending_in(edges, v, empty_removed).len() == 0 implies #[trigger] queue@.contains(v) by {
                assert(in_degree@.contains_key(v));
                let j = choose|j: int| 0 <= j < indices.len() && indices[j] == v;
                assert(pending_in(edges, indices[j], Set::empty()).len() == 0);
                let i = choose|i: int| 0 <= i < zero.len() && zero[i].1 == indices[j];
                assert(zero@.contains(zero[i]));
                assert(zero@.to_multiset().count(zero[i]) > 0);
                assert(sorted@.contains(zero[i]));
                let m = choose|m: int| 0 <= m < sorted.len() && sorted[m] == zero[i];
                assert(queue@[m] == v);
            }
            zero@.lemma_multiset_has_no_duplicates();
            sorted@.lemma_multiset_has_no_duplicates_conv();
            assert forall|i: int, j: int| 0 <= i < j < queue@.len() implies queue@[i] != queue@[j] by {
                assert(sorted[i] != sorted[j]);
                assert(sorted@.contains(sorted[i]) && sorted@.contains(sorted[j]));
                assert(sorted@.to_multiset().count(sorted[i]) > 0);
                assert(sorted@.to_multiset().count(sorted[j]) > 0);
                let a = choose|a: int| 0 <= a < zero.len() && zero[a] == sorted[i];
                let b = choose|b: int| 0 <= b < zero.len() && zero[b] == sorted[j];
                if a < b {
                    assert(zero[a].1 < zero[b].1);
                } else if b < a {
                    assert(zero[b].1 < zero[a].1);
                }
            }
            assert forall|e: usize| #[trigger] empty_removed.contains(e) <==> (edges.contains_key(e) && Seq::<usize>::empty().contains(edges[e].0)) by {}
            assert forall|v: usize| dom.contains(v) implies #[trigger] in_degree@[v] == pending_in(edges, v, empty_removed).len() by {
                assert(in_degree@.contains_key(v));
            }
        }
        let ghost ids = self.node_ids();
        proof {
            broadcast use vstd::seq_lib::group_to_multiset_ensures;
            assert forall|i: int, j: int| 0 <= i < j < queue@.len() implies ids[queue@[i]] < ids[queue@[j]] by {
                assert(sorted@.contains(sorted[i]) && sorted@.contains(sorted[j]));
                assert(sorted@.to_multiset().count(sorted[i]) > 0);
                assert(sorted@.to_multiset().count(sorted[j]) > 0);
                let a = choose|a: int| 0 <= a < zero.len() && zero[a] == sorted[i];
                let b = choose|b: int| 0 <= b < zero.len() && zero[b] == sorted[j];
                assert(sorted[i].0 <= sorted[j].0);
                assert(queue@[i] != queue@[j]);
                assert(dom.contains(queue@[i]) && dom.contains(queue@[j]));
                assert(self.index_of()[nodes[queue@[i]].id] == queue@[i]);
                assert(self.index_of()[nodes[queue@[j]].id] == queue@[j]);
            }
            assert(id_ordered(queue@, ids));
            assert forall|x: usize| #[trigger] queue@.contains(x) <==> sources(edges, dom).contains(x) by {
                if queue@.contains(x) {
                    let i = choose|i: int| 0 <= i < queue@.len() && queue@[i] == x;
                    assert(dom.contains(queue@[i]) && pending_in(edges, queue@[i], empty_removed).len() == 0);
                    assert(empty_removed == Set::<usize>::empty());
                }
                if sources(edges, dom).contains(x) {
                    assert(empty_removed == Set::<usize>::empty());
                    assert(dom.contains(x) && pending_in(edges, x, empty_removed).len() == 0);
                }
            }
            lemma_in_id_order_is(queue@, sources(edges, dom), ids);
        }
        let mut result: Vec<u64> = Vec::new();
        let ghost mut done: Seq<usize> = Seq::empty();
        let ghost mut removed: Set<usize> = Set::empty();
        let ghost target = kahn_order(edges, ids, dom);
        while queue.len() > 0
            invariant
                kahn_run(edges, ids, dom, queue@, done, removed) == target,
                ids == self.node_ids(),
                self.wf(),
                edges == self.edges(),
                nodes == self.nodes(),
                dom == nodes.dom(),
                dom.finite(),
                edges.dom().finite(),
                done.no_duplicates(),
                forall|i: int| 0 <= i < done.len() ==> dom.contains(#[trigger] done[i]),
                result@.len() == done.len(),
                forall|i: int| 0 <= i < done.len() ==> result@[i] == nodes[#[trigger] done[i]].id,
                forall|e: usize| #[trigger] removed.contains(e) <==> (edges.contains_key(e) && done.contains(edges[e].0)),
                forall|v: usize| #[trigger] in_degree@.contains_key(v) <==> dom.contains(v),
                forall|v: usize| dom.contains(v) && !done.contains(v) ==> #[trigger] in_degree@[v] == pending_in(edges, v, removed).len(),
                forall|i: int| 0 <= i < queue@.len() ==> dom.contains(#[trigger] queue@[i]) && !done.contains(queue@[i])
                    && pending_in(edges, queue@[i], removed).len() == 0,
                forall|i: int, j: int| 0 <= i < j < queue@.len() ==> queue@[i] != queue@[j],
                forall|v: usize| dom.contains(v) && !done.contains(v) && pending_in(edges, v, removed).len() == 0
                    ==> #[trigger] queue@.contains(v),
                forall|e: usize| #[trigger] edges.contains_key(e) && done.contains(edges[e].1) ==> done.contains(edges[e].0),
                forall|e: usize, i: int, j: int|
                    #![trigger edges[e], done[i], done[j]]
                    edges.contains_key(e) && 0 <= i < done.len() && 0 <= j < done.len()
                        && done[i] == edges[e].0 && done[j] == edges[e].1 ==> i < j,
            decreases dom.len() - done.len(),
        {
            let ghost q0 = queue@;
            let ghost done0 = done;
            let ghost removed0 = removed;
            let v = queue.pop_front().unwrap();
            let id = topo_node_weight(&self.graph, v).unwrap().id;
            result.push(id);
            proof {
                assert(q0[0] == v);
                assert(dom.contains(v) && !done0.contains(v) && pending_in(edges, v, removed0).len() == 0);
                done = done0.push(v);
                assert(done.no_duplicates()) by {
                    assert forall|i: int, j: int| 0 <= i < done.len() && 0 <= j < done.len() && i != j implies done[i] != done[j] by {
                        if i < done0.len() && j < done0.len() {
                            assert(done[i] == done0[i] && done[j] == done0[j]);
                        } else if i < done0.len() {
                            assert(done0.contains(done0[i]));
                        } else {
                            assert(done0.contains(done0[j]));
                        }
                    }
                }
                done.unique_seq_to_set();
                assert(done.to_set().subset_of(dom));
                vstd::set_lib::lemma_len_subset(done.to_set(), dom);
                // every edge into v is already removed, so its source is done
                assert forall|e: usize| #[trigger] edges.contains_key(e) && done.contains(edges[e].1) implies done.contains(edges[e].0) by {
                    if edges[e].1 == v {
                        if !removed0.contains(e) {
                            assert(pending_in(edges, v, removed0).contains(e));
                        }
                        assert(done0.contains(edges[e].0));
                        let i = choose|i: int| 0 <= i < done0.len() && done0[i] == edges[e].0;
                        assert(done[i] == edges[e].0);
                    } else {
                        let j = choose|j: int| 0 <= j < done.len() && done[j] == edges[e].1;
                        assert(j < done0.len());
                        assert(done0.contains(edges[e].1));
                        let i = choose|i: int| 0 <= i < done0.len() && done0[i] == edges[e].0;
                        assert(done[i] == edges[e].0);
                    }
                }
                assert forall|e: usize, i: int, j: int|
                    #![trigger edges[e], done[i], done[j]]
                    edges.contains_key(e) && 0 <= i < done.len() && 0 <= j < done.len()
                        && done[i] == edges[e].0 && done[j] == edges[e].1 implies i < j by {
                    if i == done0.len() {
                        if j == done0.len() {
                            assert(has_edge(edges, v, v));
                            lemma_reaches_refl(edges, v);
                        } else {
                            assert(done0[j] == edges[e].1);
                            assert(done0.contains(edges[e].1));
                            assert(done0.contains(edges[e].0));
                        }
                    } else if j < done0.len() {
                        assert(done0[i] == edges[e].0 && done0[j] == edges[e].1);
                    }
                }
                assert forall|i: int| 0 <= i < queue@.len() implies dom.contains(#[trigger] queue@[i]) && !done.contains(queue@[i])
                    && pending_in(edges, queue@[i], removed).len() == 0 by {
                    assert(queue@[i] == q0[i + 1]);
                    assert(q0[i + 1] != q0[0]);
                }
                assert forall|w: usize| dom.contains(w) && !done.contains(w) && pending_in(edges, w, removed).len() == 0
                    implies #[trigger] queue@.contains(w) by {
                    if done0.contains(w) {
                        let i = choose|i: int| 0 <= i < done0.len() && done0[i] == w;
                        assert(done[i] == w);
                    }
                    assert(done[done0.len() as int] == v);
                    assert(!done0.contains(w));
                    assert(q0.contains(w));
                    let m = choose|m: int| 0 <= m < q0.len() && q0[m] == w;
                    assert(m != 0);
                    assert(queue@[m - 1] == w);
                }
            }
            let out = topo_outgoing(&self.graph, v);
            let mut keyed: Vec<(u64, (usize, usize))> = Vec::new();
            let mut k: usize = 0;
            while k < out.len()
                invariant
                    self.wf(),
                    edges == self.edges(),
                    nodes == self.nodes(),
                    0 <= k <= out.len(),
                    keyed.len() == k,
                    forall|i: int| 0 <= i < k ==> #[trigger] keyed[i] == (nodes[out[i].1.1].id, (out[i].0, out[i].1.1)),
                    forall|i: int| 0 <= i < out.len() ==> {
                        &&& edges.contains_key(#[trigger] out[i].0)
                        &&& edges[out[i].0] == out[i].1
                        &&& out[i].1.0 == v
                    },
                decreases out.len() - k,
            {
                let t = out[k].1.1;
                proof {
                    assert(edges.contains_key(out[k as int].0));
                    assert(nodes.contains_key(t));
                }
                let tid = topo_node_weight(&self.graph, t).unwrap().id;
                keyed.push((tid, (out[k].0, t)));
                k = k + 1;
            }
            let nb = sort_by_key(&keyed);
            proof {
                broadcast use vstd::seq_lib::group_to_multiset_ensures;
                assert(keyed@.no_duplicates()) by {
                    assert forall|i: int, j: int| 0 <= i < keyed.len() && 0 <= j < keyed.len() && i != j implies keyed[i] != keyed[j] by {
                        if i < j { assert(out[i].0 != out[j].0); } else { assert(out[j].0 != out[i].0); }
                    }
                }
                keyed@.lemma_multiset_has_no_duplicates();
                nb@.lemma_multiset_has_no_duplicates_conv();
                assert forall|i: int| 0 <= i < nb.len() implies keyed@.contains(#[trigger] nb[i]) by {
                    assert(nb@.contains(nb[i]));
                    assert(nb@.to_multiset().count(nb[i]) > 0);
                }
                assert forall|w: usize| dom.contains(w) && !done.contains(w) implies #[trigger] in_degree@[w] == pending_in(edges, w, removed).len() by {
                    if done0.contains(w) {
                        let i = choose|i: int| 0 <= i < done0.len() && done0[i] == w;
                        assert(done[i] == w);
                    }
                }
            }
            let ghost rest = queue@;
            let ghost mut pushed: Seq<usize> = Seq::empty();
            proof {
                broadcast use vstd::seq_lib::group_to_multiset_ensures;
                assert(rest + pushed =~= queue@);
                assert forall|j: int| 0 <= j < nb.len() implies #[trigger] nb[j].0 == ids[nb[j].1.1] && dom.contains(nb[j].1.1) by {
                    assert(keyed@.contains(nb[j]));
                    let a = choose|a: int| 0 <= a < keyed@.len() && keyed@[a] == nb[j];
                    assert(edges.contains_key(out[a].0));
                }
            }
            let mut k: usize = 0;
            while k < nb.len()
                invariant
                    ids == self.node_ids(),
                    queue@ == rest + pushed,
                    sorted_by_key(nb@),
                    forall|j: int| 0 <= j < nb.len() ==> #[trigger] nb[j].0 == ids[nb[j].1.1] && dom.contains(nb[j].1.1),
                    id_ordered(pushed, ids),
                    forall|i: int, j: int| 0 <= i < pushed.len() && k <= j < nb.len() ==> ids[#[trigger] pushed[i]] <= #[trigger] nb[j].0,
                    forall|x: usize| #[trigger] pushed.contains(x) <==> ((exists|j: int| 0 <= j < k && nb[j].1.1 == x)
                        && pending_in(edges, x, removed).len() == 0),
                    self.wf(),
                    edges == self.edges(),
                    nodes == self.nodes(),
                    dom == nodes.dom(),
                    dom.finite(),
                    edges.dom().finite(),
                    0 <= k <= nb.len(),
                    keyed.len() == out.len(),
                    done == done0.push(v),
                    !done0.contains(v),
                    dom.contains(v),
                    done.no_duplicates(),
                    forall|i: int| 0 <= i < keyed.len() ==> #[trigger] keyed[i] == (nodes[out[i].1.1].id, (out[i].0, out[i].1.1)),
                    forall|i: int| 0 <= i < out.len() ==> {
                        &&& edges.contains_key(#[trigger] out[i].0)
                        &&& edges[out[i].0] == out[i].1
                        &&& out[i].1.0 == v
                    },
                    forall|i: int, j: int| 0 <= i < j < out.len() ==> out[i].0 != out[j].0,
                    nb@.no_duplicates(),
                    forall|i: int| 0 <= i < nb.len() ==> keyed@.contains(#[trigger] nb[i]),
                    forall|x: usize| #[trigger] edges.contains_key(x) && done0.contains(edges[x].1) ==> done0.contains(edges[x].0),
                    forall|e: usize| #[trigger] removed.contains(e) <==> ((edges.contains_key(e) && done0.contains(edges[e].0))
                        || exists|i: int| 0 <= i < k && nb[i].1.0 == e),
                    forall|w: usize| #[trigger] in_degree@.contains_key(w) <==> dom.contains(w),
                    forall|w: usize| dom.contains(w) && !done.contains(w) ==> #[trigger] in_degree@[w] == pending_in(edges, w, removed).len(),
                    forall|i: int| 0 <= i < queue@.len() ==> dom.contains(#[trigger] queue@[i]) && !done.contains(queue@[i])
                        && pending_in(edges, queue@[i], removed).len() == 0,
                    forall|i: int, j: int| 0 <= i < j < queue@.len() ==> queue@[i] != queue@[j],
                    forall|w: usize| dom.contains(w) && !done.contains(w) && pending_in(edges, w, removed).len() == 0
                        ==> #[trigger] queue@.contains(w),
                    forall|e: usize| #[trigger] edges.contains_key(e) && done.contains(edges[e].1) ==> done.contains(edges[e].0),
                decreases nb.len() - k,
            {
                let t = nb[k].1.1;
                let ghost e = nb[k as int].1.0;
                let ghost rk = removed;
                let ghost qk = queue@;
                proof {
                    assert(keyed@.contains(nb[k as int]));
                    let a = choose|a: int| 0 <= a < keyed@.len() && keyed@[a] == nb[k as int];
                    assert(edges.contains_key(out[a].0));
                    assert(out[a].0 == e && out[a].1.1 == t);
                    assert(edges[e].0 == v && edges[e].1 == t);
                    assert(dom.contains(t));
                    // t is neither v (no self-loops) nor already done
                    if t == v {
                        assert(has_edge(edges, v, v));
                        lemma_reaches_refl(edges, v);
                    }
                    if done.contains(t) {
                        let i = choose|i: int| 0 <= i < done.len() && done[i] == t;
                        if i < done0.len() {
                            assert(done0[i] == t);
                            assert(edges.contains_key(e) && done0.contains(edges[e].1));
                        }
                    }
                    assert(!rk.contains(e)) by {
                        if rk.contains(e) {
                            if edges.contains_key(e) && done0.contains(edges[e].0) {
                            } else {
                                let i = choose|i: int| 0 <= i < k && nb[i].1.0 == e;
                                assert(keyed@.contains(nb[i]));
                                let b = choose|b: int| 0 <= b < keyed@.len() && keyed@[b] == nb[i];
                                assert(out[b].0 == e);
                                if a != b {
                                    if a < b { assert(out[a].0 != out[b].0); } else { assert(out[b].0 != out[a].0); }
                                }
                                assert(nb[i] == nb[k as int]);
                            }
                        }
                    }
                    assert(pending_in(edges, t, rk).contains(e));
                    Self::lemma_pending_remove(edges, t, rk, e);
                    assert(in_degree@.contains_key(t));
                }
                let d = *in_degree.get(&t).unwrap();
                in_degree.insert(t, d - 1);
                proof {
                    removed = rk.insert(e);
                    assert forall|w: usize| w != t implies #[trigger] pending_in(edges, w, removed) == pending_in(edges, w, rk) by {
                        assert(pending_in(edges, w, removed) =~= pending_in(edges, w, rk));
                    }
                    assert forall|x: usize| #[trigger] removed.contains(x) <==> ((edges.contains_key(x) && done0.contains(edges[x].0))
                        || exists|i: int| 0 <= i < k + 1 && nb[i].1.0 == x) by {
                        if x == e {
                            assert(nb[k as int].1.0 == x);
                        }
                        if exists|i: int| 0 <= i < k + 1 && nb[i].1.0 == x {
                            let i = choose|i: int| 0 <= i < k + 1 && nb[i].1.0 == x;
                            if i < k {
                                assert(rk.contains(x));
                            }
                        }
                    }
                }
                let ghost pushed_k = pushed;
                if d - 1 == 0 {
                    queue.push_back(t);
                    proof {
                        pushed = pushed_k.push(t);
                        assert(queue@ =~= rest + pushed);
                        assert(queue@[queue@.len() - 1] == t);
                        assert forall|i: int, j: int| 0 <= i < j < queue@.len() implies queue@[i] != queue@[j] by {
                            if j == queue@.len() - 1 {
                                assert(queue@[i] == qk[i]);
                                assert(pending_in(edges, qk[i], rk).len() == 0);
                                if qk[i] == t {
                                    assert(pending_in(edges, t, rk).contains(e));
                                    vstd::set_lib::lemma_set_empty_equivalency_len(pending_in(edges, t, rk));
                                }
                            } else {
                                assert(queue@[i] == qk[i] && queue@[j] == qk[j]);
                            }
                        }
                    }
                }
                proof {
                    assert forall|i: int| 0 <= i < queue@.len() implies dom.contains(#[trigger] queue@[i]) && !done.contains(queue@[i])
                        && pending_in(edges, queue@[i], removed).len() == 0 by {
                        if i < qk.len() {
                            assert(queue@[i] == qk[i]);
                            if qk[i] == t {
                                assert(pending_in(edges, t, rk).contains(e));
                                vstd::set_lib::lemma_set_empty_equivalency_len(pending_in(edges, t, rk));
                            }
                        }
                    }
                    assert forall|w: usize| dom.contains(w) && !done.contains(w) && pending_in(edges, w, removed).len() == 0
                        implies #[trigger] queue@.contains(w) by {
                        if w == t {
                            assert(queue@[queue@.len() - 1] == t);
                        } else {
                            assert(qk.contains(w));
                            let m = choose|m: int| 0 <= m < qk.len() && qk[m] == w;
                            assert(queue@[m] == w);
                        }
                    }
                }
                proof {
                    assert(!pushed_k.contains(t)) by {
                        if pushed_k.contains(t) {
                            assert(pending_in(edges, t, rk).contains(e));
                            vstd::set_lib::lemma_set_empty_equivalency_len(pending_in(edges, t, rk));
                        }
                    }
                    assert(ids[t] == nb[k as int].0);
                    assert(id_ordered(pushed, ids)) by {
                        if pushed != pushed_k {
                            assert forall|i: int, j: int| 0 <= i < j < pushed.len() implies ids[pushed[i]] < ids[pushed[j]] by {
                                if j == pushed.len() - 1 {
                                    assert(pushed[i] == pushed_k[i]);
                                    assert(ids[pushed_k[i]] <= nb[k as int].0);
                                    assert(pushed_k.contains(pushed_k[i]));
                                    assert(pushed_k[i] != t);
                                    assert(queue@[rest.len() + i] == pushed_k[i]);
                                    assert(dom.contains(pushed_k[i]));
                                    assert(self.index_of()[nodes[pushed_k[i]].id] == pushed_k[i]);
                                    assert(self.index_of()[nodes[t].id] == t);
                                } else {
                                    assert(pushed[i] == pushed_k[i] && pushed[j] == pushed_k[j]);
                                }
                            }
                        }
                    }
                    assert forall|i: int, j: int| 0 <= i < pushed.len() && k + 1 <= j < nb.len() implies ids[#[trigger] pushed[i]] <= #[trigger] nb[j].0 by {
                        if i < pushed_k.len() {
                            assert(pushed[i] == pushed_k[i]);
                        } else {
                            assert(nb[k as int].0 <= nb[j].0);
                        }
                    }
                    assert forall|x: usize| #[trigger] pushed.contains(x) <==> ((exists|j: int| 0 <= j < k + 1 && nb[j].1.1 == x)
                        && pending_in(edges, x, removed).len() == 0) by {
                        if x != t {
                            if pushed.contains(x) {
                                let i = choose|i: int| 0 <= i < pushed.len() && pushed[i] == x;
                                assert(pushed_k[i] == x);
                                assert(pushed_k.contains(x));
                            }
                            if pushed_k.contains(x) {
                                let i = choose|i: int| 0 <= i < pushed_k.len() && pushed_k[i] == x;
                                assert(pushed[i] == x);
                            }
                            assert(pending_in(edges, x, removed) == pending_in(edges, x, rk));
                            if exists|j: int| 0 <= j < k + 1 && nb[j].1.1 == x {
                                let j = choose|j: int| 0 <= j < k + 1 && nb[j].1.1 == x;
                                assert(j < k);
                            }
                        } else {
                            assert(nb[k as int].1.1 == x);
                            if pushed.contains(x) {
                                let i = choose|i: int| 0 <= i < pushed.len() && pushed[i] == x;
                                assert(i == pushed_k.len() as int);
                            }
                            if d - 1 == 0 {
                                assert(pushed[pushed.len() - 1] == t);
                            }
                        }
                    }
                }
                k = k + 1;
            }
            proof {
                assert forall|x: usize| #[trigger] removed.contains(x) <==> (edges.contains_key(x) && done.contains(edges[x].0)) by {
                    if removed.contains(x) {
                        if edges.contains_key(x) && done0.contains(edges[x].0) {
                            let i = choose|i: int| 0 <= i < done0.len() && done0[i] == edges[x].0;
                            assert(done[i] == edges[x].0);
                        } else {
                            let i = choose|i: int| 0 <= i < nb.len() && nb[i].1.0 == x;
                            assert(keyed@.contains(nb[i]));
                            let a = choose|a: int| 0 <= a < keyed@.len() && keyed@[a] == nb[i];
                            assert(out[a].0 == x);
                            assert(edges.contains_key(out[a].0));
                            assert(edges[x].0 == v);
                            assert(done[done0.len() as int] == v);
                        }
                    }
                    if edges.contains_key(x) && done.contains(edges[x].0) {
                        let j = choose|j: int| 0 <= j < done.len() && done[j] == edges[x].0;
                        if j < done0.len() {
                            assert(done0[j] == edges[x].0);
                        } else {
                            assert(edges[x].0 == v);
                            let i = choose|i: int| 0 <= i < out.len() && #[trigger] out[i].0 == x;
                            assert(keyed@.contains(keyed[i]));
                            assert(keyed@.to_multiset().count(keyed[i]) > 0);
                            assert(nb@.contains(keyed[i]));
                            let m = choose|m: int| 0 <= m < nb@.len() && nb@[m] == keyed[i];
                            assert(nb[m].1.0 == x);
                        }
                    }
                }
            }
            proof {
                broadcast use vstd::seq_lib::group_to_multiset_ensures;
                let after = removed0.union(out_edges(edges, v));
                assert(removed =~= after) by {
                    assert forall|x: usize| removed.contains(x) <==> after.contains(x) by {
                        if edges.contains_key(x) && done.contains(edges[x].0) {
                            let j = choose|j: int| 0 <= j < done.len() && done[j] == edges[x].0;
                            if j < done0.len() {
                                assert(done0[j] == edges[x].0);
                            }
                        }
                        if removed0.contains(x) {
                            let j = choose|j: int| 0 <= j < done0.len() && done0[j] == edges[x].0;
                            assert(done[j] == edges[x].0);
                        }
                        if out_edges(edges, v).contains(x) {
                            assert(done[done0.len() as int] == v);
                        }
                    }
                }
                assert forall|x: usize| #[trigger] pushed.contains(x) <==> freed(edges, v, removed).contains(x) by {
                    if exists|j: int| 0 <= j < nb.len() && nb[j].1.1 == x {
                        let j = choose|j: int| 0 <= j < nb.len() && nb[j].1.1 == x;
                        assert(keyed@.contains(nb[j]));
                        let a = choose|a: int| 0 <= a < keyed@.len() && keyed@[a] == nb[j];
                        assert(edges.contains_key(out[a].0) && edges[out[a].0].0 == v && edges[out[a].0].1 == x);
                    }
                    if exists|e2: usize| #[trigger] edges.contains_key(e2) && edges[e2].0 == v && edges[e2].1 == x {
                        let e2 = choose|e2: usize| #[trigger] edges.contains_key(e2) && edges[e2].0 == v && edges[e2].1 == x;
                        let i = choose|i: int| 0 <= i < out.len() && #[trigger] out[i].0 == e2;
                        assert(keyed@.contains(keyed[i]));
                        assert(keyed@.to_multiset().count(keyed[i]) > 0);
                        assert(nb@.contains(keyed[i]));
                        let m = choose|m: int| 0 <= m < nb@.len() && nb@[m] == keyed[i];
                        assert(nb[m].1.1 == x);
                    }
                }
                assert(lists_in_id_order(pushed, freed(edges, v, removed), ids));
                done.unique_seq_to_set();
                assert(done.to_set().subset_of(dom));
                vstd::set_lib::lemma_len_subset(done.to_set(), dom);
                assert(q0[0] == v);
                assert(rest == q0.drop_first());
                lemma_kahn_step(edges, ids, dom, q0, done0, removed0, removed, pushed);
            }
        }
        proof {
            assert(kahn_run(edges, ids, dom, queue@, done, removed) == done);
            assert(result@ =~= self.kahn_ids()) by {
                assert(done == kahn_order(edges, ids, dom));
                assert forall|i: int| 0 <= i < result@.len() implies result@[i] == self.kahn_ids()[i] by {
                    assert(result@[i] == nodes[done[i]].id);
                }
            }
        }
        proof {
            let u = dom.filter(|w: usize| !done.contains(w));
            assert(u.subset_of(dom));
            vstd::set_lib::lemma_len_subset(u, dom);
            assert forall|w: usize| #[trigger] u.contains(w) implies exists|e: usize| edges.contains_key(e) && edges[e].1 == w && u.contains(#[trigger] edges[e].0) by {
                if pending_in(edges, w, removed).len() == 0 {
                    assert(queue@.contains(w));
                }
                vstd::set_lib::lemma_set_empty_equivalency_len(pending_in(edges, w, removed));
                let e = pending_in(edges, w, removed).choose();
                assert(pending_in(edges, w, removed).contains(e));
                assert(!done.contains(edges[e].0));
            }
            assert forall|w: usize| #[trigger] dom.contains(w) implies done.contains(w) by {
                if !done.contains(w) {
                    assert(u.contains(w));
                    lemma_fed_set_is_empty(edges, u, w);
                }
            }
            assert forall|i: int, j: int| 0 <= i < j < result.len() implies result[i] != result[j] by {
                assert(self.nodes().contains_key(done[i]) && self.nodes().contains_key(done[j]));
            }
            assert forall|i: int| 0 <= i < result.len() implies self.ids().contains(#[trigger] result[i]) by {
                assert(self.nodes().contains_key(done[i]));
            }
            assert forall|id: u64| #[trigger] self.ids().contains(id) implies result@.contains(id) by {
                assert(self.index_of().contains_key(id));
                let x = self.index_of()[id];
                assert(dom.contains(x));
                assert(done.contains(x));
                let i = choose|i: int| 0 <= i < done.len() && done[i] == x;
                assert(result@[i] == id);
            }
            assert forall|e: usize, i: int, j: int|
                #![trigger self.edges()[e], result@[i], result@[j]]
                self.edges().contains_key(e) && 0 <= i < result@.len() && 0 <= j < result@.len()
                    && result@[i] == self.id_at(self.edges()[e].0) && result@[j] == self.id_at(self.edges()[e].1) implies i < j by {
                assert(self.nodes().contains_key(done[i]) && self.nodes().contains_key(done[j]));
                assert(self.nodes().contains_key(self.edges()[e].0) && self.nodes().contains_key(self.edges()[e].1));
                assert(done[i] == edges[e].0);
                assert(done[j] == edges[e].1);
            }
        }
        proof {
            self.lemma_id_count();
            assert(result@.no_duplicates());
            assert(result@.to_set() =~= self.ids()) by {
                assert forall|x: u64| #[trigger] result@.to_set().contains(x) implies self.ids().contains(x) by {
                    let i = choose|i: int| 0 <= i < result@.len() && result@[i] == x;
                }
            }
            result@.unique_seq_to_set();
        }
        result
    }

    /// The connection stored under edge index `e`, by node id:
    /// `(from_node, from_port, to_node, to_port)`.
    pub open spec fn connection(&self, e: usize) -> (u64, usize, u64, usize) {
        (self.id_at(self.edges()[e].0), self.edges()[e].2, self.id_at(self.edges()[e].1), self.edges()[e].3)
    }

    /// `r` lists, once each and in some order, the connections whose edge
    /// indices satisfy `pick`.
    pub open spec fn lists_connections(&self, r: Seq<(u64, usize, u64, usize)>, pick: spec_fn(usize) -> bool) -> bool {
        exists|es: Seq<usize>| {
            &&& es.len() == r.len()
            &&& es.no_duplicates()
            &&& forall|e: usize| #[trigger] es.contains(e) <==> (self.edges().contains_key(e) && pick(e))
            &&& forall|i: int| 0 <= i < r.len() ==> r[i] == self.connection(#[trigger] es[i])
        }
    }

    /// Build the id-level connection list for edges as the wrapper reports them.
    fn connections_of(&self, list: &Vec<(usize, (usize, usize, usize, usize))>) -> (r: Vec<(u64, usize, u64, usize)>)
        requires
            self.wf(),
            forall|i: int| 0 <= i < list.len() ==> {
                &&& self.edges().contains_key(#[trigger] list[i].0)
                &&& self.edges()[list[i].0] == list[i].1
            },
        ensures
            r.len() == list.len(),
            forall|i: int| 0 <= i < r.len() ==> r[i] == self.connection(#[trigger] list[i].0),
    {
        let mut r: Vec<(u64, usize, u64, usize)> = Vec::new();
        let mut k: usize = 0;
        while k < list.len()
            invariant
                self.wf(),
                0 <= k <= list.len(),
                r.len() == k,
                forall|i: int| 0 <= i < list.len() ==> {
                    &&& self.edges().contains_key(#[trigger] list[i].0)
                    &&& self.edges()[list[i].0] == list[i].1
                },
                forall|i: int| 0 <= i < k ==> r[i] == self.connection(#[trigger] list[i].0),
            decreases list.len() - k,
        {
            let (_, (a, b, fp, tp)) = list[k];
            proof {
                assert(self.edges().contains_key(list[k as int].0));
            }
            let from_id = topo_node_weight(&self.graph, a).unwrap().id;
            let to_id = topo_node_weight(&self.graph, b).unwrap().id;
            r.push((from_id, fp, to_id, tp));
            k = k + 1;
        }
        r
    }

    /// Outgoing connections of a node as `(from_node, from_port, to_node,
    /// to_port)`; empty for an unknown id.
    pub fn connections_from(&self, id: u64) -> (r: Vec<(u64, usize, u64, usize)>)
        requires
            self.wf(),
        ensures
            !self.ids().contains(id) ==> r.len() == 0,
            self.ids().contains(id) ==> self.lists_connections(r@, |e: usize| self.edges()[e].0 == self.index_of()[id]),
    {
        let idx = match self.id_to_index.get(&id) {
            Some(i) => *i,
            None => {
                return Vec::new();
            },
        };
        proof {
            assert(self.index_of().contains_key(id));
            assert(self.nodes().contains_key(idx));
        }
        let out = topo_outgoing(&self.graph, idx);
        let r = self.connections_of(&out);
        proof {
            let es = out@.map_values(|x: (usize, (usize, usize, usize, usize))| x.0);
            assert(es.no_duplicates()) by {
                assert forall|i: int, j: int| 0 <= i < es.len() && 0 <= j < es.len() && i != j implies es[i] != es[j] by {
                    if i < j { assert(out[i].0 != out[j].0); } else { assert(out[j].0 != out[i].0); }
                }
            }
            assert forall|e: usize| #[trigger] es.contains(e) <==> (self.edges().contains_key(e) && self.edges()[e].0 == idx) by {
                if es.contains(e) {
                    let i = choose|i: int| 0 <= i < es.len() && es[i] == e;
                    assert(out[i].0 == e);
                }
                if self.edges().contains_key(e) && self.edges()[e].0 == idx {
                    let i = choose|i: int| 0 <= i < out.len() && #[trigger] out[i].0 == e;
                    assert(es[i] == e);
                }
            }
            assert forall|i: int| 0 <= i < r.len() implies r[i] == self.connection(#[trigger] es[i]) by {
                assert(es[i] == out[i].0);
            }
            let pick = |e: usize| self.edges()[e].0 == self.index_of()[id];
            assert forall|e: usize| #[trigger] es.contains(e) <==> (self.edges().contains_key(e) && pick(e)) by {}
        }
        r
    }

    /// Incoming connections of a node as `(from_node, from_port, to_node,
    /// to_port)`; empty for an unknown id.
    pub fn connections_to(&self, id: u64) -> (r: Vec<(u64, usize, u64, usize)>)
        requires
            self.wf(),
        ensures
            !self.ids().contains(id) ==> r.len() == 0,
            self.ids().contains(id) ==> self.lists_connections(r@, |e: usize| self.edges()[e].1 == self.index_of()[id]),
    {
        let idx = match self.id_to_index.get(&id) {
            Some(i) => *i,
            None => {
                return Vec::new();
            },
        };
        proof {
            assert(self.index_of().contains_key(id));
            assert(self.nodes().contains_key(idx));
        }
        let inc = topo_incoming(&self.graph, idx);
        let r = self.connections_of(&inc);
        proof {
            let es = inc@.map_values(|x: (usize, (usize, usize, usize, usize))| x.0);
            assert(es.no_duplicates()) by {
                assert forall|i: int, j: int| 0 <= i < es.len() && 0 <= j < es.len() && i != j implies es[i] != es[j] by {
                    if i < j { assert(inc[i].0 != inc[j].0); } else { assert(inc[j].0 != inc[i].0); }
                }
            }
            assert forall|e: usize| #[trigger] es.contains(e) <==> (self.edges().contains_key(e) && self.edges()[e].1 == idx) by {
                if es.contains(e) {
                    let i = choose|i: int| 0 <= i < es.len() && es[i] == e;
                    assert(inc[i].0 == e);
                }
                if self.edges().contains_key(e) && self.edges()[e].1 == idx {
                    let i = choose|i: int| 0 <= i < inc.len() && #[trigger] inc[i].0 == e;
                    assert(es[i] == e);
                }
            }
            assert forall|i: int| 0 <= i < r.len() implies r[i] == self.connection(#[trigger] es[i]) by {
                assert(es[i] == inc[i].0);
            }
            let pick = |e: usize| self.edges()[e].1 == self.index_of()[id];
            assert forall|e: usize| #[trigger] es.contains(e) <==> (self.edges().contains_key(e) && pick(e)) by {}
        }
        r
    }

    /// Remove one port-level connection matching all four values. Returns
    /// `true` if such a connection existed.
    pub fn disconnect(&mut self, from_node: u64, from_port: usize, to_node: u64, to_port: usize) -> (r: bool)
        requires
            old(self).wf(),
        ensures
            final(self).wf(),
            final(self).nodes() == old(self).nodes(),
            final(self).index_of() == old(self).index_of(),
            final(self).next_id() == old(self).next_id(),
            r == (old(self).ids().contains(from_node) && old(self).ids().contains(to_node)
                && exists|e: usize| old(self).edges().contains_key(e) && #[trigger] old(self).edges()[e]
                    == (old(self).index_of()[from_node], old(self).index_of()[to_node], from_port, to_port)),
            r ==> exists|e: usize| old(self).edges().contains_key(e) && #[trigger] old(self).edges()[e]
                    == (old(self).index_of()[from_node], old(self).index_of()[to_node], from_port, to_port)
                && final(self).edges() == old(self).edges().remove(e),
            !r ==> final(self).edges() == old(self).edges(),
    {
        let from_idx = match self.id_to_index.get(&from_node) {
            Some(i) => *i,
            None => {
                return false;
            },
        };
        let to_idx = match self.id_to_index.get(&to_node) {
            Some(i) => *i,
            None => {
                return false;
            },
        };
        let out = topo_outgoing(&self.graph, from_idx);
        let mut k: usize = 0;
        while k < out.len()
            invariant
                self.wf(),
                *self == *old(self),
                0 <= k <= out.len(),
                from_idx == self.index_of()[from_node],
                to_idx == self.index_of()[to_node],
                self.ids().contains(from_node),
                self.ids().contains(to_node),
                forall|i: int| 0 <= i < out.len() ==> {
                    &&& self.edges().contains_key(#[trigger] out[i].0)
                    &&& self.edges()[out[i].0] == out[i].1
                    &&& out[i].1.0 == from_idx
                },
                forall|e: usize| self.edges().contains_key(e) && self.edges()[e].0 == from_idx
                    ==> exists|i: int| 0 <= i < out.len() && #[trigger] out[i].0 == e,
                forall|i: int| 0 <= i < k ==> out[i].1 != (from_idx, to_idx, from_port, to_port),
            decreases out.len() - k,
        {
            let (e, (_, b, fp, tp)) = out[k];
            if b == to_idx && fp == from_port && tp == to_port {
                let ghost edges0 = self.edges();
                proof {
                    assert(self.edges().contains_key(out[k as int].0));
                }
                topo_remove_edge(&mut self.graph, e);
                proof {
                    assert(self.edges().submap_of(edges0));
                    lemma_acyclic_submap(self.edges(), edges0);
                    assert forall|x: usize| #[trigger] self.edges().contains_key(x) implies {
                        &&& self.nodes().contains_key(self.edges()[x].0)
                        &&& self.nodes().contains_key(self.edges()[x].1)
                    } by {
                        assert(edges0.contains_key(x));
                    }
                    assert(edges0[e] == (from_idx, to_idx, from_port, to_port));
                }
                return true;
            }
            k = k + 1;
        }
        proof {
            assert forall|e: usize| !(old(self).edges().contains_key(e) && #[trigger] old(self).edges()[e]
                == (from_idx, to_idx, from_port, to_port)) by {
                if old(self).edges().contains_key(e) && old(self).edges()[e] == (from_idx, to_idx, from_port, to_port) {
                    let i = choose|i: int| 0 <= i < out.len() && #[trigger] out[i].0 == e;
                }
            }
        }
        false
    }

    /// The dirty nodes only, in topological order.
    pub fn dirty_nodes(&self) -> (r: Vec<u64>)
        requires
            self.wf(),
        ensures
            forall|i: int, j: int| 0 <= i < j < r.len() ==> r[i] != r[j],
            forall|i: int| 0 <= i < r.len() ==> self.ids().contains(#[trigger] r[i]) && self.instance(r[i]).dirty,
            forall|id: u64| #[trigger] self.ids().contains(id) && self.instance(id).dirty ==> r@.contains(id),
            self.respects_edges(r@),
            r@ == self.kahn_ids().filter(|id: u64| self.instance(id).dirty),
    {
        let order = self.topological_order();
        let ghost dirty = |id: u64| self.instance(id).dirty;
        let mut r: Vec<u64> = Vec::new();
        let ghost mut pos: Seq<int> = Seq::empty();
        let mut k: usize = 0;
        while k < order.len()
            invariant
                self.wf(),
                0 <= k <= order.len(),
                forall|i: int, j: int| 0 <= i < j < order.len() ==> order[i] != order[j],
                forall|i: int| 0 <= i < order.len() ==> self.ids().contains(#[trigger] order[i]),
                forall|id: u64| #[trigger] self.ids().contains(id) ==> order@.contains(id),
                self.respects_edges(order@),
                pos.len() == r.len(),
                forall|i: int| 0 <= i < r.len() ==> 0 <= #[trigger] pos[i] < k && r[i] == order[pos[i]],
                forall|i: int, j: int| 0 <= i < j < r.len() ==> pos[i] < pos[j],
                forall|i: int| 0 <= i < r.len() ==> self.ids().contains(#[trigger] r[i]) && self.instance(r[i]).dirty,
                forall|j: int| 0 <= j < k && self.instance(#[trigger] order[j]).dirty ==> r@.contains(order[j]),
                dirty == (|id: u64| self.instance(id).dirty),
                r@ == order@.subrange(0, k as int).filter(dirty),
            decreases order.len() - k,
        {
            let id = order[k];
            let ghost r0 = r@;
            let n = self.node(id);
            let is_dirty = match n {
                Some(inst) => inst.dirty,
                None => false,
            };
            proof {
                reveal(Seq::filter);
                assert(order@.subrange(0, k + 1).drop_last() =~= order@.subrange(0, k as int));
                assert(order@.subrange(0, k + 1).last() == id);
                assert(is_dirty == dirty(id));
            }
            if is_dirty {
                r.push(id);
                proof {
                    pos = pos.push(k as int);
                }
            }
            proof {
                assert forall|j: int| 0 <= j < k + 1 && self.instance(#[trigger] order[j]).dirty implies r@.contains(order[j]) by {
                    if j == k {
                        assert(r@[r@.len() - 1] == id);
                    } else {
                        assert(r0.contains(order[j]));
                        let m = choose|m: int| 0 <= m < r0.len() && r0[m] == order[j];
                        assert(r@[m] == r0[m]);
                    }
                }
            }
            k = k + 1;
        }
        proof {
            assert(order@.subrange(0, order@.len() as int) =~= order@);
            assert forall|i: int, j: int| 0 <= i < j < r.len() implies r[i] != r[j] by {
                assert(pos[i] < pos[j]);
            }
            assert forall|id: u64| #[trigger] self.ids().contains(id) && self.instance(id).dirty implies r@.contains(id) by {
                let j = choose|j: int| 0 <= j < order.len() && order[j] == id;
            }
            assert forall|e: usize, i: int, j: int|
                #![trigger self.edges()[e], r@[i], r@[j]]
                self.edges().contains_key(e) && 0 <= i < r@.len() && 0 <= j < r@.len()
                    && r@[i] == self.id_at(self.edges()[e].0) && r@[j] == self.id_at(self.edges()[e].1) implies i < j by {
                assert(order[pos[i]] == r@[i] && order[pos[j]] == r@[j]);
                assert(pos[i] < pos[j]);
                if j < i {
                    assert(pos[j] < pos[i]);
                }
            }
        }
        r
    }
}

impl Default for NodeGraph {
    fn default() -> (g: NodeGraph)
        ensures
            g.wf(),
            g.nodes().is_empty(),
            g.edges().is_empty(),
            g.ids().is_empty(),
    {
        NodeGraph::new()
    }
}

} // verus!
