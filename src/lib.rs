//! A small directed-graph container: a table of nodes keyed by identifier,
//! and for each source node the list of its outgoing edges.
use std::collections::HashMap;
use std::hash::Hash;
use vstd::prelude::*;
use vstd::std_specs::hash::{obeys_key_model, spec_hash_map_iter};
use vstd::std_specs::iter::IteratorSpec;

pub mod laws;

verus! {

broadcast use vstd::std_specs::hash::group_hash_axioms;

/// The one way an operation can fail: an edge names a node that is not in the graph.
#[derive(Debug, Clone, Copy, PartialEq, Eq, Structural)]
pub enum GraphError {
    UnknownNode,
}

/// A directed graph with identifiers `NId`, node values `N` and edge values `E`.
pub struct Graph<NId: Eq, N, E> {
    nodes: HashMap<NId, N>,
    edges: HashMap<NId, Vec<(NId, E)>>,
}

/// The mathematical content of a graph: each node's value, and for each source
/// node the one outgoing edge that is stored for it, as (destination, value).
#[verifier::reject_recursive_types(NId)]
pub struct GraphModel<NId, N, E> {
    pub nodes: Map<NId, N>,
    pub edges: Map<NId, (NId, E)>,
}

/// `r` lists every node of `nodes` exactly once, in the order of `ids`:
/// entry `i` is a clone of identifier `ids[i]` and of that node's value.
pub open spec fn lists_nodes_as<NId: Clone, N: Clone>(
    r: Seq<(NId, N)>,
    nodes: Map<NId, N>,
    ids: Seq<NId>,
) -> bool {
    &&& ids.no_duplicates()
    &&& ids.to_set() == nodes.dom()
    &&& ids.len() == r.len()
    &&& forall|i: int|
        0 <= i < r.len() ==> cloned(ids[i], #[trigger] r[i].0) && cloned(nodes[ids[i]], r[i].1)
}

/// `r` lists every node of `nodes` exactly once, in some order.
pub open spec fn lists_nodes<NId: Clone, N: Clone>(r: Seq<(NId, N)>, nodes: Map<NId, N>) -> bool {
    exists|ids: Seq<NId>| lists_nodes_as(r, nodes, ids)
}

/// `r` lists every stored edge of `edges` exactly once, in the order of the
/// source identifiers `ids`: entry `i` is a clone of `ids[i]` and of the
/// destination and value of the edge stored for it.
pub open spec fn lists_edges_as<NId: Clone, E: Clone>(
    r: Seq<(NId, NId, E)>,
    edges: Map<NId, (NId, E)>,
    ids: Seq<NId>,
) -> bool {
    &&& ids.no_duplicates()
    &&& ids.to_set() == edges.dom()
    &&& ids.len() == r.len()
    &&& forall|i: int|
        0 <= i < r.len() ==> {
            &&& cloned(ids[i], #[trigger] r[i].0)
            &&& cloned(edges[ids[i]].0, r[i].1)
            &&& cloned(edges[ids[i]].1, r[i].2)
        }
}

/// `r` lists every stored edge of `edges` exactly once, in some order.
pub open spec fn lists_edges<NId: Clone, E: Clone>(
    r: Seq<(NId, NId, E)>,
    edges: Map<NId, (NId, E)>,
) -> bool {
    exists|ids: Seq<NId>| lists_edges_as(r, edges, ids)
}

/// The keys that one walk over a hash map visits, in the order visited, are
/// the map's keys, each once.
proof fn lemma_walked_keys<K, V>(m: &HashMap<K, V>, ids: Seq<K>)
    requires
        spec_hash_map_iter(m).remaining().no_duplicates(),
        ids.len() == spec_hash_map_iter(m).remaining().len(),
        forall|i: int|
            0 <= i < ids.len() ==> #[trigger] ids[i] == *spec_hash_map_iter(m).remaining()[i].0,
    ensures
        ids.no_duplicates(),
        ids.to_set() == m@.dom(),
{
    let pairs = spec_hash_map_iter(m).remaining();
    assert forall|i: int, j: int|
        0 <= i < ids.len() && 0 <= j < ids.len() && i != j implies ids[i] != ids[j] by {
        if ids[i] == ids[j] {
            assert(m@.contains_key(*pairs[i].0) && m@[*pairs[i].0] == *pairs[i].1);
            assert(m@.contains_key(*pairs[j].0) && m@[*pairs[j].0] == *pairs[j].1);
            assert(pairs[i] == pairs[j]);
        }
    }
    assert forall|k: K| #[trigger] m@.contains_key(k) implies ids.contains(k) by {
        assert(pairs.contains((&k, &m@[k])));
        let i = choose|i: int| 0 <= i < pairs.len() && pairs[i] == (&k, &m@[k]);
        assert(ids[i] == k);
    }
    assert(ids.to_set() =~= m@.dom());
}

impl<NId: Eq, N, E> View for Graph<NId, N, E> {
    type V = GraphModel<NId, N, E>;

    closed spec fn view(&self) -> GraphModel<NId, N, E> {
        GraphModel {
            nodes: self.nodes@,
            edges: self.edges@.map_values(|l: Vec<(NId, E)>| l@[0]),
        }
    }
}

impl<NId: Eq + Hash + Clone, N: Clone, E: Clone> Graph<NId, N, E> {
    /// The graph's internal invariant: identifiers behave as hash-map keys,
    /// every stored edge list holds exactly one edge, and both ends of every
    /// stored edge are nodes of the graph.
    pub closed spec fn wf(&self) -> bool {
        &&& obeys_key_model::<NId>()
        &&& forall|k: NId| #[trigger]
            self.edges@.contains_key(k) ==> {
                &&& self.edges@[k]@.len() == 1
                &&& self.nodes@.contains_key(k)
                &&& self.nodes@.contains_key(self.edges@[k]@[0].0)
            }
    }

    /// Creates an empty graph. Its identifiers must behave as hash-map keys:
    /// equality and hashing agree, as they do for integers and strings.
    pub fn new() -> (g: Self)
        requires
            obeys_key_model::<NId>(),
        ensures
            g.wf(),
            g@.nodes == Map::<NId, N>::empty(),
            g@.edges == Map::<NId, (NId, E)>::empty(),
    {
        let g = Graph { nodes: HashMap::new(), edges: HashMap::new() };
        assert(g@.edges =~= Map::<NId, (NId, E)>::empty());
        g
    }

    /// Inserts the node `id` with `value`, replacing the value of an existing node.
    pub fn add_node(&mut self, id: NId, value: N)
        requires
            old(self).wf(),
        ensures
            final(self).wf(),
            final(self)@.nodes == old(self)@.nodes.insert(id, value),
            final(self)@.edges == old(self)@.edges,
    {
        self.nodes.insert(id, value);
    }

    /// Stores the edge `from -> to` with `value` as the one outgoing edge of
    /// `from`, replacing any edge stored for `from` before. Fails, and leaves
    /// the graph as it was, when `from` or `to` is not a node of the graph.
    pub fn add_edge(&mut self, from: NId, to: NId, value: E) -> (r: Result<(), GraphError>)
        requires
            old(self).wf(),
        ensures
            final(self).wf(),
            r is Ok <==> old(self)@.nodes.contains_key(from) && old(self)@.nodes.contains_key(to),
            r is Ok ==> final(self)@.nodes == old(self)@.nodes,
            r is Ok ==> final(self)@.edges == old(self)@.edges.insert(from, (to, value)),
            r is Err ==> r == Err::<(), GraphError>(GraphError::UnknownNode),
            r is Err ==> final(self)@ == old(self)@,
    {
        if self.nodes.contains_key(&from) && self.nodes.contains_key(&to) {
            let ghost before = self.edges@;
            self.edges.insert(from, vec![(to, value)]);
            assert(self@.edges =~= before.map_values(|l: Vec<(NId, E)>| l@[0]).insert(
                from,
                (to, value),
            ));
            return Ok(());
        }
        Err(GraphError::UnknownNode)
    }

    /// Every node of the graph, as (identifier, value) pairs in no fixed order.
    pub fn all_nodes(&self) -> (r: Vec<(NId, N)>)
        requires
            self.wf(),
        ensures
            r@.len() == self@.nodes.dom().len(),
            lists_nodes(r@, self@.nodes),
    {
        let mut r: Vec<(NId, N)> = Vec::new();
        let ghost mut ids: Seq<NId> = Seq::empty();
        let ghost pairs = spec_hash_map_iter(&self.nodes).remaining();
        for (k, v) in it: self.nodes.iter()
            invariant
                self.wf(),
                it.seq() == pairs,
                pairs.no_duplicates(),
                r.len() == it.index(),
                ids.len() == it.index(),
                forall|i: int|
                    0 <= i < it.index() ==> #[trigger] ids[i] == *it.seq()[i].0 && cloned(
                        ids[i],
                        r@[i].0,
                    ) && cloned(self.nodes@[ids[i]], r@[i].1),
        {
            r.push((k.clone(), v.clone()));
            proof {
                ids = ids.push(*k);
            }
        }
        proof {
            lemma_walked_keys(&self.nodes, ids);
            assert(lists_nodes_as(r@, self@.nodes, ids));
        }
        r
    }

    /// Every stored edge of the graph, as (source, destination, value)
    /// triples in no fixed order: at most one for each source node.
    pub fn all_edges(&self) -> (r: Vec<(NId, NId, E)>)
        requires
            self.wf(),
        ensures
            r@.len() == self@.edges.dom().len(),
            lists_edges(r@, self@.edges),
    {
        let mut r: Vec<(NId, NId, E)> = Vec::new();
        let ghost mut ids: Seq<NId> = Seq::empty();
        let ghost pairs = spec_hash_map_iter(&self.edges).remaining();
        for (from, tos) in it: self.edges.iter()
            invariant
                self.wf(),
                it.seq() == pairs,
                pairs.no_duplicates(),
                r.len() == it.index(),
                ids.len() == it.index(),
                forall|i: int|
                    0 <= i < it.index() ==> {
                        &&& #[trigger] ids[i] == *pairs[i].0
                        &&& cloned(ids[i], r@[i].0)
                        &&& cloned(self@.edges[ids[i]].0, r@[i].1)
                        &&& cloned(self@.edges[ids[i]].1, r@[i].2)
                    },
        {
            let ghost start = r@;
            assert(self.edges@.contains_key(*from) && self.edges@[*from] == *tos);
            let mut j: usize = 0;
            while j < tos.len()
                invariant
                    j <= tos.len(),
                    r.len() == start.len() + j,
                    forall|i: int| 0 <= i < start.len() ==> r@[i] == #[trigger] start[i],
                    forall|i: int|
                        0 <= i < j ==> {
                            &&& cloned(*from, #[trigger] r@[start.len() + i].0)
                            &&& cloned(tos@[i].0, r@[start.len() + i].1)
                            &&& cloned(tos@[i].1, r@[start.len() + i].2)
                        },
                decreases tos.len() - j,
            {
                let (to, value) = &tos[j];
                r.push((from.clone(), to.clone(), value.clone()));
                j = j + 1;
            }
            proof {
                ids = ids.push(*from);
                assert(r@[start.len() as int].0 == r@[start.len() + 0int].0);
            }
        }
        proof {
            lemma_walked_keys(&self.edges, ids);
            assert(ids.to_set() =~= self@.edges.dom());
            assert(lists_edges_as(r@, self@.edges, ids));
        }
        r
    }
}

} // verus!
