//! Facts about sequences of calls on a graph, stated over its model.
use crate::{lists_edges, lists_edges_as, lists_nodes, lists_nodes_as, Graph};
use vstd::prelude::*;

verus! {

/// Cloning a `T` gives back a value equal to the original, as it does for
/// plain data and for shared references.
pub open spec fn clones_are_equal<T: Clone>() -> bool {
    forall|a: T, b: T| #[trigger] cloned(a, b) ==> a == b
}

/// The map that results from inserting `ks[i] -> vs[i]` into `m`, for each
/// `i` in turn: the effect of that sequence of insertions on a table.
pub open spec fn inserted_all<K, V>(m: Map<K, V>, ks: Seq<K>, vs: Seq<V>) -> Map<K, V>
    recommends
        ks.len() == vs.len(),
    decreases ks.len(),
{
    if ks.len() == 0 {
        m
    } else {
        inserted_all(m, ks.drop_last(), vs.drop_last()).insert(ks.last(), vs.last())
    }
}

/// Position `i` of `ks` is the last one that holds the key `ks[i]`.
pub open spec fn is_last_of<K>(ks: Seq<K>, i: int) -> bool {
    &&& 0 <= i < ks.len()
    &&& forall|j: int| i < j < ks.len() ==> ks[j] != ks[i]
}

/// Inserting a sequence of keys into an empty map gives exactly those keys,
/// each with the value of its last insertion.
pub proof fn lemma_inserted_all<K, V>(ks: Seq<K>, vs: Seq<V>)
    requires
        ks.len() == vs.len(),
    ensures
        inserted_all(Map::empty(), ks, vs).dom() == ks.to_set(),
        forall|i: int| #[trigger]
            is_last_of(ks, i) ==> inserted_all(Map::empty(), ks, vs)[ks[i]] == vs[i],
        forall|k: K| #[trigger]
            ks.contains(k) ==> exists|i: int| is_last_of(ks, i) && ks[i] == k,
    decreases ks.len(),
{
    if ks.len() == 0 {
        assert(ks.to_set() =~= Set::<K>::empty());
    } else {
        let ks0 = ks.drop_last();
        let vs0 = vs.drop_last();
        lemma_inserted_all(ks0, vs0);
        let n = ks.len() - 1;
        assert(ks.to_set() =~= ks0.to_set().insert(ks.last())) by {
            assert forall|k: K| ks.to_set().contains(k) implies ks0.to_set().insert(
                ks.last(),
            ).contains(k) by {
                let i = choose|i: int| 0 <= i < ks.len() && ks[i] == k;
                if i < n {
                    assert(ks0[i] == k);
                }
            }
            assert forall|k: K| ks0.to_set().contains(k) implies ks.to_set().contains(k) by {
                let i = choose|i: int| 0 <= i < ks0.len() && ks0[i] == k;
                assert(ks[i] == k);
            }
            assert(ks[n] == ks.last());
        }
        assert forall|i: int| #[trigger]
            is_last_of(ks, i) implies inserted_all(Map::empty(), ks, vs)[ks[i]] == vs[i] by {
            if i < n {
                assert(ks[n] != ks[i]);
                assert(is_last_of(ks0, i));
                assert(ks0[i] == ks[i]);
            }
        }
        assert forall|k: K| #[trigger]
            ks.contains(k) implies exists|i: int| is_last_of(ks, i) && ks[i] == k by {
            if k == ks[n] {
                assert(is_last_of(ks, n));
            } else {
                let i0 = choose|i: int| 0 <= i < ks.len() && ks[i] == k;
                assert(ks0[i0] == k);
                assert(ks0.contains(k));
                let i = choose|i: int| is_last_of(ks0, i) && ks0[i] == k;
                assert forall|j: int| i < j < ks.len() implies ks[j] != ks[i] by {
                    if j < n {
                        assert(ks0[j] == ks[j]);
                    }
                }
                assert(is_last_of(ks, i));
            }
        }
    }
}

/// A listing of a node table has one entry per node; where clones are equal
/// to their originals, it holds exactly the table's pairs, each once.
pub proof fn lemma_listed_nodes<NId: Clone, N: Clone>(r: Seq<(NId, N)>, m: Map<NId, N>)
    requires
        lists_nodes(r, m),
    ensures
        r.len() == m.dom().len(),
        clones_are_equal::<NId>() && clones_are_equal::<N>() ==> {
            &&& r.no_duplicates()
            &&& forall|p: (NId, N)| #[trigger]
                r.contains(p) <==> m.contains_key(p.0) && p.1 == m[p.0]
        },
{
    let ids = choose|ids: Seq<NId>| lists_nodes_as(r, m, ids);
    ids.unique_seq_to_set();
    if clones_are_equal::<NId>() && clones_are_equal::<N>() {
        assert forall|i: int| 0 <= i < r.len() implies #[trigger] r[i] == (ids[i], m[ids[i]]) by {
            assert(cloned(ids[i], r[i].0));
            assert(cloned(m[ids[i]], r[i].1));
        }
        assert forall|p: (NId, N)| m.contains_key(p.0) && p.1 == m[p.0] implies #[trigger]
            r.contains(p) by {
            assert(ids.to_set().contains(p.0));
            let i = choose|i: int| 0 <= i < ids.len() && ids[i] == p.0;
            assert(r[i] == p);
        }
        assert forall|p: (NId, N)| #[trigger] r.contains(p) implies m.contains_key(p.0) && p.1
            == m[p.0] by {
            let i = choose|i: int| 0 <= i < r.len() && r[i] == p;
            assert(ids.to_set().contains(ids[i]));
        }
    }
}

/// A listing of an edge table has one entry per source; where clones are
/// equal to their originals, its sources are distinct and it holds exactly
/// the table's edges.
pub proof fn lemma_listed_edges<NId: Clone, E: Clone>(
    r: Seq<(NId, NId, E)>,
    m: Map<NId, (NId, E)>,
)
    requires
        lists_edges(r, m),
    ensures
        r.len() == m.dom().len(),
        clones_are_equal::<NId>() && clones_are_equal::<E>() ==> {
            &&& forall|i: int, j: int|
                0 <= i < r.len() && 0 <= j < r.len() && i != j ==> #[trigger] r[i].0 != #[trigger] r[j].0
            &&& r.no_duplicates()
            &&& forall|p: (NId, NId, E)| #[trigger]
                r.contains(p) <==> m.contains_key(p.0) && (p.1, p.2) == m[p.0]
        },
{
    let ids = choose|ids: Seq<NId>| lists_edges_as(r, m, ids);
    ids.unique_seq_to_set();
    if clones_are_equal::<NId>() && clones_are_equal::<E>() {
        assert forall|i: int| 0 <= i < r.len() implies #[trigger] r[i] == (
            ids[i],
            m[ids[i]].0,
            m[ids[i]].1,
        ) by {
            assert(cloned(ids[i], r[i].0));
            assert(cloned(m[ids[i]].0, r[i].1));
            assert(cloned(m[ids[i]].1, r[i].2));
        }
        assert forall|p: (NId, NId, E)| m.contains_key(p.0) && (p.1, p.2) == m[p.0] implies
            #[trigger] r.contains(p) by {
            assert(ids.to_set().contains(p.0));
            let i = choose|i: int| 0 <= i < ids.len() && ids[i] == p.0;
            assert(r[i] == p);
        }
        assert forall|p: (NId, NId, E)| #[trigger] r.contains(p) implies m.contains_key(p.0) && (
        p.1, p.2) == m[p.0] by {
            let i = choose|i: int| 0 <= i < r.len() && r[i] == p;
            assert(ids.to_set().contains(ids[i]));
        }
    }
}

/// Adding nodes `ids[i]` with values `vals[i]`, for each `i` in turn, to a new
/// graph, and then listing its nodes, gives one pair per distinct identifier
/// (so one per call when the identifiers are distinct). Where clones are
/// equal to their originals, the listing holds each pair once, and its pairs
/// are exactly those of the last call for each identifier.
pub proof fn lemma_added_nodes_listed<NId: Clone, N: Clone>(
    ids: Seq<NId>,
    vals: Seq<N>,
    r: Seq<(NId, N)>,
)
    requires
        ids.len() == vals.len(),
        lists_nodes(r, inserted_all(Map::empty(), ids, vals)),
    ensures
        r.len() == ids.to_set().len(),
        ids.no_duplicates() ==> r.len() == ids.len(),
        clones_are_equal::<NId>() && clones_are_equal::<N>() ==> {
            &&& r.no_duplicates()
            &&& forall|p: (NId, N)| #[trigger]
                r.contains(p) <==> exists|i: int| is_last_of(ids, i) && p == (ids[i], vals[i])
        },
{
    let m = inserted_all(Map::empty(), ids, vals);
    lemma_inserted_all(ids, vals);
    lemma_listed_nodes(r, m);
    if ids.no_duplicates() {
        ids.unique_seq_to_set();
    }
    if clones_are_equal::<NId>() && clones_are_equal::<N>() {
        assert forall|p: (NId, N)| #[trigger]
            r.contains(p) implies exists|i: int| is_last_of(ids, i) && p == (ids[i], vals[i]) by {
            assert(ids.to_set().contains(p.0));
            let i = choose|i: int| is_last_of(ids, i) && ids[i] == p.0;
            assert(p == (ids[i], vals[i]));
        }
        assert forall|p: (NId, N)|
            (exists|i: int| is_last_of(ids, i) && p == (ids[i], vals[i])) implies #[trigger]
            r.contains(p) by {
            let i = choose|i: int| is_last_of(ids, i) && p == (ids[i], vals[i]);
            assert(ids.to_set().contains(ids[i]));
        }
    }
}

/// Adding edges `froms[i] -> tos[i]` with values `vals[i]`, for each `i` in
/// turn and each successfully, to a graph without edges (as every graph
/// starts, and only adding an edge changes its edges), and then listing its
/// edges, gives one triple per distinct source. Where clones are equal to
/// their originals, no two triples share a source, and the triples are
/// exactly those of the last call for each source.
pub proof fn lemma_added_edges_listed<NId: Clone, E: Clone>(
    froms: Seq<NId>,
    tos: Seq<NId>,
    vals: Seq<E>,
    r: Seq<(NId, NId, E)>,
)
    requires
        froms.len() == tos.len(),
        froms.len() == vals.len(),
        lists_edges(r, inserted_all(Map::empty(), froms, Seq::new(froms.len(), |i: int| (tos[i], vals[i])))),
    ensures
        r.len() == froms.to_set().len(),
        clones_are_equal::<NId>() && clones_are_equal::<E>() ==> {
            &&& forall|i: int, j: int|
                0 <= i < r.len() && 0 <= j < r.len() && i != j ==> #[trigger] r[i].0 != #[trigger] r[j].0
            &&& forall|p: (NId, NId, E)| #[trigger]
                r.contains(p) <==> exists|i: int|
                    is_last_of(froms, i) && p == (froms[i], tos[i], vals[i])
        },
{
    let es = Seq::new(froms.len(), |i: int| (tos[i], vals[i]));
    let m = inserted_all(Map::empty(), froms, es);
    lemma_inserted_all(froms, es);
    lemma_listed_edges(r, m);
    if clones_are_equal::<NId>() && clones_are_equal::<E>() {
        assert forall|p: (NId, NId, E)| #[trigger]
            r.contains(p) implies exists|i: int|
                is_last_of(froms, i) && p == (froms[i], tos[i], vals[i]) by {
            assert(froms.to_set().contains(p.0));
            let i = choose|i: int| is_last_of(froms, i) && froms[i] == p.0;
            assert(m[froms[i]] == es[i]);
            assert(p == (froms[i], tos[i], vals[i]));
        }
        assert forall|p: (NId, NId, E)|
            (exists|i: int| is_last_of(froms, i) && p == (froms[i], tos[i], vals[i])) implies
            #[trigger] r.contains(p) by {
            let i = choose|i: int| is_last_of(froms, i) && p == (froms[i], tos[i], vals[i]);
            assert(froms.to_set().contains(froms[i]));
            assert(m[froms[i]] == es[i]);
        }
    }
}

/// Listing a graph's nodes twice, with no change in between, gives the same
/// number of pairs; where clones are equal to their originals, both listings
/// hold the same pairs, each once, so they differ at most in order.
pub proof fn lemma_all_nodes_repeatable<NId: Eq + Clone, N: Clone, E>(
    g: Graph<NId, N, E>,
    r1: Seq<(NId, N)>,
    r2: Seq<(NId, N)>,
)
    requires
        lists_nodes(r1, g@.nodes),
        lists_nodes(r2, g@.nodes),
    ensures
        r1.len() == r2.len(),
        clones_are_equal::<NId>() && clones_are_equal::<N>() ==> {
            &&& r1.no_duplicates()
            &&& r2.no_duplicates()
            &&& r1.to_set() == r2.to_set()
        },
{
    lemma_listed_nodes(r1, g@.nodes);
    lemma_listed_nodes(r2, g@.nodes);
    if clones_are_equal::<NId>() && clones_are_equal::<N>() {
        assert(r1.to_set() =~= r2.to_set());
    }
}

/// Listing a graph's edges twice, with no change in between, gives the same
/// number of triples; where clones are equal to their originals, both
/// listings hold the same triples, each once, so they differ at most in order.
pub proof fn lemma_all_edges_repeatable<NId: Eq + Clone, N, E: Clone>(
    g: Graph<NId, N, E>,
    r1: Seq<(NId, NId, E)>,
    r2: Seq<(NId, NId, E)>,
)
    requires
        lists_edges(r1, g@.edges),
        lists_edges(r2, g@.edges),
    ensures
        r1.len() == r2.len(),
        clones_are_equal::<NId>() && clones_are_equal::<E>() ==> {
            &&& r1.no_duplicates()
            &&& r2.no_duplicates()
            &&& r1.to_set() == r2.to_set()
        },
{
    lemma_listed_edges(r1, g@.edges);
    lemma_listed_edges(r2, g@.edges);
    if clones_are_equal::<NId>() && clones_are_equal::<E>() {
        assert(r1.to_set() =~= r2.to_set());
    }
}

} // verus!
