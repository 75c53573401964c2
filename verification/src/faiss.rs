//! A graph that FAISS has built, as plain numbers.
use vstd::prelude::*;

use crate::bounded::{arrange, lemma_arrange, BoundedNearest};
use crate::graph::{GraphModel, HnswGraph, HnswGraphBuilder, Links, VectorHnswNode};
use crate::store::VectorStoreImpl;
use crate::vector::{MeasureDistanceBuilder, VectorDistance};

verus! {

/// The graph of a FAISS index.
pub struct FaissHnsw {
    /// The node at which a search starts, with its top level.
    pub entry_point: Option<(usize, usize)>,
    /// The number of levels of each node.
    pub levels: Vec<usize>,
    /// The neighbours of each node, level by level.
    pub neighbors: Vec<Vec<Vec<usize>>>,
}

impl FaissHnsw {
    /// There are neighbours for each level of each of `n` nodes, and they are
    /// among these nodes.
    pub open spec fn describes(&self, n: nat) -> bool {
        &&& self.levels@.len() == n
        &&& self.neighbors@.len() >= n
        &&& forall|i: int|
            0 <= i < n ==> self.levels@[i] <= (#[trigger] self.neighbors@[i])@.len()
        &&& forall|i: int, l: int, k: int|
            0 <= i < n && 0 <= l < self.levels@[i] && 0 <= k < self.neighbors@[i]@[l]@.len() ==> (
            #[trigger] self.neighbors@[i]@[l]@[k]) < n
    }

    /// The number of levels of each node.
    pub fn levels_raw(&self) -> (r: &Vec<usize>)
        ensures
            r == self.levels,
    {
        &self.levels
    }

    /// The neighbours of a node on a level.
    pub fn neighbors_raw(&self, node: usize, level: usize) -> (r: &Vec<usize>)
        requires
            node < self.neighbors@.len(),
            level < self.neighbors@[node as int]@.len(),
        ensures
            r == self.neighbors@[node as int]@[level as int],
    {
        &self.neighbors[node][level]
    }
}

/// The neighbours of a node, each with its distance from the node.
pub open spec fn measured<M: MeasureDistanceBuilder>(
    store: VectorStoreImpl,
    node: int,
    neighbors: Seq<usize>,
) -> Links {
    Seq::new(
        neighbors.len(),
        |k: int|
            (M::spec_distance(store@[node].vector, store@[neighbors[k] as int].vector), neighbors[k]),
    )
}

/// The links of a node of a FAISS graph, measured by `M` and nearest first.
pub open spec fn imported_node<M: MeasureDistanceBuilder>(
    store: VectorStoreImpl,
    f: FaissHnsw,
    node: int,
) -> Seq<Links> {
    Seq::new(
        f.levels@[node] as nat,
        |l: int| arrange(measured::<M>(store, node, f.neighbors@[node]@[l]@)),
    )
}

/// The graph of a FAISS index over the vectors of a store.
pub open spec fn imported<M: MeasureDistanceBuilder>(
    store: VectorStoreImpl,
    f: FaissHnsw,
) -> GraphModel {
    GraphModel {
        entrypoint: (f.entry_point->0).0,
        nodes: Seq::new(f.levels@.len(), |i: int| imported_node::<M>(store, f, i)),
    }
}

/// A graph that is taken over has the entry point, the nodes and the levels that
/// FAISS gives it.
pub proof fn law_import_takes_over_every_level<M: MeasureDistanceBuilder>(
    store: VectorStoreImpl,
    f: FaissHnsw,
    i: int,
)
    requires
        f.entry_point is Some,
        0 <= i < f.levels@.len(),
    ensures
        f.entry_point == Some((imported::<M>(store, f).entrypoint, (f.entry_point->0).1)),
        imported::<M>(store, f).nodes.len() == f.levels@.len(),
        imported::<M>(store, f).nodes[i].len() == f.levels@[i],
{
}

/// In a graph that is taken over, the links of a node on each of its levels are
/// in order of distance, and are one for each neighbour that FAISS gives it there,
/// with the distance from the node's vector to the neighbour's.
pub proof fn law_import_takes_over_every_link<M: MeasureDistanceBuilder>(
    store: VectorStoreImpl,
    f: FaissHnsw,
    i: int,
    level: int,
)
    requires
        0 <= i < f.levels@.len(),
        0 <= level < f.levels@[i],
    ensures
        ({
            let g = imported::<M>(store, f);
            let links = g.nodes[i][level];
            let given = f.neighbors@[i]@[level]@;
            &&& forall|a: int, b: int|
                0 <= a <= b < links.len() ==> (#[trigger] links[a]).0 <= (#[trigger] links[b]).0
            &&& links.to_multiset() == given.map_values(
                |j: usize|
                    (M::spec_distance(store@[i].vector, store@[j as int].vector), j),
            ).to_multiset()
        }),
{
    let given = f.neighbors@[i]@[level]@;
    lemma_arrange(measured::<M>(store, i, given));
    assert(measured::<M>(store, i, given) =~= given.map_values(
        |j: usize| (M::spec_distance(store@[i].vector, store@[j as int].vector), j),
    ));
}

/// Measures the neighbours of a node on one level, nearest first.
fn import_level<M: MeasureDistanceBuilder>(
    store: &VectorStoreImpl,
    node: usize,
    neighbors: &Vec<usize>,
) -> (r: BoundedNearest<usize>)
    requires
        store.packed(),
        node < store@.len(),
        forall|k: int| 0 <= k < neighbors@.len() ==> (#[trigger] neighbors@[k]) < store@.len(),
    ensures
        r.wf(),
        r.capacity == neighbors@.len(),
        r@ == arrange(measured::<M>(*store, node as int, neighbors@)),
{
    let ghost all = measured::<M>(*store, node as int, neighbors@);
    let mut nearest: BoundedNearest<usize> = BoundedNearest::new(neighbors.len());
    let mut k: usize = 0;
    assert(all.take(0) =~= Seq::empty());
    while k < neighbors.len()
        invariant
            store.packed(),
            node < store@.len(),
            forall|j: int| 0 <= j < neighbors@.len() ==> (#[trigger] neighbors@[j]) < store@.len(),
            all == measured::<M>(*store, node as int, neighbors@),
            k <= neighbors@.len(),
            nearest.wf(),
            nearest.capacity == neighbors@.len(),
            nearest@ == arrange(all.take(k as int)),
        decreases neighbors@.len() - k,
    {
        let neighbor: usize = neighbors[k];
        assert(neighbors@[k as int] < store@.len());
        let distance: VectorDistance = M::distance(store.vec_ref(node), store.vec_ref(neighbor));
        proof {
            let before = all.take(k as int);
            let after = all.take(k + 1);
            assert(after.drop_last() =~= before);
            assert(after.last() == (distance, neighbor));
            crate::bounded::lemma_arrange(before);
            crate::bounded::lemma_insert_ordered(arrange(before), distance, neighbor);
        }
        nearest.insert(distance, neighbor);
        k = k + 1;
    }
    assert(all.take(k as int) =~= all);
    nearest
}

/// Measures the neighbours of a node on each of its levels.
fn import_node<M: MeasureDistanceBuilder>(
    store: &VectorStoreImpl,
    faiss_hnsw: &FaissHnsw,
    node: usize,
) -> (r: VectorHnswNode)
    requires
        store.packed(),
        faiss_hnsw.describes(store@.len()),
        node < store@.len(),
    ensures
        r.wf(),
        r@ == imported_node::<M>(*store, *faiss_hnsw, node as int),
        r.capacities() == Seq::new(
            faiss_hnsw.levels@[node as int] as nat,
            |l: int| faiss_hnsw.neighbors@[node as int]@[l]@.len(),
        ),
{
    let level_count: usize = faiss_hnsw.levels_raw()[node];
    let ghost all = imported_node::<M>(*store, *faiss_hnsw, node as int);
    let mut level_neighbours: Vec<BoundedNearest<usize>> = Vec::new();
    let mut level: usize = 0;
    assert(level_count <= faiss_hnsw.neighbors@[node as int]@.len());
    while level < level_count
        invariant
            store.packed(),
            faiss_hnsw.describes(store@.len()),
            node < store@.len(),
            level_count == faiss_hnsw.levels@[node as int],
            level_count <= faiss_hnsw.neighbors@[node as int]@.len(),
            all == imported_node::<M>(*store, *faiss_hnsw, node as int),
            level <= level_count,
            level_neighbours@.len() == level,
            forall|l: int|
                0 <= l < level ==> {
                    let b = #[trigger] level_neighbours@[l];
                    &&& b.wf()
                    &&& b@ == all[l]
                    &&& b.capacity == faiss_hnsw.neighbors@[node as int]@[l]@.len()
                },
        decreases level_count - level,
    {
        let neighbors = faiss_hnsw.neighbors_raw(node, level);
        assert forall|k: int| 0 <= k < neighbors@.len() implies (#[trigger] neighbors@[k])
            < store@.len() by {
            assert(faiss_hnsw.neighbors@[node as int]@[level as int]@[k] < store@.len());
        }
        level_neighbours.push(import_level::<M>(store, node, neighbors));
        level = level + 1;
    }
    let r = VectorHnswNode { level_neighbours };
    assert(r@ =~= all);
    assert(r.capacities() =~= Seq::new(
        faiss_hnsw.levels@[node as int] as nat,
        |l: int| faiss_hnsw.neighbors@[node as int]@[l]@.len(),
    ));
    r
}

/// Takes the graph of a FAISS index over, with the distances measured anew.
pub fn import_graph<M: MeasureDistanceBuilder>(
    store: &VectorStoreImpl,
    faiss_hnsw: &FaissHnsw,
    entrypoint: usize,
) -> (r: HnswGraphBuilder)
    requires
        store.packed(),
        faiss_hnsw.describes(store@.len()),
        faiss_hnsw.entry_point is Some,
        entrypoint == (faiss_hnsw.entry_point->0).0,
    ensures
        r@ == imported::<M>(*store, *faiss_hnsw),
        forall|i: int| 0 <= i < r.nodes@.len() ==> (#[trigger] r.nodes@[i]).wf(),
        r.capacities() == Seq::new(
            store@.len(),
            |i: int|
                Seq::new(
                    faiss_hnsw.levels@[i] as nat,
                    |l: int| faiss_hnsw.neighbors@[i]@[l]@.len(),
                ),
        ),
{
    let ghost all = imported::<M>(*store, *faiss_hnsw).nodes;
    let ghost caps = Seq::new(
        store@.len(),
        |i: int|
            Seq::new(faiss_hnsw.levels@[i] as nat, |l: int| faiss_hnsw.neighbors@[i]@[l]@.len()),
    );
    let mut nodes: Vec<VectorHnswNode> = Vec::new();
    let mut node: usize = 0;
    while node < faiss_hnsw.levels_raw().len()
        invariant
            store.packed(),
            faiss_hnsw.describes(store@.len()),
            all == imported::<M>(*store, *faiss_hnsw).nodes,
            caps == Seq::new(
                store@.len(),
                |i: int|
                    Seq::new(
                        faiss_hnsw.levels@[i] as nat,
                        |l: int| faiss_hnsw.neighbors@[i]@[l]@.len(),
                    ),
            ),
            node <= faiss_hnsw.levels@.len(),
            nodes@.len() == node,
            forall|i: int|
                0 <= i < node ==> {
                    let n = #[trigger] nodes@[i];
                    n.wf() && n@ == all[i] && n.capacities() == caps[i]
                },
        decreases faiss_hnsw.levels@.len() - node,
    {
        nodes.push(import_node::<M>(store, faiss_hnsw, node));
        node = node + 1;
    }
    let r = HnswGraphBuilder { entrypoint, nodes };
    assert(r@.nodes =~= all);
    assert(r.capacities() =~= caps);
    r
}

} // verus!
