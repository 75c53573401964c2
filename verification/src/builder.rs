//! The index: a store of vectors and the graph over it.
use vstd::prelude::*;
use vstd::string::StringExecFns;

use crate::bounded::keep_first;
use crate::faiss::{import_graph, imported, FaissHnsw};
use crate::graph::{new_node, GraphModel, HnswGraph, HnswGraphBuilder};
use crate::growth::{distances_among, grown, Given};
use crate::insertion::{connect, found_links, insert_graph, insertion_end};
use crate::listing::{list_graph, listing};
use crate::options::HnswBuilderOptions;
use crate::search::{
    distances, made_by, nearest, search_end, search_read_fails, search_reads_succeed, takes_stored,
};
use crate::shape::{bucket_count, edges, summarize, GraphShapeSummary};
use crate::stats::HnswStats;
use crate::store::{HummockResult, Record, VectorStore, VectorStoreImpl};
use crate::vector::{MeasureDistanceBuilder, VectorDistance, VectorItem, VectorRef};

verus! {

/// An index of vectors by distance `M`: the store that keeps them, and the graph
/// over them once there is a first one.
pub struct HnswBuilder<V: VectorStore, G: HnswGraph, M: MeasureDistanceBuilder> {
    pub options: HnswBuilderOptions,
    pub vector_store: V,
    pub graph: Option<G>,
    pub _measure: core::marker::PhantomData<M>,
}

impl<M: MeasureDistanceBuilder> HnswBuilder<VectorStoreImpl, HnswGraphBuilder, M> {
    /// The graph has one node for each vector of the store.
    pub open spec fn matched(&self) -> bool {
        &&& self.vector_store.packed()
        &&& match self.graph {
            Some(g) => g@.len() == self.vector_store@.len(),
            None => self.vector_store@.len() == 0,
        }
    }

    /// The graph has one node for each vector of the store, and hangs together.
    pub open spec fn in_step(&self) -> bool {
        &&& self.matched()
        &&& self.graph matches Some(g) ==> g.wf()
    }

    /// The index is the one that these insertions make of an empty one.
    pub open spec fn built_from(&self, xs: Seq<Given>) -> bool {
        let index = grown::<M>(self.options, xs);
        &&& self.in_step()
        &&& self.vector_store@ == index.records
        &&& match self.graph {
            Some(g) => index.graph == Some(g@) && index.capacities == g.capacities(),
            None => index.graph is None && index.capacities.len() == 0,
        }
    }

    /// An empty index for vectors of a dimension.
    pub fn new(dimension: usize, options: HnswBuilderOptions) -> (r: Self)
        ensures
            r.in_step(),
            r.built_from(Seq::empty()),
            r.options == options,
            r.graph is None,
            r.vector_store.dimension == dimension,
            r.vector_store@ == Seq::<Record>::empty(),
    {
        HnswBuilder {
            options,
            vector_store: VectorStoreImpl::new(dimension),
            graph: None,
            _measure: core::marker::PhantomData,
        }
    }

    /// The index with the graph that FAISS has built over the same vectors.
    pub fn with_faiss_hnsw(self, faiss_hnsw: FaissHnsw) -> (r: Self)
        requires
            self.matched(),
            faiss_hnsw.entry_point is Some,
            faiss_hnsw.describes(self.vector_store@.len()),
        ensures
            r.options == self.options,
            r.matched(),
            r.vector_store.dimension == self.vector_store.dimension,
            r.vector_store@ == self.vector_store@,
            r.in_step() == (self.graph is None || imported::<M>(
                self.vector_store,
                faiss_hnsw,
            ).wf()),
            match r.graph {
                Some(g) => {
                    &&& self.graph is Some
                    &&& g@ == imported::<M>(self.vector_store, faiss_hnsw)
                    &&& forall|i: int| 0 <= i < g.nodes@.len() ==> (#[trigger] g.nodes@[i]).wf()
                    &&& g.capacities() == Seq::new(
                        self.vector_store@.len(),
                        |i: int|
                            Seq::new(
                                faiss_hnsw.levels@[i] as nat,
                                |l: int| faiss_hnsw.neighbors@[i]@[l]@.len(),
                            ),
                    )
                },
                None => self.graph is None,
            },
    {
        if self.graph.is_none() {
            return Self::new(self.vector_store.dimension, self.options);
        }
        let (entry_point, _) = faiss_hnsw.entry_point.unwrap();
        let graph = import_graph::<M>(&self.vector_store, &faiss_hnsw, entry_point);
        HnswBuilder {
            options: self.options,
            vector_store: self.vector_store,
            graph: Some(graph),
            _measure: core::marker::PhantomData,
        }
    }

    /// The text that lists the graph.
    pub fn print_graph(&self) -> (r: String)
        requires
            self.graph matches Some(g) ==> g@.entrypoint < g@.len(),
        ensures
            match self.graph {
                Some(g) => r@ == listing(g@),
                None => r@ == "empty graph\n"@,
            },
    {
        match &self.graph {
            Some(g) => list_graph(g),
            None => String::from_str("empty graph\n"),
        }
    }

    /// Adds a vector, with the bytes to be stored along with it, as a node for
    /// which the level `drawn` was drawn.
    pub fn insert(&mut self, vec: VectorRef<'_>, info: &[u8], drawn: usize) -> (r: HummockResult<
        HnswStats,
    >)
        requires
            old(self).in_step(),
            old(self).options.valid(),
            old(self).options.top_level(drawn) < usize::MAX,
            vec@.len() == old(self).vector_store.dimension,
            old(self).graph matches Some(g) ==> g@.countable(),
        ensures
            final(self).in_step(),
            final(self).options == old(self).options,
            final(self).vector_store.dimension == old(self).vector_store.dimension,
            final(self).vector_store@ == old(self).vector_store@.push(
                Record { vector: vec@, info: info@ },
            ),
            forall|xs: Seq<Given>| #[trigger]
                old(self).built_from(xs) ==> final(self).built_from(
                    xs.push(Given { vector: vec@, info: info@, drawn }),
                ),
            r is Ok,
            final(self).graph is Some,
            ({
                let capacities = old(self).options.capacities(drawn);
                let after = final(self).graph->0;
                match old(self).graph {
                    Some(before) => {
                        let g = before@;
                        let ef = old(self).options.ef_construction as nat;
                        let dist = distances::<M, VectorStoreImpl>(
                            &old(self).vector_store,
                            vec@,
                            g.len(),
                        );
                        let end = insertion_end(g, capacities.len(), dist, ef, 0);
                        &&& after@ == connect(
                            g,
                            before.capacities(),
                            found_links(g, capacities, dist, ef),
                        )
                        &&& after.capacities() == before.capacities().push(capacities)
                        &&& r->Ok_0.distances_computed == end.computed
                        &&& r->Ok_0.nhops == end.hops
                    },
                    None => {
                        &&& after@ == (GraphModel {
                            entrypoint: 0,
                            nodes: seq![Seq::new(capacities.len(), |l: int| Seq::empty())],
                        })
                        &&& after.capacities() == seq![capacities]
                        &&& r->Ok_0.distances_computed == 0
                        &&& r->Ok_0.nhops == 0
                    },
                }
            }),
    {
        let node = new_node(&self.options, drawn);
        let ghost fresh = node;
        let stats: HnswStats = match self.graph.take() {
            Some(mut graph) => {
                let r = insert_graph::<M, VectorStoreImpl>(
                    &self.vector_store,
                    &mut graph,
                    node,
                    vec,
                    self.options.ef_construction,
                );
                self.graph = Some(graph);
                match r {
                    Ok(stats) => stats,
                    Err(e) => {
                        return Err(e);
                    },
                }
            },
            None => {
                let first = HnswGraphBuilder::first(node);
                proof {
                    let bare = Seq::new(
                        self.options.capacities(drawn).len(),
                        |l: int| Seq::<(VectorDistance, usize)>::empty(),
                    );
                    assert forall|l: int| 0 <= l < fresh@.len() implies fresh@[l] == bare[l] by {
                        assert(fresh.level_neighbours@[l]@.len() == 0);
                        assert(fresh@[l] =~= bare[l]);
                    }
                    assert(fresh@ =~= bare);
                    assert(first@.nodes =~= seq![bare]);
                }
                self.graph = Some(first);
                HnswStats::default()
            },
        };
        self.vector_store.add(vec, info);
        proof {
            let x = Given { vector: vec@, info: info@, drawn };
            assert forall|xs: Seq<Given>| #[trigger] old(self).built_from(xs) implies self.built_from(
                xs.push(x),
            ) by {
                let ys = xs.push(x);
                let index = grown::<M>(self.options, xs);
                assert(ys.drop_last() =~= xs);
                match old(self).graph {
                    Some(before) => {
                        assert(distances::<M, VectorStoreImpl>(
                            &old(self).vector_store,
                            vec@,
                            before@.len(),
                        ) =~= distances_among::<M>(vec@, index.records));
                    },
                    None => {
                        assert(index.capacities =~= Seq::empty());
                        assert(index.capacities.push(self.options.capacities(drawn)) =~= seq![
                            self.options.capacities(drawn),
                        ]);
                    },
                }
            }
        }
        Ok(stats)
    }
}

impl<V: VectorStore, G: HnswGraph, M: MeasureDistanceBuilder> HnswBuilder<V, G, M> {
    /// Searches the index for the vectors nearest to `q`, and hands out what
    /// `on_nearest` made of them, nearest first and at most `top_n` of them. The
    /// search keeps the `ef_search` nearest nodes that it comes across.
    pub fn search<O, F: Fn(VectorRef<'_>, VectorDistance, &[u8]) -> O>(
        &self,
        q: VectorRef<'_>,
        on_nearest: F,
        ef_search: usize,
        top_n: usize,
    ) -> (r: HummockResult<(Vec<O>, HnswStats)>)
        requires
            self.graph is Some,
            self.vector_store.wf(),
            self.graph->0.view().wf(),
            self.graph->0.view().countable(),
            self.graph->0.view().len() <= self.vector_store.spec_len(),
            takes_stored::<O, M, V, F>(
                &self.vector_store,
                self.graph->0.view().len(),
                q@,
                on_nearest,
            ),
        ensures
            self.vector_store.always_reads() ==> r is Ok,
            r matches Err(e) ==> search_read_fails(
                &self.vector_store,
                self.graph->0.view(),
                distances::<M, V>(&self.vector_store, q@, self.graph->0.view().len()),
                ef_search as nat,
                e,
            ),
            r matches Ok((outputs, stats)) ==> {
                let g = self.graph->0.view();
                let dist = distances::<M, V>(&self.vector_store, q@, g.len());
                let end = search_end(g, dist, ef_search as nat);
                let hits = keep_first(end.nearest, top_n as nat);
                &&& search_reads_succeed(&self.vector_store, g, dist, ef_search as nat)
                &&& outputs@.len() == hits.len()
                &&& forall|i: int|
                    0 <= i < hits.len() ==> made_by(
                        on_nearest,
                        self.vector_store.vector_at(hits[i].1 as int),
                        hits[i].0,
                        self.vector_store.info_at(hits[i].1 as int),
                        #[trigger] outputs@[i],
                    )
                &&& stats.distances_computed == end.computed
                &&& stats.nhops == end.hops
            },
    {
        let g = self.graph.as_ref().expect(
            "HNSW graph is empty; insert at least one vector before searching",
        );
        nearest::<O, M, V, G, F>(&self.vector_store, g, q, on_nearest, ef_search, top_n)
    }

    /// Summarize the current graph topology without exposing internal fields.
    /// `max_levels` caps the histogram size.
    pub fn graph_shape(&self, max_levels: usize) -> (r: Option<GraphShapeSummary>)
        requires
            self.graph matches Some(g) ==> {
                &&& g.view().sized()
                &&& edges(g.view(), g.view().len()) <= usize::MAX
            },
        ensures
            match (self.graph, r) {
                (Some(g), Some(s)) => {
                    let m = g.view();
                    &&& s.level_histogram@.len() == if max_levels == 0 {
                        1
                    } else {
                        max_levels as nat
                    }
                    &&& forall|b: int|
                        0 <= b < s.level_histogram@.len() ==> #[trigger] s.level_histogram@[b]
                            == bucket_count(m, s.level_histogram@.len(), b, m.len())
                    &&& s.total_edges == edges(m, m.len())
                    &&& s.node_count == m.len()
                },
                (None, None) => true,
                _ => false,
            },
    {
        match &self.graph {
            Some(g) => Some(summarize(g, max_levels)),
            None => None,
        }
    }
}

/// Two indices with the same options that were built from the same insertions
/// hold the same vectors and the same graph, and answer every query alike.
pub proof fn law_same_insertions_same_answers<M: MeasureDistanceBuilder>(
    a: HnswBuilder<VectorStoreImpl, HnswGraphBuilder, M>,
    b: HnswBuilder<VectorStoreImpl, HnswGraphBuilder, M>,
    xs: Seq<Given>,
    query: Seq<VectorItem>,
    ef_search: nat,
)
    requires
        a.options == b.options,
        a.built_from(xs),
        b.built_from(xs),
    ensures
        a.vector_store@ == b.vector_store@,
        a.graph is Some == b.graph is Some,
        a.graph is Some ==> {
            let g = a.graph->0@;
            let h = b.graph->0@;
            &&& g == h
            &&& search_end(
                g,
                distances::<M, VectorStoreImpl>(&a.vector_store, query, g.len()),
                ef_search,
            ) == search_end(
                h,
                distances::<M, VectorStoreImpl>(&b.vector_store, query, h.len()),
                ef_search,
            )
        },
{
    if a.graph is Some {
        assert(distances::<M, VectorStoreImpl>(&a.vector_store, query, a.graph->0@.len())
            =~= distances::<M, VectorStoreImpl>(&b.vector_store, query, b.graph->0@.len()));
    }
}

/// An index that was built from insertions reads back each vector, and the bytes
/// that were stored along with it, as it was inserted, in order.
pub proof fn law_index_gives_back_what_was_inserted<M: MeasureDistanceBuilder>(
    b: HnswBuilder<VectorStoreImpl, HnswGraphBuilder, M>,
    xs: Seq<Given>,
    i: int,
)
    requires
        b.built_from(xs),
        0 <= i < xs.len(),
    ensures
        b.vector_store.spec_len() == xs.len(),
        b.vector_store.vector_at(i) == xs[i].vector,
        b.vector_store.info_at(i) == xs[i].info,
        b.graph is Some,
        b.graph->0@.nodes.len() == xs.len(),
        b.graph->0@.nodes[i].len() == if xs[i].drawn <= b.options.max_level {
            xs[i].drawn + 1
        } else {
            b.options.max_level + 1
        },
{
    lemma_grown_holds::<M>(b.options, xs, i);
    let g = b.graph->0;
    assert(g.nodes@.len() == g.capacities().len());
    assert(g.capacities()[i] == g.nodes@[i].capacities());
    assert(g@.nodes[i] == g.nodes@[i]@);
    assert(g.nodes@[i]@.len() == g.nodes@[i].capacities().len());
}

proof fn lemma_grown_holds<M: MeasureDistanceBuilder>(
    options: HnswBuilderOptions,
    xs: Seq<Given>,
    i: int,
)
    requires
        0 <= i < xs.len(),
    ensures
        ({
            let index = grown::<M>(options, xs);
            &&& index.graph is Some
            &&& index.records.len() == xs.len()
            &&& index.capacities.len() == xs.len()
            &&& index.records[i] == (Record { vector: xs[i].vector, info: xs[i].info })
            &&& index.capacities[i] == options.capacities(xs[i].drawn)
        }),
    decreases xs.len(),
{
    let before = xs.drop_last();
    if i < before.len() {
        lemma_grown_holds::<M>(options, before, i);
        assert(before[i] == xs[i]);
    } else if before.len() > 0 {
        lemma_grown_holds::<M>(options, before, 0);
    }
}

} // verus!
