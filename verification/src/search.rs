//! The search for the nearest vectors.
use vstd::prelude::*;

use crate::bounded::{admits, insert_bounded, keep_first};
use crate::graph::{GraphModel, HnswGraph};
use crate::layer::{
    enter, level_reads, met, over, search_to_end, settle, supply, waiting, LayerState,
};
use crate::layer_search::{LayerSearch, Step};
use crate::stats::HnswStats;
use crate::store::{HummockError, HummockResult, VectorAccessor, VectorStore};
use crate::trace::{lemma_asked_is_met, lemma_measured_stays, lemma_measured_were_read};
use crate::vector::{MeasureDistance, MeasureDistanceBuilder, VectorDistance, VectorItem, VectorRef};
use crate::walk::{lemma_reads_come_first, lemma_supply_same_end, start, walk, walk_reads, Plan};

verus! {

/// A search looks for `ef_search` nodes on the ground, and for one above.
pub open spec fn search_plan(ef_search: nat) -> Plan {
    Plan { wide: 1, ef: ef_search }
}

/// The state in which a search for the nearest nodes ends, where `dist` gives
/// the distance of each node.
pub open spec fn search_end(
    g: GraphModel,
    dist: Seq<VectorDistance>,
    ef_search: nat,
) -> LayerState {
    walk(
        g,
        search_plan(ef_search),
        dist,
        start(g, dist[g.entrypoint as int], true),
        0,
    )
}

/// A search for the nearest nodes, in progress.
pub struct NearestSearch<O> {
    pub layer: LayerSearch<O>,
    pub ef_search: usize,
}

impl<O> NearestSearch<O> {
    /// The level that the search has come down to.
    pub open spec fn level(&self) -> int {
        self.layer.level as int
    }

    /// The state of the search on that level.
    pub open spec fn view(&self) -> LayerState {
        self.layer@
    }

    /// What was made of each of the nearest nodes, with the node and its distance.
    pub open spec fn hits(&self) -> Seq<(VectorDistance, (usize, O))> {
        self.layer.nearest@
    }

    /// How many nearest nodes are looked for on each level.
    pub open spec fn plan(&self) -> Plan {
        search_plan(self.ef_search as nat)
    }

    /// The search is one on this graph.
    pub open spec fn wf(&self, g: GraphModel) -> bool {
        &&& self.layer.wf(g)
        &&& self.layer.ef() == self.plan().width(self.level())
        &&& 0 <= self.level() <= g.top()
    }

    /// Starts at the entrypoint of the graph, which is at `distance` and of
    /// which `output` was made.
    pub fn new<G: HnswGraph>(
        graph: &G,
        distance: VectorDistance,
        output: O,
        ef_search: usize,
    ) -> (r: Self)
        requires
            graph.view().wf(),
            graph.view().countable(),
        ensures
            r.wf(graph.view()),
            r.ef_search == ef_search,
            r.level() == graph.view().top(),
            r@ == enter(
                start(graph.view(), distance, true),
                r.plan().width(graph.view().top() as int),
            ),
            r.hits() == keep_first(
                seq![(distance, (graph.view().entrypoint, output))],
                r.plan().width(graph.view().top() as int),
            ),
    {
        let mut layer = LayerSearch::start(graph, distance, output, true);
        let level: usize = layer.level;
        let ef: usize = if level == 0 {
            ef_search
        } else {
            1
        };
        proof {
            crate::walk::lemma_start_inv(graph.view(), distance, true, ef as nat);
        }
        layer.enter(level, ef);
        NearestSearch { layer, ef_search }
    }

    /// Goes on until a distance is needed or the search of a level is over, and
    /// goes down a level then.
    pub fn next<G: HnswGraph>(&mut self, graph: &G) -> (r: Step)
        requires
            old(self).wf(graph.view()),
        ensures
            final(self).wf(graph.view()),
            final(self).ef_search == old(self).ef_search,
            ({
                let s = settle(graph.view(), old(self).level(), old(self)@);
                match r {
                    Step::Fetch(v) => {
                        &&& waiting(s)
                        &&& v == s.pending[0]
                        &&& v < graph.view().len()
                        &&& final(self).level() == old(self).level()
                        &&& final(self)@ == s
                        &&& final(self).hits() == old(self).hits()
                    },
                    Step::Level(l) => {
                        &&& over(s)
                        &&& l == old(self).level() - 1
                        &&& final(self).level() == l
                        &&& final(self)@ == enter(s, old(self).plan().width(l as int))
                        &&& final(self).hits() == keep_first(
                            old(self).hits(),
                            old(self).plan().width(l as int),
                        )
                    },
                    Step::Done => {
                        &&& over(s)
                        &&& old(self).level() == 0
                        &&& final(self).level() == 0
                        &&& final(self)@ == s
                        &&& final(self).hits() == old(self).hits()
                    },
                }
            }),
    {
        let ghost g = graph.view();
        match self.layer.advance(graph) {
            Some(v) => Step::Fetch(v),
            None => {
                if self.layer.level == 0 {
                    return Step::Done;
                }
                let level: usize = self.layer.level - 1;
                let ef: usize = if level == 0 {
                    self.ef_search
                } else {
                    1
                };
                let ghost st = self@;
                let ghost hits = self.hits();
                proof {
                    crate::layer::lemma_enter_inv(
                        g,
                        self.level(),
                        self.layer.ef(),
                        st,
                        level as int,
                        ef as nat,
                    );
                    assert forall|k: int| 0 <= k < hits.len() implies (#[trigger] hits[k]).1.0
                        < g.len() by {
                        assert(st.nearest[k] == (hits[k].0, hits[k].1.0));
                        assert(met(g, self.level(), st.visited, st.nearest[k].1));
                    }
                }
                self.layer.enter(level, ef);
                Step::Level(level)
            },
        }
    }

    /// Whether a node at this distance would be among the nearest.
    pub fn admits(&self, distance: VectorDistance) -> (r: bool)
        ensures
            r == admits(self@.nearest, self.layer.ef(), distance),
    {
        self.layer.admits(distance)
    }

    /// Tells the distance of the node that the search waits for, and what was
    /// made of the node where it is among the nearest.
    pub fn supply(&mut self, distance: VectorDistance, output: Option<O>)
        requires
            exists|g: GraphModel| old(self).wf(g),
            waiting(old(self)@),
            output is Some <==> admits(old(self)@.nearest, old(self).layer.ef(), distance),
        ensures
            forall|g: GraphModel| #[trigger] old(self).wf(g) ==> final(self).wf(g),
            final(self)@ == supply(old(self)@, old(self).layer.ef(), distance),
            final(self).level() == old(self).level(),
            final(self).ef_search == old(self).ef_search,
            match output {
                Some(o) => final(self).hits() == insert_bounded(
                    old(self).hits(),
                    old(self).layer.ef(),
                    distance,
                    (old(self)@.pending[0], o),
                ),
                None => final(self).hits() == old(self).hits(),
            },
    {
        proof {
            let g = choose|g: GraphModel| old(self).wf(g);
            assert(self.layer.wf(g));
        }
        self.layer.supply(distance, output);
        proof {
            assert forall|g: GraphModel| #[trigger] old(self).wf(g) implies self.wf(g) by {
                assert(old(self).layer.wf(g));
            }
        }
    }

    /// Hands out what was made of the nearest nodes, nearest first and at most
    /// `top_n` of them, and what the search cost.
    pub fn finish(self, top_n: usize) -> (r: (Vec<O>, HnswStats))
        ensures
            ({
                let kept = keep_first(self.hits(), top_n as nat);
                &&& r.0@.len() == kept.len()
                &&& forall|i: int| 0 <= i < kept.len() ==> #[trigger] r.0@[i] == kept[i].1.1
            }),
            r.1 == self.layer.stats,
    {
        let output_of = |e: (usize, O)| -> (o: O)
            ensures
                o == e.1,
            { e.1 };
        let outputs = self.layer.nearest.collect_with(output_of, Some(top_n));
        (outputs, self.layer.stats)
    }
}

/// Whether `f` may have made `output` of a vector at distance `d` with the
/// bytes `info`.
pub open spec fn made_by<O, F: Fn(VectorRef<'_>, VectorDistance, &[u8]) -> O>(
    f: F,
    vector: Seq<VectorItem>,
    d: VectorDistance,
    info: Seq<u8>,
    output: O,
) -> bool {
    exists|v: VectorRef<'_>, i: &[u8]|
        v@ == vector && i@ == info && #[trigger] call_ensures(f, (v, d, i), output)
}

/// Whether one of the first `n` vectors of a store is `vector`, stored along
/// with the bytes `info`.
pub open spec fn stored<S: VectorStore>(
    store: &S,
    n: nat,
    vector: Seq<VectorItem>,
    info: Seq<u8>,
) -> bool {
    exists|k: int|
        0 <= k < n && #[trigger] store.vector_at(k) == vector && store.info_at(k) == info
}

/// Whether `f` takes each of the first `n` vectors of a store, at its distance
/// from a query and with its bytes.
pub open spec fn takes_stored<
    O,
    M: MeasureDistanceBuilder,
    S: VectorStore,
    F: Fn(VectorRef<'_>, VectorDistance, &[u8]) -> O,
>(store: &S, n: nat, query: Seq<VectorItem>, f: F) -> bool {
    forall|v: VectorRef<'_>, d: VectorDistance, i: &[u8]|
        stored(store, n, v@, i@) && d == M::spec_distance(query, v@) ==> #[trigger] call_requires(
            f,
            (v, d, i),
        )
}

/// The distances from a query to the first `n` vectors of a store.
pub open spec fn distances<M: MeasureDistanceBuilder, S: VectorStore>(
    store: &S,
    query: Seq<VectorItem>,
    n: nat,
) -> Seq<VectorDistance> {
    Seq::new(n, |i: int| M::spec_distance(query, store.vector_at(i)))
}

/// Whether each hit carries its node's distance and what `f` made of its vector.
pub open spec fn hits_made_by<
    O,
    S: VectorStore,
    F: Fn(VectorRef<'_>, VectorDistance, &[u8]) -> O,
>(store: &S, f: F, hits: Seq<(VectorDistance, (usize, O))>) -> bool {
    forall|k: int|
        0 <= k < hits.len() ==> {
            let (d, (v, o)) = #[trigger] hits[k];
            made_by(f, store.vector_at(v as int), d, store.info_at(v as int), o)
        }
}

/// Whether reading a vector of a store may fail with `e`.
pub open spec fn read_fails<S: VectorStore>(store: &S, i: usize, e: HummockError) -> bool {
    call_ensures(S::get_vector, (store, i), Err(e))
}

/// Whether reading a vector of a store may succeed.
pub open spec fn can_read<S: VectorStore>(store: &S, i: usize) -> bool {
    exists|r: HummockResult<S::Accessor<'_>>|
        r is Ok && #[trigger] call_ensures(S::get_vector, (store, i), r)
}

/// The vectors that a search for the nearest nodes reads, one after the other.
pub open spec fn search_reads(
    g: GraphModel,
    dist: Seq<VectorDistance>,
    ef_search: nat,
) -> Seq<usize> {
    walk_reads(
        g,
        search_plan(ef_search),
        dist,
        start(g, dist[g.entrypoint as int], true),
        0,
    )
}

/// Whether a search for the nearest nodes may be stopped by `e`: one of the
/// vectors that it reads and measures may fail with it, and all that are read
/// before may be read.
pub open spec fn search_read_fails<S: VectorStore>(
    store: &S,
    g: GraphModel,
    dist: Seq<VectorDistance>,
    ef_search: nat,
    e: HummockError,
) -> bool {
    let reads = search_reads(g, dist, ef_search);
    exists|k: int|
        0 <= k < reads.len() && reads[k] < g.len() && (search_end(
            g,
            dist,
            ef_search,
        ).measured->0)[reads[k] as int] && #[trigger] read_fails(store, reads[k], e)
            && forall|j: int| 0 <= j < k ==> can_read(store, #[trigger] reads[j])
}

/// Whether a search for the nearest nodes may read all that it asks for and
/// measures.
pub open spec fn search_reads_succeed<S: VectorStore>(
    store: &S,
    g: GraphModel,
    dist: Seq<VectorDistance>,
    ef_search: nat,
) -> bool {
    let reads = search_reads(g, dist, ef_search);
    &&& forall|j: int| 0 <= j < reads.len() ==> can_read(store, #[trigger] reads[j])
    &&& forall|i: usize|
        i < g.len() && (search_end(g, dist, ef_search).measured->0)[i as int]
            ==> #[trigger] can_read(store, i)
}

/// Searches the graph for the vectors nearest to `vec`, and hands out what
/// `on_nearest_fn` made of them, nearest first and at most `top_n` of them. The
/// search keeps the `ef_search` nearest nodes that it comes across.
pub fn nearest<
    O,
    M: MeasureDistanceBuilder,
    S: VectorStore,
    G: HnswGraph,
    F: Fn(VectorRef<'_>, VectorDistance, &[u8]) -> O,
>(
    vector_store: &S,
    graph: &G,
    vec: VectorRef<'_>,
    on_nearest_fn: F,
    ef_search: usize,
    top_n: usize,
) -> (r: HummockResult<(Vec<O>, HnswStats)>)
    requires
        vector_store.wf(),
        graph.view().wf(),
        graph.view().countable(),
        graph.view().len() <= vector_store.spec_len(),
        takes_stored::<O, M, S, F>(vector_store, graph.view().len(), vec@, on_nearest_fn),
    ensures
        vector_store.always_reads() ==> r is Ok,
        r matches Err(e) ==> search_read_fails(
            vector_store,
            graph.view(),
            distances::<M, S>(vector_store, vec@, graph.view().len()),
            ef_search as nat,
            e,
        ),
        r matches Ok((outputs, stats)) ==> {
            let dist = distances::<M, S>(vector_store, vec@, graph.view().len());
            let end = search_end(graph.view(), dist, ef_search as nat);
            let hits = keep_first(end.nearest, top_n as nat);
            &&& search_reads_succeed(vector_store, graph.view(), dist, ef_search as nat)
            &&& outputs@.len() == hits.len()
            &&& forall|i: int|
                0 <= i < hits.len() ==> made_by(
                    on_nearest_fn,
                    vector_store.vector_at(hits[i].1 as int),
                    hits[i].0,
                    vector_store.info_at(hits[i].1 as int),
                    #[trigger] outputs@[i],
                )
            &&& stats.distances_computed == end.computed
            &&& stats.nhops == end.hops
        },
{
    let ghost g = graph.view();
    let ghost dist = distances::<M, S>(vector_store, vec@, g.len());
    let ghost plan = search_plan(ef_search as nat);
    let ghost from = start(g, dist[g.entrypoint as int], true);
    let measure = M::new(vec);
    let entrypoint: usize = graph.entrypoint();
    let accessor = match vector_store.get_vector(entrypoint) {
        Ok(a) => a,
        Err(e) => {
            proof {
                assert(walk(g, plan, dist, from, g.top() as int + 1) == from);
                lemma_measured_stays(g, plan, dist, g.top() as int + 1, entrypoint as int);
                let reads = search_reads(g, dist, ef_search as nat);
                lemma_reads_come_first(g, plan, dist, from, g.top() as int + 1);
                assert(reads[0] == seq![entrypoint][0]);
                assert(read_fails(vector_store, reads[0], e));
            }
            return Err(e);
        },
    };
    let ghost mut done = seq![entrypoint];
    assert(can_read(vector_store, entrypoint));
    let distance: VectorDistance = measure.measure(accessor.vec_ref());
    let output = on_nearest_fn(accessor.vec_ref(), distance, accessor.info());
    assert(made_by(
        on_nearest_fn,
        vector_store.vector_at(entrypoint as int),
        distance,
        vector_store.info_at(entrypoint as int),
        output,
    ));
    assert(distance == dist[entrypoint as int]);
    let mut search = NearestSearch::new(graph, distance, output, ef_search);
    assert(walk(g, plan, dist, from, g.top() as int + 1) == from);
    assert(walk_reads(g, plan, dist, from, g.top() as int + 1) == done);
    loop
        invariant
            vector_store.wf(),
            g == graph.view(),
            g.len() <= vector_store.spec_len(),
            takes_stored::<O, M, S, F>(vector_store, g.len(), vec@, on_nearest_fn),
            forall|v: Seq<VectorItem>| #[trigger]
                measure.spec_measure(v) == M::spec_distance(vec@, v),
            dist == distances::<M, S>(vector_store, vec@, g.len()),
            plan == search_plan(ef_search as nat),
            from == start(g, dist[g.entrypoint as int], true),
            search@.measured is Some,
            forall|j: int| 0 <= j < done.len() ==> can_read(vector_store, #[trigger] done[j]),
            done + level_reads(g, search.level(), plan.width(search.level()), dist, search@)
                == walk_reads(g, plan, dist, from, search.level()),
            search.ef_search == ef_search,
            search.wf(g),
            hits_made_by(vector_store, on_nearest_fn, search.hits()),
            search_to_end(g, search.level(), plan.width(search.level()), dist, search@) == walk(
                g,
                plan,
                dist,
                from,
                search.level(),
            ),
        ensures
            search@ == walk(g, plan, dist, from, 0),
            done == walk_reads(g, plan, dist, from, 0),
            hits_made_by(vector_store, on_nearest_fn, search.hits()),
        decreases search.level(), crate::vec_set::count_clear(search@.visited),
    {
        let ghost before = search;
        proof {
            crate::layer::lemma_settle(g, search.level(), search@);
            crate::walk::lemma_settle_same_end(
                g,
                search.level(),
                plan.width(search.level()),
                dist,
                search@,
            );
        }
        match search.next(graph) {
            Step::Fetch(idx) => {
                let ghost st = search@;
                let ghost hits = search.hits();
                let accessor = match vector_store.get_vector(idx) {
                    Ok(a) => a,
                    Err(e) => {
                        proof {
                            let level = search.level();
                            lemma_asked_is_met(g, level, plan.width(level), dist, st);
                            lemma_measured_stays(g, plan, dist, level, idx as int);
                            let reads = search_reads(g, dist, ef_search as nat);
                            let k = done.len() as int;
                            lemma_supply_same_end(g, level, plan.width(level), dist, st);
                            lemma_reads_come_first(g, plan, dist, from, level);
                            assert(walk_reads(g, plan, dist, from, level)[k] == idx);
                            assert(read_fails(vector_store, reads[k], e));
                            assert forall|j: int| 0 <= j < k implies can_read(
                                vector_store,
                                #[trigger] reads[j],
                            ) by {
                                assert(walk_reads(g, plan, dist, from, level)[j] == done[j]);
                            }
                        }
                        return Err(e);
                    },
                };
                assert(can_read(vector_store, idx));
                let distance: VectorDistance = measure.measure(accessor.vec_ref());
                assert(distance == dist[idx as int]);
                let output: Option<O> = if search.admits(distance) {
                    let o = on_nearest_fn(accessor.vec_ref(), distance, accessor.info());
                    assert(made_by(
                        on_nearest_fn,
                        vector_store.vector_at(idx as int),
                        distance,
                        vector_store.info_at(idx as int),
                        o,
                    ));
                    proof {
                        let ef = search.layer.ef();
                        lemma_hits_insert(vector_store, on_nearest_fn, hits, ef, distance, idx, o);
                    }
                    Some(o)
                } else {
                    None
                };
                proof {
                    let ef = search.layer.ef();
                    lemma_supply_same_end(g, search.level(), ef, dist, st);
                    crate::layer::lemma_supply_inv(g, search.level(), ef, st, distance);
                    let rest = level_reads(g, search.level(), ef, dist, supply(st, ef, distance));
                    assert(done + (seq![idx] + rest) =~= done.push(idx) + rest);
                    done = done.push(idx);
                }
                search.supply(distance, output);
            },
            Step::Level(_) => {
                proof {
                    crate::walk::lemma_next_level(
                        g,
                        plan,
                        dist,
                        from,
                        before.level(),
                        before@,
                    );
                    assert(done =~= walk_reads(g, plan, dist, from, before.level()));
                    let hits = search.hits();
                    assert forall|k: int| 0 <= k < hits.len() implies ({
                        let (d, (v, o)) = #[trigger] hits[k];
                        made_by(
                            on_nearest_fn,
                            vector_store.vector_at(v as int),
                            d,
                            vector_store.info_at(v as int),
                            o,
                        )
                    }) by {
                        assert(hits[k] == before.hits()[k]);
                    }
                }
            },
            Step::Done => {
                proof {
                    crate::walk::lemma_next_level(
                        g,
                        plan,
                        dist,
                        from,
                        before.level(),
                        before@,
                    );
                    assert(done =~= walk_reads(g, plan, dist, from, 0));
                }
                break;
            },
        }
    }
    proof {
        assert forall|i: usize|
            i < g.len() && (search_end(g, dist, ef_search as nat).measured->0)[i as int] implies
            #[trigger] can_read(vector_store, i) by {
            lemma_measured_were_read(g, plan, dist, 0, i);
            assert(can_read(vector_store, done[done.index_of(i)]));
        }
    }
    Ok(search.finish(top_n))
}

/// A new hit that `f` made something of keeps all hits so.
pub proof fn lemma_hits_insert<
    O,
    S: VectorStore,
    F: Fn(VectorRef<'_>, VectorDistance, &[u8]) -> O,
>(
    store: &S,
    f: F,
    hits: Seq<(VectorDistance, (usize, O))>,
    ef: nat,
    d: VectorDistance,
    v: usize,
    o: O,
)
    requires
        hits_made_by(store, f, hits),
        made_by(f, store.vector_at(v as int), d, store.info_at(v as int), o),
    ensures
        hits_made_by(store, f, insert_bounded(hits, ef, d, (v, o))),
{
    crate::bounded::lemma_rank(hits, d);
    let r = insert_bounded(hits, ef, d, (v, o));
    let p = crate::bounded::rank(hits, d) as int;
    assert forall|k: int| 0 <= k < r.len() implies ({
        let (d, (v, o)) = #[trigger] r[k];
        made_by(f, store.vector_at(v as int), d, store.info_at(v as int), o)
    }) by {
        if k < p {
            assert(r[k] == hits[k]);
        } else if k > p {
            assert(r[k] == hits[k - 1]);
        }
    }
}

/// The distances of a search are those from the query to the vectors of the
/// store, in their order.
pub proof fn law_distances_are_from_the_query<M: MeasureDistanceBuilder, S: VectorStore>(
    store: &S,
    query: Seq<VectorItem>,
    n: nat,
)
    ensures
        distances::<M, S>(store, query, n).len() == n,
        forall|i: int|
            0 <= i < n ==> #[trigger] distances::<M, S>(store, query, n)[i] == M::spec_distance(
                query,
                store.vector_at(i),
            ),
{
}

} // verus!
