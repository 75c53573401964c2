//! What the calls of an index give and do, said of what goes into them and what
//! comes out.
use vstd::prelude::*;

use crate::best_first::{
    descends, first_of, law_insertion_descends, law_search_descends, met_in_all, newly_met_from,
    widths, Descent,
};
use crate::bounded::takes_in;
use crate::builder::HnswBuilder;
use crate::faiss::{law_import_takes_over_every_level, law_import_takes_over_every_link, FaissHnsw};
use crate::graph::{HnswGraph, HnswGraphBuilder, Links};
use crate::growth::{
    law_insertion_adds_one_node, law_neighbours_take_in_the_new_node,
    law_new_node_is_linked_to_nearest_met, lemma_found_links,
};
use crate::insertion::insertion_end;
use crate::laws::{
    hits, law_hits_are_locally_nearest, law_hits_are_nodes_in_order,
    law_no_further_than_entrypoint, law_search_counts,
};
use crate::layer::names;
use crate::listing::{law_listing_tells_graphs_apart, same_links};
use crate::search::{distances, made_by, search_end};
use crate::shape::{law_edges_count_every_link, law_histogram_counts_heights, GraphShapeSummary};
use crate::stats::HnswStats;
use crate::store::{HummockResult, Record, VectorStore, VectorStoreImpl};
use crate::vector::{MeasureDistanceBuilder, VectorDistance, VectorRef};

verus! {

/// Whether `found` are nodes of an index that a search for the vectors nearest to
/// `q` may have found: in order, none twice, each at its distance from `q`, and
/// with no ground neighbour, that is not found too, nearer than any of them.
pub open spec fn found_near<V: VectorStore, G: HnswGraph, M: MeasureDistanceBuilder>(
    b: HnswBuilder<V, G, M>,
    q: VectorRef<'_>,
    found: Links,
) -> bool {
    let nodes = b.graph->0.view().nodes;
    &&& forall|i: int, j: int|
        0 <= i <= j < found.len() ==> (#[trigger] found[i]).0 <= (#[trigger] found[j]).0
    &&& forall|i: int, j: int|
        0 <= i < j < found.len() ==> (#[trigger] found[i]).1 != (#[trigger] found[j]).1
    &&& forall|k: int|
        0 <= k < found.len() ==> (#[trigger] found[k]).1 < nodes.len() && found[k].0
            == M::spec_distance(q@, b.vector_store.vector_at(found[k].1 as int))
    &&& forall|a: int, j: int, k: int|
        0 <= a < found.len() && 0 <= j < nodes[found[a].1 as int][0].len() && 0 <= k < found.len()
            && !names(found, #[trigger] nodes[(#[trigger] found[a]).1 as int][0][j].1 as int) ==> (
        #[trigger] found[k]).0 <= M::spec_distance(
            q@,
            b.vector_store.vector_at(nodes[found[a].1 as int][0][j].1 as int),
        )
}

/// A search answers with what the caller's function made of nodes that are near:
/// of at most as many as were looked for and asked for, and of at least one where
/// both are, the first of them no further than the entrypoint. It has measured at
/// least the nodes that it answers with and at most all, and hopped at least once
/// on each level above the ground, and on the ground from each node that it
/// answers with.
pub proof fn law_search_answers_with_near_nodes<
    O,
    V: VectorStore,
    G: HnswGraph,
    M: MeasureDistanceBuilder,
    F: Fn(VectorRef<'_>, VectorDistance, &[u8]) -> O,
>(
    b: HnswBuilder<V, G, M>,
    q: VectorRef<'_>,
    f: F,
    ef_search: usize,
    top_n: usize,
    outputs: Vec<O>,
    stats: HnswStats,
)
    requires
        b.graph is Some,
        b.graph->0.view().wf(),
        call_ensures(
            HnswBuilder::<V, G, M>::search::<O, F>,
            (&b, q, f, ef_search, top_n),
            Ok((outputs, stats)),
        ),
    ensures
        ({
            let g = b.graph->0.view();
            let height = g.nodes[g.entrypoint as int].len();
            &&& exists|found: Links|
                {
                    &&& #[trigger] found_near(b, q, found)
                    &&& found.len() == outputs@.len()
                    &&& forall|k: int|
                        0 <= k < found.len() ==> made_by(
                            f,
                            b.vector_store.vector_at(found[k].1 as int),
                            found[k].0,
                            b.vector_store.info_at(found[k].1 as int),
                            #[trigger] outputs@[k],
                        )
                    &&& ef_search > 0 && top_n > 0 ==> found[0].0 <= M::spec_distance(
                        q@,
                        b.vector_store.vector_at(g.entrypoint as int),
                    )
                }
            &&& outputs@.len() <= ef_search
            &&& outputs@.len() <= top_n
            &&& ef_search > 0 && top_n > 0 ==> outputs@.len() > 0
            &&& 1 <= stats.distances_computed <= g.nodes.len()
            &&& outputs@.len() <= stats.distances_computed
            &&& height - 1 + outputs@.len() <= stats.nhops
            &&& stats.nhops <= g.nodes.len() * height
        }),
{
    let g = b.graph->0.view();
    let dist = distances::<M, V>(&b.vector_store, q@, g.len());
    let ef = ef_search as nat;
    let n = top_n as nat;
    let found = hits(g, dist, ef, n);
    law_hits_are_nodes_in_order(g, dist, ef, n);
    law_search_counts(g, dist, ef, n);
    if ef > 0 {
        law_hits_are_locally_nearest(g, dist, ef, n);
        if n > 0 {
            law_no_further_than_entrypoint(g, dist, ef, n);
        }
    }
    assert forall|a: int, j: int, k: int|
        0 <= a < found.len() && 0 <= j < g.nodes[found[a].1 as int][0].len() && 0 <= k < found.len()
            && !names(found, #[trigger] g.nodes[(#[trigger] found[a]).1 as int][0][j].1 as int) implies (
    #[trigger] found[k]).0 <= M::spec_distance(
        q@,
        b.vector_store.vector_at(g.nodes[found[a].1 as int][0][j].1 as int),
    ) by {
        let w = g.links(found[a].1 as int, 0)[j].1;
        let end = crate::search::search_end(g, dist, ef);
        crate::trace::lemma_walk_good(g, crate::search::search_plan(ef), dist, true, 0);
        assert(end.nearest[a] == found[a]);
        assert(crate::layer::met(g, 0, end.visited, end.nearest[a].1));
        assert(g.links_lead(g.links(found[a].1 as int, 0), 0));
        assert(w < g.len());
        assert(found[k].0 <= dist[w as int]);
    }
    assert(found_near(b, q, found));
}

/// A search goes down best first over the distances from the query, and answers
/// with what the caller's function made of the first `top_n` of the nodes that it
/// kept on the ground. It tells how often it has hopped and how many nodes it has
/// met.
pub proof fn law_search_call_descends<
    O,
    V: VectorStore,
    G: HnswGraph,
    M: MeasureDistanceBuilder,
    F: Fn(VectorRef<'_>, VectorDistance, &[u8]) -> O,
>(
    b: HnswBuilder<V, G, M>,
    q: VectorRef<'_>,
    f: F,
    ef_search: usize,
    top_n: usize,
    outputs: Vec<O>,
    stats: HnswStats,
)
    requires
        b.graph is Some,
        b.graph->0.view().wf(),
        call_ensures(
            HnswBuilder::<V, G, M>::search::<O, F>,
            (&b, q, f, ef_search, top_n),
            Ok((outputs, stats)),
        ),
    ensures
        ({
            let g = b.graph->0.view();
            let dist = Seq::new(
                g.nodes.len(),
                |i: int| M::spec_distance(q@, b.vector_store.vector_at(i)),
            );
            exists|d: Descent|
                {
                    &&& #[trigger] descends(g, dist, widths(1, ef_search as nat), d)
                    &&& outputs@.len() == if top_n < d.kept[0].len() {
                        top_n as nat
                    } else {
                        d.kept[0].len()
                    }
                    &&& forall|k: int|
                        0 <= k < outputs@.len() ==> made_by(
                            f,
                            b.vector_store.vector_at(d.kept[0][k].1 as int),
                            d.kept[0][k].0,
                            b.vector_store.info_at(d.kept[0][k].1 as int),
                            #[trigger] outputs@[k],
                        )
                    &&& stats.nhops == d.hops[0]
                    &&& stats.distances_computed == met_in_all(g, d).len()
                }
        }),
{
    let g = b.graph->0.view();
    let dist = Seq::new(
        g.nodes.len(),
        |i: int| M::spec_distance(q@, b.vector_store.vector_at(i)),
    );
    assert(distances::<M, V>(&b.vector_store, q@, g.len()) =~= dist);
    law_search_descends(g, dist, ef_search as nat);
    let nearest = search_end(g, dist, ef_search as nat).nearest;
    crate::bounded::law_keep_first(nearest, top_n as nat);
}

/// A call of `insert` on an index with a graph goes down best first over the
/// distances from the new vector. It links the node, on each level, to the first
/// of the nodes kept there, as many as the options allow, and tells how often it
/// has hopped and how many nodes it has met, on all levels, beyond those that it
/// started with.
pub proof fn law_insert_call_descends<M: MeasureDistanceBuilder>(
    b: HnswBuilder<VectorStoreImpl, HnswGraphBuilder, M>,
    after: HnswBuilder<VectorStoreImpl, HnswGraphBuilder, M>,
    vec: VectorRef<'_>,
    info: &[u8],
    drawn: usize,
    r: HummockResult<HnswStats>,
)
    requires
        b.in_step(),
        b.graph is Some,
        b.graph->0@.nodes.len() < usize::MAX,
        exists|p: &mut HnswBuilder<VectorStoreImpl, HnswGraphBuilder, M>|
            *p == b && *final(p) == after && #[trigger] call_ensures(
                HnswBuilder::<VectorStoreImpl, HnswGraphBuilder, M>::insert,
                (p, vec, info, drawn),
                r,
            ),
    ensures
        ({
            let g = b.graph->0@;
            let now = after.graph->0@.nodes;
            let n = g.nodes.len() as int;
            let options = b.options;
            let height = (options.top_level(drawn) + 1) as nat;
            let dist = Seq::new(
                g.nodes.len(),
                |i: int| M::spec_distance(vec@, b.vector_store@[i].vector),
            );
            let ef = widths((options.top_level(drawn) + 1) as nat, options.ef_construction as nat);
            exists|d: Descent|
                {
                    &&& #[trigger] descends(
                        g,
                        dist,
                        widths((options.top_level(drawn) + 1) as nat, options.ef_construction as nat),
                        d,
                    )
                    &&& forall|level: int|
                        0 <= level < height && level < d.kept.len() ==> first_of(
                            d.kept[level],
                            if level == 0 {
                                (2 * options.m) as nat
                            } else {
                                options.m as nat
                            },
                            #[trigger] now[n][level],
                        )
                    &&& r is Ok
                    &&& r->Ok_0.nhops == d.hops[0]
                    &&& r->Ok_0.distances_computed == newly_met_from(g, ef, d, 0)
                }
        }),
{
    let g = b.graph->0@;
    let options = b.options;
    let capacities = options.capacities(drawn);
    let height = options.top_level(drawn) + 1;
    let dist = Seq::new(
        g.nodes.len(),
        |i: int| M::spec_distance(vec@, b.vector_store@[i].vector),
    );
    let efc = options.ef_construction as nat;
    crate::options::law_levels_of_a_node(options, drawn);
    assert(distances::<M, VectorStoreImpl>(&b.vector_store, vec@, g.len()) =~= dist);
    law_insertion_adds_one_node(g, b.graph->0.capacities(), capacities, dist, efc);
    law_insertion_descends(g, capacities, dist, efc);
    assert(capacities.len() == height);
    let now = after.graph->0@.nodes;
    let n = g.nodes.len() as int;
    let found = crate::insertion::found_links(g, capacities, dist, efc);
    assert(now[n] == found);
}

/// A call of `insert` adds the vector with its bytes behind the others, and one
/// node of the level that was drawn, capped; the node becomes the entrypoint
/// exactly where it is taller. On each level that it shares with the old
/// entrypoint it is linked to the nearest of the nodes met there, as many as the
/// options allow; above it is linked to none. Each node that it is linked to takes
/// it in as far as it has room or a further neighbour, and no other list changes.
pub proof fn law_insert_adds_a_linked_node<M: MeasureDistanceBuilder>(
    b: HnswBuilder<VectorStoreImpl, HnswGraphBuilder, M>,
    after: HnswBuilder<VectorStoreImpl, HnswGraphBuilder, M>,
    vec: VectorRef<'_>,
    info: &[u8],
    drawn: usize,
    r: HummockResult<HnswStats>,
)
    requires
        b.in_step(),
        b.graph is Some,
        b.graph->0@.nodes.len() < usize::MAX,
        exists|p: &mut HnswBuilder<VectorStoreImpl, HnswGraphBuilder, M>|
            *p == b && *final(p) == after && #[trigger] call_ensures(
                HnswBuilder::<VectorStoreImpl, HnswGraphBuilder, M>::insert,
                (p, vec, info, drawn),
                r,
            ),
    ensures
        r is Ok,
        after.options == b.options,
        after.vector_store@ == b.vector_store@.push(
            Record { vector: vec@, info: info@ },
        ),
        after.graph is Some,
        ({
            let was = b.graph->0@.nodes;
            let entrypoint = b.graph->0@.entrypoint as int;
            let now = after.graph->0@.nodes;
            let n = was.len() as int;
            let options = b.options;
            let height = if drawn <= options.max_level {
                drawn + 1
            } else {
                options.max_level + 1
            };
            &&& now.len() == n + 1
            &&& now[n].len() == height
            &&& forall|i: int| 0 <= i < n ==> (#[trigger] now[i]).len() == was[i].len()
            &&& after.graph->0@.entrypoint == if height > was[entrypoint].len() {
                n
            } else {
                entrypoint
            }
            &&& forall|level: int|
                0 <= level < height ==> ({
                    let links = #[trigger] now[n][level];
                    let most = if level == 0 {
                        2 * options.m
                    } else {
                        options.m as int
                    };
                    &&& links.len() <= most
                    &&& links.len() <= options.ef_construction
                    &&& level >= was[entrypoint].len() ==> links.len() == 0
                    &&& level < was[entrypoint].len() && most > 0 && options.ef_construction > 0
                        ==> links.len() > 0
                    &&& forall|k: int|
                        0 <= k < links.len() ==> (#[trigger] links[k]).1 < n && links[k].0
                            == M::spec_distance(
                            vec@,
                            b.vector_store@[links[k].1 as int].vector,
                        )
                })
            &&& forall|i: int, level: int|
                0 <= i < n && 0 <= level < was[i].len() ==> if level < height && names(
                    now[n][level],
                    i,
                ) {
                    takes_in(
                        was[i][level],
                        b.graph->0.capacities()[i][level],
                        M::spec_distance(vec@, b.vector_store@[i].vector),
                        n as usize,
                        #[trigger] now[i][level],
                    )
                } else {
                    now[i][level] == was[i][level]
                }
        }),
{
    let before = b.graph->0;
    let g = before@;
    let n = g.nodes.len() as int;
    let options = b.options;
    let capacities = options.capacities(drawn);
    let ef = options.ef_construction as nat;
    let dist = distances::<M, VectorStoreImpl>(&b.vector_store, vec@, g.len());
    let now = after.graph->0@.nodes;
    crate::options::law_levels_of_a_node(options, drawn);
    law_insertion_adds_one_node(g, before.capacities(), capacities, dist, ef);
    assert forall|level: int| 0 <= level < capacities.len() implies ({
        let links = #[trigger] now[n][level];
        &&& links.len() <= capacities[level]
        &&& links.len() <= ef
        &&& level >= g.nodes[g.entrypoint as int].len() ==> links.len() == 0
        &&& level < g.nodes[g.entrypoint as int].len() && capacities[level] > 0 && ef > 0
            ==> links.len() > 0
        &&& forall|k: int|
            0 <= k < links.len() ==> (#[trigger] links[k]).1 < n && links[k].0 == M::spec_distance(
                vec@,
                b.vector_store@[links[k].1 as int].vector,
            )
    }) by {
        law_new_node_is_linked_to_nearest_met(
            g,
            before.capacities(),
            capacities,
            dist,
            ef,
            level,
        );
        if level < g.nodes[g.entrypoint as int].len() && ef > 0 {
            let end = insertion_end(g, capacities.len(), dist, ef, level);
            let plan = crate::insertion::insertion_plan(capacities.len(), ef);
            crate::laws::lemma_walk_meets(g, plan, dist, false, level);
            crate::trace::lemma_walk_good(g, plan, dist, false, level);
            let first = end.nearest[0].1;
            assert(crate::layer::met(g, level, end.visited, first));
            crate::vec_set::lemma_count_set_some(end.visited, first as int);
        } else if level < g.nodes[g.entrypoint as int].len() {
            assert(now[n][level].len() == 0);
        }
        let links = now[n][level];
        assert forall|k: int| 0 <= k < links.len() implies (#[trigger] links[k]).1 < n && links[k].0
            == M::spec_distance(vec@, b.vector_store@[links[k].1 as int].vector) by {
            lemma_found_links(g, capacities, dist, ef);
            let found = crate::insertion::found_links(g, capacities, dist, ef);
            assert(links == found[level]);
            assert(g.links_lead(found[level], level));
        }
    }
    assert forall|i: int, level: int|
        0 <= i < n && 0 <= level < g.nodes[i].len() implies if level < capacities.len() && names(
        now[n][level],
        i,
    ) {
        takes_in(
            g.nodes[i][level],
            before.capacities()[i][level],
            M::spec_distance(vec@, b.vector_store@[i].vector),
            n as usize,
            #[trigger] now[i][level],
        )
    } else {
        now[i][level] == g.nodes[i][level]
    } by {
        let list = before.nodes@[i].level_neighbours@[level];
        assert(before.nodes@[i].wf());
        assert(list.wf());
        assert(g.nodes[i][level] == list@);
        assert(before.capacities()[i][level] == list.capacity);
        law_neighbours_take_in_the_new_node(
            g,
            before.capacities(),
            capacities,
            dist,
            ef,
            i,
            level,
        );
    }
}

/// The first call of `insert` makes a graph of one node, which is the entrypoint,
/// has as many levels as were drawn, capped, and no link; nothing is measured.
pub proof fn law_first_insert_makes_one_node<M: MeasureDistanceBuilder>(
    b: HnswBuilder<VectorStoreImpl, HnswGraphBuilder, M>,
    after: HnswBuilder<VectorStoreImpl, HnswGraphBuilder, M>,
    vec: VectorRef<'_>,
    info: &[u8],
    drawn: usize,
    r: HummockResult<HnswStats>,
    level: int,
)
    requires
        b.in_step(),
        b.graph is None,
        exists|p: &mut HnswBuilder<VectorStoreImpl, HnswGraphBuilder, M>|
            *p == b && *final(p) == after && #[trigger] call_ensures(
                HnswBuilder::<VectorStoreImpl, HnswGraphBuilder, M>::insert,
                (p, vec, info, drawn),
                r,
            ),
    ensures
        r is Ok,
        r->Ok_0.distances_computed == 0,
        r->Ok_0.nhops == 0,
        after.vector_store@ == seq![Record { vector: vec@, info: info@ }],
        after.graph is Some,
        after.graph->0@.entrypoint == 0,
        after.graph->0@.nodes.len() == 1,
        after.graph->0@.nodes[0].len() == if drawn <= b.options.max_level {
            drawn + 1
        } else {
            b.options.max_level + 1
        },
        0 <= level < after.graph->0@.nodes[0].len() ==> after.graph->0@.nodes[0][level].len() == 0,
{
    crate::options::law_levels_of_a_node(b.options, drawn);
    assert(b.vector_store@ =~= Seq::empty());
    assert(after.vector_store@ =~= seq![Record { vector: vec@, info: info@ }]);
}

/// A call of `with_faiss_hnsw` on an index with a graph keeps the vectors, and
/// gives the index the entrypoint, the levels and all of the links that FAISS has,
/// each link with the distance between its ends, nearest first.
pub proof fn law_with_faiss_hnsw_takes_the_graph_over<M: MeasureDistanceBuilder>(
    b: HnswBuilder<VectorStoreImpl, HnswGraphBuilder, M>,
    faiss: FaissHnsw,
    r: HnswBuilder<VectorStoreImpl, HnswGraphBuilder, M>,
    i: int,
    level: int,
)
    requires
        b.graph is Some,
        faiss.entry_point is Some,
        call_ensures(
            HnswBuilder::<VectorStoreImpl, HnswGraphBuilder, M>::with_faiss_hnsw,
            (b, faiss),
            r,
        ),
        0 <= i < faiss.levels@.len(),
    ensures
        r.vector_store@ == b.vector_store@,
        r.options == b.options,
        r.graph is Some,
        faiss.entry_point == Some((r.graph->0@.entrypoint, (faiss.entry_point->0).1)),
        r.graph->0@.nodes.len() == faiss.levels@.len(),
        r.graph->0@.nodes[i].len() == faiss.levels@[i],
        0 <= level < faiss.levels@[i] ==> ({
            let links = r.graph->0@.nodes[i][level];
            &&& forall|a: int, c: int|
                0 <= a <= c < links.len() ==> (#[trigger] links[a]).0 <= (#[trigger] links[c]).0
            &&& links.to_multiset() == faiss.neighbors@[i]@[level]@.map_values(
                |j: usize|
                    (
                        M::spec_distance(
                            b.vector_store@[i].vector,
                            b.vector_store@[j as int].vector,
                        ),
                        j,
                    ),
            ).to_multiset()
        }),
{
    law_import_takes_over_every_level::<M>(b.vector_store, faiss, i);
    if 0 <= level < faiss.levels@[i] {
        law_import_takes_over_every_link::<M>(b.vector_store, faiss, i, level);
    }
}

/// A call of `graph_shape` counts the nodes by their levels, the tallest in the
/// last entry, and all links of all nodes on all levels.
pub proof fn law_graph_shape_counts<V: VectorStore, G: HnswGraph, M: MeasureDistanceBuilder>(
    b: HnswBuilder<V, G, M>,
    max_levels: usize,
    r: Option<GraphShapeSummary>,
    entry: int,
)
    requires
        call_ensures(HnswBuilder::<V, G, M>::graph_shape, (&b, max_levels), r),
    ensures
        r is Some == b.graph is Some,
        r is Some ==> ({
            let nodes = b.graph->0.view().nodes;
            let histogram = r->0.level_histogram@;
            &&& histogram.len() == if max_levels == 0 {
                1
            } else {
                max_levels as nat
            }
            &&& 0 <= entry < histogram.len() - 1 ==> histogram[entry] == Set::new(
                |i: int| 0 <= i < nodes.len() && nodes[i].len() == entry,
            ).len()
            &&& entry == histogram.len() - 1 ==> histogram[entry] == Set::new(
                |i: int| 0 <= i < nodes.len() && nodes[i].len() >= entry,
            ).len()
            &&& r->0.total_edges == Set::new(
                |e: (int, int, int)|
                    0 <= e.0 < nodes.len() && 0 <= e.1 < nodes[e.0].len() && 0 <= e.2
                        < nodes[e.0][e.1].len(),
            ).len()
            &&& r->0.node_count == nodes.len()
        }),
{
    if b.graph is Some {
        let g = b.graph->0.view();
        law_edges_count_every_link(g);
        let size = r->0.level_histogram@.len();
        if 0 <= entry < size {
            law_histogram_counts_heights(g, size, entry);
        }
    }
}

/// Two calls of `print_graph` give the same text only where the graphs have the
/// same entrypoint, nodes of the same heights, and links to the same nodes.
pub proof fn law_print_graph_tells_graphs_apart<M: MeasureDistanceBuilder>(
    a: HnswBuilder<VectorStoreImpl, HnswGraphBuilder, M>,
    b: HnswBuilder<VectorStoreImpl, HnswGraphBuilder, M>,
    s: String,
    t: String,
)
    requires
        a.graph is Some,
        b.graph is Some,
        call_ensures(
            HnswBuilder::<VectorStoreImpl, HnswGraphBuilder, M>::print_graph,
            (&a,),
            s,
        ),
        call_ensures(
            HnswBuilder::<VectorStoreImpl, HnswGraphBuilder, M>::print_graph,
            (&b,),
            t,
        ),
        s@ == t@,
    ensures
        same_links(a.graph->0@, b.graph->0@),
{
    law_listing_tells_graphs_apart(a.graph->0@, b.graph->0@);
}

/// What a store takes in by a call of `add` it gives back, vector and bytes, and
/// what it held before it still gives back.
pub proof fn law_store_gives_back(
    store: VectorStoreImpl,
    after: VectorStoreImpl,
    vec: VectorRef<'_>,
    info: &[u8],
    i: usize,
    v: VectorRef<'_>,
    bytes: &[u8],
)
    requires
        exists|p: &mut VectorStoreImpl|
            *p == store && *final(p) == after && #[trigger] call_ensures(
                VectorStoreImpl::add,
                (p, vec, info),
                (),
            ),
        call_ensures(VectorStoreImpl::vec_ref, (&after, i), v),
        call_ensures(VectorStoreImpl::info, (&after, i), bytes),
        i <= store@.len(),
    ensures
        i == store@.len() ==> v@ == vec@ && bytes@ == info@,
        i < store@.len() ==> v@ == store@[i as int].vector && bytes@
            == store@[i as int].info,
{
}

} // verus!
