//! How an index grows, insertion by insertion, and what holds of every index
//! that has grown so.
use vstd::prelude::*;

use crate::best_first::{lemma_nearest_of_met, nearest_of_met};
use crate::bounded::{
    insert_bounded, keep_first, law_bounded_list_takes_in, lemma_insert_bounded, lemma_rank,
    ordered, rank, takes_in,
};
use crate::graph::{GraphModel, Links};
use crate::insertion::{
    connect, connectable, connected_links, distance_to, found_links, insertion_end, insertion_plan,
    lemma_connect_wf, lemma_distance_to,
};
use crate::laws::{
    ground_is_complete, ground_is_connected, hits, law_complete_ground_is_exact, least,
    lemma_all_found, lemma_all_named, lemma_complete_meets_all, lemma_connected_finds,
    lemma_kept_are_best,
};
use crate::layer::{distinct, lemma_insert_bounded_members, lemma_marks_count, met, names};
use crate::options::HnswBuilderOptions;
use crate::store::Record;
use crate::trace::{at_true_distances, lemma_insert_names, lemma_walk_good};
use crate::vec_set::{count_set, lemma_count_set_all, lemma_count_set_bound, lemma_count_set_full};
use crate::vector::{MeasureDistanceBuilder, VectorDistance, VectorItem};

verus! {

/// No node has a link to itself, or two to the same node on one level.
pub open spec fn simple(g: GraphModel) -> bool {
    forall|i: int, level: int|
        0 <= i < g.len() && 0 <= level < g.height(i) ==> distinct(#[trigger] g.links(i, level))
            && !names(g.links(i, level), i)
}

/// No node has more levels than the entrypoint, and no earlier one has as many.
pub open spec fn entrypoint_is_first_tallest(g: GraphModel) -> bool {
    forall|i: int|
        0 <= i < g.len() ==> {
            &&& #[trigger] g.height(i) <= g.height(g.entrypoint as int)
            &&& i < g.entrypoint ==> g.height(i) < g.height(g.entrypoint as int)
        }
}

/// There is a capacity for each list of links, and each list is in order and
/// within it.
pub open spec fn within(g: GraphModel, capacities: Seq<Seq<nat>>) -> bool {
    &&& capacities.len() == g.len()
    &&& forall|i: int| 0 <= i < g.len() ==> (#[trigger] capacities[i]).len() == g.height(i)
    &&& forall|i: int, level: int|
        0 <= i < g.len() && 0 <= level < g.height(i) ==> ordered(#[trigger] g.links(i, level))
            && g.links(i, level).len() <= capacities[i][level]
}

/// What every insertion keeps.
pub open spec fn sound(g: GraphModel, capacities: Seq<Seq<nat>>) -> bool {
    &&& g.wf()
    &&& within(g, capacities)
    &&& simple(g)
    &&& entrypoint_is_first_tallest(g)
}

/// The links found for a new node lead to nodes of their level, each at its
/// distance and none twice, in order and within the capacities.
pub proof fn lemma_found_links(
    g: GraphModel,
    capacities: Seq<nat>,
    dist: Seq<VectorDistance>,
    ef_construction: nat,
)
    requires
        g.wf(),
        dist.len() == g.len(),
    ensures
        connectable(g, found_links(g, capacities, dist, ef_construction)),
        forall|level: int|
            0 <= level < capacities.len() ==> {
                let links = #[trigger] found_links(g, capacities, dist, ef_construction)[level];
                &&& ordered(links)
                &&& links.len() <= capacities[level]
                &&& at_true_distances(dist, links)
            },
{
    let found = found_links(g, capacities, dist, ef_construction);
    let plan = insertion_plan(capacities.len(), ef_construction);
    assert forall|level: int| 0 <= level < found.len() implies g.links_lead(
        #[trigger] found[level],
        level,
    ) && distinct(found[level]) && ordered(found[level]) && found[level].len() <= capacities[level]
        && at_true_distances(dist, found[level]) by {
        if level <= g.top() {
            lemma_walk_good(g, plan, dist, false, level);
            let end = insertion_end(g, capacities.len(), dist, ef_construction, level);
            let all = end.nearest;
            let links = found[level];
            assert forall|k: int| 0 <= k < links.len() implies links[k] == all[k] by {}
            assert forall|k: int| 0 <= k < links.len() implies (#[trigger] links[k]).1 < g.len()
                && level < g.height(links[k].1 as int) by {
                assert(met(g, level, end.visited, all[k].1));
            }
        }
    }
}

/// An insertion keeps what every insertion keeps.
pub proof fn law_insertion_keeps_graph_sound(
    g: GraphModel,
    capacities: Seq<Seq<nat>>,
    node_capacities: Seq<nat>,
    dist: Seq<VectorDistance>,
    ef_construction: nat,
)
    requires
        sound(g, capacities),
        dist.len() == g.len(),
        g.len() + 1 <= usize::MAX,
        1 <= node_capacities.len() <= usize::MAX,
    ensures
        sound(
            connect(g, capacities, found_links(g, node_capacities, dist, ef_construction)),
            capacities.push(node_capacities),
        ),
{
    let node = found_links(g, node_capacities, dist, ef_construction);
    let c = connect(g, capacities, node);
    let caps = capacities.push(node_capacities);
    lemma_found_links(g, node_capacities, dist, ef_construction);
    lemma_connect_wf(g, capacities, node);
    let n = g.len() as int;
    assert forall|i: int| 0 <= i < c.len() implies (#[trigger] caps[i]).len() == c.height(i) by {
        if i < n {
            assert(caps[i] == capacities[i]);
        }
    }
    assert forall|i: int, level: int| 0 <= i < c.len() && 0 <= level < c.height(i) implies ordered(
        #[trigger] c.links(i, level),
    ) && c.links(i, level).len() <= caps[i][level] && distinct(c.links(i, level)) && !names(
        c.links(i, level),
        i,
    ) by {
        if i == n {
            assert(c.links(i, level) == node[level]);
            assert(g.links_lead(node[level], level));
            if names(node[level], n) {
                let k = choose|k: int|
                    0 <= k < node[level].len() && (#[trigger] node[level][k]).1 == n;
                assert(node[level][k].1 < g.len());
            }
        } else {
            let links = g.links(i, level);
            assert(c.links(i, level) == connected_links(g, capacities, node, i, level));
            assert(caps[i][level] == capacities[i][level]);
            if level < node.len() && names(node[level], i) {
                let d = distance_to(node[level], i);
                let cap = capacities[i][level];
                let r = c.links(i, level);
                lemma_insert_bounded(links, cap, d, n as usize);
                lemma_insert_names(links, cap, d, n as usize, i);
                assert(g.links_lead(links, level));
                assert forall|a: int, b: int| 0 <= a < b < r.len() implies (#[trigger] r[a]).1 != (
                #[trigger] r[b]).1 by {
                    lemma_insert_bounded_members(links, cap, d, n as usize, a);
                    lemma_insert_bounded_members(links, cap, d, n as usize, b);
                    lemma_rank(links, d);
                }
            }
        }
    }
    assert forall|i: int| 0 <= i < c.len() implies #[trigger] c.height(i) <= c.height(
        c.entrypoint as int,
    ) && (i < c.entrypoint ==> c.height(i) < c.height(c.entrypoint as int)) by {
        if i < n {
            assert(g.height(i) <= g.height(g.entrypoint as int));
        }
    }
}

/// A new node is offered as a neighbour, at its distance, to each node that it
/// has a link to, and to no other; no other list of links changes.
pub proof fn law_links_back_are_offered(
    g: GraphModel,
    capacities: Seq<Seq<nat>>,
    node_capacities: Seq<nat>,
    dist: Seq<VectorDistance>,
    ef_construction: nat,
    i: int,
    level: int,
)
    requires
        sound(g, capacities),
        dist.len() == g.len(),
        0 <= i < g.len(),
        0 <= level < g.height(i),
    ensures
        ({
            let node = found_links(g, node_capacities, dist, ef_construction);
            let c = connect(g, capacities, node);
            let linked = level < node.len() && names(node[level], i);
            &&& !linked ==> c.links(i, level) == g.links(i, level)
            &&& linked ==> c.links(i, level) == insert_bounded(
                g.links(i, level),
                capacities[i][level],
                dist[i],
                g.len() as usize,
            )
        }),
{
    let node = found_links(g, node_capacities, dist, ef_construction);
    lemma_found_links(g, node_capacities, dist, ef_construction);
    if level < node.len() && names(node[level], i) {
        let k = choose|k: int| 0 <= k < node[level].len() && (#[trigger] node[level][k]).1 == i;
        lemma_distance_to(node[level], k);
        assert(node[level][k].0 == dist[node[level][k].1 as int]);
    }
}

/// An insertion adds one node behind the others, as tall as it was to be, and
/// leaves every other as tall as it was. The new node becomes the entrypoint
/// exactly where it is taller than the old one.
pub proof fn law_insertion_adds_one_node(
    g: GraphModel,
    capacities: Seq<Seq<nat>>,
    node_capacities: Seq<nat>,
    dist: Seq<VectorDistance>,
    ef_construction: nat,
)
    requires
        g.wf(),
        g.nodes.len() < usize::MAX,
        dist.len() == g.nodes.len(),
    ensures
        ({
            let c = connect(g, capacities, found_links(g, node_capacities, dist, ef_construction));
            &&& c.nodes.len() == g.nodes.len() + 1
            &&& c.nodes[g.nodes.len() as int].len() == node_capacities.len()
            &&& forall|i: int|
                0 <= i < g.nodes.len() ==> (#[trigger] c.nodes[i]).len() == g.nodes[i].len()
            &&& node_capacities.len() > g.nodes[g.entrypoint as int].len() ==> c.entrypoint
                == g.nodes.len()
            &&& node_capacities.len() <= g.nodes[g.entrypoint as int].len() ==> c.entrypoint
                == g.entrypoint
        }),
{
}

/// On each level that a new node shares with the entrypoint it is linked to the
/// nearest of the nodes that the search of that level has met: to as many as the
/// search looks for and as it may keep there. Above it is linked to none.
pub proof fn law_new_node_is_linked_to_nearest_met(
    g: GraphModel,
    capacities: Seq<Seq<nat>>,
    node_capacities: Seq<nat>,
    dist: Seq<VectorDistance>,
    ef_construction: nat,
    level: int,
)
    requires
        g.wf(),
        dist.len() == g.nodes.len(),
        0 <= level < node_capacities.len(),
    ensures
        ({
            let c = connect(g, capacities, found_links(g, node_capacities, dist, ef_construction));
            let links = c.nodes[g.nodes.len() as int][level];
            let met = insertion_end(
                g,
                node_capacities.len(),
                dist,
                ef_construction,
                level,
            ).visited;
            let most = if ef_construction < node_capacities[level] {
                ef_construction
            } else {
                node_capacities[level]
            };
            &&& level < g.nodes[g.entrypoint as int].len() ==> nearest_of_met(
                dist,
                met,
                most,
                links,
            )
            &&& level >= g.nodes[g.entrypoint as int].len() ==> links.len() == 0
        }),
{
    if level <= g.top() {
        let plan = insertion_plan(node_capacities.len(), ef_construction);
        let end = insertion_end(g, node_capacities.len(), dist, ef_construction, level);
        let links = keep_first(end.nearest, node_capacities[level]);
        let most = if ef_construction < node_capacities[level] {
            ef_construction
        } else {
            node_capacities[level]
        };
        lemma_walk_good(g, plan, dist, false, level);
        assert(links =~= keep_first(end.nearest, most));
        lemma_nearest_of_met(g, level, ef_construction, dist, end, most, links);
    }
}

/// A new node is offered as a neighbour, at its distance, to exactly the nodes
/// that it is linked to, on the levels on which it is; each takes it in as far as
/// it has room or has a further neighbour to give up. No other list changes.
pub proof fn law_neighbours_take_in_the_new_node(
    g: GraphModel,
    capacities: Seq<Seq<nat>>,
    node_capacities: Seq<nat>,
    dist: Seq<VectorDistance>,
    ef_construction: nat,
    i: int,
    level: int,
)
    requires
        g.wf(),
        g.nodes.len() < usize::MAX,
        dist.len() == g.nodes.len(),
        0 <= i < g.nodes.len(),
        0 <= level < g.nodes[i].len(),
        g.nodes[i][level].len() <= capacities[i][level],
        forall|a: int, b: int|
            0 <= a <= b < g.nodes[i][level].len() ==> (#[trigger] g.nodes[i][level][a]).0 <= (
            #[trigger] g.nodes[i][level][b]).0,
    ensures
        ({
            let c = connect(g, capacities, found_links(g, node_capacities, dist, ef_construction));
            let n = g.nodes.len() as int;
            let linked = level < node_capacities.len() && exists|k: int|
                0 <= k < c.nodes[n][level].len() && (#[trigger] c.nodes[n][level][k]).1 == i;
            &&& linked ==> takes_in(
                g.nodes[i][level],
                capacities[i][level],
                dist[i],
                n as usize,
                c.nodes[i][level],
            )
            &&& !linked ==> c.nodes[i][level] == g.nodes[i][level]
        }),
{
    let node = found_links(g, node_capacities, dist, ef_construction);
    let c = connect(g, capacities, node);
    let n = g.nodes.len() as int;
    lemma_found_links(g, node_capacities, dist, ef_construction);
    assert(c.nodes[i][level] == connected_links(g, capacities, node, i, level));
    if level < node.len() {
        assert(c.nodes[n][level] == node[level]);
        if names(node[level], i) {
            let k = choose|k: int| 0 <= k < node[level].len() && (#[trigger] node[level][k]).1 == i;
            lemma_distance_to(node[level], k);
            assert(node[level][k].0 == dist[node[level][k].1 as int]);
            assert(c.nodes[n][level][k].1 == i);
            law_bounded_list_takes_in(
                g.nodes[i][level],
                capacities[i][level],
                dist[i],
                n as usize,
            );
        }
    }
}

/// Distinct links that leave one node out are fewer than the nodes.
proof fn lemma_fewer_links(g: GraphModel, links: Links, i: int)
    requires
        distinct(links),
        forall|k: int| 0 <= k < links.len() ==> (#[trigger] links[k]).1 < g.len(),
        0 <= i < g.len(),
        !names(links, i),
    ensures
        links.len() < g.len(),
{
    lemma_marks_count(g.len(), links);
    let marks = Seq::new(g.len(), |j: int| names(links, j));
    lemma_count_set_bound(marks);
    if count_set(marks) == g.len() {
        lemma_count_set_full(marks, i);
    }
}

/// Where there is room, and an insertion looks for all nodes, a complete ground
/// stays complete.
pub proof fn law_complete_ground_stays_complete(
    g: GraphModel,
    capacities: Seq<Seq<nat>>,
    node_capacities: Seq<nat>,
    dist: Seq<VectorDistance>,
    ef_construction: nat,
)
    requires
        sound(g, capacities),
        dist.len() == g.len(),
        g.len() + 1 <= usize::MAX,
        node_capacities.len() > 0,
        ground_is_complete(g),
        g.len() <= ef_construction,
        g.len() <= node_capacities[0],
        forall|i: int| 0 <= i < g.len() ==> g.len() <= (#[trigger] capacities[i])[0],
    ensures
        ground_is_complete(
            connect(g, capacities, found_links(g, node_capacities, dist, ef_construction)),
        ),
{
    let node = found_links(g, node_capacities, dist, ef_construction);
    let c = connect(g, capacities, node);
    let n = g.len() as int;
    let plan = insertion_plan(node_capacities.len(), ef_construction);
    lemma_found_links(g, node_capacities, dist, ef_construction);
    lemma_complete_meets_all(g, plan, dist, false);
    lemma_walk_good(g, plan, dist, false, 0);
    let end = insertion_end(g, node_capacities.len(), dist, ef_construction, 0);
    assert(end.nearest.len() == g.len());
    assert(node[0] == end.nearest);
    assert forall|j: int| 0 <= j < n implies #[trigger] names(node[0], j) by {
        assert(g.links_lead(node[0], 0));
        lemma_all_named(g, node[0], j);
    }
    assert forall|i: int, j: int|
        0 <= i < c.len() && 0 <= j < c.len() && i != j implies #[trigger] names(c.links(i, 0), j) by {
        if i == n {
            assert(names(node[0], j));
        } else {
            assert(names(node[0], i));
            assert(g.height(i) >= 1);
            let links = g.links(i, 0);
            let cap = capacities[i][0];
            assert(cap >= n);
            assert(g.links_lead(links, 0));
            lemma_fewer_links(g, links, i);
            let d = distance_to(node[0], i);
            assert(c.links(i, 0) == insert_bounded(links, cap, d, n as usize));
            lemma_rank(links, d);
            lemma_insert_bounded(links, cap, d, n as usize);
            lemma_insert_names(links, cap, d, n as usize, j);
            if j < n {
                assert(names(links, j));
                if !names(c.links(i, 0), j) {
                    assert(c.links(i, 0).len() == cap);
                    assert(c.links(i, 0).len() == links.len() + 1);
                    assert(links.len() + 1 == n);
                    lemma_insert_keeps_all(links, cap, d, n as usize, j);
                }
            }
        }
    }
}

/// On a connected ground an insertion that looks for at least as many nodes as
/// there are links the new node, on the ground, to its true nearest: to as many
/// as it may keep, each at its distance, and no other node is nearer than any of
/// them.
pub proof fn law_connected_ground_links_nearest(
    g: GraphModel,
    node_capacities: Seq<nat>,
    dist: Seq<VectorDistance>,
    ef_construction: nat,
)
    requires
        g.wf(),
        dist.len() == g.len(),
        node_capacities.len() > 0,
        ground_is_connected(g),
        g.len() <= ef_construction,
    ensures
        linked_to_nearest(
            dist,
            found_links(g, node_capacities, dist, ef_construction)[0],
            least(node_capacities[0], g.len()),
        ),
{
    let plan = insertion_plan(node_capacities.len(), ef_construction);
    let end = insertion_end(g, node_capacities.len(), dist, ef_construction, 0);
    lemma_connected_finds(g, plan, dist, false);
    lemma_walk_good(g, plan, dist, false, 0);
    assert forall|v: int| 0 <= v < g.len() implies #[trigger] end.visited[v] by {
        lemma_all_found(g, plan.width(0), end, v);
    }
    lemma_linked_to_nearest(g, node_capacities, dist, ef_construction);
}

/// On a complete ground an insertion links the new node, on the ground, to its
/// true nearest: to as many as it looks for and may keep.
pub proof fn law_complete_ground_links_nearest(
    g: GraphModel,
    node_capacities: Seq<nat>,
    dist: Seq<VectorDistance>,
    ef_construction: nat,
)
    requires
        g.wf(),
        dist.len() == g.len(),
        node_capacities.len() > 0,
        ground_is_complete(g),
        ef_construction > 0,
    ensures
        linked_to_nearest(
            dist,
            found_links(g, node_capacities, dist, ef_construction)[0],
            least(least(ef_construction, node_capacities[0]), g.len()),
        ),
{
    let plan = insertion_plan(node_capacities.len(), ef_construction);
    lemma_complete_meets_all(g, plan, dist, false);
    lemma_linked_to_nearest(g, node_capacities, dist, ef_construction);
}

/// Whether the links lead to `n` nodes, to none of them twice, each at its
/// distance and nearest first, and no other node is nearer than any of them.
pub open spec fn linked_to_nearest(dist: Seq<VectorDistance>, links: Links, n: nat) -> bool {
    &&& links.len() == n
    &&& ordered(links)
    &&& distinct(links)
    &&& at_true_distances(dist, links)
    &&& forall|v: int, k: int|
        0 <= v < dist.len() && !names(links, v) && 0 <= k < links.len() ==> (#[trigger] links[k]).0
            <= (#[trigger] dist[v])
}

/// An insertion that meets every node on the ground links the new node to its
/// true nearest there.
proof fn lemma_linked_to_nearest(
    g: GraphModel,
    node_capacities: Seq<nat>,
    dist: Seq<VectorDistance>,
    ef_construction: nat,
)
    requires
        g.wf(),
        dist.len() == g.len(),
        node_capacities.len() > 0,
        forall|v: int|
            0 <= v < g.len() ==> #[trigger] insertion_end(
                g,
                node_capacities.len(),
                dist,
                ef_construction,
                0,
            ).visited[v],
    ensures
        linked_to_nearest(
            dist,
            found_links(g, node_capacities, dist, ef_construction)[0],
            least(least(ef_construction, node_capacities[0]), g.len()),
        ),
{
    let plan = insertion_plan(node_capacities.len(), ef_construction);
    let end = insertion_end(g, node_capacities.len(), dist, ef_construction, 0);
    let links = found_links(g, node_capacities, dist, ef_construction)[0];
    lemma_walk_good(g, plan, dist, false, 0);
    lemma_found_links(g, node_capacities, dist, ef_construction);
    lemma_count_set_all(end.visited);
    assert(distinct(links));
    assert forall|v: int, k: int|
        0 <= v < dist.len() && !names(links, v) && 0 <= k < links.len() implies (
    #[trigger] links[k]).0 <= (#[trigger] dist[v]) by {
        assert(end.visited[v]);
        lemma_kept_are_best(ef_construction, dist, end, node_capacities[0], v, k);
    }
}

/// An insertion into a list with room drops nothing.
proof fn lemma_insert_keeps_all(s: Links, cap: nat, d: VectorDistance, v: usize, u: int)
    requires
        s.len() < cap,
        names(s, u),
    ensures
        names(insert_bounded(s, cap, d, v), u),
{
    lemma_rank(s, d);
    let r = insert_bounded(s, cap, d, v);
    let k = choose|k: int| 0 <= k < s.len() && (#[trigger] s[k]).1 == u;
    let p = rank(s, d) as int;
    if k < p {
        assert(r[k] == s[k]);
    } else {
        assert(r[k + 1] == s[k]);
    }
}

/// One insertion: a vector, the bytes to be stored along with it, and the level
/// that was drawn for it.
pub struct Given {
    pub vector: Seq<VectorItem>,
    pub info: Seq<u8>,
    pub drawn: usize,
}

/// An index, as a mathematical value.
pub struct IndexModel {
    pub graph: Option<GraphModel>,
    pub capacities: Seq<Seq<nat>>,
    pub records: Seq<Record>,
}

/// The distances from a query to the vectors of the records.
pub open spec fn distances_among<M: MeasureDistanceBuilder>(
    query: Seq<VectorItem>,
    records: Seq<Record>,
) -> Seq<VectorDistance> {
    Seq::new(records.len(), |i: int| M::spec_distance(query, records[i].vector))
}

/// The index after one more insertion.
pub open spec fn grow<M: MeasureDistanceBuilder>(
    options: HnswBuilderOptions,
    index: IndexModel,
    x: Given,
) -> IndexModel {
    let capacities = options.capacities(x.drawn);
    IndexModel {
        graph: Some(
            match index.graph {
                Some(g) => connect(
                    g,
                    index.capacities,
                    found_links(
                        g,
                        capacities,
                        distances_among::<M>(x.vector, index.records),
                        options.ef_construction as nat,
                    ),
                ),
                None => GraphModel {
                    entrypoint: 0,
                    nodes: seq![Seq::new(capacities.len(), |l: int| Seq::empty())],
                },
            },
        ),
        capacities: index.capacities.push(capacities),
        records: index.records.push(Record { vector: x.vector, info: x.info }),
    }
}

/// The index that insertions, one after the other, make of an empty one.
pub open spec fn grown<M: MeasureDistanceBuilder>(
    options: HnswBuilderOptions,
    xs: Seq<Given>,
) -> IndexModel
    decreases xs.len(),
{
    if xs.len() == 0 {
        IndexModel { graph: None, capacities: Seq::empty(), records: Seq::empty() }
    } else {
        grow::<M>(options, grown::<M>(options, xs.drop_last()), xs.last())
    }
}

/// Whether the levels of every node that is inserted can be counted.
pub open spec fn can_stand(options: HnswBuilderOptions, xs: Seq<Given>) -> bool {
    forall|i: int| 0 <= i < xs.len() ==> options.top_level((#[trigger] xs[i]).drawn) < usize::MAX
}

/// The one of two nodes that was inserted later.
pub open spec fn later(i: int, j: int) -> int {
    if i < j {
        j
    } else {
        i
    }
}

/// The one of two nodes that was inserted earlier.
pub open spec fn earlier(i: int, j: int) -> int {
    if i < j {
        i
    } else {
        j
    }
}

/// Every link carries the distance, as it was measured when the later of its
/// two nodes was inserted.
pub open spec fn links_are_measured<M: MeasureDistanceBuilder>(
    g: GraphModel,
    records: Seq<Record>,
) -> bool {
    forall|i: int, level: int, k: int|
        0 <= i < g.len() && 0 <= level < g.height(i) && 0 <= k < g.links(i, level).len() ==> {
            let (d, j) = #[trigger] g.links(i, level)[k];
            d == M::spec_distance(
                records[later(i, j as int)].vector,
                records[earlier(i, j as int)].vector,
            )
        }
}

/// An index that has grown by insertions holds what was inserted, in order; its
/// graph has one node for each, as tall as its draw, with no more links on any
/// level than the level allows; and what every insertion keeps holds of it.
pub proof fn law_grown_index_is_sound<M: MeasureDistanceBuilder>(
    options: HnswBuilderOptions,
    xs: Seq<Given>,
)
    requires
        can_stand(options, xs),
        1 <= xs.len() <= usize::MAX,
    ensures
        ({
            let index = grown::<M>(options, xs);
            let g = index.graph->0;
            &&& index.graph is Some
            &&& g.len() == xs.len()
            &&& index.records.len() == xs.len()
            &&& index.capacities.len() == xs.len()
            &&& forall|i: int|
                0 <= i < xs.len() ==> #[trigger] index.records[i] == (Record {
                    vector: xs[i].vector,
                    info: xs[i].info,
                })
            &&& forall|i: int|
                0 <= i < xs.len() ==> #[trigger] index.capacities[i] == options.capacities(
                    xs[i].drawn,
                )
            &&& sound(g, index.capacities)
            &&& links_are_measured::<M>(g, index.records)
        }),
    decreases xs.len(),
{
    let before = grown::<M>(options, xs.drop_last());
    let x = xs.last();
    let after = grown::<M>(options, xs);
    let node_capacities = options.capacities(x.drawn);
    let c = after.graph->0;
    if xs.len() == 1 {
        assert(before.graph is None);
        assert(c.height(0) == node_capacities.len());
        assert forall|i: int, level: int|
            0 <= i < c.len() && 0 <= level < c.height(i) implies (
        #[trigger] c.links(i, level)).len() == 0 by {}
    } else {
        law_grown_index_is_sound::<M>(options, xs.drop_last());
        let g = before.graph->0;
        let n = g.len() as int;
        let dist = distances_among::<M>(x.vector, before.records);
        let ef = options.ef_construction as nat;
        let node = found_links(g, node_capacities, dist, ef);
        law_insertion_keeps_graph_sound(g, before.capacities, node_capacities, dist, ef);
        lemma_found_links(g, node_capacities, dist, ef);
        assert forall|i: int| 0 <= i < xs.len() implies #[trigger] after.records[i] == (Record {
            vector: xs[i].vector,
            info: xs[i].info,
        }) && after.capacities[i] == options.capacities(xs[i].drawn) by {
            if i < n {
                assert(xs.drop_last()[i] == xs[i]);
                assert(after.records[i] == before.records[i]);
                assert(after.capacities[i] == before.capacities[i]);
            }
        }
        assert forall|i: int| 0 <= i < xs.len() implies #[trigger] after.capacities[i]
            == options.capacities(xs[i].drawn) by {
            assert(after.records[i] == (Record { vector: xs[i].vector, info: xs[i].info }));
        }
        assert forall|i: int, level: int, k: int|
            0 <= i < c.len() && 0 <= level < c.height(i) && 0 <= k < c.links(
                i,
                level,
            ).len() implies ({
            let (d, j) = #[trigger] c.links(i, level)[k];
            d == M::spec_distance(
                after.records[later(i, j as int)].vector,
                after.records[earlier(i, j as int)].vector,
            )
        }) by {
            if i == n {
                let (d, j) = node[level][k];
                assert(g.links_lead(node[level], level));
                assert(at_true_distances(dist, node[level]));
                assert(after.records[j as int] == before.records[j as int]);
            } else {
                law_links_back_are_offered(
                    g,
                    before.capacities,
                    node_capacities,
                    dist,
                    ef,
                    i,
                    level,
                );
                let links = g.links(i, level);
                assert(g.links_lead(links, level));
                assert(after.records[i] == before.records[i]);
                let linked = level < node.len() && names(node[level], i);
                if linked {
                    let cap = before.capacities[i][level];
                    lemma_insert_bounded_members(links, cap, dist[i], n as usize, k);
                    let p = rank(links, dist[i]) as int;
                    if k != p {
                        let at = if k < p {
                            k
                        } else {
                            k - 1
                        };
                        let (d, j) = g.links(i, level)[at];
                        assert(after.records[j as int] == before.records[j as int]);
                    }
                } else {
                    let (d, j) = g.links(i, level)[k];
                    assert(after.records[j as int] == before.records[j as int]);
                }
            }
        }
    }
}

/// Where a node may keep as many ground neighbours as there are other nodes, and
/// insertions look for as many, the ground of a grown index is complete.
pub proof fn law_roomy_index_is_complete<M: MeasureDistanceBuilder>(
    options: HnswBuilderOptions,
    xs: Seq<Given>,
)
    requires
        can_stand(options, xs),
        1 <= xs.len() <= usize::MAX,
        xs.len() - 1 <= 2 * options.m,
        xs.len() - 1 <= options.ef_construction,
    ensures
        ground_is_complete(grown::<M>(options, xs).graph->0),
    decreases xs.len(),
{
    let before = grown::<M>(options, xs.drop_last());
    let x = xs.last();
    if xs.len() > 1 {
        law_grown_index_is_sound::<M>(options, xs.drop_last());
        law_roomy_index_is_complete::<M>(options, xs.drop_last());
        let g = before.graph->0;
        let dist = distances_among::<M>(x.vector, before.records);
        assert forall|i: int| 0 <= i < g.len() implies g.len() <= (
        #[trigger] before.capacities[i])[0] by {
            assert(before.capacities[i] == options.capacities(xs.drop_last()[i].drawn));
        }
        law_complete_ground_stays_complete(
            g,
            before.capacities,
            options.capacities(x.drawn),
            dist,
            options.ef_construction as nat,
        );
    } else {
        assert(before.graph is None);
    }
}

/// A search of a roomy index is exact: its hits are as many as asked for, and no
/// other vector is nearer than any of them.
pub proof fn law_roomy_index_is_exact<M: MeasureDistanceBuilder>(
    options: HnswBuilderOptions,
    xs: Seq<Given>,
    query: Seq<VectorItem>,
    ef_search: nat,
    top_n: nat,
)
    requires
        can_stand(options, xs),
        1 <= xs.len() <= usize::MAX,
        xs.len() - 1 <= 2 * options.m,
        xs.len() - 1 <= options.ef_construction,
        ef_search > 0,
    ensures
        ({
            let index = grown::<M>(options, xs);
            let dist = distances_among::<M>(query, index.records);
            let h = hits(index.graph->0, dist, ef_search, top_n);
            &&& h.len() == least(least(ef_search, top_n), xs.len())
            &&& forall|v: int, k: int|
                0 <= v < xs.len() && !names(h, v) && 0 <= k < h.len() ==> (#[trigger] h[k]).0
                    <= M::spec_distance(query, (#[trigger] xs[v]).vector)
        }),
{
    let index = grown::<M>(options, xs);
    let g = index.graph->0;
    let dist = distances_among::<M>(query, index.records);
    law_grown_index_is_sound::<M>(options, xs);
    law_roomy_index_is_complete::<M>(options, xs);
    law_complete_ground_is_exact(g, dist, ef_search, top_n);
    let h = hits(g, dist, ef_search, top_n);
    assert forall|v: int, k: int| 0 <= v < xs.len() && !names(h, v) && 0 <= k < h.len() implies (
    #[trigger] h[k]).0 <= M::spec_distance(query, (#[trigger] xs[v]).vector) by {
        assert(index.records[v].vector == xs[v].vector);
        assert(h[k].0 <= dist[v]);
    }
}

} // verus!
