//! What holds of every search.
use vstd::prelude::*;

use crate::bounded::{
    admits, arrange, insert_bounded, keep_first, lemma_arrange, lemma_rank, ordered, rank,
};
use crate::graph::{GraphModel, Links};
use crate::insertion::{
    insertion_end, insertion_measures, insertion_plan, insertion_read_fails, insertion_reads,
    insertion_reads_succeed,
};
use crate::layer::{
    distinct, enter, expand, layer_inv, met, names, over, search_to_end, skip, supply, waiting,
    LayerState,
};
use crate::search::{
    can_read, read_fails, search_end, search_plan, search_read_fails, search_reads,
    search_reads_succeed,
};
use crate::store::{HummockError, VectorStore};
use crate::trace::{
    at_true_distances, best_of_met, lemma_insert_names, lemma_measured_stays,
    lemma_measured_were_read, lemma_met_were_read, lemma_search_keeps, lemma_walk_enters,
    lemma_walk_good, looked_at, width_above,
};
use crate::vec_set::{
    count_set, lemma_count_set_all, lemma_count_set_bound, lemma_count_set_full,
    lemma_count_set_monotone, lemma_count_set_none, lemma_count_set_some, lemma_count_set_update,
};
use crate::vector::VectorDistance;
use crate::walk::{lemma_reads_come_first, start, walk, Plan};
use crate::wider::{lemma_keep_then_insert, lemma_search_no_worse, lemma_wider_level, no_worse};

verus! {

/// The hits of a search, for which `dist` gives the distance of each node.
pub open spec fn hits(
    g: GraphModel,
    dist: Seq<VectorDistance>,
    ef_search: nat,
    top_n: nat,
) -> Links {
    keep_first(search_end(g, dist, ef_search).nearest, top_n)
}

/// The hits are nodes of the graph at their true distances, nearest first, no
/// node twice, and never more than `ef_search`, `top_n` or the nodes there are.
pub proof fn law_hits_are_nodes_in_order(
    g: GraphModel,
    dist: Seq<VectorDistance>,
    ef_search: nat,
    top_n: nat,
)
    requires
        g.wf(),
        dist.len() == g.len(),
    ensures
        ordered(hits(g, dist, ef_search, top_n)),
        distinct(hits(g, dist, ef_search, top_n)),
        at_true_distances(dist, hits(g, dist, ef_search, top_n)),
        hits(g, dist, ef_search, top_n).len() <= ef_search,
        hits(g, dist, ef_search, top_n).len() <= top_n,
        hits(g, dist, ef_search, top_n).len() <= g.len(),
{
    lemma_walk_good(g, search_plan(ef_search), dist, true, 0);
    let all = search_end(g, dist, ef_search).nearest;
    let h = hits(g, dist, ef_search, top_n);
    assert forall|i: int| 0 <= i < h.len() implies h[i] == all[i] by {}
    lemma_count_set_bound(search_end(g, dist, ef_search).visited);
}

/// Asking for fewer hits only cuts the tail.
pub proof fn law_fewer_hits_cut_the_tail(
    g: GraphModel,
    dist: Seq<VectorDistance>,
    ef_search: nat,
    fewer: nat,
    more: nat,
)
    requires
        fewer <= more,
    ensures
        hits(g, dist, ef_search, fewer) == keep_first(hits(g, dist, ef_search, more), fewer),
{
    assert(hits(g, dist, ef_search, fewer) =~= keep_first(
        hits(g, dist, ef_search, more),
        fewer,
    ));
}

/// With nothing to look for, or nothing to hand out, there are no hits.
pub proof fn law_nothing_asked_nothing_found(
    g: GraphModel,
    dist: Seq<VectorDistance>,
    ef_search: nat,
    top_n: nat,
)
    requires
        g.wf(),
        dist.len() == g.len(),
        ef_search == 0 || top_n == 0,
    ensures
        hits(g, dist, ef_search, top_n) == Seq::<(VectorDistance, usize)>::empty(),
{
    law_hits_are_nodes_in_order(g, dist, ef_search, top_n);
}

/// There are as many hits as the ground search met nodes, as far as `ef_search`
/// and `top_n` allow, and no node met is nearer than a hit without being one.
pub proof fn law_hits_are_the_best_met(
    g: GraphModel,
    dist: Seq<VectorDistance>,
    ef_search: nat,
    top_n: nat,
)
    requires
        g.wf(),
        dist.len() == g.len(),
    ensures
        ({
            let end = search_end(g, dist, ef_search);
            let h = hits(g, dist, ef_search, top_n);
            &&& end.visited.len() == g.len()
            &&& h.len() == least(least(ef_search, top_n), count_set(end.visited))
            &&& forall|v: int, k: int|
                0 <= v < g.len() && #[trigger] end.visited[v] && !names(h, v) && 0 <= k < h.len()
                    ==> (#[trigger] h[k]).0 <= dist[v]
        }),
{
    lemma_walk_good(g, search_plan(ef_search), dist, true, 0);
    let end = search_end(g, dist, ef_search);
    let h = hits(g, dist, ef_search, top_n);
    assert forall|v: int, k: int|
        0 <= v < g.len() && #[trigger] end.visited[v] && !names(h, v) && 0 <= k < h.len() implies (
    #[trigger] h[k]).0 <= dist[v] by {
        lemma_kept_are_best(ef_search, dist, end, top_n, v, k);
    }
}

/// No node met is nearer than one of the first of the nearest nodes without
/// being one of these.
pub proof fn lemma_kept_are_best(
    ef: nat,
    dist: Seq<VectorDistance>,
    end: LayerState,
    n: nat,
    v: int,
    k: int,
)
    requires
        ordered(end.nearest),
        at_true_distances(dist, end.nearest),
        best_of_met(ef, dist, end),
        0 <= v < end.visited.len(),
        end.visited[v],
        !names(keep_first(end.nearest, n), v),
        0 <= k < keep_first(end.nearest, n).len(),
    ensures
        keep_first(end.nearest, n)[k].0 <= dist[v],
{
    let all = end.nearest;
    let kept = keep_first(all, n);
    assert(kept[k] == all[k]);
    if names(all, v) {
        let j = choose|j: int| 0 <= j < all.len() && (#[trigger] all[j]).1 == v;
        if j < kept.len() {
            assert(kept[j].1 == v);
        }
        assert(all[k].0 <= all[j].0);
    } else {
        assert(all[k].0 <= all[all.len() - 1].0);
    }
}

/// The lesser of two numbers.
pub open spec fn least(a: nat, b: nat) -> nat {
    if a <= b {
        a
    } else {
        b
    }
}

/// Once the search of a level is over, none of the nearest nodes is a candidate.
proof fn lemma_nearest_done(
    g: GraphModel,
    level: int,
    ef: nat,
    dist: Seq<VectorDistance>,
    end: LayerState,
    v: int,
)
    requires
        layer_inv(g, level, ef, end),
        at_true_distances(dist, end.candidates),
        at_true_distances(dist, end.nearest),
        over(end),
        names(end.nearest, v),
    ensures
        !names(end.candidates, v),
{
    let k = choose|k: int| 0 <= k < end.nearest.len() && (#[trigger] end.nearest[k]).1 == v;
    if names(end.candidates, v) {
        let i = choose|i: int|
            0 <= i < end.candidates.len() && (#[trigger] end.candidates[i]).1 == v;
        assert(end.candidates[0].0 <= end.candidates[i].0);
        assert(end.candidates[i].0 == dist[v]);
        assert(end.nearest[k].0 == dist[v]);
        assert(end.nearest[k].0 <= end.nearest[end.nearest.len() - 1].0);
    }
}

/// All neighbours, on the ground, of each of the nearest nodes have been met.
proof fn lemma_neighbours_met(g: GraphModel, dist: Seq<VectorDistance>, plan: Plan, once: bool)
    requires
        g.wf(),
        dist.len() == g.len(),
        plan.width(0) > 0,
    ensures
        ({
            let end = walk(g, plan, dist, start(g, dist[g.entrypoint as int], once), 0);
            &&& end.nearest.len() > 0
            &&& forall|k: int, j: int|
                0 <= k < end.nearest.len() && 0 <= j < g.links(end.nearest[k].1 as int, 0).len()
                    ==> end.visited[#[trigger] g.links((#[trigger] end.nearest[k]).1 as int, 0)[j].1 as int]
        }),
{
    lemma_walk_good(g, plan, dist, once, 0);
    lemma_walk_meets(g, plan, dist, once, 0);
    let end = walk(g, plan, dist, start(g, dist[g.entrypoint as int], once), 0);
    assert forall|k: int, j: int|
        0 <= k < end.nearest.len() && 0 <= j < g.links(end.nearest[k].1 as int, 0).len() implies end.visited[#[trigger] g.links(
        (#[trigger] end.nearest[k]).1 as int,
        0,
    )[j].1 as int] by {
        let v = end.nearest[k].1 as int;
        lemma_nearest_done(g, 0, plan.width(0), dist, end, v);
        assert(looked_at(g, 0, end, v));
        let links = g.links(v, 0);
        assert(end.visited[links[j].1 as int] || end.pending.contains(links[j].1));
    }
}

/// A walk that looks for something on a level, and so on those above, meets
/// something there.
pub proof fn lemma_walk_meets(
    g: GraphModel,
    plan: Plan,
    dist: Seq<VectorDistance>,
    once: bool,
    level: int,
)
    requires
        g.wf(),
        dist.len() == g.len(),
        0 <= level <= g.top(),
        plan.width(level) > 0,
    ensures
        walk(g, plan, dist, start(g, dist[g.entrypoint as int], once), level).nearest.len() > 0,
        walk(g, plan, dist, start(g, dist[g.entrypoint as int], once), level).nearest[0].0
            <= dist[g.entrypoint as int],
    decreases g.top() - level,
{
    let from = start(g, dist[g.entrypoint as int], once);
    let ef = plan.width(level);
    let above = walk(g, plan, dist, from, level + 1);
    lemma_walk_enters(g, plan, dist, once, level);
    if level < g.top() {
        lemma_walk_meets(g, plan, dist, once, level + 1);
    }
    let st = enter(above, ef);
    lemma_search_no_worse(g, level, ef, dist, st);
    let end = search_to_end(g, level, ef, dist, st);
    assert(end.nearest[0].0 <= st.nearest[0].0);
}

/// A search that looks for something finds something, and nothing further than
/// the entrypoint at first.
pub proof fn law_no_further_than_entrypoint(
    g: GraphModel,
    dist: Seq<VectorDistance>,
    ef_search: nat,
    top_n: nat,
)
    requires
        g.wf(),
        dist.len() == g.len(),
        ef_search > 0,
        top_n > 0,
    ensures
        hits(g, dist, ef_search, top_n).len() > 0,
        hits(g, dist, ef_search, top_n)[0].0 <= dist[g.entrypoint as int],
{
    lemma_walk_meets(g, search_plan(ef_search), dist, true, 0);
}

/// No ground neighbour of a hit is nearer than any hit without being one
/// itself.
pub proof fn law_hits_are_locally_nearest(
    g: GraphModel,
    dist: Seq<VectorDistance>,
    ef_search: nat,
    top_n: nat,
)
    requires
        g.wf(),
        dist.len() == g.len(),
        ef_search > 0,
    ensures
        ({
            let h = hits(g, dist, ef_search, top_n);
            forall|a: int, j: int, b: int|
                0 <= a < h.len() && 0 <= j < g.links(h[a].1 as int, 0).len() && 0 <= b < h.len()
                    && !names(h, #[trigger] g.links((#[trigger] h[a]).1 as int, 0)[j].1 as int)
                    ==> (#[trigger] h[b]).0 <= dist[g.links(h[a].1 as int, 0)[j].1 as int]
        }),
{
    let plan = search_plan(ef_search);
    lemma_neighbours_met(g, dist, plan, true);
    law_hits_are_the_best_met(g, dist, ef_search, top_n);
    lemma_walk_good(g, plan, dist, true, 0);
    let end = search_end(g, dist, ef_search);
    let h = hits(g, dist, ef_search, top_n);
    assert forall|a: int, j: int, b: int|
        0 <= a < h.len() && 0 <= j < g.links(h[a].1 as int, 0).len() && 0 <= b < h.len()
            && !names(h, #[trigger] g.links((#[trigger] h[a]).1 as int, 0)[j].1 as int) implies (
    #[trigger] h[b]).0 <= dist[g.links(h[a].1 as int, 0)[j].1 as int] by {
        let w = g.links(h[a].1 as int, 0)[j].1 as int;
        assert(h[a] == end.nearest[a]);
        assert(end.visited[w]);
        assert(met(g, 0, end.visited, end.nearest[a].1));
        assert(g.links_lead(g.links(h[a].1 as int, 0), 0));
    }
}

/// A search that looks for more nodes has, at every place, a hit that is no
/// further, and meets, measures and hops no less.
pub proof fn law_wider_is_no_worse(
    g: GraphModel,
    dist: Seq<VectorDistance>,
    narrow: nat,
    wide: nat,
    top_n: nat,
)
    requires
        g.wf(),
        dist.len() == g.len(),
        narrow <= wide,
    ensures
        ({
            let a = hits(g, dist, narrow, top_n);
            let b = hits(g, dist, wide, top_n);
            &&& a.len() <= b.len()
            &&& forall|i: int| 0 <= i < a.len() ==> (#[trigger] b[i]).0 <= a[i].0
        }),
        narrow > 0 ==> no_worse(search_end(g, dist, narrow), search_end(g, dist, wide)),
{
    if narrow == 0 {
        law_hits_are_nodes_in_order(g, dist, narrow, top_n);
    } else {
        let from = start(g, dist[g.entrypoint as int], true);
        let p = search_plan(narrow);
        let q = search_plan(wide);
        lemma_same_above_ground(g, dist, narrow, wide, 1);
        let above = walk(g, p, dist, from, 1);
        lemma_walk_enters(g, p, dist, true, 0);
        lemma_wider_level(g, 0, 1, 0, narrow, wide, dist, above);
        let a = hits(g, dist, narrow, top_n);
        let b = hits(g, dist, wide, top_n);
        let e = search_end(g, dist, narrow);
        let f = search_end(g, dist, wide);
        assert forall|i: int| 0 <= i < a.len() implies (#[trigger] b[i]).0 <= a[i].0 by {
            assert(b[i] == f.nearest[i]);
            assert(a[i] == e.nearest[i]);
        }
    }
}

/// Above the ground every search looks for a single node, and goes the same way.
proof fn lemma_same_above_ground(
    g: GraphModel,
    dist: Seq<VectorDistance>,
    narrow: nat,
    wide: nat,
    level: int,
)
    requires
        level >= 1,
    ensures
        ({
            let from = start(g, dist[g.entrypoint as int], true);
            walk(g, search_plan(narrow), dist, from, level) == walk(
                g,
                search_plan(wide),
                dist,
                from,
                level,
            )
        }),
    decreases g.top() + 1 - level,
{
    if level <= g.top() {
        lemma_same_above_ground(g, dist, narrow, wide, level + 1);
    }
}

/// Whether every node has a ground link to every other one.
pub open spec fn ground_is_complete(g: GraphModel) -> bool {
    forall|i: int, j: int|
        0 <= i < g.len() && 0 <= j < g.len() && i != j ==> #[trigger] names(g.links(i, 0), j)
}

/// On a complete ground a walk that looks for something meets every node.
pub proof fn lemma_complete_meets_all(
    g: GraphModel,
    plan: Plan,
    dist: Seq<VectorDistance>,
    once: bool,
)
    requires
        g.wf(),
        dist.len() == g.len(),
        ground_is_complete(g),
        plan.width(0) > 0,
    ensures
        ({
            let end = walk(g, plan, dist, start(g, dist[g.entrypoint as int], once), 0);
            &&& end.visited.len() == g.len()
            &&& forall|v: int| 0 <= v < g.len() ==> #[trigger] end.visited[v]
            &&& count_set(end.visited) == g.len()
        }),
{
    lemma_neighbours_met(g, dist, plan, once);
    lemma_walk_good(g, plan, dist, once, 0);
    let end = walk(g, plan, dist, start(g, dist[g.entrypoint as int], once), 0);
    let u = end.nearest[0].1;
    assert(met(g, 0, end.visited, u));
    assert forall|v: int| 0 <= v < g.len() implies #[trigger] end.visited[v] by {
        if v != u {
            let links = g.links(u as int, 0);
            assert(names(links, v));
            let j = choose|j: int| 0 <= j < links.len() && (#[trigger] links[j]).1 == v;
            assert(end.visited[g.links(end.nearest[0].1 as int, 0)[j].1 as int]);
        }
    }
    lemma_count_set_all(end.visited);
}

/// On a complete ground a search is exact: its hits are as many as asked for,
/// and no other node is nearer than any of them.
pub proof fn law_complete_ground_is_exact(
    g: GraphModel,
    dist: Seq<VectorDistance>,
    ef_search: nat,
    top_n: nat,
)
    requires
        g.wf(),
        dist.len() == g.len(),
        ground_is_complete(g),
        ef_search > 0,
    ensures
        ({
            let h = hits(g, dist, ef_search, top_n);
            &&& h.len() == least(least(ef_search, top_n), g.len())
            &&& forall|v: int, k: int|
                0 <= v < g.len() && !names(h, v) && 0 <= k < h.len() ==> (#[trigger] h[k]).0 <= (
                #[trigger] dist[v])
        }),
{
    lemma_complete_meets_all(g, search_plan(ef_search), dist, true);
    law_hits_are_the_best_met(g, dist, ef_search, top_n);
    let end = search_end(g, dist, ef_search);
    let h = hits(g, dist, ef_search, top_n);
    assert forall|v: int, k: int| 0 <= v < g.len() && !names(h, v) && 0 <= k < h.len() implies (
    #[trigger] h[k]).0 <= (#[trigger] dist[v]) by {
        assert(end.visited[v]);
    }
}

/// Whether the links of the nodes of a set, on a level, lead to none outside it.
pub open spec fn closed_on(g: GraphModel, level: int, c: Set<int>) -> bool {
    forall|i: int, k: int|
        0 <= i < g.len() && level < g.height(i) && c.contains(i) && 0 <= k < g.links(i, level).len()
            ==> c.contains((#[trigger] g.links(i, level)[k]).1 as int)
}

/// A search that looks for at least as many nodes as there are hands out, with
/// each node, all of its ground neighbours.
pub proof fn law_exhaustive_search_is_closed(
    g: GraphModel,
    dist: Seq<VectorDistance>,
    ef_search: nat,
    top_n: nat,
)
    requires
        g.wf(),
        dist.len() == g.len(),
        g.len() <= ef_search,
        g.len() <= top_n,
    ensures
        closed_on(g, 0, Set::new(|v: int| names(hits(g, dist, ef_search, top_n), v))),
{
    let plan = search_plan(ef_search);
    lemma_neighbours_met(g, dist, plan, true);
    lemma_walk_good(g, plan, dist, true, 0);
    let end = search_end(g, dist, ef_search);
    lemma_count_set_bound(end.visited);
    let h = hits(g, dist, ef_search, top_n);
    let c = Set::new(|v: int| names(h, v));
    assert(h == end.nearest);
    assert forall|i: int, k: int|
        0 <= i < g.len() && 0 < g.height(i) && c.contains(i) && 0 <= k < g.links(
            i,
            0,
        ).len() implies c.contains((#[trigger] g.links(i, 0)[k]).1 as int) by {
        let a = choose|a: int| 0 <= a < h.len() && (#[trigger] h[a]).1 == i;
        let w = g.links(i, 0)[k].1 as int;
        assert(end.visited[g.links(end.nearest[a].1 as int, 0)[k].1 as int]);
        assert(g.links_lead(g.links(i, 0), 0));
        if !names(h, w) {
            assert(end.nearest.len() == ef_search);
            assert(count_set(end.visited) == g.len());
            lemma_all_named(g, end.nearest, w);
        }
    }
}

/// As many distinct nodes as there are name every one.
pub proof fn lemma_all_named(g: GraphModel, links: Links, v: int)
    requires
        distinct(links),
        forall|k: int| 0 <= k < links.len() ==> (#[trigger] links[k]).1 < g.len(),
        links.len() == g.len(),
        0 <= v < g.len(),
    ensures
        names(links, v),
{
    crate::layer::lemma_marks_count(g.len(), links);
    let marks = Seq::new(g.len(), |i: int| names(links, i));
    lemma_count_set_full(marks, v);
}

/// Whether the ground links lead from any node to every other one, in as many
/// steps as it takes.
pub open spec fn ground_is_connected(g: GraphModel) -> bool {
    forall|c: Set<int>, i: int, j: int|
        #[trigger] closed_on(g, 0, c) && 0 <= i < g.len() && 0 <= j < g.len() && #[trigger] c.contains(
            i,
        ) ==> #[trigger] c.contains(j)
}

/// On a connected ground a walk ends with as many nodes as it looks for there,
/// or with all of them.
pub proof fn lemma_connected_finds(
    g: GraphModel,
    plan: Plan,
    dist: Seq<VectorDistance>,
    once: bool,
)
    requires
        g.wf(),
        dist.len() == g.len(),
        ground_is_connected(g),
        plan.width(0) > 0,
    ensures
        walk(g, plan, dist, start(g, dist[g.entrypoint as int], once), 0).nearest.len() == least(
            plan.width(0),
            g.len(),
        ),
{
    let ef = plan.width(0);
    let end = walk(g, plan, dist, start(g, dist[g.entrypoint as int], once), 0);
    let h = end.nearest;
    lemma_neighbours_met(g, dist, plan, once);
    lemma_walk_good(g, plan, dist, once, 0);
    lemma_count_set_bound(end.visited);
    if h.len() < ef {
        let c = Set::new(|v: int| names(h, v));
        assert forall|i: int, k: int|
            0 <= i < g.len() && 0 < g.height(i) && c.contains(i) && 0 <= k < g.links(
                i,
                0,
            ).len() implies c.contains((#[trigger] g.links(i, 0)[k]).1 as int) by {
            let a = choose|a: int| 0 <= a < h.len() && (#[trigger] h[a]).1 == i;
            assert(end.visited[g.links(h[a].1 as int, 0)[k].1 as int]);
            assert(g.links_lead(g.links(i, 0), 0));
        }
        assert(closed_on(g, 0, c));
        assert(met(g, 0, end.visited, h[0].1));
        assert(c.contains(h[0].1 as int));
        assert forall|v: int| 0 <= v < g.len() implies end.visited[v] by {
            assert(c.contains(v));
            let k = choose|k: int| 0 <= k < h.len() && (#[trigger] h[k]).1 == v;
            assert(met(g, 0, end.visited, h[k].1));
        }
        lemma_count_set_all(end.visited);
    }
}

/// On a connected ground a search hands out as many nodes as are asked for, as
/// far as there are so many.
pub proof fn law_connected_ground_yields_all_asked(
    g: GraphModel,
    dist: Seq<VectorDistance>,
    ef_search: nat,
    top_n: nat,
)
    requires
        g.wf(),
        dist.len() == g.len(),
        ground_is_connected(g),
    ensures
        hits(g, dist, ef_search, top_n).len() == least(least(ef_search, top_n), g.len()),
{
    if ef_search == 0 {
        law_nothing_asked_nothing_found(g, dist, ef_search, top_n);
    } else {
        lemma_connected_finds(g, search_plan(ef_search), dist, true);
    }
}

/// On a connected ground a search that looks for at least as many nodes as
/// there are is exact: no other node is nearer than any hit.
pub proof fn law_exhaustive_search_is_exact(
    g: GraphModel,
    dist: Seq<VectorDistance>,
    ef_search: nat,
    top_n: nat,
)
    requires
        g.wf(),
        dist.len() == g.len(),
        ground_is_connected(g),
        g.len() <= ef_search,
    ensures
        ({
            let h = hits(g, dist, ef_search, top_n);
            &&& h.len() == least(top_n, g.len())
            &&& forall|v: int, k: int|
                0 <= v < g.len() && !names(h, v) && 0 <= k < h.len() ==> (#[trigger] h[k]).0 <= (
                #[trigger] dist[v])
        }),
{
    let plan = search_plan(ef_search);
    lemma_connected_finds(g, plan, dist, true);
    lemma_walk_good(g, plan, dist, true, 0);
    law_hits_are_the_best_met(g, dist, ef_search, top_n);
    let end = search_end(g, dist, ef_search);
    let h = hits(g, dist, ef_search, top_n);
    assert forall|v: int, k: int| 0 <= v < g.len() && !names(h, v) && 0 <= k < h.len() implies (
    #[trigger] h[k]).0 <= (#[trigger] dist[v]) by {
        lemma_all_found(g, plan.width(0), end, v);
    }
}

/// A level that ends with as many nodes as there are has met every one.
pub proof fn lemma_all_found(g: GraphModel, ef: nat, end: LayerState, v: int)
    requires
        layer_inv(g, 0, ef, end),
        end.nearest.len() == g.len(),
        0 <= v < g.len(),
    ensures
        end.visited[v],
        names(end.nearest, v),
{
    assert forall|k: int| 0 <= k < end.nearest.len() implies (#[trigger] end.nearest[k]).1
        < g.len() by {
        assert(met(g, 0, end.visited, end.nearest[k].1));
    }
    lemma_all_named(g, end.nearest, v);
    let k = choose|k: int| 0 <= k < end.nearest.len() && (#[trigger] end.nearest[k]).1 == v;
    assert(met(g, 0, end.visited, end.nearest[k].1));
}

/// Every node that a walk meets can be reached from the entrypoint over links.
proof fn lemma_walk_within(
    g: GraphModel,
    plan: Plan,
    dist: Seq<VectorDistance>,
    once: bool,
    level: int,
    c: Set<int>,
)
    requires
        g.wf(),
        dist.len() == g.len(),
        0 <= level <= g.top(),
        c.contains(g.entrypoint as int),
        forall|l: int| 0 <= l ==> #[trigger] closed_on(g, l, c),
    ensures
        ({
            let end = walk(g, plan, dist, start(g, dist[g.entrypoint as int], once), level);
            forall|v: int| 0 <= v < g.len() && #[trigger] end.visited[v] ==> c.contains(v)
        }),
    decreases g.top() - level,
{
    let from = start(g, dist[g.entrypoint as int], once);
    let ef = plan.width(level);
    let above = walk(g, plan, dist, from, level + 1);
    lemma_walk_enters(g, plan, dist, once, level);
    if level < g.top() {
        lemma_walk_within(g, plan, dist, once, level + 1, c);
    }
    lemma_enter_within(g, level, width_above(g, plan, level), above, ef, c);
    let st = enter(above, ef);
    let p = |s: LayerState|
        {
            &&& forall|v: int| 0 <= v < g.len() && #[trigger] s.visited[v] ==> c.contains(v)
            &&& forall|k: int| 0 <= k < s.pending.len() ==> c.contains(
                (#[trigger] s.pending[k]) as int,
            )
        };
    assert forall|s: LayerState|
        layer_inv(g, level, ef, s) && p(s) && s.pending.len() > 0
            && s.visited[s.pending[0] as int] implies p(#[trigger] skip(s)) by {
        assert forall|k: int| 0 <= k < skip(s).pending.len() implies c.contains(
            (#[trigger] skip(s).pending[k]) as int,
        ) by {
            assert(skip(s).pending[k] == s.pending[k + 1]);
        }
    }
    assert(closed_on(g, level, c));
    assert forall|s: LayerState|
        layer_inv(g, level, ef, s) && p(s) && s.pending.len() == 0 && !over(s) implies p(
        #[trigger] expand(g, level, s),
    ) by {
        let t = expand(g, level, s);
        let i = s.candidates[0].1 as int;
        assert(met(g, level, s.visited, s.candidates[0].1));
        assert(s.visited[i]);
        assert forall|k: int| 0 <= k < t.pending.len() implies c.contains(
            (#[trigger] t.pending[k]) as int,
        ) by {
            assert(t.pending[k] == g.links(i, level)[k].1);
        }
    }
    assert forall|s: LayerState| layer_inv(g, level, ef, s) && p(s) && #[trigger] waiting(s) implies p(
        supply(s, ef, dist[s.pending[0] as int]),
    ) by {
        let t = supply(s, ef, dist[s.pending[0] as int]);
        assert(c.contains(s.pending[0] as int));
        assert forall|v: int| 0 <= v < g.len() && #[trigger] t.visited[v] implies c.contains(v) by {
            if v != s.pending[0] {
                assert(s.visited[v]);
            }
        }
        assert forall|k: int| 0 <= k < t.pending.len() implies c.contains(
            (#[trigger] t.pending[k]) as int,
        ) by {
            assert(t.pending[k] == s.pending[k + 1]);
        }
    }
    lemma_search_keeps(g, level, ef, dist, st, p);
}

proof fn lemma_enter_within(
    g: GraphModel,
    upper: int,
    upper_ef: nat,
    st: LayerState,
    ef: nat,
    c: Set<int>,
)
    requires
        layer_inv(g, upper, upper_ef, st),
        forall|v: int| 0 <= v < g.len() && #[trigger] st.visited[v] ==> c.contains(v),
    ensures
        forall|v: int| 0 <= v < g.len() && #[trigger] enter(st, ef).visited[v] ==> c.contains(v),
{
    let s = enter(st, ef);
    assert forall|v: int| 0 <= v < g.len() && #[trigger] s.visited[v] implies c.contains(v) by {
        let k = choose|k: int| 0 <= k < s.candidates.len() && (#[trigger] s.candidates[k]).1 == v;
        assert(met(g, upper, st.visited, st.nearest[k].1));
        assert(st.visited[v]);
    }
}

/// Every hit can be reached from the entrypoint over links: it is in every set
/// of nodes that holds the entrypoint and that no link leaves.
pub proof fn law_hits_can_be_reached(
    g: GraphModel,
    dist: Seq<VectorDistance>,
    ef_search: nat,
    top_n: nat,
    c: Set<int>,
    k: int,
)
    requires
        g.wf(),
        dist.len() == g.len(),
        c.contains(g.entrypoint as int),
        forall|level: int| 0 <= level ==> #[trigger] closed_on(g, level, c),
        0 <= k < hits(g, dist, ef_search, top_n).len(),
    ensures
        c.contains(hits(g, dist, ef_search, top_n)[k].1 as int),
{
    let plan = search_plan(ef_search);
    lemma_walk_within(g, plan, dist, true, 0, c);
    lemma_walk_good(g, plan, dist, true, 0);
    let end = search_end(g, dist, ef_search);
    assert(met(g, 0, end.visited, end.nearest[k].1));
    assert(end.visited[end.nearest[k].1 as int]);
}

/// How many levels, from `level` on, the first `n` nodes have together.
pub open spec fn levels_from(g: GraphModel, level: int, n: nat) -> nat
    decreases n,
{
    if n == 0 {
        0
    } else {
        levels_from(g, level, (n - 1) as nat) + if level < g.height(n - 1) {
            (g.height(n - 1) - level) as nat
        } else {
            0
        }
    }
}

/// Going down a level adds one for each node that stands on it.
proof fn lemma_levels_from(g: GraphModel, level: int, n: nat)
    requires
        n <= g.len(),
    ensures
        levels_from(g, level, n) == levels_from(g, level + 1, n) + count_set(
            Seq::new(n, |i: int| level < g.height(i)),
        ),
    decreases n,
{
    if n > 0 {
        let m = (n - 1) as nat;
        lemma_levels_from(g, level, m);
        let stands = Seq::new(n, |i: int| level < g.height(i));
        assert(stands.drop_last() =~= Seq::new(m, |i: int| level < g.height(i)));
    }
}

/// On each level a walk hops at most once from each node that stands on it,
/// and, where distances count every time, measures each such node at most once.
pub proof fn lemma_walk_counts(
    g: GraphModel,
    plan: Plan,
    dist: Seq<VectorDistance>,
    once: bool,
    level: int,
)
    requires
        g.wf(),
        dist.len() == g.len(),
        0 <= level <= g.top(),
    ensures
        ({
            let end = walk(g, plan, dist, start(g, dist[g.entrypoint as int], once), level);
            &&& end.hops <= levels_from(g, level, g.len())
            &&& end.hops <= g.len() * (g.top() + 1 - level)
            &&& end.measured is Some == once
            &&& !once ==> end.computed <= levels_from(g, level, g.len())
            &&& !once ==> end.computed <= g.len() * (g.top() + 1 - level)
        }),
    decreases g.top() - level,
{
    let from = start(g, dist[g.entrypoint as int], once);
    let ef = plan.width(level);
    let above = walk(g, plan, dist, from, level + 1);
    lemma_walk_enters(g, plan, dist, once, level);
    if level < g.top() {
        lemma_walk_counts(g, plan, dist, once, level + 1);
    }
    let st = enter(above, ef);
    let stands = Seq::new(g.len(), |i: int| level < g.height(i));
    let p = |s: LayerState|
        {
            &&& s.hops + s.candidates.len() <= above.hops + count_set(s.visited)
            &&& s.measured is Some == once
            &&& !once ==> s.computed <= above.computed + count_set(s.visited)
            &&& forall|v: int| 0 <= v < g.len() && #[trigger] s.visited[v] ==> level < g.height(v)
        };
    lemma_count_set_bound(st.visited);
    assert forall|v: int| 0 <= v < g.len() && #[trigger] st.visited[v] implies level < g.height(
        v,
    ) by {
        let k = choose|k: int| 0 <= k < st.candidates.len() && (#[trigger] st.candidates[k]).1 == v;
        assert(met(g, level, st.visited, st.candidates[k].1));
    }
    assert forall|s: LayerState| layer_inv(g, level, ef, s) && p(s) && #[trigger] waiting(s) implies p(
        supply(s, ef, dist[s.pending[0] as int]),
    ) by {
        lemma_count_set_update(s.visited, s.pending[0] as int);
        lemma_rank(s.candidates, dist[s.pending[0] as int]);
    }
    lemma_search_keeps(g, level, ef, dist, st, p);
    let end = search_to_end(g, level, ef, dist, st);
    lemma_count_set_monotone(end.visited, stands);
    lemma_count_set_bound(end.visited);
    lemma_levels_from(g, level, g.len());
    let n = g.len() as int;
    let k = g.top() - level;
    assert(n * (k + 1) == n * k + n) by (nonlinear_arith);
}

/// Which nodes are among the nearest and are candidates no more.
spec fn done_with(g: GraphModel, st: LayerState) -> Seq<bool> {
    Seq::new(g.len(), |i: int| names(st.nearest, i) && !names(st.candidates, i))
}

proof fn lemma_expand_done(g: GraphModel, level: int, ef: nat, st: LayerState)
    requires
        layer_inv(g, level, ef, st),
        st.pending.len() == 0,
        st.candidates.len() > 0,
    ensures
        count_set(done_with(g, expand(g, level, st))) <= count_set(done_with(g, st)) + 1,
{
    let s = expand(g, level, st);
    let c = st.candidates[0].1 as int;
    assert(met(g, level, st.visited, st.candidates[0].1));
    let before = done_with(g, st);
    assert(names(st.candidates, c));
    assert forall|i: int| 0 <= i < g.len() && done_with(g, s)[i] implies before.update(
        c,
        true,
    )[i] by {
        if i != c && names(st.candidates, i) {
            let k = choose|k: int|
                0 <= k < st.candidates.len() && (#[trigger] st.candidates[k]).1 == i;
            assert(s.candidates[k - 1].1 == i);
        }
    }
    lemma_count_set_monotone(done_with(g, s), before.update(c, true));
    lemma_count_set_update(before, c);
}

proof fn lemma_supply_done(g: GraphModel, level: int, ef: nat, st: LayerState, d: VectorDistance)
    requires
        layer_inv(g, level, ef, st),
        waiting(st),
    ensures
        count_set(done_with(g, supply(st, ef, d))) <= count_set(done_with(g, st)),
{
    let s = supply(st, ef, d);
    let v = st.pending[0];
    let q = rank(st.candidates, d) as int;
    lemma_rank(st.candidates, d);
    lemma_rank(st.nearest, d);
    assert forall|i: int| 0 <= i < g.len() && done_with(g, s)[i] implies done_with(g, st)[i] by {
        lemma_insert_names(st.nearest, ef, d, v, i);
        if admits(st.nearest, ef, d) {
            assert(s.candidates[q].1 == v);
        }
        if names(st.candidates, i) {
            let k = choose|k: int|
                0 <= k < st.candidates.len() && (#[trigger] st.candidates[k]).1 == i;
            let at = if admits(st.nearest, ef, d) && k >= q {
                k + 1
            } else {
                k
            };
            assert(s.candidates[at].1 == i);
        }
        if !admits(st.nearest, ef, d) {
            assert(s.nearest =~= st.nearest);
        }
    }
    lemma_count_set_monotone(done_with(g, s), done_with(g, st));
}

/// On each level a walk hops from each of the nearest nodes that it ends with.
proof fn lemma_walk_hops(
    g: GraphModel,
    plan: Plan,
    dist: Seq<VectorDistance>,
    once: bool,
    level: int,
)
    requires
        g.wf(),
        dist.len() == g.len(),
        0 <= level <= g.top(),
    ensures
        ({
            let from = start(g, dist[g.entrypoint as int], once);
            let above = walk(g, plan, dist, from, level + 1);
            let end = walk(g, plan, dist, from, level);
            above.hops + end.nearest.len() <= end.hops
        }),
{
    let from = start(g, dist[g.entrypoint as int], once);
    let ef = plan.width(level);
    let above = walk(g, plan, dist, from, level + 1);
    let st = enter(above, ef);
    lemma_walk_enters(g, plan, dist, once, level);
    let p = |s: LayerState| above.hops + count_set(done_with(g, s)) <= s.hops;
    assert forall|i: int| 0 <= i < g.len() implies !done_with(g, st)[i] by {
        if names(st.nearest, i) {
            let k = choose|k: int| 0 <= k < st.nearest.len() && (#[trigger] st.nearest[k]).1 == i;
            assert(st.candidates[k].1 == i);
        }
    }
    lemma_count_set_none(done_with(g, st));
    assert forall|s: LayerState|
        layer_inv(g, level, ef, s) && p(s) && s.pending.len() > 0
            && s.visited[s.pending[0] as int] implies p(#[trigger] skip(s)) by {
        assert(done_with(g, skip(s)) =~= done_with(g, s));
    }
    assert forall|s: LayerState|
        layer_inv(g, level, ef, s) && p(s) && s.pending.len() == 0 && !over(s) implies p(
        #[trigger] expand(g, level, s),
    ) by {
        lemma_expand_done(g, level, ef, s);
    }
    assert forall|s: LayerState| layer_inv(g, level, ef, s) && p(s) && #[trigger] waiting(s) implies p(
        supply(s, ef, dist[s.pending[0] as int]),
    ) by {
        lemma_supply_done(g, level, ef, s, dist[s.pending[0] as int]);
    }
    lemma_search_keeps(g, level, ef, dist, st, p);
    lemma_walk_good(g, plan, dist, once, level);
    let end = walk(g, plan, dist, from, level);
    let marks = Seq::new(g.len(), |i: int| names(end.nearest, i));
    assert forall|i: int| 0 <= i < g.len() && names(end.nearest, i) implies !names(
        end.candidates,
        i,
    ) by {
        lemma_nearest_done(g, level, ef, dist, end, i);
    }
    assert(done_with(g, end) =~= marks);
    assert forall|k: int| 0 <= k < end.nearest.len() implies (#[trigger] end.nearest[k]).1
        < g.len() by {
        assert(met(g, level, end.visited, end.nearest[k].1));
    }
    crate::layer::lemma_marks_count(g.len(), end.nearest);
}

/// From the top down to a level on which it looks for something, a walk hops at
/// least once on each level.
proof fn lemma_walk_hops_from_top(
    g: GraphModel,
    plan: Plan,
    dist: Seq<VectorDistance>,
    once: bool,
    level: int,
)
    requires
        g.wf(),
        dist.len() == g.len(),
        0 <= level <= g.top() + 1,
        plan.width(level) > 0,
    ensures
        walk(g, plan, dist, start(g, dist[g.entrypoint as int], once), level).hops >= g.top() + 1
            - level,
    decreases g.top() + 1 - level,
{
    if level <= g.top() {
        lemma_walk_hops_from_top(g, plan, dist, once, level + 1);
        lemma_walk_hops(g, plan, dist, once, level);
        lemma_walk_meets(g, plan, dist, once, level);
    }
}

/// The greater of two numbers.
pub open spec fn most(a: nat, b: nat) -> nat {
    if a <= b {
        b
    } else {
        a
    }
}

/// A search measures each node at most once: what it counts are the nodes that
/// it measured, the entrypoint and all those met on the ground among them. It
/// measures no fewer nodes than it hands out. It hops at most once per level
/// from each node that stands on it, at least once on each level on which it
/// looks for something, and on the ground from each hit.
pub proof fn law_search_counts(
    g: GraphModel,
    dist: Seq<VectorDistance>,
    ef_search: nat,
    top_n: nat,
)
    requires
        g.wf(),
        dist.len() == g.len(),
    ensures
        ({
            let end = search_end(g, dist, ef_search);
            let found = hits(g, dist, ef_search, top_n).len();
            &&& end.measured is Some
            &&& end.measured->0.len() == g.len()
            &&& end.computed == count_set(end.measured->0)
            &&& (end.measured->0)[g.entrypoint as int]
            &&& forall|v: int|
                0 <= v < g.len() && end.visited[v] ==> #[trigger] (end.measured->0)[v]
            &&& 1 <= end.computed <= g.len()
            &&& found <= end.computed
            &&& g.top() <= end.hops
            &&& ef_search > 0 ==> g.top() + most(1, found) <= end.hops
            &&& end.hops <= levels_from(g, 0, g.len())
            &&& end.hops <= g.len() * (g.top() + 1)
        }),
{
    let plan = search_plan(ef_search);
    let from = start(g, dist[g.entrypoint as int], true);
    lemma_walk_good(g, plan, dist, true, 0);
    lemma_walk_counts(g, plan, dist, true, 0);
    lemma_walk_hops_from_top(g, plan, dist, true, 1);
    lemma_walk_hops(g, plan, dist, true, 0);
    if ef_search > 0 {
        lemma_walk_meets(g, plan, dist, true, 0);
    }
    let end = search_end(g, dist, ef_search);
    assert(walk(g, plan, dist, from, g.top() as int + 1) == from);
    lemma_measured_stays(g, plan, dist, g.top() as int + 1, g.entrypoint as int);
    lemma_count_set_monotone(end.visited, end.measured->0);
    lemma_count_set_bound(end.measured->0);
    lemma_count_set_some(end.measured->0, g.entrypoint as int);
}

/// A search reads the vectors of the nodes that it measures, and of no others,
/// that of the entrypoint first.
pub proof fn law_search_reads_what_it_measures(
    g: GraphModel,
    dist: Seq<VectorDistance>,
    ef_search: nat,
    v: usize,
)
    requires
        g.wf(),
        dist.len() == g.len(),
        v < g.len(),
    ensures
        search_reads(g, dist, ef_search).contains(v) == (search_end(
            g,
            dist,
            ef_search,
        ).measured->0)[v as int],
        search_reads(g, dist, ef_search).len() > 0,
        search_reads(g, dist, ef_search)[0] == g.entrypoint,
{
    let plan = search_plan(ef_search);
    let from = start(g, dist[g.entrypoint as int], true);
    lemma_measured_were_read(g, plan, dist, 0, v);
    lemma_reads_come_first(g, plan, dist, from, g.top() as int + 1);
    assert(seq![g.entrypoint][0] == g.entrypoint);
}

/// An insertion reads the vectors of the nodes that it measures, and of no
/// others, that of the entrypoint first.
pub proof fn law_insertion_reads_what_it_measures(
    g: GraphModel,
    levels: nat,
    dist: Seq<VectorDistance>,
    ef_construction: nat,
    v: usize,
)
    requires
        g.wf(),
        dist.len() == g.len(),
        v < g.len(),
    ensures
        insertion_reads(g, levels, dist, ef_construction).contains(v) == insertion_measures(
            g,
            levels,
            dist,
            ef_construction,
            v as int,
        ),
        insertion_reads(g, levels, dist, ef_construction).len() > 0,
        insertion_reads(g, levels, dist, ef_construction)[0] == g.entrypoint,
{
    let plan = insertion_plan(levels, ef_construction);
    let from = start(g, dist[g.entrypoint as int], false);
    lemma_met_were_read(g, plan, dist, false, 0, v);
    lemma_reads_come_first(g, plan, dist, from, g.top() as int + 1);
    assert(seq![g.entrypoint][0] == g.entrypoint);
    assert forall|l: int|
        0 <= l <= g.top() implies #[trigger] walk(g, plan, dist, from, l) == insertion_end(
        g,
        levels,
        dist,
        ef_construction,
        l,
    ) by {}
}

/// Where a search comes to a vector that can never be read, and whose read fails
/// with `e` alone, while all before it can always be read, the search does not
/// succeed, and `e` is what stops it.
pub proof fn law_failed_read_stops_search<S: VectorStore>(
    store: &S,
    g: GraphModel,
    dist: Seq<VectorDistance>,
    ef_search: nat,
    k: int,
    e: HummockError,
)
    requires
        0 <= k < search_reads(g, dist, ef_search).len(),
        fails_first_at(store, search_reads(g, dist, ef_search), k, e),
    ensures
        !search_reads_succeed(store, g, dist, ef_search),
        forall|f: HummockError| #[trigger]
            search_read_fails(store, g, dist, ef_search, f) ==> f == e,
{
}

/// Where an insertion comes to a vector that can never be read, and whose read
/// fails with `e` alone, while all before it can always be read, the insertion
/// does not succeed, and `e` is what stops it.
pub proof fn law_failed_read_stops_insertion<S: VectorStore>(
    store: &S,
    g: GraphModel,
    levels: nat,
    dist: Seq<VectorDistance>,
    ef_construction: nat,
    k: int,
    e: HummockError,
)
    requires
        0 <= k < insertion_reads(g, levels, dist, ef_construction).len(),
        fails_first_at(store, insertion_reads(g, levels, dist, ef_construction), k, e),
    ensures
        !insertion_reads_succeed(store, g, levels, dist, ef_construction),
        forall|f: HummockError| #[trigger]
            insertion_read_fails(store, g, levels, dist, ef_construction, f) ==> f == e,
{
}

/// Whether the `k`th of the vectors that are read can never be read and fails
/// with `e` alone, and none before it can fail.
pub open spec fn fails_first_at<S: VectorStore>(
    store: &S,
    reads: Seq<usize>,
    k: int,
    e: HummockError,
) -> bool {
    &&& !can_read(store, reads[k])
    &&& forall|f: HummockError| #[trigger] read_fails(store, reads[k], f) ==> f == e
    &&& forall|j: int, f: HummockError|
        0 <= j < k ==> !(#[trigger] read_fails(store, reads[j], f))
}

/// An insertion measures and hops at most once per level from each node that
/// stands on it, and hops at least once on each level on which it looks for
/// something.
pub proof fn law_insertion_counts(
    g: GraphModel,
    levels: nat,
    dist: Seq<VectorDistance>,
    ef_construction: nat,
)
    requires
        g.wf(),
        dist.len() == g.len(),
    ensures
        ({
            let end = insertion_end(g, levels, dist, ef_construction, 0);
            &&& end.computed <= levels_from(g, 0, g.len())
            &&& end.computed <= g.len() * (g.top() + 1)
            &&& end.hops <= levels_from(g, 0, g.len())
            &&& end.hops <= g.len() * (g.top() + 1)
            &&& ef_construction > 0 ==> g.top() + 1 <= end.hops
        }),
{
    let plan = insertion_plan(levels, ef_construction);
    lemma_walk_counts(g, plan, dist, false, 0);
    if ef_construction > 0 {
        lemma_walk_hops_from_top(g, plan, dist, false, 0);
    }
}

/// In a graph of one node, a walk that looks for something on each level finds
/// that node, and hops once on each level.
proof fn lemma_singleton_walk(
    g: GraphModel,
    plan: Plan,
    dist: Seq<VectorDistance>,
    level: int,
)
    requires
        g.wf(),
        g.len() == 1,
        dist.len() == 1,
        plan.width(0) > 0,
        0 <= level <= g.top(),
    ensures
        ({
            let end = walk(g, plan, dist, start(g, dist[g.entrypoint as int], true), level);
            &&& end.nearest == seq![(dist[0], 0usize)]
            &&& end.computed == 1
            &&& end.hops == g.top() + 1 - level
        }),
    decreases g.top() - level,
{
    let from = start(g, dist[g.entrypoint as int], true);
    let ef = plan.width(level);
    let above = walk(g, plan, dist, from, level + 1);
    assert(ef > 0);
    lemma_walk_enters(g, plan, dist, true, level);
    if level == g.top() {
        assert(above.nearest =~= seq![(dist[0], 0usize)]);
    } else {
        lemma_singleton_walk(g, plan, dist, level + 1);
    }
    let st = enter(above, ef);
    let only = seq![(dist[0], 0usize)];
    let p = |s: LayerState|
        {
            &&& s.nearest == only
            &&& s.candidates == only || s.candidates.len() == 0
            &&& s.visited[0]
            &&& s.computed == 1
            &&& s.hops + s.candidates.len() == above.hops + 1
        };
    assert(st.nearest =~= only);
    assert(st.candidates[0].1 == 0);
    assert(p(st));
    assert forall|s: LayerState| layer_inv(g, level, ef, s) && p(s) && #[trigger] waiting(s) implies p(
        supply(s, ef, dist[s.pending[0] as int]),
    ) by {
        assert(s.pending[0] == 0);
    }
    lemma_search_keeps(g, level, ef, dist, st, p);
}

/// In a graph of one node, a search finds that node, measures it once, and hops
/// once on each of its levels.
pub proof fn law_singleton(
    g: GraphModel,
    dist: Seq<VectorDistance>,
    ef_search: nat,
    top_n: nat,
)
    requires
        g.wf(),
        g.len() == 1,
        dist.len() == 1,
        ef_search > 0,
        top_n > 0,
    ensures
        hits(g, dist, ef_search, top_n) == seq![(dist[0], 0usize)],
        search_end(g, dist, ef_search).computed == 1,
        search_end(g, dist, ef_search).hops == g.height(0),
{
    lemma_singleton_walk(g, search_plan(ef_search), dist, 0);
    assert(g.entrypoint == 0);
    assert(g.height(0) >= 1);
}

/// A bounded list to which items are offered one after the other.
pub open spec fn offered<T>(s: Seq<(VectorDistance, T)>, capacity: nat) -> Seq<(VectorDistance, T)>
    decreases s.len(),
{
    if s.len() == 0 {
        Seq::empty()
    } else {
        insert_bounded(offered(s.drop_last(), capacity), capacity, s.last().0, s.last().1)
    }
}

/// Whatever the order in which items are offered, a bounded list holds the
/// nearest of them, in order.
pub proof fn law_bounded_list_holds_the_nearest<T>(s: Seq<(VectorDistance, T)>, capacity: nat)
    ensures
        offered(s, capacity) == keep_first(arrange(s), capacity),
        ordered(arrange(s)),
        arrange(s).to_multiset() == s.to_multiset(),
    decreases s.len(),
{
    lemma_arrange(s);
    if s.len() > 0 {
        let t = s.drop_last();
        law_bounded_list_holds_the_nearest(t, capacity);
        let wide = arrange(t).len() + capacity + 1;
        lemma_keep_then_insert(arrange(t), capacity, wide, s.last().0, s.last().1);
        lemma_rank(arrange(t), s.last().0);
        assert(insert_bounded(arrange(t), wide, s.last().0, s.last().1) == arrange(s));
    } else {
        assert(offered(s, capacity) =~= keep_first(arrange(s), capacity));
    }
}

} // verus!
