//! What a search does on each level, said of the graph and the distances alone:
//! it looks at the nodes that it meets nearest first, as long as they can be
//! among the nearest, and keeps the nearest of those that it has met.
use vstd::prelude::*;

use crate::bounded::{admits, lemma_rank, rank};
use crate::graph::{GraphModel, Links};
use crate::insertion::{found_links, insertion_end, insertion_plan};
use crate::layer::{
    distinct, enter, expand, layer_inv, lemma_insert_bounded_members, lemma_marks_count, met,
    names, over, search_to_end, skip, supply, waiting, LayerState,
};
use crate::search::{search_end, search_plan};
use crate::trace::{
    good, lemma_expand_good, lemma_insert_names, lemma_met_were_read, lemma_measured_were_read,
    lemma_search_keeps, lemma_skip_good, lemma_supply_good, lemma_walk_enters, lemma_walk_good,
};
use crate::vec_set::{
    count_set, lemma_count_set_monotone, lemma_count_set_none, lemma_count_set_update,
};
use crate::vector::VectorDistance;
use crate::walk::{start, walk, Plan};

verus! {

/// Whether a search that starts a level with the nodes `brought` has met node
/// `u` once it has looked at the first `k` nodes of `order`: it started with it,
/// or one of those has a link to it there.
pub open spec fn met_from(
    g: GraphModel,
    level: int,
    brought: Set<int>,
    order: Seq<int>,
    k: int,
    u: int,
) -> bool {
    brought.contains(u) || exists|j: int|
        0 <= j < k && #[trigger] names(g.nodes[order[j]][level], u)
}

/// Which nodes have been met by then and are nearer than node `v`.
pub open spec fn met_nearer(
    g: GraphModel,
    level: int,
    dist: Seq<VectorDistance>,
    brought: Set<int>,
    order: Seq<int>,
    k: int,
    v: int,
) -> Seq<bool> {
    Seq::new(
        g.nodes.len(),
        |u: int| met_from(g, level, brought, order, k, u) && dist[u] < dist[v],
    )
}

/// Whether node `u` has been met once the search, looking at the `j`th node of
/// `order`, has come to that node's `m`th link.
pub open spec fn met_before(
    g: GraphModel,
    level: int,
    brought: Set<int>,
    order: Seq<int>,
    j: int,
    m: int,
    u: int,
) -> bool {
    met_from(g, level, brought, order, j, u) || exists|t: int|
        0 <= t < m && (#[trigger] g.nodes[order[j]][level][t]).1 == u
}

/// Whether the `m`th link of the `j`th node of `order` is how the search meets
/// node `u`.
pub open spec fn first_met_at(
    g: GraphModel,
    level: int,
    brought: Set<int>,
    order: Seq<int>,
    j: int,
    m: int,
    u: int,
) -> bool {
    &&& 0 <= j < order.len()
    &&& 0 <= m < g.nodes[order[j]][level].len()
    &&& g.nodes[order[j]][level][m].1 == u
    &&& !met_before(g, level, brought, order, j, m, u)
}

/// Which nodes have been met by then and are no further than node `v`.
pub open spec fn met_no_further(
    g: GraphModel,
    level: int,
    dist: Seq<VectorDistance>,
    brought: Set<int>,
    order: Seq<int>,
    j: int,
    m: int,
    v: int,
) -> Seq<bool> {
    Seq::new(
        g.nodes.len(),
        |u: int| met_before(g, level, brought, order, j, m, u) && dist[u] <= dist[v],
    )
}

/// Whether a search for `ef` nodes had no use for node `u` when it met it: `ef`
/// of those met before are no further.
pub open spec fn turned_away(
    g: GraphModel,
    level: int,
    ef: nat,
    dist: Seq<VectorDistance>,
    brought: Set<int>,
    order: Seq<int>,
    u: int,
) -> bool {
    exists|j: int, m: int| #[trigger]
        first_met_at(g, level, brought, order, j, m, u) && count_set(
            met_no_further(g, level, dist, brought, order, j, m, u),
        ) >= ef
}

/// Whether `order` is one in which a search for `ef` nodes looks at nodes: each
/// node once, when it has been met; the nearest of those met and not looked at;
/// and only while fewer than `ef` of those met are nearer.
pub open spec fn best_first(
    g: GraphModel,
    level: int,
    ef: nat,
    dist: Seq<VectorDistance>,
    brought: Set<int>,
    order: Seq<int>,
) -> bool {
    &&& forall|k: int|
        0 <= k < order.len() ==> 0 <= #[trigger] order[k] < g.nodes.len() && met_from(
            g,
            level,
            brought,
            order,
            k,
            order[k],
        )
    &&& forall|j: int, k: int| 0 <= j < k < order.len() ==> #[trigger] order[j] != #[trigger] order[k]
    &&& forall|k: int, u: int|
        0 <= k < order.len() && 0 <= u < g.nodes.len() && #[trigger] met_from(
            g,
            level,
            brought,
            order,
            k,
            u,
        ) && !order.take(k).contains(u) ==> dist[order[k]] <= dist[u]
    &&& forall|k: int|
        0 <= k < order.len() ==> count_set(
            met_nearer(g, level, dist, brought, order, k, #[trigger] order[k]),
        ) < ef
}

/// Whether a search for `ef` nodes has looked at all that it should, and at
/// nothing else: at no node that it turned away when it met it, and at each other
/// but where `ef` of the nodes met are nearer.
pub open spec fn exhausted(
    g: GraphModel,
    level: int,
    ef: nat,
    dist: Seq<VectorDistance>,
    brought: Set<int>,
    order: Seq<int>,
) -> bool {
    &&& forall|k: int|
        0 <= k < order.len() ==> !turned_away(
            g,
            level,
            ef,
            dist,
            brought,
            order,
            #[trigger] order[k],
        )
    &&& forall|u: int|
        0 <= u < g.nodes.len() && #[trigger] met_from(
            g,
            level,
            brought,
            order,
            order.len() as int,
            u,
        ) && !order.contains(u) ==> turned_away(g, level, ef, dist, brought, order, u) || count_set(
            met_nearer(g, level, dist, brought, order, order.len() as int, u),
        ) >= ef
}

/// Whether `links` lead to the nearest of the nodes met, at most `most` of them:
/// in order, to no node twice, each at its distance, to as many as there can be,
/// and no other node met is nearer than any of them.
pub open spec fn nearest_of_met(
    dist: Seq<VectorDistance>,
    visited: Seq<bool>,
    most: nat,
    links: Links,
) -> bool {
    &&& links.len() == if most < count_set(visited) {
        most
    } else {
        count_set(visited)
    }
    &&& forall|i: int, j: int|
        0 <= i <= j < links.len() ==> (#[trigger] links[i]).0 <= (#[trigger] links[j]).0
    &&& forall|i: int, j: int|
        0 <= i < j < links.len() ==> (#[trigger] links[i]).1 != (#[trigger] links[j]).1
    &&& forall|k: int|
        0 <= k < links.len() ==> (#[trigger] links[k]).1 < visited.len()
            && visited[links[k].1 as int] && links[k].0 == dist[links[k].1 as int]
    &&& forall|v: int, k: int|
        0 <= v < visited.len() && #[trigger] visited[v] && (forall|i: int|
            0 <= i < links.len() ==> (#[trigger] links[i]).1 != v) && 0 <= k < links.len() ==> (
        #[trigger] links[k]).0 <= dist[v]
}

/// Whether a search for `ef` nodes, started on a level with the nodes `brought`,
/// has met these nodes there, hopped so many times, and kept these.
pub open spec fn searched(
    g: GraphModel,
    level: int,
    ef: nat,
    dist: Seq<VectorDistance>,
    brought: Set<int>,
    visited: Seq<bool>,
    hops: int,
    nearest: Links,
) -> bool {
    &&& visited.len() == g.nodes.len()
    &&& exists|order: Seq<int>|
        {
            &&& #[trigger] best_first(g, level, ef, dist, brought, order)
            &&& exhausted(g, level, ef, dist, brought, order)
            &&& hops == order.len()
            &&& forall|u: int|
                0 <= u < visited.len() ==> #[trigger] visited[u] == met_from(
                    g,
                    level,
                    brought,
                    order,
                    order.len() as int,
                    u,
                )
        }
    &&& nearest_of_met(dist, visited, ef, nearest)
}

/// Which of the nodes met were not brought.
pub open spec fn newly_met(visited: Seq<bool>, brought: Set<int>) -> Seq<bool> {
    Seq::new(visited.len(), |u: int| visited[u] && !brought.contains(u))
}

/// The nodes to which a list of links leads.
pub open spec fn ends(links: Links) -> Set<int> {
    Set::new(|u: int| names(links, u))
}

proof fn lemma_met_from_prefix(
    g: GraphModel,
    level: int,
    brought: Set<int>,
    order: Seq<int>,
    v: int,
    k: int,
    u: int,
)
    requires
        0 <= k <= order.len(),
    ensures
        met_from(g, level, brought, order.push(v), k, u) == met_from(g, level, brought, order, k, u),
{
    let more = order.push(v);
    if met_from(g, level, brought, order, k, u) && !brought.contains(u) {
        let j = choose|j: int| 0 <= j < k && #[trigger] names(g.nodes[order[j]][level], u);
        assert(names(g.nodes[more[j]][level], u));
    }
    if met_from(g, level, brought, more, k, u) && !brought.contains(u) {
        let j = choose|j: int| 0 <= j < k && #[trigger] names(g.nodes[more[j]][level], u);
        assert(names(g.nodes[order[j]][level], u));
    }
}

/// What a search knows of the order in which it has looked at nodes.
spec fn certified(
    g: GraphModel,
    level: int,
    ef: nat,
    dist: Seq<VectorDistance>,
    brought: Set<int>,
    hops: nat,
    st: LayerState,
    order: Seq<int>,
) -> bool {
    &&& best_first(g, level, ef, dist, brought, order)
    &&& st.hops == hops + order.len()
    &&& distinct(st.candidates)
    &&& forall|u: int|
        0 <= u < g.nodes.len() ==> #[trigger] met_from(
            g,
            level,
            brought,
            order,
            order.len() as int,
            u,
        ) == (st.visited[u] || st.pending.contains(u as usize))
    &&& forall|k: int| 0 <= k < order.len() ==> st.visited[#[trigger] order[k]]
    &&& forall|u: int| #[trigger] names(st.candidates, u) ==> !order.contains(u)
    &&& forall|u: int|
        0 <= u < g.nodes.len() && #[trigger] st.visited[u] ==> order.contains(u) || names(
            st.candidates,
            u,
        ) || passed_over(ef, dist, st, u)
}

/// Whether node `u` was met when there was no room for it among the nearest.
spec fn passed_over(ef: nat, dist: Seq<VectorDistance>, st: LayerState, u: int) -> bool {
    st.nearest.len() == ef && ef > 0 && dist[u] >= st.nearest.last().0 && !names(st.nearest, u)
}

/// What a search knows of how it met the nodes: it has come to a link of the last
/// node that it looked at, and has taken in exactly those that it had a use for.
spec fn in_turn(
    g: GraphModel,
    level: int,
    ef: nat,
    dist: Seq<VectorDistance>,
    brought: Set<int>,
    st: LayerState,
    order: Seq<int>,
) -> bool {
    &&& order.len() == 0 ==> st.pending.len() == 0
    &&& order.len() > 0 ==> ({
        let last = order.len() - 1;
        let links = g.nodes[order[last]][level];
        let m = links.len() - st.pending.len();
        &&& 0 <= m
        &&& forall|t: int|
            0 <= t < st.pending.len() ==> #[trigger] st.pending[t] == links[m + t].1
        &&& forall|u: int|
            0 <= u < g.nodes.len() ==> #[trigger] st.visited[u] == met_before(
                g,
                level,
                brought,
                order,
                last,
                m,
                u,
            )
    })
    &&& forall|u: int|
        0 <= u < g.nodes.len() && #[trigger] st.visited[u] ==> turned_away(
            g,
            level,
            ef,
            dist,
            brought,
            order,
            u,
        ) == !(order.contains(u) || names(st.candidates, u))
}

/// One link further, one more node may have been met.
proof fn lemma_met_before_step(
    g: GraphModel,
    level: int,
    brought: Set<int>,
    order: Seq<int>,
    j: int,
    m: int,
    u: int,
)
    requires
        0 <= m,
    ensures
        met_before(g, level, brought, order, j, m + 1, u) == (met_before(
            g,
            level,
            brought,
            order,
            j,
            m,
            u,
        ) || g.nodes[order[j]][level][m].1 == u),
        met_before(g, level, brought, order, j, 0, u) == met_from(g, level, brought, order, j, u),
{
    let links = g.nodes[order[j]][level];
    if links[m].1 == u {
        assert(g.nodes[order[j]][level][m].1 == u);
    }
}

/// A node is met in one place.
proof fn lemma_first_met_once(
    g: GraphModel,
    level: int,
    brought: Set<int>,
    order: Seq<int>,
    i: int,
    k: int,
    j: int,
    m: int,
    u: int,
)
    requires
        first_met_at(g, level, brought, order, i, k, u),
        first_met_at(g, level, brought, order, j, m, u),
    ensures
        i == j && k == m,
{
    if i < j {
        let links = g.nodes[order[i]][level];
        assert(links[k].1 == u);
        assert(names(g.nodes[order[i]][level], u));
    } else if j < i {
        let links = g.nodes[order[j]][level];
        assert(links[m].1 == u);
        assert(names(g.nodes[order[j]][level], u));
    } else if k < m {
        assert(g.nodes[order[j]][level][k].1 == u);
    } else if m < k {
        assert(g.nodes[order[i]][level][m].1 == u);
    }
}

proof fn lemma_met_before_prefix(
    g: GraphModel,
    level: int,
    brought: Set<int>,
    order: Seq<int>,
    v: int,
    j: int,
    m: int,
    u: int,
)
    requires
        0 <= j < order.len(),
    ensures
        met_before(g, level, brought, order.push(v), j, m, u) == met_before(
            g,
            level,
            brought,
            order,
            j,
            m,
            u,
        ),
{
    let more = order.push(v);
    assert(more[j] == order[j]);
    lemma_met_from_prefix(g, level, brought, order, v, j, u);
}

/// Looking at one more node changes nothing of how the others were met.
proof fn lemma_turned_away_stays(
    g: GraphModel,
    level: int,
    ef: nat,
    dist: Seq<VectorDistance>,
    brought: Set<int>,
    order: Seq<int>,
    v: int,
    u: int,
)
    requires
        met_from(g, level, brought, order, order.len() as int, u),
    ensures
        turned_away(g, level, ef, dist, brought, order.push(v), u) == turned_away(
            g,
            level,
            ef,
            dist,
            brought,
            order,
            u,
        ),
{
    let more = order.push(v);
    let n = order.len() as int;
    assert forall|j: int, m: int| 0 <= j < n implies met_no_further(
        g,
        level,
        dist,
        brought,
        more,
        j,
        m,
        u,
    ) == #[trigger] met_no_further(g, level, dist, brought, order, j, m, u) by {
        assert forall|w: int| met_before(g, level, brought, more, j, m, w) == met_before(
            g,
            level,
            brought,
            order,
            j,
            m,
            w,
        ) by {
            lemma_met_before_prefix(g, level, brought, order, v, j, m, w);
        }
        assert(met_no_further(g, level, dist, brought, more, j, m, u) =~= met_no_further(
            g,
            level,
            dist,
            brought,
            order,
            j,
            m,
            u,
        ));
    }
    if turned_away(g, level, ef, dist, brought, more, u) {
        let (j, m) = choose|j: int, m: int| #[trigger]
            first_met_at(g, level, brought, more, j, m, u) && count_set(
                met_no_further(g, level, dist, brought, more, j, m, u),
            ) >= ef;
        if j == n {
            lemma_met_from_prefix(g, level, brought, order, v, n, u);
        } else {
            assert(more[j] == order[j]);
            lemma_met_before_prefix(g, level, brought, order, v, j, m, u);
            assert(first_met_at(g, level, brought, order, j, m, u));
            assert(count_set(met_no_further(g, level, dist, brought, order, j, m, u)) >= ef);
        }
    }
    if turned_away(g, level, ef, dist, brought, order, u) {
        let (j, m) = choose|j: int, m: int| #[trigger]
            first_met_at(g, level, brought, order, j, m, u) && count_set(
                met_no_further(g, level, dist, brought, order, j, m, u),
            ) >= ef;
        assert(more[j] == order[j]);
        lemma_met_before_prefix(g, level, brought, order, v, j, m, u);
        assert(first_met_at(g, level, brought, more, j, m, u));
    }
}

proof fn lemma_skip_in_turn(
    g: GraphModel,
    level: int,
    ef: nat,
    dist: Seq<VectorDistance>,
    brought: Set<int>,
    st: LayerState,
    order: Seq<int>,
)
    requires
        layer_inv(g, level, ef, st),
        in_turn(g, level, ef, dist, brought, st, order),
        st.pending.len() > 0,
        st.visited[st.pending[0] as int],
    ensures
        in_turn(g, level, ef, dist, brought, skip(st), order),
{
    let s = skip(st);
    let last = order.len() - 1;
    let links = g.nodes[order[last]][level];
    let m = links.len() - st.pending.len();
    let v = st.pending[0] as int;
    assert(st.pending[0] == links[m + 0].1);
    assert forall|t: int| 0 <= t < s.pending.len() implies #[trigger] s.pending[t] == links[m + 1
        + t].1 by {
        assert(s.pending[t] == st.pending[t + 1]);
        assert(st.pending[t + 1] == links[m + (t + 1)].1);
    }
    assert forall|u: int| 0 <= u < g.nodes.len() implies #[trigger] s.visited[u] == met_before(
        g,
        level,
        brought,
        order,
        last,
        m + 1,
        u,
    ) by {
        assert(st.visited[u] == met_before(g, level, brought, order, last, m, u));
        lemma_met_before_step(g, level, brought, order, last, m, u);
    }
    assert forall|u: int| 0 <= u < g.nodes.len() && #[trigger] s.visited[u] implies turned_away(
        g,
        level,
        ef,
        dist,
        brought,
        order,
        u,
    ) == !(order.contains(u) || names(s.candidates, u)) by {
        assert(st.visited[u]);
    }
}

proof fn lemma_expand_in_turn(
    g: GraphModel,
    level: int,
    ef: nat,
    dist: Seq<VectorDistance>,
    brought: Set<int>,
    hops: nat,
    st: LayerState,
    order: Seq<int>,
)
    requires
        layer_inv(g, level, ef, st),
        certified(g, level, ef, dist, brought, hops, st, order),
        in_turn(g, level, ef, dist, brought, st, order),
        st.pending.len() == 0,
        st.candidates.len() > 0,
    ensures
        in_turn(
            g,
            level,
            ef,
            dist,
            brought,
            expand(g, level, st),
            order.push(st.candidates[0].1 as int),
        ),
{
    let s = expand(g, level, st);
    let c = st.candidates[0].1 as int;
    let n = order.len() as int;
    let more = order.push(c);
    let links = g.nodes[c][level];
    assert(met(g, level, st.visited, st.candidates[0].1));
    assert(more[n] == c);
    assert(s.pending.len() == links.len());
    assert forall|t: int| 0 <= t < s.pending.len() implies #[trigger] s.pending[t] == links[0
        + t].1 by {
        assert(s.pending[t] == g.links(c, level)[t].1);
    }
    assert forall|u: int| 0 <= u < g.nodes.len() implies #[trigger] s.visited[u] == met_before(
        g,
        level,
        brought,
        more,
        n,
        0,
        u,
    ) by {
        assert(met_from(g, level, brought, order, n, u) == (st.visited[u] || st.pending.contains(
            u as usize,
        )));
        lemma_met_from_prefix(g, level, brought, order, c, n, u);
        lemma_met_before_step(g, level, brought, more, n, 0, u);
    }
    assert forall|u: int| 0 <= u < g.nodes.len() && #[trigger] s.visited[u] implies turned_away(
        g,
        level,
        ef,
        dist,
        brought,
        more,
        u,
    ) == !(more.contains(u) || names(s.candidates, u)) by {
        assert(st.visited[u]);
        assert(met_from(g, level, brought, order, n, u));
        lemma_turned_away_stays(g, level, ef, dist, brought, order, c, u);
        if order.contains(u) {
            assert(more[order.index_of(u)] == u);
        }
        if more.contains(u) {
            let k = more.index_of(u);
            if k < n {
                assert(order[k] == u);
            } else {
                assert(names(st.candidates, u));
            }
        }
        if names(st.candidates, u) {
            let i = choose|i: int|
                0 <= i < st.candidates.len() && (#[trigger] st.candidates[i]).1 == u;
            if i == 0 {
                assert(more[n] == u);
            } else {
                assert(s.candidates[i - 1].1 == u);
            }
        }
        if names(s.candidates, u) {
            let i = choose|i: int|
                0 <= i < s.candidates.len() && (#[trigger] s.candidates[i]).1 == u;
            assert(st.candidates[i + 1].1 == u);
        }
    }
}

/// A bounded list admits a node exactly where fewer than `ef` of those met are no
/// further.
proof fn lemma_admits_by_count(
    g: GraphModel,
    level: int,
    ef: nat,
    dist: Seq<VectorDistance>,
    st: LayerState,
    d: VectorDistance,
    closer: Seq<bool>,
)
    requires
        layer_inv(g, level, ef, st),
        good(g, level, ef, dist, st),
        closer.len() == g.nodes.len(),
        forall|u: int|
            0 <= u < closer.len() ==> #[trigger] closer[u] == (st.visited[u] && dist[u] <= d),
    ensures
        admits(st.nearest, ef, d) == (count_set(closer) < ef),
{
    let r = rank(st.nearest, d);
    lemma_rank(st.nearest, d);
    let first = st.nearest.take(r as int);
    let marks = Seq::new(g.len(), |i: int| names(first, i));
    assert forall|k: int| 0 <= k < first.len() implies (#[trigger] first[k]).1 < g.len() by {
        assert(first[k] == st.nearest[k]);
        assert(met(g, level, st.visited, st.nearest[k].1));
    }
    assert(distinct(first)) by {
        assert forall|i: int, j: int| 0 <= i < j < first.len() implies (#[trigger] first[i]).1 != (
        #[trigger] first[j]).1 by {
            assert(first[i] == st.nearest[i] && first[j] == st.nearest[j]);
        }
    }
    lemma_marks_count(g.len(), first);
    assert forall|u: int| 0 <= u < marks.len() && marks[u] implies closer[u] by {
        let k = choose|k: int| 0 <= k < first.len() && (#[trigger] first[k]).1 == u;
        assert(first[k] == st.nearest[k]);
        assert(met(g, level, st.visited, st.nearest[k].1));
        assert(st.nearest[k].0 == dist[u]);
    }
    lemma_count_set_monotone(marks, closer);
    if r < ef {
        assert forall|u: int| 0 <= u < closer.len() && closer[u] implies marks[u] by {
            assert(st.visited[u]);
            if names(st.nearest, u) {
                let k = choose|k: int|
                    0 <= k < st.nearest.len() && (#[trigger] st.nearest[k]).1 == u;
                assert(st.nearest[k].0 == dist[u]);
                assert(k < r);
                assert(first[k].1 == u);
            } else {
                assert(d < st.nearest[st.nearest.len() - 1].0);
            }
        }
        lemma_count_set_monotone(closer, marks);
    }
}

proof fn lemma_supply_in_turn(
    g: GraphModel,
    level: int,
    ef: nat,
    dist: Seq<VectorDistance>,
    brought: Set<int>,
    hops: nat,
    st: LayerState,
    order: Seq<int>,
)
    requires
        layer_inv(g, level, ef, st),
        good(g, level, ef, dist, st),
        certified(g, level, ef, dist, brought, hops, st, order),
        in_turn(g, level, ef, dist, brought, st, order),
        waiting(st),
    ensures
        in_turn(g, level, ef, dist, brought, supply(st, ef, dist[st.pending[0] as int]), order),
{
    let v = st.pending[0] as int;
    let d = dist[v];
    let s = supply(st, ef, d);
    let last = order.len() - 1;
    let links = g.nodes[order[last]][level];
    let m = links.len() - st.pending.len();
    let q = rank(st.candidates, d) as int;
    lemma_rank(st.candidates, d);
    assert(st.pending[0] == links[m + 0].1);
    assert forall|t: int| 0 <= t < s.pending.len() implies #[trigger] s.pending[t] == links[m + 1
        + t].1 by {
        assert(s.pending[t] == st.pending[t + 1]);
        assert(st.pending[t + 1] == links[m + (t + 1)].1);
    }
    assert forall|u: int| 0 <= u < g.nodes.len() implies #[trigger] s.visited[u] == met_before(
        g,
        level,
        brought,
        order,
        last,
        m + 1,
        u,
    ) by {
        assert(st.visited[u] == met_before(g, level, brought, order, last, m, u));
        lemma_met_before_step(g, level, brought, order, last, m, u);
    }
    // How the node itself is met.
    assert(st.visited[v] == met_before(g, level, brought, order, last, m, v));
    assert(first_met_at(g, level, brought, order, last, m, v));
    let closer = met_no_further(g, level, dist, brought, order, last, m, v);
    assert forall|u: int| 0 <= u < closer.len() implies #[trigger] closer[u] == (st.visited[u]
        && dist[u] <= d) by {
        assert(st.visited[u] == met_before(g, level, brought, order, last, m, u));
    }
    lemma_admits_by_count(g, level, ef, dist, st, d, closer);
    if turned_away(g, level, ef, dist, brought, order, v) {
        let (j, k) = choose|j: int, k: int| #[trigger]
            first_met_at(g, level, brought, order, j, k, v) && count_set(
                met_no_further(g, level, dist, brought, order, j, k, v),
            ) >= ef;
        lemma_first_met_once(g, level, brought, order, j, k, last, m, v);
    }
    assert(turned_away(g, level, ef, dist, brought, order, v) == !admits(st.nearest, ef, d));
    assert forall|u: int| 0 <= u < g.nodes.len() && #[trigger] s.visited[u] implies turned_away(
        g,
        level,
        ef,
        dist,
        brought,
        order,
        u,
    ) == !(order.contains(u) || names(s.candidates, u)) by {
        if u == v {
            assert(!order.contains(u)) by {
                if order.contains(u) {
                    assert(st.visited[order[order.index_of(u)]]);
                }
            }
            if admits(st.nearest, ef, d) {
                assert(s.candidates[q].1 == v);
            } else if names(st.candidates, u) {
                let i = choose|i: int|
                    0 <= i < st.candidates.len() && (#[trigger] st.candidates[i]).1 == u;
                assert(met(g, level, st.visited, st.candidates[i].1));
            }
        } else {
            assert(st.visited[u]);
            if names(st.candidates, u) {
                let i = choose|i: int|
                    0 <= i < st.candidates.len() && (#[trigger] st.candidates[i]).1 == u;
                let at = if admits(st.nearest, ef, d) && i >= q {
                    i + 1
                } else {
                    i
                };
                assert(s.candidates[at].1 == u);
            }
            if names(s.candidates, u) {
                let i = choose|i: int|
                    0 <= i < s.candidates.len() && (#[trigger] s.candidates[i]).1 == u;
                lemma_candidate_before(st, ef, d, i);
            }
        }
    }
}

proof fn lemma_skip_certified(
    g: GraphModel,
    level: int,
    ef: nat,
    dist: Seq<VectorDistance>,
    brought: Set<int>,
    hops: nat,
    st: LayerState,
    order: Seq<int>,
)
    requires
        layer_inv(g, level, ef, st),
        certified(g, level, ef, dist, brought, hops, st, order),
        st.pending.len() > 0,
        st.visited[st.pending[0] as int],
    ensures
        certified(g, level, ef, dist, brought, hops, skip(st), order),
{
    let s = skip(st);
    assert forall|u: int| 0 <= u < g.nodes.len() implies #[trigger] met_from(
        g,
        level,
        brought,
        order,
        order.len() as int,
        u,
    ) == (s.visited[u] || s.pending.contains(u as usize)) by {
        lemma_pending_rest(g, st, u);
    }
    assert forall|u: int| 0 <= u < g.nodes.len() && #[trigger] s.visited[u] implies order.contains(u)
        || names(s.candidates, u) || passed_over(ef, dist, s, u) by {
        assert(st.visited[u]);
        if passed_over(ef, dist, st, u) {
            assert(passed_over(ef, dist, s, u));
        }
    }
}

/// What is left of the neighbours is the first of them and the rest.
proof fn lemma_pending_rest(g: GraphModel, st: LayerState, u: int)
    requires
        st.pending.len() > 0,
        0 <= u < g.nodes.len() <= usize::MAX,
        forall|k: int| 0 <= k < st.pending.len() ==> (#[trigger] st.pending[k]) < g.nodes.len(),
    ensures
        st.pending.contains(u as usize) == (u == st.pending[0] || st.pending.drop_first().contains(
            u as usize,
        )),
{
    let rest = st.pending.drop_first();
    if st.pending.contains(u as usize) {
        let k = st.pending.index_of(u as usize);
        if k > 0 {
            assert(rest[k - 1] == u as usize);
        }
    }
    if rest.contains(u as usize) {
        let k = rest.index_of(u as usize);
        assert(st.pending[k + 1] == u as usize);
    }
    if u == st.pending[0] {
        assert(st.pending[0] == u as usize);
    }
}

/// While a candidate is no further than the furthest of the nearest nodes, fewer
/// than `ef` nodes met are nearer.
proof fn lemma_few_nearer(
    g: GraphModel,
    level: int,
    ef: nat,
    dist: Seq<VectorDistance>,
    st: LayerState,
    v: int,
    nearer: Seq<bool>,
)
    requires
        layer_inv(g, level, ef, st),
        good(g, level, ef, dist, st),
        ef > 0,
        st.nearest.len() > 0,
        0 <= v < g.nodes.len(),
        st.visited[v],
        dist[v] <= st.nearest.last().0,
        nearer.len() == g.nodes.len(),
        forall|u: int|
            0 <= u < nearer.len() && #[trigger] nearer[u] ==> st.visited[u] && dist[u] < dist[v],
    ensures
        count_set(nearer) < ef,
{
    if st.nearest.len() < ef {
        // All nodes met are among the nearest, and node `v` is not nearer than itself.
        let with = nearer.update(v, true);
        assert forall|u: int| 0 <= u < with.len() && with[u] implies st.visited[u] by {
            if u != v {
                assert(nearer[u]);
            }
        }
        lemma_count_set_monotone(with, st.visited);
        assert(!nearer[v]);
        lemma_count_set_update(nearer, v);
    } else {
        // The furthest of the nearest nodes is not nearer, and none besides these is.
        let last = st.nearest[st.nearest.len() - 1].1 as int;
        assert(met(g, level, st.visited, st.nearest[st.nearest.len() - 1].1));
        let marks = Seq::new(g.len(), |i: int| names(st.nearest, i));
        let with = nearer.update(last, true);
        assert(st.nearest[st.nearest.len() - 1].0 == dist[last]);
        assert(!nearer[last]);
        assert forall|u: int| 0 <= u < with.len() && with[u] implies marks[u] by {
            if u == last {
                assert(names(st.nearest, u));
            } else {
                assert(nearer[u]);
                assert(st.visited[u]);
            }
        }
        assert forall|k: int| 0 <= k < st.nearest.len() implies (#[trigger] st.nearest[k]).1
            < g.len() by {
            assert(met(g, level, st.visited, st.nearest[k].1));
        }
        lemma_count_set_monotone(with, marks);
        lemma_marks_count(g.len(), st.nearest);
        lemma_count_set_update(nearer, last);
    }
}

proof fn lemma_expand_certified(
    g: GraphModel,
    level: int,
    ef: nat,
    dist: Seq<VectorDistance>,
    brought: Set<int>,
    hops: nat,
    st: LayerState,
    order: Seq<int>,
)
    requires
        layer_inv(g, level, ef, st),
        good(g, level, ef, dist, st),
        certified(g, level, ef, dist, brought, hops, st, order),
        st.pending.len() == 0,
        !over(st),
    ensures
        certified(
            g,
            level,
            ef,
            dist,
            brought,
            hops,
            expand(g, level, st),
            order.push(st.candidates[0].1 as int),
        ),
{
    let s = expand(g, level, st);
    let c = st.candidates[0].1 as int;
    let n = order.len() as int;
    let more = order.push(c);
    assert(met(g, level, st.visited, st.candidates[0].1));
    assert(names(st.candidates, c));
    assert(st.candidates[0].0 == dist[c]);
    assert forall|k: int, u: int| 0 <= k <= n implies #[trigger] met_from(
        g,
        level,
        brought,
        more,
        k,
        u,
    ) == met_from(g, level, brought, order, k, u) by {
        lemma_met_from_prefix(g, level, brought, order, c, k, u);
    }
    assert forall|u: int| 0 <= u < g.nodes.len() implies met_from(g, level, brought, order, n, u)
        == #[trigger] st.visited[u] by {
        assert(met_from(g, level, brought, order, n, u) == (st.visited[u] || st.pending.contains(
            u as usize,
        )));
    }
    // Each node once, when it has been met.
    assert forall|k: int| 0 <= k < more.len() implies 0 <= #[trigger] more[k] < g.nodes.len()
        && met_from(g, level, brought, more, k, more[k]) by {
        if k < n {
            assert(more[k] == order[k]);
            assert(met_from(g, level, brought, order, k, order[k]));
        } else {
            assert(met_from(g, level, brought, order, n, c));
        }
    }
    assert forall|j: int, k: int| 0 <= j < k < more.len() implies #[trigger] more[j]
        != #[trigger] more[k] by {
        assert(more[j] == order[j]);
        if k < n {
            assert(more[k] == order[k]);
        } else if order[j] == c {
            assert(order.contains(c));
        }
    }
    // The nearest of those met and not looked at.
    assert forall|k: int, u: int|
        0 <= k < more.len() && 0 <= u < g.nodes.len() && #[trigger] met_from(
            g,
            level,
            brought,
            more,
            k,
            u,
        ) && !more.take(k).contains(u) implies dist[more[k]] <= dist[u] by {
        assert(more.take(k) =~= order.take(k));
        if k < n {
            assert(more[k] == order[k]);
            assert(met_from(g, level, brought, order, k, u));
        } else {
            assert(order.take(n) =~= order);
            assert(st.visited[u]);
            if names(st.candidates, u) {
                let i = choose|i: int|
                    0 <= i < st.candidates.len() && (#[trigger] st.candidates[i]).1 == u;
                assert(st.candidates[0].0 <= st.candidates[i].0);
                assert(st.candidates[i].0 == dist[u]);
            }
        }
    }
    // Only while fewer than `ef` of those met are nearer.
    assert forall|k: int| 0 <= k < more.len() implies count_set(
        met_nearer(g, level, dist, brought, more, k, #[trigger] more[k]),
    ) < ef by {
        if k < n {
            assert(more[k] == order[k]);
            assert(met_nearer(g, level, dist, brought, more, k, more[k]) =~= met_nearer(
                g,
                level,
                dist,
                brought,
                order,
                k,
                order[k],
            ));
        } else {
            let nearer = met_nearer(g, level, dist, brought, more, k, c);
            assert forall|u: int| 0 <= u < nearer.len() && #[trigger] nearer[u] implies st.visited[u]
                && dist[u] < dist[c] by {
                assert(met_from(g, level, brought, more, n, u));
            }
            lemma_few_nearer(g, level, ef, dist, st, c, nearer);
        }
    }
    // What has been met.
    let links = g.links(c, level);
    assert(g.links_lead(links, level));
    assert forall|u: int| 0 <= u < g.nodes.len() implies #[trigger] met_from(
        g,
        level,
        brought,
        more,
        more.len() as int,
        u,
    ) == (s.visited[u] || s.pending.contains(u as usize)) by {
        assert(met_from(g, level, brought, order, n, u) == st.visited[u]);
        if names(links, u) {
            let i = choose|i: int| 0 <= i < links.len() && (#[trigger] links[i]).1 == u;
            assert(s.pending[i] == u as usize);
            assert(more[n] == c);
            assert(names(g.nodes[more[n]][level], u));
        }
        if s.pending.contains(u as usize) {
            let i = s.pending.index_of(u as usize);
            assert(links[i].1 == u);
        }
        if st.visited[u] {
            assert(met_from(g, level, brought, more, n, u));
            if !brought.contains(u) {
                let j = choose|j: int| 0 <= j < n && #[trigger] names(g.nodes[more[j]][level], u);
                assert(names(g.nodes[more[j]][level], u));
            }
        }
        if met_from(g, level, brought, more, n + 1, u) && !brought.contains(u) {
            let j = choose|j: int| 0 <= j < n + 1 && #[trigger] names(g.nodes[more[j]][level], u);
            if j < n {
                assert(met_from(g, level, brought, more, n, u));
            }
        }
    }
    assert forall|k: int| 0 <= k < more.len() implies s.visited[#[trigger] more[k]] by {
        if k < n {
            assert(more[k] == order[k]);
        }
    }
    assert forall|i: int, j: int| 0 <= i < j < s.candidates.len() implies (
    #[trigger] s.candidates[i]).1 != (#[trigger] s.candidates[j]).1 by {
        assert(s.candidates[i] == st.candidates[i + 1]);
        assert(s.candidates[j] == st.candidates[j + 1]);
    }
    assert forall|u: int| #[trigger] names(s.candidates, u) implies !more.contains(u) by {
        let i = choose|i: int| 0 <= i < s.candidates.len() && (#[trigger] s.candidates[i]).1 == u;
        assert(st.candidates[i + 1].1 == u);
        assert(names(st.candidates, u));
        if more.contains(u) {
            let k = more.index_of(u);
            if k < n {
                assert(order[k] == u);
                assert(order.contains(u));
            } else {
                assert(st.candidates[0].1 == st.candidates[i + 1].1);
            }
        }
    }
    assert forall|u: int| 0 <= u < g.nodes.len() && #[trigger] s.visited[u] implies more.contains(u)
        || names(s.candidates, u) || passed_over(ef, dist, s, u) by {
        assert(st.visited[u]);
        if order.contains(u) {
            assert(more[order.index_of(u)] == u);
        } else if names(st.candidates, u) {
            if u == c {
                assert(more[n] == u);
            } else {
                let i = choose|i: int|
                    0 <= i < st.candidates.len() && (#[trigger] st.candidates[i]).1 == u;
                assert(s.candidates[i - 1].1 == u);
            }
        } else {
            assert(passed_over(ef, dist, st, u));
            assert(passed_over(ef, dist, s, u));
        }
    }
}

proof fn lemma_supply_certified(
    g: GraphModel,
    level: int,
    ef: nat,
    dist: Seq<VectorDistance>,
    brought: Set<int>,
    hops: nat,
    st: LayerState,
    order: Seq<int>,
)
    requires
        layer_inv(g, level, ef, st),
        good(g, level, ef, dist, st),
        certified(g, level, ef, dist, brought, hops, st, order),
        waiting(st),
    ensures
        certified(
            g,
            level,
            ef,
            dist,
            brought,
            hops,
            supply(st, ef, dist[st.pending[0] as int]),
            order,
        ),
{
    let v = st.pending[0];
    let d = dist[v as int];
    let s = supply(st, ef, d);
    let q = rank(st.candidates, d) as int;
    lemma_rank(st.candidates, d);
    lemma_rank(st.nearest, d);
    crate::bounded::lemma_insert_bounded(st.nearest, ef, d, v);
    assert(!names(st.candidates, v as int)) by {
        if names(st.candidates, v as int) {
            let i = choose|i: int|
                0 <= i < st.candidates.len() && (#[trigger] st.candidates[i]).1 == v;
            assert(met(g, level, st.visited, st.candidates[i].1));
        }
    }
    assert(!order.contains(v as int)) by {
        if order.contains(v as int) {
            assert(st.visited[order[order.index_of(v as int)]]);
        }
    }
    assert forall|u: int| 0 <= u < g.nodes.len() implies #[trigger] met_from(
        g,
        level,
        brought,
        order,
        order.len() as int,
        u,
    ) == (s.visited[u] || s.pending.contains(u as usize)) by {
        lemma_pending_rest(g, st, u);
    }
    assert forall|i: int, j: int| 0 <= i < j < s.candidates.len() implies (
    #[trigger] s.candidates[i]).1 != (#[trigger] s.candidates[j]).1 by {
        lemma_candidate_before(st, ef, d, i);
        lemma_candidate_before(st, ef, d, j);
        if admits(st.nearest, ef, d) {
            if i == q {
                assert(names(st.candidates, s.candidates[j].1 as int));
            } else if j == q {
                assert(names(st.candidates, s.candidates[i].1 as int));
            } else {
                let a = if i < q {
                    i
                } else {
                    i - 1
                };
                let b = if j < q {
                    j
                } else {
                    j - 1
                };
                assert(st.candidates[a].1 != st.candidates[b].1);
            }
        }
    }
    assert forall|u: int| #[trigger] names(s.candidates, u) implies !order.contains(u) by {
        let i = choose|i: int| 0 <= i < s.candidates.len() && (#[trigger] s.candidates[i]).1 == u;
        lemma_candidate_before(st, ef, d, i);
        if u != v {
            assert(names(st.candidates, u));
        }
    }
    assert forall|u: int| 0 <= u < g.nodes.len() && #[trigger] s.visited[u] implies order.contains(u)
        || names(s.candidates, u) || passed_over(ef, dist, s, u) by {
        if u == v {
            if admits(st.nearest, ef, d) {
                assert(s.candidates[q].1 == v);
            } else {
                assert(s.nearest == st.nearest);
                assert(st.nearest[st.nearest.len() - 1].0 <= d);
                assert(!names(st.nearest, u)) by {
                    if names(st.nearest, u) {
                        let i = choose|i: int|
                            0 <= i < st.nearest.len() && (#[trigger] st.nearest[i]).1 == u;
                        assert(met(g, level, st.visited, st.nearest[i].1));
                    }
                }
            }
        } else {
            assert(st.visited[u]);
            if names(st.candidates, u) {
                let i = choose|i: int|
                    0 <= i < st.candidates.len() && (#[trigger] st.candidates[i]).1 == u;
                let at = if admits(st.nearest, ef, d) && i >= q {
                    i + 1
                } else {
                    i
                };
                assert(s.candidates[at].1 == u);
            } else if passed_over(ef, dist, st, u) {
                lemma_insert_names(st.nearest, ef, d, v, u);
                let e = s.nearest.len() - 1;
                lemma_insert_bounded_members(st.nearest, ef, d, v, e);
                let p = rank(st.nearest, d) as int;
                if e < p {
                    assert(st.nearest[e].0 <= st.nearest[st.nearest.len() - 1].0);
                } else if e > p {
                    assert(st.nearest[e - 1].0 <= st.nearest[st.nearest.len() - 1].0);
                } else {
                    assert(d < st.nearest[p].0);
                    assert(st.nearest[p].0 <= st.nearest[st.nearest.len() - 1].0);
                }
                assert(passed_over(ef, dist, s, u));
            }
        }
    }
}

/// A candidate is an old one, or the node whose distance was told.
proof fn lemma_candidate_before(st: LayerState, ef: nat, d: VectorDistance, i: int)
    requires
        st.pending.len() > 0,
        0 <= i < supply(st, ef, d).candidates.len(),
    ensures
        ({
            let s = supply(st, ef, d);
            let q = rank(st.candidates, d) as int;
            if !admits(st.nearest, ef, d) {
                s.candidates == st.candidates
            } else if i < q {
                i < st.candidates.len() && s.candidates[i] == st.candidates[i]
            } else if i == q {
                s.candidates[i] == (d, st.pending[0])
            } else {
                i - 1 < st.candidates.len() && s.candidates[i] == st.candidates[i - 1]
            }
        }),
        names(st.candidates, supply(st, ef, d).candidates[i].1 as int) || supply(
            st,
            ef,
            d,
        ).candidates[i].1 == st.pending[0],
{
    let s = supply(st, ef, d);
    let q = rank(st.candidates, d) as int;
    lemma_rank(st.candidates, d);
    if !admits(st.nearest, ef, d) || i < q {
        assert(st.candidates[i].1 == s.candidates[i].1);
    } else if i > q {
        assert(st.candidates[i - 1].1 == s.candidates[i].1);
    }
}

/// Whether `order` is one in which the search may have looked at nodes so far.
spec fn looked_in(
    g: GraphModel,
    level: int,
    ef: nat,
    dist: Seq<VectorDistance>,
    brought: Set<int>,
    hops: nat,
    s: LayerState,
    order: Seq<int>,
) -> bool {
    certified(g, level, ef, dist, brought, hops, s, order) && in_turn(
        g,
        level,
        ef,
        dist,
        brought,
        s,
        order,
    )
}

spec fn order_of(
    g: GraphModel,
    level: int,
    ef: nat,
    dist: Seq<VectorDistance>,
    brought: Set<int>,
    hops: nat,
    s: LayerState,
) -> Seq<int> {
    choose|order: Seq<int>| #[trigger] looked_in(g, level, ef, dist, brought, hops, s, order)
}

/// What is known of a search that was in state `st` when it started the level.
#[verifier::opaque]
spec fn known(
    g: GraphModel,
    level: int,
    ef: nat,
    dist: Seq<VectorDistance>,
    brought: Set<int>,
    st: LayerState,
    s: LayerState,
) -> bool {
    &&& good(g, level, ef, dist, s)
    &&& exists|order: Seq<int>| #[trigger]
        looked_in(g, level, ef, dist, brought, st.hops, s, order)
    &&& s.measured is Some == st.measured is Some
    &&& forall|u: int| 0 <= u < g.len() && brought.contains(u) ==> #[trigger] s.visited[u]
    &&& st.measured is None ==> s.computed == st.computed + count_set(newly_met(s.visited, brought))
}

proof fn lemma_skip_known(
    g: GraphModel,
    level: int,
    ef: nat,
    dist: Seq<VectorDistance>,
    brought: Set<int>,
    st: LayerState,
    s: LayerState,
)
    requires
        layer_inv(g, level, ef, s),
        known(g, level, ef, dist, brought, st, s),
        s.pending.len() > 0,
        s.visited[s.pending[0] as int],
    ensures
        known(g, level, ef, dist, brought, st, skip(s)),
{
    reveal(known);
    let order = order_of(g, level, ef, dist, brought, st.hops, s);
    lemma_skip_good(g, level, ef, dist, s);
    lemma_skip_certified(g, level, ef, dist, brought, st.hops, s, order);
    lemma_skip_in_turn(g, level, ef, dist, brought, s, order);
    assert(looked_in(g, level, ef, dist, brought, st.hops, skip(s), order));
}

proof fn lemma_expand_known(
    g: GraphModel,
    level: int,
    ef: nat,
    dist: Seq<VectorDistance>,
    brought: Set<int>,
    st: LayerState,
    s: LayerState,
)
    requires
        layer_inv(g, level, ef, s),
        known(g, level, ef, dist, brought, st, s),
        s.pending.len() == 0,
        !over(s),
    ensures
        known(g, level, ef, dist, brought, st, expand(g, level, s)),
{
    reveal(known);
    let order = order_of(g, level, ef, dist, brought, st.hops, s);
    let more = order.push(s.candidates[0].1 as int);
    lemma_expand_good(g, level, ef, dist, s);
    lemma_expand_certified(g, level, ef, dist, brought, st.hops, s, order);
    lemma_expand_in_turn(g, level, ef, dist, brought, st.hops, s, order);
    assert(looked_in(g, level, ef, dist, brought, st.hops, expand(g, level, s), more));
}

proof fn lemma_supply_known(
    g: GraphModel,
    level: int,
    ef: nat,
    dist: Seq<VectorDistance>,
    brought: Set<int>,
    st: LayerState,
    s: LayerState,
)
    requires
        layer_inv(g, level, ef, s),
        known(g, level, ef, dist, brought, st, s),
        dist.len() == g.len(),
        waiting(s),
    ensures
        known(g, level, ef, dist, brought, st, supply(s, ef, dist[s.pending[0] as int])),
{
    reveal(known);
    let order = order_of(g, level, ef, dist, brought, st.hops, s);
    let v = s.pending[0] as int;
    let t = supply(s, ef, dist[v]);
    lemma_supply_good(g, level, ef, dist, s);
    lemma_supply_certified(g, level, ef, dist, brought, st.hops, s, order);
    lemma_supply_in_turn(g, level, ef, dist, brought, st.hops, s, order);
    assert(looked_in(g, level, ef, dist, brought, st.hops, t, order));
    assert(!brought.contains(v)) by {
        if brought.contains(v) {
            assert(s.visited[v]);
        }
    }
    assert(newly_met(t.visited, brought) =~= newly_met(s.visited, brought).update(v, true));
    lemma_count_set_update(newly_met(s.visited, brought), v);
}

/// A level that starts with nodes in order ends as a best-first search does.
proof fn lemma_level_is_best_first(
    g: GraphModel,
    level: int,
    ef: nat,
    dist: Seq<VectorDistance>,
    st: LayerState,
)
    requires
        layer_inv(g, level, ef, st),
        good(g, level, ef, dist, st),
        dist.len() == g.len(),
        st.pending.len() == 0,
        distinct(st.candidates),
        st.visited == Seq::new(g.len(), |i: int| names(st.candidates, i)),
    ensures
        ({
            let end = search_to_end(g, level, ef, dist, st);
            let brought = ends(st.candidates);
            &&& searched(
                g,
                level,
                ef,
                dist,
                brought,
                end.visited,
                end.hops - st.hops,
                end.nearest,
            )
            &&& st.measured is None ==> end.measured is None && end.computed == st.computed
                + count_set(newly_met(end.visited, brought))
        }),
{
    let brought = ends(st.candidates);
    let p = |s: LayerState| known(g, level, ef, dist, brought, st, s);
    let none = Seq::<int>::empty();
    assert forall|u: int| 0 <= u < g.nodes.len() implies #[trigger] met_from(
        g,
        level,
        brought,
        none,
        0,
        u,
    ) == (st.visited[u] || st.pending.contains(u as usize)) by {
        assert(st.visited[u] == names(st.candidates, u));
    }
    assert(certified(g, level, ef, dist, brought, st.hops, st, none));
    assert(in_turn(g, level, ef, dist, brought, st, none)) by {
        assert forall|u: int| !turned_away(g, level, ef, dist, brought, none, u) by {}
    }
    lemma_count_set_none(newly_met(st.visited, brought));
    assert(p(st)) by {
        reveal(known);
        assert(looked_in(g, level, ef, dist, brought, st.hops, st, none));
    }
    assert forall|s: LayerState|
        layer_inv(g, level, ef, s) && p(s) && s.pending.len() > 0
            && s.visited[s.pending[0] as int] implies p(#[trigger] skip(s)) by {
        lemma_skip_known(g, level, ef, dist, brought, st, s);
    }
    assert forall|s: LayerState|
        layer_inv(g, level, ef, s) && p(s) && s.pending.len() == 0 && !over(s) implies p(
        #[trigger] expand(g, level, s),
    ) by {
        lemma_expand_known(g, level, ef, dist, brought, st, s);
    }
    assert forall|s: LayerState| layer_inv(g, level, ef, s) && p(s) && #[trigger] waiting(s) implies p(
        supply(s, ef, dist[s.pending[0] as int]),
    ) by {
        lemma_supply_known(g, level, ef, dist, brought, st, s);
    }
    lemma_search_keeps(g, level, ef, dist, st, p);
    let end = search_to_end(g, level, ef, dist, st);
    reveal(known);
    let order = order_of(g, level, ef, dist, brought, st.hops, end);
    lemma_end_of_level(g, level, ef, dist, brought, st.hops, end, order);
}

proof fn lemma_end_of_level(
    g: GraphModel,
    level: int,
    ef: nat,
    dist: Seq<VectorDistance>,
    brought: Set<int>,
    hops: nat,
    end: LayerState,
    order: Seq<int>,
)
    requires
        layer_inv(g, level, ef, end),
        good(g, level, ef, dist, end),
        certified(g, level, ef, dist, brought, hops, end, order),
        in_turn(g, level, ef, dist, brought, end, order),
        over(end),
    ensures
        searched(g, level, ef, dist, brought, end.visited, end.hops - hops, end.nearest),
{
    let n = order.len() as int;
    assert forall|u: int| 0 <= u < end.visited.len() implies #[trigger] end.visited[u] == met_from(
        g,
        level,
        brought,
        order,
        n,
        u,
    ) by {
        assert(met_from(g, level, brought, order, n, u) == (end.visited[u] || end.pending.contains(
            u as usize,
        )));
    }
    let marks = Seq::new(g.len(), |i: int| names(end.nearest, i));
    assert forall|k: int| 0 <= k < end.nearest.len() implies (#[trigger] end.nearest[k]).1
        < g.len() && end.visited[end.nearest[k].1 as int] by {
        assert(met(g, level, end.visited, end.nearest[k].1));
    }
    lemma_marks_count(g.len(), end.nearest);
    assert forall|k: int| 0 <= k < order.len() implies !turned_away(
        g,
        level,
        ef,
        dist,
        brought,
        order,
        #[trigger] order[k],
    ) by {
        assert(end.visited[order[k]]);
        assert(order.contains(order[k]));
    }
    assert forall|u: int|
        0 <= u < g.nodes.len() && #[trigger] met_from(g, level, brought, order, n, u)
            && !order.contains(u) && !turned_away(
            g,
            level,
            ef,
            dist,
            brought,
            order,
            u,
        ) implies count_set(met_nearer(g, level, dist, brought, order, n, u)) >= ef by {
        assert(end.visited[u]);
        assert(names(end.candidates, u));
        let i = choose|i: int|
            0 <= i < end.candidates.len() && (#[trigger] end.candidates[i]).1 == u;
        assert(end.candidates[0].0 <= end.candidates[i].0);
        assert(end.candidates[i].0 == dist[u]);
        if names(end.nearest, u) {
            let k = choose|k: int| 0 <= k < end.nearest.len() && (#[trigger] end.nearest[k]).1 == u;
            assert(end.nearest[k].0 <= end.nearest[end.nearest.len() - 1].0);
        }
        assert(end.nearest.len() == ef);
        let others = met_nearer(g, level, dist, brought, order, n, u);
        assert forall|w: int| 0 <= w < marks.len() && marks[w] implies others[w] by {
            let k = choose|k: int| 0 <= k < end.nearest.len() && (#[trigger] end.nearest[k]).1 == w;
            assert(end.nearest[k].0 <= end.nearest[end.nearest.len() - 1].0);
            assert(end.nearest[k].0 == dist[w]);
            assert(end.visited[w]);
        }
        lemma_count_set_monotone(marks, others);
    }
    assert(best_first(g, level, ef, dist, brought, order));
    assert(exhausted(g, level, ef, dist, brought, order));
    lemma_nearest_of_met(g, level, ef, dist, end, ef, end.nearest);
}

/// The first of the nearest nodes are the nearest of those met.
pub proof fn lemma_nearest_of_met(
    g: GraphModel,
    level: int,
    ef: nat,
    dist: Seq<VectorDistance>,
    end: LayerState,
    most: nat,
    links: Links,
)
    requires
        layer_inv(g, level, ef, end),
        good(g, level, ef, dist, end),
        most <= ef,
        links == crate::bounded::keep_first(end.nearest, most),
    ensures
        nearest_of_met(dist, end.visited, most, links),
{
    let all = end.nearest;
    assert forall|k: int| 0 <= k < links.len() implies #[trigger] links[k] == all[k] by {}
    assert forall|k: int| 0 <= k < links.len() implies (#[trigger] links[k]).1 < end.visited.len()
        && end.visited[links[k].1 as int] && links[k].0 == dist[links[k].1 as int] by {
        assert(met(g, level, end.visited, all[k].1));
    }
    assert forall|v: int, k: int|
        0 <= v < end.visited.len() && #[trigger] end.visited[v] && (forall|i: int|
            0 <= i < links.len() ==> (#[trigger] links[i]).1 != v) && 0 <= k < links.len() implies (
    #[trigger] links[k]).0 <= dist[v] by {
        assert(!names(links, v));
        crate::laws::lemma_kept_are_best(ef, dist, end, most, v, k);
    }
}

/// A walk searches each level so.
proof fn lemma_walk_is_best_first(
    g: GraphModel,
    plan: Plan,
    dist: Seq<VectorDistance>,
    once: bool,
    level: int,
)
    requires
        g.wf(),
        dist.len() == g.len(),
        0 <= level <= g.top(),
    ensures
        ({
            let from = start(g, dist[g.entrypoint as int], once);
            let above = walk(g, plan, dist, from, level + 1);
            let end = walk(g, plan, dist, from, level);
            let ef = plan.width(level);
            let brought = if ef == 0 {
                Set::empty()
            } else if level == g.top() {
                set![g.entrypoint as int]
            } else {
                ends(above.nearest)
            };
            &&& searched(
                g,
                level,
                ef,
                dist,
                brought,
                end.visited,
                end.hops - above.hops,
                end.nearest,
            )
            &&& !once ==> end.computed == above.computed + count_set(
                newly_met(end.visited, brought),
            )
        }),
{
    let from = start(g, dist[g.entrypoint as int], once);
    let above = walk(g, plan, dist, from, level + 1);
    let ef = plan.width(level);
    let st = enter(above, ef);
    lemma_walk_enters(g, plan, dist, once, level);
    crate::laws::lemma_walk_counts(g, plan, dist, once, level);
    if level < g.top() {
        crate::laws::lemma_walk_counts(g, plan, dist, once, level + 1);
    }
    lemma_level_is_best_first(g, level, ef, dist, st);
    if ef == 0 {
        assert(ends(st.candidates) =~= Set::empty());
    } else if level == g.top() {
        assert(above == from);
        assert(ends(st.candidates) =~= set![g.entrypoint as int]) by {
            assert(st.candidates[0].1 == g.entrypoint);
        }
    }
}

/// A search for the nearest nodes goes down from the entrypoint's highest level
/// to the ground. On the highest level it starts with the entrypoint, and on each
/// other with what it kept of the one above. It looks for one node on each level
/// above the ground, and for `ef_search` on the ground.
pub proof fn law_search_goes_best_first(
    g: GraphModel,
    dist: Seq<VectorDistance>,
    ef_search: nat,
    level: int,
)
    requires
        g.wf(),
        dist.len() == g.nodes.len(),
        0 <= level < g.nodes[g.entrypoint as int].len(),
    ensures
        ({
            let from = start(g, dist[g.entrypoint as int], true);
            let above = walk(g, search_plan(ef_search), dist, from, level + 1);
            let end = walk(g, search_plan(ef_search), dist, from, level);
            let ef = if level == 0 {
                ef_search
            } else {
                1
            };
            let highest = level == g.nodes[g.entrypoint as int].len() - 1;
            let brought = if ef == 0 {
                Set::empty()
            } else if highest {
                set![g.entrypoint as int]
            } else {
                Set::new(
                    |u: int|
                        exists|k: int|
                            0 <= k < above.nearest.len() && (#[trigger] above.nearest[k]).1 == u,
                )
            };
            let hops = if highest {
                0
            } else {
                above.hops
            };
            &&& searched(
                g,
                level,
                ef,
                dist,
                brought,
                end.visited,
                end.hops - hops,
                end.nearest,
            )
            &&& level == 0 ==> search_end(g, dist, ef_search) == end
        }),
{
    let plan = search_plan(ef_search);
    let from = start(g, dist[g.entrypoint as int], true);
    let above = walk(g, plan, dist, from, level + 1);
    lemma_walk_is_best_first(g, plan, dist, true, level);
    assert(ends(above.nearest) =~= Set::new(
        |u: int|
            exists|k: int| 0 <= k < above.nearest.len() && (#[trigger] above.nearest[k]).1 == u,
    ));
}

/// An insertion goes down from the entrypoint's highest level to the ground. On
/// the highest level it starts with the entrypoint, and on each other with what
/// it kept of the one above. It looks for one node on each level above the new
/// node's, and for `ef_construction` on each of its levels. Every node that it
/// meets beyond those that it starts a level with counts as one distance.
pub proof fn law_insertion_goes_best_first(
    g: GraphModel,
    levels: nat,
    dist: Seq<VectorDistance>,
    ef_construction: nat,
    level: int,
)
    requires
        g.wf(),
        dist.len() == g.nodes.len(),
        0 <= level < g.nodes[g.entrypoint as int].len(),
    ensures
        ({
            let above = insertion_end(g, levels, dist, ef_construction, level + 1);
            let end = insertion_end(g, levels, dist, ef_construction, level);
            let ef = if level < levels {
                ef_construction
            } else {
                1
            };
            let highest = level == g.nodes[g.entrypoint as int].len() - 1;
            let brought = if ef == 0 {
                Set::empty()
            } else if highest {
                set![g.entrypoint as int]
            } else {
                Set::new(
                    |u: int|
                        exists|k: int|
                            0 <= k < above.nearest.len() && (#[trigger] above.nearest[k]).1 == u,
                )
            };
            let hops = if highest {
                0
            } else {
                above.hops
            };
            let computed = if highest {
                0
            } else {
                above.computed
            };
            &&& searched(
                g,
                level,
                ef,
                dist,
                brought,
                end.visited,
                end.hops - hops,
                end.nearest,
            )
            &&& end.computed == computed + count_set(newly_met(end.visited, brought))
        }),
{
    let plan = insertion_plan(levels, ef_construction);
    let from = start(g, dist[g.entrypoint as int], false);
    let above = walk(g, plan, dist, from, level + 1);
    lemma_walk_is_best_first(g, plan, dist, false, level);
    assert(ends(above.nearest) =~= Set::new(
        |u: int|
            exists|k: int| 0 <= k < above.nearest.len() && (#[trigger] above.nearest[k]).1 == u,
    ));
}

/// A search counts each node whose distance it needs once: the entrypoint, and
/// each node that it meets on some level.
pub proof fn law_search_counts_each_node_once(
    g: GraphModel,
    dist: Seq<VectorDistance>,
    ef_search: nat,
)
    requires
        g.wf(),
        dist.len() == g.nodes.len(),
    ensures
        ({
            let from = start(g, dist[g.entrypoint as int], true);
            search_end(g, dist, ef_search).computed == Set::new(
                |v: int|
                    0 <= v < g.nodes.len() && (v == g.entrypoint || exists|level: int|
                        0 <= level < g.nodes[g.entrypoint as int].len() && (#[trigger] walk(
                            g,
                            search_plan(ef_search),
                            dist,
                            from,
                            level,
                        )).visited[v]),
            ).len()
        }),
{
    let plan = search_plan(ef_search);
    let from = start(g, dist[g.entrypoint as int], true);
    let end = search_end(g, dist, ef_search);
    lemma_walk_good(g, plan, dist, true, 0);
    lemma_measured_were_read(g, plan, dist, 0, g.entrypoint);
    let measured = end.measured->0;
    crate::vec_set::law_count_is_size(measured);
    let counted = Set::new(
        |v: int|
            0 <= v < g.nodes.len() && (v == g.entrypoint || exists|level: int|
                0 <= level < g.nodes[g.entrypoint as int].len() && (#[trigger] walk(
                    g,
                    plan,
                    dist,
                    from,
                    level,
                )).visited[v]),
    );
    assert forall|v: int| counted.contains(v) == (0 <= v < measured.len() && measured[v]) by {
        if 0 <= v < g.nodes.len() {
            lemma_measured_were_read(g, plan, dist, 0, v as usize);
            lemma_met_were_read(g, plan, dist, true, 0, v as usize);
            if exists|l: int|
                0 <= l <= g.top() && (#[trigger] walk(g, plan, dist, from, l)).visited[v] {
                let l = choose|l: int|
                    0 <= l <= g.top() && (#[trigger] walk(g, plan, dist, from, l)).visited[v];
                assert(walk(g, plan, dist, from, l).visited[v]);
            }
        }
    }
    assert(counted =~= Set::new(|i: int| 0 <= i < measured.len() && measured[i]));
}

/// How a search went down through the levels: what it kept on each, which nodes it
/// met there, and how often it had hopped by then.
pub struct Descent {
    pub kept: Seq<Links>,
    pub met: Seq<Seq<bool>>,
    pub hops: Seq<nat>,
}

/// The nodes with which a search starts a level: the entrypoint on its highest
/// level, and what was kept of the one above on each other.
pub open spec fn brought_to(
    g: GraphModel,
    ef: spec_fn(int) -> nat,
    d: Descent,
    level: int,
) -> Set<int> {
    if ef(level) == 0 {
        Set::empty()
    } else if level == g.nodes[g.entrypoint as int].len() - 1 {
        set![g.entrypoint as int]
    } else {
        ends(d.kept[level + 1])
    }
}

/// Looking for `ef` nodes on each of the lowest `levels` levels, and for one on
/// each above.
pub open spec fn widths(levels: nat, ef: nat) -> spec_fn(int) -> nat {
    |level: int|
        if level < levels {
            ef
        } else {
            1
        }
}

/// Whether a search that looks for `ef` nodes on each level may have gone down so.
pub open spec fn descends(
    g: GraphModel,
    dist: Seq<VectorDistance>,
    ef: spec_fn(int) -> nat,
    d: Descent,
) -> bool {
    let height = g.nodes[g.entrypoint as int].len();
    &&& d.kept.len() == height
    &&& d.met.len() == height
    &&& d.hops.len() == height + 1
    &&& d.hops[height as int] == 0
    &&& forall|level: int|
        0 <= level < height ==> searched(
            g,
            level,
            ef(level),
            dist,
            brought_to(g, ef, d, level),
            d.met[level],
            d.hops[level] - d.hops[level + 1],
            #[trigger] d.kept[level],
        )
}

/// The nodes that were met on some level, and the entrypoint.
pub open spec fn met_in_all(g: GraphModel, d: Descent) -> Set<int> {
    Set::new(
        |v: int|
            0 <= v < g.nodes.len() && (v == g.entrypoint || exists|level: int|
                0 <= level < d.met.len() && (#[trigger] d.met[level])[v]),
    )
}

/// How many nodes were met on the levels from `level` up, beyond those that each
/// was started with.
pub open spec fn newly_met_from(
    g: GraphModel,
    ef: spec_fn(int) -> nat,
    d: Descent,
    level: int,
) -> nat
    decreases d.met.len() - level,
{
    if level >= d.met.len() {
        0
    } else {
        newly_met_from(g, ef, d, level + 1) + count_set(
            newly_met(d.met[level], brought_to(g, ef, d, level)),
        )
    }
}

/// The descent of a walk.
spec fn descent_of(
    g: GraphModel,
    plan: Plan,
    dist: Seq<VectorDistance>,
    once: bool,
) -> Descent {
    let from = start(g, dist[g.entrypoint as int], once);
    let height = g.nodes[g.entrypoint as int].len();
    Descent {
        kept: Seq::new(height, |l: int| walk(g, plan, dist, from, l).nearest),
        met: Seq::new(height, |l: int| walk(g, plan, dist, from, l).visited),
        hops: Seq::new(height + 1, |l: int| walk(g, plan, dist, from, l).hops),
    }
}

proof fn lemma_walk_descends(
    g: GraphModel,
    plan: Plan,
    dist: Seq<VectorDistance>,
    once: bool,
    ef: spec_fn(int) -> nat,
)
    requires
        g.wf(),
        dist.len() == g.nodes.len(),
        forall|level: int| 0 <= level <= g.top() ==> #[trigger] ef(level) == plan.width(level),
    ensures
        descends(g, dist, ef, descent_of(g, plan, dist, once)),
{
    let d = descent_of(g, plan, dist, once);
    let from = start(g, dist[g.entrypoint as int], once);
    assert forall|level: int| 0 <= level < d.kept.len() implies searched(
        g,
        level,
        ef(level),
        dist,
        brought_to(g, ef, d, level),
        d.met[level],
        d.hops[level] - d.hops[level + 1],
        #[trigger] d.kept[level],
    ) by {
        lemma_walk_is_best_first(g, plan, dist, once, level);
        if level < g.top() {
            assert(d.kept[level + 1] == walk(g, plan, dist, from, level + 1).nearest);
        }
    }
}

proof fn lemma_newly_met_counts(
    g: GraphModel,
    plan: Plan,
    dist: Seq<VectorDistance>,
    ef: spec_fn(int) -> nat,
    level: int,
)
    requires
        g.wf(),
        dist.len() == g.nodes.len(),
        forall|l: int| 0 <= l <= g.top() ==> #[trigger] ef(l) == plan.width(l),
        0 <= level <= g.top() + 1,
    ensures
        walk(g, plan, dist, start(g, dist[g.entrypoint as int], false), level).computed
            == newly_met_from(g, ef, descent_of(g, plan, dist, false), level),
    decreases g.top() + 1 - level,
{
    let d = descent_of(g, plan, dist, false);
    if level <= g.top() {
        lemma_newly_met_counts(g, plan, dist, ef, level + 1);
        lemma_walk_is_best_first(g, plan, dist, false, level);
    }
}

/// A search for the nearest nodes goes down best first, for one node on each level
/// above the ground and for `ef_search` on the ground. It ends with what it kept
/// there, has hopped so often, and has counted every node that it met once.
pub proof fn law_search_descends(g: GraphModel, dist: Seq<VectorDistance>, ef_search: nat)
    requires
        g.wf(),
        dist.len() == g.nodes.len(),
    ensures
        exists|d: Descent|
            {
                &&& #[trigger] descends(g, dist, widths(1, ef_search), d)
                &&& search_end(g, dist, ef_search).nearest == d.kept[0]
                &&& search_end(g, dist, ef_search).hops == d.hops[0]
                &&& search_end(g, dist, ef_search).computed == met_in_all(g, d).len()
            },
{
    let plan = search_plan(ef_search);
    let d = descent_of(g, plan, dist, true);
    let from = start(g, dist[g.entrypoint as int], true);
    let ef = widths(1, ef_search);
    assert forall|level: int| 0 <= level <= g.top() implies #[trigger] ef(level) == plan.width(
        level,
    ) by {}
    lemma_walk_descends(g, plan, dist, true, ef);
    law_search_counts_each_node_once(g, dist, ef_search);
    let counted = Set::new(
        |v: int|
            0 <= v < g.nodes.len() && (v == g.entrypoint || exists|level: int|
                0 <= level < g.nodes[g.entrypoint as int].len() && (#[trigger] walk(
                    g,
                    plan,
                    dist,
                    from,
                    level,
                )).visited[v]),
    );
    assert forall|v: int| counted.contains(v) == met_in_all(g, d).contains(v) by {
        if 0 <= v < g.nodes.len() {
            if exists|level: int| 0 <= level < d.met.len() && (#[trigger] d.met[level])[v] {
                let level = choose|level: int|
                    0 <= level < d.met.len() && (#[trigger] d.met[level])[v];
                assert(walk(g, plan, dist, from, level).visited[v]);
            }
            if exists|level: int|
                0 <= level < g.nodes[g.entrypoint as int].len() && (#[trigger] walk(
                    g,
                    plan,
                    dist,
                    from,
                    level,
                )).visited[v] {
                let level = choose|level: int|
                    0 <= level < g.nodes[g.entrypoint as int].len() && (#[trigger] walk(
                        g,
                        plan,
                        dist,
                        from,
                        level,
                    )).visited[v];
                assert(d.met[level][v]);
            }
        }
    }
    assert(counted =~= met_in_all(g, d));
    assert(descends(g, dist, ef, d));
}

/// An insertion of a node with so many levels goes down best first, for one node
/// on each level above the node's and for `ef_construction` on each of its levels.
/// The node's links on a level are the first of what was kept there, as many as it
/// may keep. The insertion has hopped so often, and has counted, on every level,
/// each node that it met beyond those that it started the level with.
pub proof fn law_insertion_descends(
    g: GraphModel,
    capacities: Seq<nat>,
    dist: Seq<VectorDistance>,
    ef_construction: nat,
)
    requires
        g.wf(),
        dist.len() == g.nodes.len(),
    ensures
        exists|d: Descent|
            {
                let ef = widths(capacities.len(), ef_construction);
                &&& #[trigger] descends(g, dist, widths(capacities.len(), ef_construction), d)
                &&& insertion_end(g, capacities.len(), dist, ef_construction, 0).hops == d.hops[0]
                &&& insertion_end(g, capacities.len(), dist, ef_construction, 0).computed
                    == newly_met_from(g, ef, d, 0)
                &&& forall|level: int|
                    0 <= level < capacities.len() && level < d.kept.len() ==> first_of(
                        d.kept[level],
                        capacities[level],
                        #[trigger] found_links(g, capacities, dist, ef_construction)[level],
                    )
            },
{
    let plan = insertion_plan(capacities.len(), ef_construction);
    let d = descent_of(g, plan, dist, false);
    let ef = widths(capacities.len(), ef_construction);
    lemma_walk_descends(g, plan, dist, false, ef);
    lemma_newly_met_counts(g, plan, dist, ef, 0);
    assert forall|level: int| 0 <= level < capacities.len() && level < d.kept.len() implies first_of(
        d.kept[level],
        capacities[level],
        #[trigger] found_links(g, capacities, dist, ef_construction)[level],
    ) by {
        crate::bounded::law_keep_first(d.kept[level], capacities[level]);
    }
    assert(descends(g, dist, ef, d));
}

/// Whether `r` are the first of the links, at most `n` of them.
pub open spec fn first_of(links: Links, n: nat, r: Links) -> bool {
    &&& r.len() == if n < links.len() {
        n
    } else {
        links.len()
    }
    &&& forall|k: int| 0 <= k < r.len() ==> #[trigger] r[k] == links[k]
}

} // verus!
