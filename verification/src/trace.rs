//! What holds along a search: facts that every step keeps, carried to the end.
use vstd::prelude::*;

use crate::bounded::{admits, insert_bounded, lemma_insert_bounded, lemma_rank, ordered, rank};
use crate::graph::{GraphModel, Links};
use crate::layer::{
    enter, expand, layer_inv, lemma_enter_inv, lemma_expand_inv, lemma_insert_bounded_members,
    lemma_settle, lemma_skip_inv, lemma_supply_inv, level_reads, met, names, over, search_to_end,
    settle, skip, supply, waiting, LayerState,
};
use crate::vec_set::{count_clear, count_set, lemma_count_set_bound, lemma_count_set_update};
use crate::vector::VectorDistance;
use crate::walk::{lemma_start_valid, start, walk, walk_reads, Plan};

verus! {

/// What the steps that need no distance keep holds once the search has settled.
pub proof fn lemma_settle_keeps(
    g: GraphModel,
    level: int,
    ef: nat,
    st: LayerState,
    p: spec_fn(LayerState) -> bool,
)
    requires
        layer_inv(g, level, ef, st),
        p(st),
        forall|s: LayerState|
            layer_inv(g, level, ef, s) && p(s) && s.pending.len() > 0
                && s.visited[s.pending[0] as int] ==> p(#[trigger] skip(s)),
        forall|s: LayerState|
            layer_inv(g, level, ef, s) && p(s) && s.pending.len() == 0 && !over(s) ==> p(
                #[trigger] expand(g, level, s),
            ),
    ensures
        layer_inv(g, level, ef, settle(g, level, st)),
        p(settle(g, level, st)),
    decreases st.candidates.len(), st.pending.len(),
{
    if over(st) || waiting(st) {
    } else if st.pending.len() > 0 {
        lemma_skip_inv(g, level, ef, st);
        lemma_settle_keeps(g, level, ef, skip(st), p);
    } else {
        lemma_expand_inv(g, level, ef, st);
        lemma_settle_keeps(g, level, ef, expand(g, level, st), p);
    }
}

/// What every step keeps holds when the search of the level ends.
pub proof fn lemma_search_keeps(
    g: GraphModel,
    level: int,
    ef: nat,
    dist: Seq<VectorDistance>,
    st: LayerState,
    p: spec_fn(LayerState) -> bool,
)
    requires
        layer_inv(g, level, ef, st),
        p(st),
        forall|s: LayerState|
            layer_inv(g, level, ef, s) && p(s) && s.pending.len() > 0
                && s.visited[s.pending[0] as int] ==> p(#[trigger] skip(s)),
        forall|s: LayerState|
            layer_inv(g, level, ef, s) && p(s) && s.pending.len() == 0 && !over(s) ==> p(
                #[trigger] expand(g, level, s),
            ),
        forall|s: LayerState|
            layer_inv(g, level, ef, s) && p(s) && #[trigger] waiting(s) ==> p(
                supply(s, ef, dist[s.pending[0] as int]),
            ),
    ensures
        ({
            let end = search_to_end(g, level, ef, dist, st);
            layer_inv(g, level, ef, end) && p(end) && over(end)
        }),
    decreases count_clear(st.visited),
{
    let s = settle(g, level, st);
    lemma_settle(g, level, st);
    lemma_settle_keeps(g, level, ef, st, p);
    if s.pending.len() > 0 {
        let d = dist[s.pending[0] as int];
        lemma_supply_inv(g, level, ef, s, d);
        lemma_search_keeps(g, level, ef, dist, supply(s, ef, d), p);
    }
}

/// Candidates and nearest nodes are at their true distances.
pub open spec fn at_true_distances(dist: Seq<VectorDistance>, links: Links) -> bool {
    forall|k: int|
        0 <= k < links.len() ==> (#[trigger] links[k]).1 < dist.len() && links[k].0
            == dist[links[k].1 as int]
}

/// Every node met is among the nearest, or no nearer than the furthest of a
/// full list.
pub open spec fn best_of_met(ef: nat, dist: Seq<VectorDistance>, st: LayerState) -> bool {
    forall|v: int|
        0 <= v < st.visited.len() && #[trigger] st.visited[v] && !names(st.nearest, v)
            ==> st.nearest.len() == ef && ef > 0 && dist[v] >= st.nearest.last().0
}

/// As many nearest nodes as nodes were met, up to the bound.
pub open spec fn as_many_as_met(ef: nat, st: LayerState) -> bool {
    st.nearest.len() == if count_set(st.visited) < ef {
        count_set(st.visited)
    } else {
        ef
    }
}

/// Every node met on this level was measured.
pub open spec fn met_are_measured(st: LayerState) -> bool {
    match st.measured {
        Some(m) => m.len() == st.visited.len() && forall|v: int|
            0 <= v < st.visited.len() && st.visited[v] ==> #[trigger] m[v],
        None => true,
    }
}

/// Whether all neighbours of node `v` were met, or are just being looked at.
pub open spec fn looked_at(g: GraphModel, level: int, st: LayerState, v: int) -> bool {
    let links = g.links(v, level);
    forall|k: int|
        0 <= k < links.len() ==> st.visited[(#[trigger] links[k]).1 as int] || st.pending.contains(
            links[k].1,
        )
}

/// Each of the nearest nodes is still a candidate, or was looked at.
pub open spec fn nearest_looked_at(g: GraphModel, level: int, st: LayerState) -> bool {
    forall|k: int|
        0 <= k < st.nearest.len() ==> names(st.candidates, (#[trigger] st.nearest[k]).1 as int)
            || looked_at(g, level, st, st.nearest[k].1 as int)
}

/// All of these at once.
pub open spec fn good(
    g: GraphModel,
    level: int,
    ef: nat,
    dist: Seq<VectorDistance>,
    st: LayerState,
) -> bool {
    &&& at_true_distances(dist, st.candidates)
    &&& at_true_distances(dist, st.nearest)
    &&& best_of_met(ef, dist, st)
    &&& as_many_as_met(ef, st)
    &&& met_are_measured(st)
    &&& nearest_looked_at(g, level, st)
}

pub proof fn lemma_skip_good(
    g: GraphModel,
    level: int,
    ef: nat,
    dist: Seq<VectorDistance>,
    st: LayerState,
)
    requires
        layer_inv(g, level, ef, st),
        good(g, level, ef, dist, st),
        st.pending.len() > 0,
        st.visited[st.pending[0] as int],
    ensures
        good(g, level, ef, dist, skip(st)),
{
    let s = skip(st);
    assert forall|k: int| 0 <= k < s.nearest.len() implies names(
        s.candidates,
        (#[trigger] s.nearest[k]).1 as int,
    ) || looked_at(g, level, s, s.nearest[k].1 as int) by {
        let v = st.nearest[k].1 as int;
        if !names(st.candidates, v) {
            assert(looked_at(g, level, st, v));
            let links = g.links(v, level);
            assert forall|j: int| 0 <= j < links.len() implies s.visited[(
            #[trigger] links[j]).1 as int] || s.pending.contains(links[j].1) by {
                if !st.visited[links[j].1 as int] {
                    let i = st.pending.index_of(links[j].1);
                    assert(st.pending[i] == links[j].1);
                    assert(i > 0);
                    assert(s.pending[i - 1] == links[j].1);
                }
            }
        }
    }
}

pub proof fn lemma_expand_good(
    g: GraphModel,
    level: int,
    ef: nat,
    dist: Seq<VectorDistance>,
    st: LayerState,
)
    requires
        layer_inv(g, level, ef, st),
        good(g, level, ef, dist, st),
        st.pending.len() == 0,
        st.candidates.len() > 0,
    ensures
        good(g, level, ef, dist, expand(g, level, st)),
{
    let s = expand(g, level, st);
    let c = st.candidates[0].1 as int;
    assert forall|k: int| 0 <= k < s.candidates.len() implies (#[trigger] s.candidates[k]).1
        < dist.len() && s.candidates[k].0 == dist[s.candidates[k].1 as int] by {
        assert(s.candidates[k] == st.candidates[k + 1]);
    }
    assert forall|k: int| 0 <= k < s.nearest.len() implies names(
        s.candidates,
        (#[trigger] s.nearest[k]).1 as int,
    ) || looked_at(g, level, s, s.nearest[k].1 as int) by {
        let v = st.nearest[k].1 as int;
        let links = g.links(v, level);
        if v == c {
            assert forall|j: int| 0 <= j < links.len() implies s.visited[(
            #[trigger] links[j]).1 as int] || s.pending.contains(links[j].1) by {
                assert(s.pending[j] == links[j].1);
            }
        } else if names(st.candidates, v) {
            let j = choose|j: int|
                0 <= j < st.candidates.len() && (#[trigger] st.candidates[j]).1 == v;
            assert(s.candidates[j - 1].1 == v);
        } else {
            assert(looked_at(g, level, st, v));
            assert forall|j: int| 0 <= j < links.len() implies s.visited[(
            #[trigger] links[j]).1 as int] || s.pending.contains(links[j].1) by {
                assert(st.visited[links[j].1 as int] || st.pending.contains(links[j].1));
            }
        }
    }
}

/// What a bounded list names after an insertion: what it named before, but for
/// one that is no nearer than all that stay, and the new node where it entered.
pub proof fn lemma_insert_names(s: Links, ef: nat, d: VectorDistance, v: usize, u: int)
    requires
        ordered(s),
        s.len() <= ef,
    ensures
        ({
            let r = insert_bounded(s, ef, d, v);
            &&& names(r, u) ==> names(s, u) || u == v
            &&& admits(s, ef, d) ==> names(r, v as int)
            &&& names(s, u) && !names(r, u) ==> r.len() == ef && s.last().1 == u && s.last().0
                >= r.last().0
        }),
{
    lemma_rank(s, d);
    lemma_insert_bounded(s, ef, d, v);
    let r = insert_bounded(s, ef, d, v);
    let p = rank(s, d) as int;
    if names(r, u) {
        let k = choose|k: int| 0 <= k < r.len() && (#[trigger] r[k]).1 == u;
        lemma_insert_bounded_members(s, ef, d, v, k);
        if k < p {
            assert(s[k].1 == u);
        } else if k > p {
            assert(s[k - 1].1 == u);
        }
    }
    if admits(s, ef, d) {
        lemma_insert_bounded_members(s, ef, d, v, p);
        assert(r[p].1 == v);
    }
    if names(s, u) && !names(r, u) {
        let k = choose|k: int| 0 <= k < s.len() && (#[trigger] s[k]).1 == u;
        let at = if k < p {
            k
        } else {
            k + 1
        };
        if at < r.len() {
            lemma_insert_bounded_members(s, ef, d, v, at);
            assert(r[at].1 == u);
        }
        assert(k == s.len() - 1);
        let e = r.len() - 1;
        lemma_insert_bounded_members(s, ef, d, v, e);
        if e < p {
            assert(s[e].0 <= s[k].0);
        } else if e > p {
            assert(s[e - 1].0 <= s[k].0);
        } else if p < s.len() {
            assert(d < s[p].0 && s[p].0 <= s[k].0);
        }
    }
}

proof fn lemma_supply_distances(
    g: GraphModel,
    level: int,
    ef: nat,
    dist: Seq<VectorDistance>,
    st: LayerState,
)
    requires
        layer_inv(g, level, ef, st),
        good(g, level, ef, dist, st),
        dist.len() == g.len(),
        waiting(st),
    ensures
        at_true_distances(dist, supply(st, ef, dist[st.pending[0] as int]).candidates),
        at_true_distances(dist, supply(st, ef, dist[st.pending[0] as int]).nearest),
{
    let v = st.pending[0];
    let d = dist[v as int];
    let s = supply(st, ef, d);
    lemma_rank(st.nearest, d);
    lemma_rank(st.candidates, d);
    lemma_insert_bounded(st.nearest, ef, d, v);
    lemma_count_set_update(st.visited, v as int);
    let q = rank(st.candidates, d) as int;
    assert forall|k: int| 0 <= k < s.candidates.len() implies (#[trigger] s.candidates[k]).1
        < dist.len() && s.candidates[k].0 == dist[s.candidates[k].1 as int] by {
        if admits(st.nearest, ef, d) {
            if k < q {
                assert(s.candidates[k] == st.candidates[k]);
            } else if k > q {
                assert(s.candidates[k] == st.candidates[k - 1]);
            }
        }
    }
    assert forall|k: int| 0 <= k < s.nearest.len() implies (#[trigger] s.nearest[k]).1 < dist.len()
        && s.nearest[k].0 == dist[s.nearest[k].1 as int] by {
        lemma_insert_bounded_members(st.nearest, ef, d, v, k);
    }
}

proof fn lemma_supply_best(
    g: GraphModel,
    level: int,
    ef: nat,
    dist: Seq<VectorDistance>,
    st: LayerState,
)
    requires
        layer_inv(g, level, ef, st),
        good(g, level, ef, dist, st),
        dist.len() == g.len(),
        waiting(st),
    ensures
        best_of_met(ef, dist, supply(st, ef, dist[st.pending[0] as int])),
        as_many_as_met(ef, supply(st, ef, dist[st.pending[0] as int])),
        met_are_measured(supply(st, ef, dist[st.pending[0] as int])),
{
    let v = st.pending[0];
    let d = dist[v as int];
    let s = supply(st, ef, d);
    lemma_rank(st.nearest, d);
    lemma_rank(st.candidates, d);
    lemma_insert_bounded(st.nearest, ef, d, v);
    lemma_count_set_update(st.visited, v as int);
    let q = rank(st.candidates, d) as int;
    assert forall|u: int|
        0 <= u < s.visited.len() && #[trigger] s.visited[u] && !names(
            s.nearest,
            u,
        ) implies s.nearest.len() == ef && ef > 0 && dist[u] >= s.nearest.last().0 by {
        lemma_insert_names(st.nearest, ef, d, v, u);
        if u == v {
            assert(!admits(st.nearest, ef, d));
            assert(st.nearest[st.nearest.len() - 1].0 <= d);
        } else if names(st.nearest, u) {
            let k = choose|k: int| 0 <= k < st.nearest.len() && (#[trigger] st.nearest[k]).1 == u;
            assert(st.nearest[k].0 == dist[u]);
            assert(st.nearest[k].1 == st.nearest[st.nearest.len() - 1].1);
        } else {
            assert(st.visited[u]);
            assert(dist[u] >= st.nearest.last().0);
            let e = s.nearest.len() - 1;
            lemma_insert_bounded_members(st.nearest, ef, d, v, e);
            let p = rank(st.nearest, d) as int;
            if e < p {
                assert(st.nearest[e].0 <= st.nearest[st.nearest.len() - 1].0);
            } else if e > p {
                assert(st.nearest[e - 1].0 <= st.nearest[st.nearest.len() - 1].0);
            } else {
                assert(d < st.nearest[p].0);
                assert(st.nearest[p].0 <= st.nearest[st.nearest.len() - 1].0);
            }
        }
    }
    match st.measured {
        Some(m) => {
            let m2 = m.update(v as int, true);
            assert forall|u: int| 0 <= u < s.visited.len() && s.visited[u] implies #[trigger] m2[u] by {
                if u != v {
                    assert(st.visited[u]);
                    assert(m[u]);
                }
            }
        },
        None => {},
    }
}

proof fn lemma_supply_looked_at(
    g: GraphModel,
    level: int,
    ef: nat,
    dist: Seq<VectorDistance>,
    st: LayerState,
)
    requires
        layer_inv(g, level, ef, st),
        good(g, level, ef, dist, st),
        dist.len() == g.len(),
        waiting(st),
    ensures
        nearest_looked_at(g, level, supply(st, ef, dist[st.pending[0] as int])),
{
    let v = st.pending[0];
    let d = dist[v as int];
    let s = supply(st, ef, d);
    lemma_rank(st.nearest, d);
    lemma_rank(st.candidates, d);
    lemma_insert_bounded(st.nearest, ef, d, v);
    lemma_count_set_update(st.visited, v as int);
    let q = rank(st.candidates, d) as int;
    assert forall|k: int| 0 <= k < s.nearest.len() implies names(
        s.candidates,
        (#[trigger] s.nearest[k]).1 as int,
    ) || looked_at(g, level, s, s.nearest[k].1 as int) by {
        let u = s.nearest[k].1;
        lemma_insert_bounded_members(st.nearest, ef, d, v, k);
        let p = rank(st.nearest, d) as int;
        if k == p {
            assert(s.candidates[q].1 == v);
        } else {
            let j = if k < p {
                k
            } else {
                k - 1
            };
            assert(st.nearest[j].1 == u);
            if names(st.candidates, u as int) {
                let i = choose|i: int|
                    0 <= i < st.candidates.len() && (#[trigger] st.candidates[i]).1 == u;
                if admits(st.nearest, ef, d) {
                    if i < q {
                        assert(s.candidates[i].1 == u);
                    } else {
                        assert(s.candidates[i + 1].1 == u);
                    }
                } else {
                    assert(s.candidates[i].1 == u);
                }
            } else {
                assert(looked_at(g, level, st, u as int));
                let links = g.links(u as int, level);
                assert(met(g, level, st.visited, u));
                assert(g.links_lead(links, level));
                assert forall|i: int| 0 <= i < links.len() implies s.visited[(
                #[trigger] links[i]).1 as int] || s.pending.contains(links[i].1) by {
                    if !st.visited[links[i].1 as int] && links[i].1 != v {
                        let at = st.pending.index_of(links[i].1);
                        assert(st.pending[at] == links[i].1);
                        assert(at > 0);
                        assert(s.pending[at - 1] == links[i].1);
                    }
                }
            }
        }
    }
}

pub proof fn lemma_supply_good(
    g: GraphModel,
    level: int,
    ef: nat,
    dist: Seq<VectorDistance>,
    st: LayerState,
)
    requires
        layer_inv(g, level, ef, st),
        good(g, level, ef, dist, st),
        dist.len() == g.len(),
        waiting(st),
    ensures
        good(g, level, ef, dist, supply(st, ef, dist[st.pending[0] as int])),
{
    lemma_supply_distances(g, level, ef, dist, st);
    lemma_supply_best(g, level, ef, dist, st);
    lemma_supply_looked_at(g, level, ef, dist, st);
}

/// The search of a level ends as well as it began.
pub proof fn lemma_search_good(
    g: GraphModel,
    level: int,
    ef: nat,
    dist: Seq<VectorDistance>,
    st: LayerState,
)
    requires
        layer_inv(g, level, ef, st),
        good(g, level, ef, dist, st),
        dist.len() == g.len(),
    ensures
        ({
            let end = search_to_end(g, level, ef, dist, st);
            layer_inv(g, level, ef, end) && good(g, level, ef, dist, end) && over(end)
        }),
{
    let p = |s: LayerState| good(g, level, ef, dist, s);
    assert forall|s: LayerState|
        layer_inv(g, level, ef, s) && p(s) && s.pending.len() > 0
            && s.visited[s.pending[0] as int] implies p(#[trigger] skip(s)) by {
        lemma_skip_good(g, level, ef, dist, s);
    }
    assert forall|s: LayerState|
        layer_inv(g, level, ef, s) && p(s) && s.pending.len() == 0 && !over(s) implies p(
        #[trigger] expand(g, level, s),
    ) by {
        lemma_expand_good(g, level, ef, dist, s);
    }
    assert forall|s: LayerState| layer_inv(g, level, ef, s) && p(s) && #[trigger] waiting(s) implies p(
        supply(s, ef, dist[s.pending[0] as int]),
    ) by {
        lemma_supply_good(g, level, ef, dist, s);
    }
    lemma_search_keeps(g, level, ef, dist, st, p);
}

/// A level starts well from nearest nodes at their true distances.
pub proof fn lemma_enter_good(
    g: GraphModel,
    upper: int,
    upper_ef: nat,
    level: int,
    ef: nat,
    dist: Seq<VectorDistance>,
    st: LayerState,
)
    requires
        layer_inv(g, upper, upper_ef, st),
        0 <= level <= upper,
        at_true_distances(dist, st.nearest),
        met_are_measured(st),
    ensures
        layer_inv(g, level, ef, enter(st, ef)),
        good(g, level, ef, dist, enter(st, ef)),
{
    lemma_enter_inv(g, upper, upper_ef, st, level, ef);
    let s = enter(st, ef);
    assert forall|k: int| 0 <= k < s.candidates.len() implies (#[trigger] s.candidates[k]).1
        < dist.len() && s.candidates[k].0 == dist[s.candidates[k].1 as int] by {
        assert(s.candidates[k] == st.nearest[k]);
    }
    assert forall|k: int| 0 <= k < s.nearest.len() implies (#[trigger] s.nearest[k]).1 < dist.len()
        && s.nearest[k].0 == dist[s.nearest[k].1 as int] by {
        assert(s.nearest[k] == st.nearest[k]);
    }
    lemma_count_set_bound(s.visited);
    assert forall|v: int|
        0 <= v < s.visited.len() && #[trigger] s.visited[v] && !names(
            s.nearest,
            v,
        ) implies s.nearest.len() == ef && ef > 0 && dist[v] >= s.nearest.last().0 by {
        let k = choose|k: int| 0 <= k < s.candidates.len() && (#[trigger] s.candidates[k]).1 == v;
        if k < s.nearest.len() {
            assert(s.nearest[k].1 == v);
        }
        assert(s.nearest.last() == st.nearest[s.nearest.len() - 1]);
        assert(st.nearest[s.nearest.len() - 1].0 <= st.nearest[k].0);
    }
    match st.measured {
        Some(m) => {
            assert forall|v: int| 0 <= v < s.visited.len() && s.visited[v] implies #[trigger] m[v] by {
                let k = choose|k: int|
                    0 <= k < s.candidates.len() && (#[trigger] s.candidates[k]).1 == v;
                assert(met(g, upper, st.visited, st.nearest[k].1));
                assert(st.visited[v]);
            }
        },
        None => {},
    }
    assert forall|k: int| 0 <= k < s.nearest.len() implies names(
        s.candidates,
        (#[trigger] s.nearest[k]).1 as int,
    ) || looked_at(g, level, s, s.nearest[k].1 as int) by {
        assert(s.candidates[k] == s.nearest[k]);
    }
}

/// How many nearest nodes a walk may bring to a level.
pub open spec fn width_above(g: GraphModel, plan: Plan, level: int) -> nat {
    if level == g.top() {
        1
    } else {
        plan.width(level + 1)
    }
}

/// What a walk brings to a level is valid there, and the level starts well.
pub proof fn lemma_walk_enters(
    g: GraphModel,
    plan: Plan,
    dist: Seq<VectorDistance>,
    once: bool,
    level: int,
)
    requires
        g.wf(),
        dist.len() == g.len(),
        0 <= level <= g.top(),
    ensures
        ({
            let from = start(g, dist[g.entrypoint as int], once);
            let above = walk(g, plan, dist, from, level + 1);
            let ef = plan.width(level);
            let st = enter(above, ef);
            &&& layer_inv(g, level, width_above(g, plan, level), above)
            &&& layer_inv(g, level, ef, st)
            &&& good(g, level, ef, dist, st)
            &&& count_clear(st.visited) + st.candidates.len() == g.len()
        }),
    decreases g.top() - level, 0int,
{
    let from = start(g, dist[g.entrypoint as int], once);
    let above = walk(g, plan, dist, from, level + 1);
    let ef = plan.width(level);
    let width = width_above(g, plan, level);
    if level == g.top() {
        lemma_start_valid(g, dist[g.entrypoint as int], once);
        assert(above == from);
    } else {
        lemma_walk_good(g, plan, dist, once, level + 1);
        assert forall|k: int| 0 <= k < above.nearest.len() implies met(
            g,
            level,
            above.visited,
            (#[trigger] above.nearest[k]).1,
        ) by {
            assert(met(g, level + 1, above.visited, above.nearest[k].1));
        }
        assert forall|k: int| 0 <= k < above.candidates.len() implies met(
            g,
            level,
            above.visited,
            (#[trigger] above.candidates[k]).1,
        ) by {
            assert(met(g, level + 1, above.visited, above.candidates[k].1));
        }
    }
    lemma_enter_inv(g, level, width, above, level, ef);
    lemma_enter_good(g, level, width, level, ef, dist, above);
}

/// A walk is good at the end of every level that it comes down to.
pub proof fn lemma_walk_good(
    g: GraphModel,
    plan: Plan,
    dist: Seq<VectorDistance>,
    once: bool,
    level: int,
)
    requires
        g.wf(),
        dist.len() == g.len(),
        0 <= level <= g.top(),
    ensures
        ({
            let end = walk(g, plan, dist, start(g, dist[g.entrypoint as int], once), level);
            &&& layer_inv(g, level, plan.width(level), end)
            &&& good(g, level, plan.width(level), dist, end)
            &&& over(end)
        }),
    decreases g.top() - level, 1int,
{
    let from = start(g, dist[g.entrypoint as int], once);
    let ef = plan.width(level);
    lemma_walk_enters(g, plan, dist, once, level);
    lemma_search_good(
        g,
        level,
        ef,
        dist,
        enter(walk(g, plan, dist, from, level + 1), ef),
    );
}

/// The node that a search waits for has been met, and measured, at the end of
/// the level.
pub proof fn lemma_asked_is_met(
    g: GraphModel,
    level: int,
    ef: nat,
    dist: Seq<VectorDistance>,
    st: LayerState,
)
    requires
        layer_inv(g, level, ef, st),
        waiting(st),
    ensures
        ({
            let end = search_to_end(g, level, ef, dist, st);
            let v = st.pending[0] as int;
            &&& end.visited[v]
            &&& st.measured is Some ==> end.measured is Some && (end.measured->0)[v]
        }),
{
    let v = st.pending[0] as int;
    let once = st.measured is Some;
    let next = supply(st, ef, dist[v]);
    lemma_supply_inv(g, level, ef, st, dist[v]);
    let p = |s: LayerState|
        s.visited[v] && (once ==> s.measured is Some && (s.measured->0)[v]);
    assert(p(next));
    lemma_search_keeps(g, level, ef, dist, next, p);
}

/// A node that was measured above a level stays so below.
pub proof fn lemma_measured_stays(
    g: GraphModel,
    plan: Plan,
    dist: Seq<VectorDistance>,
    level: int,
    v: int,
)
    requires
        g.wf(),
        dist.len() == g.len(),
        0 <= level <= g.top() + 1,
        0 <= v < g.len(),
        ({
            let at = walk(g, plan, dist, start(g, dist[g.entrypoint as int], true), level);
            at.measured is Some && (at.measured->0)[v]
        }),
    ensures
        ({
            let end = walk(g, plan, dist, start(g, dist[g.entrypoint as int], true), 0);
            end.measured is Some && (end.measured->0)[v]
        }),
    decreases level,
{
    if level > 0 {
        let from = start(g, dist[g.entrypoint as int], true);
        let ef = plan.width(level - 1);
        let st = enter(walk(g, plan, dist, from, level), ef);
        lemma_walk_enters(g, plan, dist, true, level - 1);
        let p = |s: LayerState| s.measured is Some && (s.measured->0)[v];
        lemma_search_keeps(g, level - 1, ef, dist, st, p);
        lemma_measured_stays(g, plan, dist, level - 1, v);
    }
}

/// What is needed for a pair of stretches is needed for one of them.
proof fn lemma_in_either(a: Seq<usize>, b: Seq<usize>, v: usize)
    ensures
        (a + b).contains(v) == (a.contains(v) || b.contains(v)),
{
    if a.contains(v) {
        let k = a.index_of(v);
        assert((a + b)[k] == v);
    }
    if b.contains(v) {
        let k = b.index_of(v);
        assert((a + b)[a.len() + k] == v);
    }
    if (a + b).contains(v) {
        let k = (a + b).index_of(v);
        if k < a.len() {
            assert(a[k] == v);
        } else {
            assert(b[k - a.len()] == v);
        }
    }
}

/// The nodes that the search of a level meets beyond those that it starts with,
/// and that it measures beyond those measured before, are those whose distances
/// it waits for.
pub proof fn lemma_level_reads(
    g: GraphModel,
    level: int,
    ef: nat,
    dist: Seq<VectorDistance>,
    st: LayerState,
    v: usize,
)
    requires
        layer_inv(g, level, ef, st),
        v < g.len(),
    ensures
        ({
            let end = search_to_end(g, level, ef, dist, st);
            let read = level_reads(g, level, ef, dist, st).contains(v);
            &&& end.visited[v as int] == (st.visited[v as int] || read)
            &&& st.measured matches Some(m) ==> end.measured is Some && (end.measured->0)[v as int]
                == (m[v as int] || read)
        }),
    decreases count_clear(st.visited),
{
    let s = settle(g, level, st);
    lemma_settle(g, level, st);
    lemma_settle_keeps(g, level, ef, st, |s: LayerState| true);
    if s.pending.len() > 0 {
        let u = s.pending[0];
        let next = supply(s, ef, dist[u as int]);
        lemma_supply_inv(g, level, ef, s, dist[u as int]);
        lemma_level_reads(g, level, ef, dist, next, v);
        lemma_in_either(seq![u], level_reads(g, level, ef, dist, next), v);
        assert(seq![u].contains(v) == (u == v)) by {
            assert(seq![u][0] == u);
        }
    }
}

/// Down to any level, the nodes that a walk has measured are those whose
/// distances it needed, where each counts only once.
pub proof fn lemma_measured_were_read(
    g: GraphModel,
    plan: Plan,
    dist: Seq<VectorDistance>,
    level: int,
    v: usize,
)
    requires
        g.wf(),
        dist.len() == g.len(),
        0 <= level <= g.top() + 1,
        v < g.len(),
    ensures
        ({
            let from = start(g, dist[g.entrypoint as int], true);
            let at = walk(g, plan, dist, from, level);
            at.measured is Some && (at.measured->0)[v as int] == walk_reads(
                g,
                plan,
                dist,
                from,
                level,
            ).contains(v)
        }),
    decreases g.top() + 1 - level,
{
    let from = start(g, dist[g.entrypoint as int], true);
    if level > g.top() {
        assert(seq![g.entrypoint][0] == g.entrypoint);
    } else {
        let ef = plan.width(level);
        let st = enter(walk(g, plan, dist, from, level + 1), ef);
        lemma_measured_were_read(g, plan, dist, level + 1, v);
        lemma_walk_enters(g, plan, dist, true, level);
        lemma_level_reads(g, level, ef, dist, st, v);
        lemma_in_either(
            walk_reads(g, plan, dist, from, level + 1),
            level_reads(g, level, ef, dist, st),
            v,
        );
    }
}

/// Down to any level, the nodes whose distances a walk needed are the entrypoint
/// and those met on some level.
pub proof fn lemma_met_were_read(
    g: GraphModel,
    plan: Plan,
    dist: Seq<VectorDistance>,
    once: bool,
    level: int,
    v: usize,
)
    requires
        g.wf(),
        dist.len() == g.len(),
        0 <= level <= g.top() + 1,
        v < g.len(),
    ensures
        ({
            let from = start(g, dist[g.entrypoint as int], once);
            let read = walk_reads(g, plan, dist, from, level).contains(v);
            &&& walk(g, plan, dist, from, level).visited[v as int] ==> read
            &&& read == (v == g.entrypoint || exists|l: int|
                level <= l <= g.top() && (#[trigger] walk(g, plan, dist, from, l)).visited[v as int])
        }),
    decreases g.top() + 1 - level,
{
    let from = start(g, dist[g.entrypoint as int], once);
    if level > g.top() {
        assert(seq![g.entrypoint][0] == g.entrypoint);
    } else {
        let ef = plan.width(level);
        let above = walk(g, plan, dist, from, level + 1);
        let st = enter(above, ef);
        let end = walk(g, plan, dist, from, level);
        lemma_met_were_read(g, plan, dist, once, level + 1, v);
        lemma_walk_enters(g, plan, dist, once, level);
        lemma_level_reads(g, level, ef, dist, st, v);
        lemma_in_either(
            walk_reads(g, plan, dist, from, level + 1),
            level_reads(g, level, ef, dist, st),
            v,
        );
        if st.visited[v as int] {
            let k = choose|k: int|
                0 <= k < st.candidates.len() && (#[trigger] st.candidates[k]).1 == v;
            assert(met(g, level, above.visited, above.nearest[k].1));
        }
        if exists|l: int|
            level <= l <= g.top() && (#[trigger] walk(g, plan, dist, from, l)).visited[v as int] {
            let l = choose|l: int|
                level <= l <= g.top() && (#[trigger] walk(g, plan, dist, from, l)).visited[v as int];
            if l > level {
                assert(walk(g, plan, dist, from, l).visited[v as int]);
            }
        }
    }
}

} // verus!
