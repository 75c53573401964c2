//! What the search of one level is: best first, with a bounded list of the
//! nearest nodes found.
use vstd::prelude::*;

use crate::bounded::{admits, insert_bounded, insert_by_distance, keep_first, ordered, rank};
use crate::graph::{GraphModel, Links};
use crate::vec_set::{count_clear, count_set};
use crate::vector::VectorDistance;

verus! {

/// The state of a search on one level.
#[verifier::ext_equal]
pub struct LayerState {
    /// The nodes whose neighbours are still to be looked at, nearest first.
    pub candidates: Links,
    /// The nearest nodes found, nearest first.
    pub nearest: Links,
    /// Which nodes the search has met on this level.
    pub visited: Seq<bool>,
    /// What is left of the neighbours of the node that is being looked at.
    pub pending: Seq<usize>,
    /// Which nodes were measured on any level, where each counts only once.
    pub measured: Option<Seq<bool>>,
    /// How many distances were counted.
    pub computed: nat,
    /// How many nodes had their neighbours looked at.
    pub hops: nat,
}

/// Whether one of the links leads to node `i`.
pub open spec fn names(links: Links, i: int) -> bool {
    exists|k: int| 0 <= k < links.len() && (#[trigger] links[k]).1 == i
}

/// The nodes that the links lead to.
pub open spec fn targets(links: Links) -> Seq<usize> {
    links.map_values(|e: (VectorDistance, usize)| e.1)
}

/// No two links lead to the same node.
pub open spec fn distinct(links: Links) -> bool {
    forall|i: int, j: int|
        0 <= i < j < links.len() ==> (#[trigger] links[i]).1 != (#[trigger] links[j]).1
}

/// Starts a level with the nearest nodes of the one above, looking for `ef`
/// nodes. With nothing to look for there is nothing to explore.
pub open spec fn enter(st: LayerState, ef: nat) -> LayerState {
    let candidates = if ef == 0 {
        Seq::empty()
    } else {
        st.nearest
    };
    LayerState {
        candidates,
        nearest: keep_first(st.nearest, ef),
        visited: Seq::new(st.visited.len(), |i: int| names(candidates, i)),
        pending: Seq::empty(),
        ..st
    }
}

/// Whether the search is over: nothing is left to look at, or even the nearest
/// candidate is further than the furthest of the nearest nodes.
pub open spec fn over(st: LayerState) -> bool {
    &&& st.pending.len() == 0
    &&& st.candidates.len() == 0 || st.candidates[0].0 > st.nearest.last().0
}

/// Whether the search waits for the distance of a node.
pub open spec fn waiting(st: LayerState) -> bool {
    st.pending.len() > 0 && !st.visited[st.pending[0] as int]
}

/// Passes over a neighbour that was met before.
pub open spec fn skip(st: LayerState) -> LayerState {
    LayerState { pending: st.pending.drop_first(), ..st }
}

/// Turns to the neighbours of the nearest candidate.
pub open spec fn expand(g: GraphModel, level: int, st: LayerState) -> LayerState {
    LayerState {
        candidates: st.candidates.drop_first(),
        pending: targets(g.links(st.candidates[0].1 as int, level)),
        hops: st.hops + 1,
        ..st
    }
}

/// Goes on until a distance is needed or the search is over.
pub open spec fn settle(g: GraphModel, level: int, st: LayerState) -> LayerState
    decreases st.candidates.len(), st.pending.len(),
{
    if over(st) || waiting(st) {
        st
    } else if st.pending.len() > 0 {
        settle(g, level, skip(st))
    } else {
        settle(g, level, expand(g, level, st))
    }
}

/// Whether the distance of the node that the search waits for is to be counted.
pub open spec fn counts(st: LayerState) -> bool {
    match st.measured {
        Some(m) => !m[st.pending[0] as int],
        None => true,
    }
}

/// Takes in the distance of the node that the search waits for.
pub open spec fn supply(st: LayerState, ef: nat, d: VectorDistance) -> LayerState {
    let v = st.pending[0];
    LayerState {
        candidates: if admits(st.nearest, ef, d) {
            insert_by_distance(st.candidates, d, v)
        } else {
            st.candidates
        },
        nearest: insert_bounded(st.nearest, ef, d, v),
        visited: st.visited.update(v as int, true),
        pending: st.pending.drop_first(),
        measured: match st.measured {
            Some(m) => Some(m.update(v as int, true)),
            None => None,
        },
        computed: if counts(st) {
            st.computed + 1
        } else {
            st.computed
        },
        hops: st.hops,
    }
}

/// The state in which the search of a level ends, where `dist` gives the
/// distance of each node.
pub open spec fn search_to_end(
    g: GraphModel,
    level: int,
    ef: nat,
    dist: Seq<VectorDistance>,
    st: LayerState,
) -> LayerState
    decreases count_clear(st.visited),
{
    let s = settle(g, level, st);
    if s.pending.len() == 0 || s.pending[0] >= s.visited.len() {
        s
    } else {
        proof {
            lemma_settle(g, level, st);
            crate::vec_set::lemma_count_set_update(s.visited, s.pending[0] as int);
        }
        search_to_end(g, level, ef, dist, supply(s, ef, dist[s.pending[0] as int]))
    }
}

/// The nodes whose distances the search of a level waits for, one after the
/// other, until it ends.
pub open spec fn level_reads(
    g: GraphModel,
    level: int,
    ef: nat,
    dist: Seq<VectorDistance>,
    st: LayerState,
) -> Seq<usize>
    decreases count_clear(st.visited),
{
    let s = settle(g, level, st);
    if s.pending.len() == 0 || s.pending[0] >= s.visited.len() {
        Seq::empty()
    } else {
        proof {
            lemma_settle(g, level, st);
            crate::vec_set::lemma_count_set_update(s.visited, s.pending[0] as int);
        }
        seq![s.pending[0]] + level_reads(
            g,
            level,
            ef,
            dist,
            supply(s, ef, dist[s.pending[0] as int]),
        )
    }
}

/// Settling moves through candidates and neighbours alone.
pub proof fn lemma_settle(g: GraphModel, level: int, st: LayerState)
    ensures
        ({
            let s = settle(g, level, st);
            &&& s.visited == st.visited
            &&& s.nearest == st.nearest
            &&& s.measured == st.measured
            &&& s.computed == st.computed
            &&& over(s) || waiting(s)
            &&& settle(g, level, s) == s
        }),
    decreases st.candidates.len(), st.pending.len(),
{
    if over(st) || waiting(st) {
    } else if st.pending.len() > 0 {
        lemma_settle(g, level, skip(st));
    } else {
        lemma_settle(g, level, expand(g, level, st));
    }
}

/// A node that stands on `level` and was met there.
pub open spec fn met(g: GraphModel, level: int, visited: Seq<bool>, v: usize) -> bool {
    v < g.len() && level < g.height(v as int) && visited[v as int]
}

/// What every step of a search of one level keeps.
pub open spec fn layer_inv(g: GraphModel, level: int, ef: nat, st: LayerState) -> bool {
    &&& g.wf()
    &&& 0 <= level
    &&& st.visited.len() == g.len()
    &&& ordered(st.candidates)
    &&& forall|k: int|
        0 <= k < st.candidates.len() ==> met(g, level, st.visited, (#[trigger] st.candidates[k]).1)
    &&& ordered(st.nearest)
    &&& distinct(st.nearest)
    &&& st.nearest.len() <= ef
    &&& forall|k: int|
        0 <= k < st.nearest.len() ==> met(g, level, st.visited, (#[trigger] st.nearest[k]).1)
    &&& st.candidates.len() > 0 ==> st.nearest.len() > 0
    &&& forall|k: int|
        0 <= k < st.pending.len() ==> (#[trigger] st.pending[k]) < g.len() && level < g.height(
            st.pending[k] as int,
        )
    &&& st.pending.len() > 0 ==> ef > 0
    &&& st.measured matches Some(m) ==> {
        &&& m.len() == g.len()
        &&& st.computed == count_set(m)
    }
}

/// What is left to be counted, on this level and below, stays in range.
pub open spec fn tally_inv(g: GraphModel, level: int, st: LayerState) -> bool {
    &&& st.hops + st.candidates.len() + count_clear(st.visited) + g.len() * level <= usize::MAX
    &&& st.measured is None ==> st.computed + count_clear(st.visited) + g.len() * level
        <= usize::MAX
}

pub proof fn lemma_skip_inv(g: GraphModel, level: int, ef: nat, st: LayerState)
    requires
        layer_inv(g, level, ef, st),
        st.pending.len() > 0,
    ensures
        layer_inv(g, level, ef, skip(st)),
        tally_inv(g, level, st) ==> tally_inv(g, level, skip(st)),
{
    let s = skip(st);
    assert forall|k: int| 0 <= k < s.pending.len() implies (#[trigger] s.pending[k]) < g.len()
        && level < g.height(s.pending[k] as int) by {
        assert(s.pending[k] == st.pending[k + 1]);
    }
}

pub proof fn lemma_expand_inv(g: GraphModel, level: int, ef: nat, st: LayerState)
    requires
        layer_inv(g, level, ef, st),
        st.pending.len() == 0,
        st.candidates.len() > 0,
    ensures
        layer_inv(g, level, ef, expand(g, level, st)),
        tally_inv(g, level, st) ==> tally_inv(g, level, expand(g, level, st)),
{
    let s = expand(g, level, st);
    let c = st.candidates[0].1;
    assert(met(g, level, st.visited, c));
    let links = g.links(c as int, level);
    assert(g.links_lead(links, level));
    assert forall|k: int| 0 <= k < s.pending.len() implies (#[trigger] s.pending[k]) < g.len()
        && level < g.height(s.pending[k] as int) by {
        assert(s.pending[k] == links[k].1);
    }
    assert forall|k: int| 0 <= k < s.candidates.len() implies met(
        g,
        level,
        s.visited,
        (#[trigger] s.candidates[k]).1,
    ) by {
        assert(s.candidates[k] == st.candidates[k + 1]);
    }
    assert forall|i: int, j: int| 0 <= i <= j < s.candidates.len() implies (
    #[trigger] s.candidates[i]).0 <= (#[trigger] s.candidates[j]).0 by {
        assert(s.candidates[i] == st.candidates[i + 1]);
        assert(s.candidates[j] == st.candidates[j + 1]);
    }
}

/// The members of a bounded list after an insertion are old ones or the new one.
pub proof fn lemma_insert_bounded_members(s: Links, ef: nat, d: VectorDistance, v: usize, k: int)
    requires
        0 <= k < insert_bounded(s, ef, d, v).len(),
    ensures
        ({
            let r = insert_bounded(s, ef, d, v);
            let p = rank(s, d) as int;
            &&& k < p ==> k < s.len() && r[k] == s[k]
            &&& k == p ==> r[k] == (d, v)
            &&& k > p ==> k - 1 < s.len() && r[k] == s[k - 1]
        }),
{
    crate::bounded::lemma_rank(s, d);
}

pub proof fn lemma_supply_inv(
    g: GraphModel,
    level: int,
    ef: nat,
    st: LayerState,
    d: VectorDistance,
)
    requires
        layer_inv(g, level, ef, st),
        waiting(st),
    ensures
        layer_inv(g, level, ef, supply(st, ef, d)),
        tally_inv(g, level, st) ==> tally_inv(g, level, supply(st, ef, d)),
        count_clear(supply(st, ef, d).visited) < count_clear(st.visited),
{
    let s = supply(st, ef, d);
    let v = st.pending[0];
    lemma_skip_inv(g, level, ef, st);
    crate::bounded::lemma_rank(st.nearest, d);
    crate::bounded::lemma_rank(st.candidates, d);
    crate::bounded::lemma_insert_bounded(st.nearest, ef, d, v);
    crate::bounded::lemma_insert_ordered(st.candidates, d, v);
    crate::vec_set::lemma_count_set_update(st.visited, v as int);
    let p = rank(st.nearest, d) as int;
    assert forall|k: int| 0 <= k < s.nearest.len() implies met(
        g,
        level,
        s.visited,
        (#[trigger] s.nearest[k]).1,
    ) by {
        lemma_insert_bounded_members(st.nearest, ef, d, v, k);
    }
    assert forall|i: int, j: int| 0 <= i < j < s.nearest.len() implies (#[trigger] s.nearest[i]).1
        != (#[trigger] s.nearest[j]).1 by {
        lemma_insert_bounded_members(st.nearest, ef, d, v, i);
        lemma_insert_bounded_members(st.nearest, ef, d, v, j);
    }
    let q = rank(st.candidates, d) as int;
    assert forall|k: int| 0 <= k < s.candidates.len() implies met(
        g,
        level,
        s.visited,
        (#[trigger] s.candidates[k]).1,
    ) by {
        if admits(st.nearest, ef, d) {
            if k < q {
                assert(s.candidates[k] == st.candidates[k]);
            } else if k > q {
                assert(s.candidates[k] == st.candidates[k - 1]);
            }
        }
    }
    match st.measured {
        Some(m) => {
            if m[v as int] {
                assert(m.update(v as int, true) =~= m);
            } else {
                crate::vec_set::lemma_count_set_update(m, v as int);
            }
        },
        None => {},
    }
}

/// The flags that a list of distinct nodes sets are as many as the nodes.
pub proof fn lemma_marks_count(n: nat, links: Links)
    requires
        distinct(links),
        forall|k: int| 0 <= k < links.len() ==> (#[trigger] links[k]).1 < n,
    ensures
        count_set(Seq::new(n, |i: int| names(links, i))) == links.len(),
    decreases links.len(),
{
    let marks = Seq::new(n, |i: int| names(links, i));
    if links.len() == 0 {
        crate::vec_set::lemma_count_set_none(marks);
    } else {
        let rest = links.drop_last();
        let v = links.last().1;
        let rest_marks = Seq::new(n, |i: int| names(rest, i));
        assert forall|i: int, j: int| 0 <= i < j < rest.len() implies (#[trigger] rest[i]).1 != (
        #[trigger] rest[j]).1 by {
            assert(rest[i] == links[i] && rest[j] == links[j]);
        }
        assert forall|k: int| 0 <= k < rest.len() implies (#[trigger] rest[k]).1 < n by {
            assert(rest[k] == links[k]);
        }
        lemma_marks_count(n, rest);
        assert(!rest_marks[v as int]) by {
            if names(rest, v as int) {
                let k = choose|k: int| 0 <= k < rest.len() && (#[trigger] rest[k]).1 == v;
                assert(links[k].1 == links[links.len() - 1].1);
            }
        }
        assert(marks =~= rest_marks.update(v as int, true)) by {
            assert forall|i: int| 0 <= i < n implies marks[i] == rest_marks.update(
                v as int,
                true,
            )[i] by {
                if names(links, i) && i != v {
                    let k = choose|k: int| 0 <= k < links.len() && (#[trigger] links[k]).1 == i;
                    assert(rest[k].1 == i);
                }
                if names(rest, i) {
                    let k = choose|k: int| 0 <= k < rest.len() && (#[trigger] rest[k]).1 == i;
                    assert(links[k].1 == i);
                }
                assert(links[links.len() - 1].1 == v);
            }
        }
        crate::vec_set::lemma_count_set_update(rest_marks, v as int);
    }
}

/// Entering the level below keeps what a search keeps.
pub proof fn lemma_enter_inv(
    g: GraphModel,
    upper: int,
    upper_ef: nat,
    st: LayerState,
    level: int,
    ef: nat,
)
    requires
        layer_inv(g, upper, upper_ef, st),
        0 <= level <= upper,
    ensures
        layer_inv(g, level, ef, enter(st, ef)),
        level < upper && tally_inv(g, upper, st) ==> tally_inv(g, level, enter(st, ef)),
        count_clear(enter(st, ef).visited) + enter(st, ef).candidates.len() == g.len(),
{
    let s = enter(st, ef);
    assert forall|k: int| 0 <= k < s.candidates.len() implies met(
        g,
        level,
        s.visited,
        (#[trigger] s.candidates[k]).1,
    ) by {
        assert(met(g, upper, st.visited, st.nearest[k].1));
        assert(names(s.candidates, s.candidates[k].1 as int));
    }
    assert forall|k: int| 0 <= k < s.nearest.len() implies met(
        g,
        level,
        s.visited,
        (#[trigger] s.nearest[k]).1,
    ) by {
        assert(s.nearest[k] == st.nearest[k]);
        assert(met(g, upper, st.visited, st.nearest[k].1));
        assert(names(s.candidates, s.candidates[k].1 as int));
    }
    assert forall|i: int, j: int| 0 <= i <= j < s.nearest.len() implies (#[trigger] s.nearest[i]).0
        <= (#[trigger] s.nearest[j]).0 by {
        assert(s.nearest[i] == st.nearest[i] && s.nearest[j] == st.nearest[j]);
    }
    assert forall|i: int, j: int| 0 <= i < j < s.nearest.len() implies (#[trigger] s.nearest[i]).1
        != (#[trigger] s.nearest[j]).1 by {
        assert(s.nearest[i] == st.nearest[i] && s.nearest[j] == st.nearest[j]);
    }
    assert forall|k: int| 0 <= k < s.candidates.len() implies (#[trigger] s.candidates[k]).1
        < g.len() by {
        assert(met(g, level, s.visited, s.candidates[k].1));
    }
    lemma_marks_count(g.len(), s.candidates);
    crate::vec_set::lemma_count_set_bound(s.visited);
    if level < upper && tally_inv(g, upper, st) {
        assert(g.len() * level + g.len() <= g.len() * upper) by (nonlinear_arith)
            requires
                level + 1 <= upper,
                0 <= g.len(),
        ;
    }
}

} // verus!
