//! A narrow and a wide search of one level, side by side: the wide one goes
//! through all that the narrow one does, and then on.
use vstd::prelude::*;

use crate::bounded::{
    admits, insert_bounded, keep_first, lemma_insert_bounded, lemma_insert_ordered, lemma_rank,
    ordered, rank,
};
use crate::graph::GraphModel;
use crate::layer::{
    enter, expand, layer_inv, lemma_enter_inv, lemma_expand_inv, lemma_insert_bounded_members,
    lemma_settle, lemma_skip_inv, lemma_supply_inv, over, search_to_end, settle, skip, supply,
    waiting, LayerState,
};
use crate::trace::lemma_search_keeps;
use crate::vec_set::count_clear;
use crate::vector::VectorDistance;
use crate::walk::{lemma_settle_same_end, lemma_supply_same_end};

verus! {

/// Whether the candidates of a narrow search, up to the furthest of its full
/// list, come first among those of a wide one.
pub open spec fn candidates_agree(narrow: nat, s: LayerState, t: LayerState) -> bool {
    if s.nearest.len() < narrow {
        s.candidates == t.candidates
    } else {
        let last = s.nearest.last().0;
        let p = rank(s.candidates, last);
        &&& p <= t.candidates.len()
        &&& forall|i: int| 0 <= i < p ==> #[trigger] t.candidates[i] == s.candidates[i]
        &&& forall|i: int| p <= i < t.candidates.len() ==> (#[trigger] t.candidates[i]).0 >= last
    }
}

/// Whether a narrow search in state `s` and a wide one in state `t` have come
/// equally far.
pub open spec fn side_by_side(narrow: nat, s: LayerState, t: LayerState) -> bool {
    &&& s.visited == t.visited
    &&& s.pending == t.pending
    &&& s.measured == t.measured
    &&& s.computed == t.computed
    &&& s.hops == t.hops
    &&& s.nearest == keep_first(t.nearest, narrow)
    &&& candidates_agree(narrow, s, t)
}

proof fn lemma_expand_side_by_side(
    g: GraphModel,
    level: int,
    narrow: nat,
    wide: nat,
    s: LayerState,
    t: LayerState,
)
    requires
        0 < narrow <= wide,
        layer_inv(g, level, narrow, s),
        layer_inv(g, level, wide, t),
        side_by_side(narrow, s, t),
        s.pending.len() == 0,
        !over(s),
    ensures
        !over(t),
        side_by_side(narrow, expand(g, level, s), expand(g, level, t)),
{
    let last = s.nearest.last().0;
    lemma_rank(s.candidates, last);
    assert(s.candidates[0].0 <= last);
    let p = rank(s.candidates, last);
    assert(p > 0) by {
        if p == 0 {
            assert(last < s.candidates[0].0);
        }
    }
    assert(t.candidates.len() > 0 && t.candidates[0] == s.candidates[0]);
    assert(t.nearest.last().0 >= last) by {
        assert(s.nearest.last() == t.nearest[s.nearest.len() - 1]);
        assert(t.nearest[s.nearest.len() - 1].0 <= t.nearest[t.nearest.len() - 1].0);
    }
    let s2 = expand(g, level, s);
    let t2 = expand(g, level, t);
    if s.nearest.len() >= narrow {
        let q = rank(s2.candidates, last);
        lemma_rank(s2.candidates, last);
        lemma_expand_inv(g, level, narrow, s);
        assert(q == p - 1) by {
            if q < p - 1 {
                assert(last < s2.candidates[q as int].0);
                assert(s2.candidates[q as int] == s.candidates[q as int + 1]);
            }
            if q > p - 1 {
                assert(s2.candidates[q - 1].0 <= last);
                assert(s2.candidates[q - 1] == s.candidates[q as int]);
            }
        }
        assert forall|i: int| 0 <= i < q implies #[trigger] t2.candidates[i]
            == s2.candidates[i] by {
            assert(t2.candidates[i] == t.candidates[i + 1]);
            assert(s2.candidates[i] == s.candidates[i + 1]);
        }
        assert forall|i: int| q <= i < t2.candidates.len() implies (#[trigger] t2.candidates[i]).0
            >= last by {
            assert(t2.candidates[i] == t.candidates[i + 1]);
        }
    }
}

/// Keeping fewer of the nearest commutes with offering one more.
pub proof fn lemma_keep_then_insert<T>(
    s: Seq<(VectorDistance, T)>,
    narrow: nat,
    wide: nat,
    d: VectorDistance,
    item: T,
)
    requires
        ordered(s),
        narrow <= wide,
        s.len() <= wide,
    ensures
        insert_bounded(keep_first(s, narrow), narrow, d, item) == keep_first(
            insert_bounded(s, wide, d, item),
            narrow,
        ),
{
    let k = keep_first(s, narrow);
    lemma_rank(s, d);
    lemma_rank(k, d);
    assert(ordered(k)) by {
        assert forall|i: int, j: int| 0 <= i <= j < k.len() implies (#[trigger] k[i]).0 <= (
        #[trigger] k[j]).0 by {
            assert(k[i] == s[i] && k[j] == s[j]);
        }
    }
    let a = rank(s, d);
    let b = rank(k, d);
    if k.len() < s.len() {
        if b < k.len() {
            assert(d < k[b as int].0);
            assert(k[b as int] == s[b as int]);
            if a > b {
                assert(s[a - 1].0 <= d);
                assert(s[b as int].0 <= s[a - 1].0);
            }
        } else if b > 0 {
            assert(k[b - 1].0 <= d);
            assert(k[b - 1] == s[b - 1]);
            if a < b {
                assert(d < s[a as int].0);
                assert(s[a as int].0 <= s[b - 1].0);
            }
        }
        if b < k.len() && b > 0 {
            assert(k[b - 1].0 <= d);
            assert(k[b - 1] == s[b - 1]);
            if a < b {
                assert(d < s[a as int].0);
                assert(s[a as int].0 <= s[b - 1].0);
            }
        }
    }
    assert(insert_bounded(k, narrow, d, item) =~= keep_first(
        insert_bounded(s, wide, d, item),
        narrow,
    ));
}

proof fn lemma_supply_side_by_side(
    g: GraphModel,
    level: int,
    narrow: nat,
    wide: nat,
    s: LayerState,
    t: LayerState,
    d: VectorDistance,
)
    requires
        0 < narrow <= wide,
        layer_inv(g, level, narrow, s),
        layer_inv(g, level, wide, t),
        side_by_side(narrow, s, t),
        waiting(s),
    ensures
        side_by_side(narrow, supply(s, narrow, d), supply(t, wide, d)),
{
    let v = s.pending[0];
    let s2 = supply(s, narrow, d);
    let t2 = supply(t, wide, d);
    lemma_keep_then_insert(t.nearest, narrow, wide, d, v);
    lemma_rank(s.nearest, d);
    lemma_rank(t.nearest, d);
    lemma_rank(s.candidates, d);
    lemma_rank(t.candidates, d);
    lemma_insert_bounded(s.nearest, narrow, d, v);
    lemma_insert_ordered(s.candidates, d, v);
    if s.nearest.len() < narrow {
        assert(s.nearest == t.nearest);
        if s2.nearest.len() == narrow {
            let last = s2.nearest.last().0;
            lemma_rank(s2.candidates, last);
        }
    } else {
        let last = s.nearest.last().0;
        let p = rank(s.candidates, last);
        lemma_rank(s.candidates, last);
        let last2 = s2.nearest.last().0;
        assert(s.nearest.last() == s.nearest[narrow - 1]);
        if admits(s.nearest, narrow, d) {
            let r = rank(s.nearest, d);
            assert(d < s.nearest[r as int].0);
            assert(s.nearest[r as int].0 <= s.nearest[narrow - 1].0);
            assert(d < last);
            assert(admits(t.nearest, wide, d)) by {
                assert(t.nearest[r as int] == s.nearest[r as int]);
                if rank(t.nearest, d) > r {
                    assert(t.nearest[rank(t.nearest, d) - 1].0 <= d);
                    assert(t.nearest[r as int].0 <= t.nearest[rank(t.nearest, d) - 1].0);
                }
            }
            assert(last2 <= last) by {
                let e = narrow - 1;
                lemma_insert_bounded_members(s.nearest, narrow, d, v, e);
                if e > r {
                    assert(s.nearest[e - 1].0 <= s.nearest[e].0);
                }
            }
            let q = rank(s.candidates, d);
            assert(q <= p) by {
                if q > p {
                    assert(last < s.candidates[q - 1].0);
                }
            }
            assert(rank(t.candidates, d) == q) by {
                let u = rank(t.candidates, d);
                if u > q {
                    assert(t.candidates[u - 1].0 <= d);
                    if u - 1 < p {
                        assert(t.candidates[u - 1] == s.candidates[u - 1]);
                        assert(d < s.candidates[u - 1].0);
                    }
                }
                if u < q {
                    assert(d < t.candidates[q - 1].0);
                    assert(t.candidates[q - 1] == s.candidates[q - 1]);
                    assert(s.candidates[q - 1].0 <= d);
                }
            }
            let p2 = rank(s2.candidates, last2);
            lemma_rank(s2.candidates, last2);
            assert forall|i: int| 0 <= i < p + 1 implies #[trigger] t2.candidates[i]
                == s2.candidates[i] by {
                if i < q {
                    assert(t.candidates[i] == s.candidates[i]);
                } else if i > q {
                    assert(t.candidates[i - 1] == s.candidates[i - 1]);
                }
            }
            assert(p2 <= p + 1) by {
                if p2 > p + 1 {
                    assert(s2.candidates[p2 - 1].0 <= last2);
                    assert(s2.candidates[p2 - 1] == s.candidates[p2 - 2]);
                    assert(last < s.candidates[p2 - 2].0);
                }
            }
            assert forall|i: int| p2 <= i < t2.candidates.len() implies (
            #[trigger] t2.candidates[i]).0 >= last2 by {
                if i < p + 1 {
                    assert(t2.candidates[i] == s2.candidates[i]);
                    assert(last2 < s2.candidates[i].0);
                } else {
                    assert(t2.candidates[i] == t.candidates[i - 1]);
                }
            }
        } else {
            assert(s2.nearest == s.nearest);
            assert(last <= d) by {
                assert(s.nearest[rank(s.nearest, d) - 1].0 <= d);
            }
            let u = rank(t.candidates, d);
            assert(u >= p) by {
                if u < p {
                    assert(d < t.candidates[u as int].0);
                    assert(t.candidates[u as int] == s.candidates[u as int]);
                    assert(s.candidates[u as int].0 <= last);
                }
            }
            assert forall|i: int| 0 <= i < p implies #[trigger] t2.candidates[i]
                == s2.candidates[i] by {
                assert(t2.candidates[i] == t.candidates[i]);
            }
            assert forall|i: int| p <= i < t2.candidates.len() implies (
            #[trigger] t2.candidates[i]).0 >= last by {
                if admits(t.nearest, wide, d) {
                    if i < u {
                        assert(t2.candidates[i] == t.candidates[i]);
                    } else if i > u {
                        assert(t2.candidates[i] == t.candidates[i - 1]);
                    }
                }
            }
        }
    }
}

/// While a narrow search settles, a wide one keeps up with it.
proof fn lemma_settle_side_by_side(
    g: GraphModel,
    level: int,
    narrow: nat,
    wide: nat,
    s: LayerState,
    t: LayerState,
) -> (u: LayerState)
    requires
        0 < narrow <= wide,
        layer_inv(g, level, narrow, s),
        layer_inv(g, level, wide, t),
        side_by_side(narrow, s, t),
    ensures
        layer_inv(g, level, narrow, settle(g, level, s)),
        layer_inv(g, level, wide, u),
        side_by_side(narrow, settle(g, level, s), u),
        settle(g, level, u) == settle(g, level, t),
    decreases s.candidates.len(), s.pending.len(),
{
    if over(s) || waiting(s) {
        t
    } else if s.pending.len() > 0 {
        lemma_skip_inv(g, level, narrow, s);
        lemma_skip_inv(g, level, wide, t);
        lemma_settle_side_by_side(g, level, narrow, wide, skip(s), skip(t))
    } else {
        lemma_expand_side_by_side(g, level, narrow, wide, s, t);
        lemma_expand_inv(g, level, narrow, s);
        lemma_expand_inv(g, level, wide, t);
        lemma_settle_side_by_side(
            g,
            level,
            narrow,
            wide,
            expand(g, level, s),
            expand(g, level, t),
        )
    }
}

/// When a narrow search ends, a wide one has come as far, from where it goes on
/// to its own end.
pub proof fn lemma_search_side_by_side(
    g: GraphModel,
    level: int,
    narrow: nat,
    wide: nat,
    dist: Seq<VectorDistance>,
    s: LayerState,
    t: LayerState,
) -> (u: LayerState)
    requires
        0 < narrow <= wide,
        layer_inv(g, level, narrow, s),
        layer_inv(g, level, wide, t),
        side_by_side(narrow, s, t),
    ensures
        layer_inv(g, level, wide, u),
        side_by_side(narrow, search_to_end(g, level, narrow, dist, s), u),
        search_to_end(g, level, wide, dist, u) == search_to_end(g, level, wide, dist, t),
    decreases count_clear(s.visited),
{
    let s2 = settle(g, level, s);
    let t2 = lemma_settle_side_by_side(g, level, narrow, wide, s, t);
    lemma_settle(g, level, s);
    lemma_settle_same_end(g, level, wide, dist, t);
    lemma_settle_same_end(g, level, wide, dist, t2);
    if s2.pending.len() == 0 {
        t2
    } else {
        let d = dist[s2.pending[0] as int];
        lemma_supply_side_by_side(g, level, narrow, wide, s2, t2, d);
        lemma_supply_inv(g, level, narrow, s2, d);
        lemma_supply_inv(g, level, wide, t2, d);
        lemma_supply_same_end(g, level, wide, dist, t2);
        lemma_search_side_by_side(
            g,
            level,
            narrow,
            wide,
            dist,
            supply(s2, narrow, d),
            supply(t2, wide, d),
        )
    }
}

/// Whether `t` has come at least as far as `s`: no less met, measured or
/// hopped, and at every place a node that is no further.
pub open spec fn no_worse(s: LayerState, t: LayerState) -> bool {
    &&& s.visited.len() == t.visited.len()
    &&& forall|v: int| 0 <= v < s.visited.len() && #[trigger] s.visited[v] ==> t.visited[v]
    &&& s.nearest.len() <= t.nearest.len()
    &&& forall|i: int|
        0 <= i < s.nearest.len() ==> (#[trigger] t.nearest[i]).0 <= s.nearest[i].0
    &&& s.computed <= t.computed
    &&& s.hops <= t.hops
}

/// Searching on only makes things better.
pub proof fn lemma_search_no_worse(
    g: GraphModel,
    level: int,
    ef: nat,
    dist: Seq<VectorDistance>,
    st: LayerState,
)
    requires
        layer_inv(g, level, ef, st),
    ensures
        no_worse(st, search_to_end(g, level, ef, dist, st)),
{
    let p = |s: LayerState| no_worse(st, s);
    assert forall|s: LayerState| layer_inv(g, level, ef, s) && p(s) && #[trigger] waiting(s) implies p(
        supply(s, ef, dist[s.pending[0] as int]),
    ) by {
        let d = dist[s.pending[0] as int];
        let v = s.pending[0];
        let s2 = supply(s, ef, d);
        lemma_rank(s.nearest, d);
        lemma_insert_bounded(s.nearest, ef, d, v);
        assert forall|i: int| 0 <= i < st.nearest.len() implies (#[trigger] s2.nearest[i]).0
            <= st.nearest[i].0 by {
            assert(s.nearest[i].0 <= st.nearest[i].0);
            lemma_insert_bounded_members(s.nearest, ef, d, v, i);
            let r = rank(s.nearest, d) as int;
            if i == r {
                assert(d < s.nearest[i].0);
            } else if i > r {
                assert(s.nearest[i - 1].0 <= s.nearest[i].0);
            }
        }
    }
    lemma_search_keeps(g, level, ef, dist, st, p);
}

/// On one level, looking for more nodes finds, at every place, one that is no
/// further.
pub proof fn lemma_wider_level(
    g: GraphModel,
    upper: int,
    upper_ef: nat,
    level: int,
    narrow: nat,
    wide: nat,
    dist: Seq<VectorDistance>,
    st: LayerState,
)
    requires
        0 < narrow <= wide,
        layer_inv(g, upper, upper_ef, st),
        0 <= level <= upper,
    ensures
        no_worse(
            search_to_end(g, level, narrow, dist, enter(st, narrow)),
            search_to_end(g, level, wide, dist, enter(st, wide)),
        ),
{
    let s = enter(st, narrow);
    let t = enter(st, wide);
    lemma_enter_inv(g, upper, upper_ef, st, level, narrow);
    lemma_enter_inv(g, upper, upper_ef, st, level, wide);
    assert(s.nearest =~= keep_first(t.nearest, narrow));
    lemma_rank(s.candidates, s.nearest.last().0);
    assert(s.visited =~= t.visited);
    assert(candidates_agree(narrow, s, t));
    let u = lemma_search_side_by_side(g, level, narrow, wide, dist, s, t);
    lemma_search_no_worse(g, level, wide, dist, u);
    let e = search_to_end(g, level, narrow, dist, s);
    let f = search_to_end(g, level, wide, dist, t);
    assert forall|i: int| 0 <= i < e.nearest.len() implies (#[trigger] f.nearest[i]).0
        <= e.nearest[i].0 by {
        assert(e.nearest[i] == u.nearest[i]);
    }
}

} // verus!
