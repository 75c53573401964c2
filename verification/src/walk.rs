//! What a walk through all levels is: from the entrypoint's top level down to
//! the ground, each level starting from what was found on the one above.
use vstd::prelude::*;

use crate::graph::GraphModel;
use crate::layer::{
    enter, layer_inv, over, level_reads, search_to_end, settle, supply, tally_inv, waiting,
    LayerState,
};
use crate::vector::VectorDistance;

verus! {

/// How many nearest nodes a walk looks for: `ef` on the levels below `wide`,
/// and a single one above.
pub struct Plan {
    pub wide: nat,
    pub ef: nat,
}

impl Plan {
    /// How many nearest nodes are looked for on a level.
    pub open spec fn width(&self, level: int) -> nat {
        if level < self.wide {
            self.ef
        } else {
            1
        }
    }
}

/// Before the first level: the entrypoint alone is known, at distance `d`.
/// With `once`, each node's distance counts only once, the entrypoint's too.
pub open spec fn start(g: GraphModel, d: VectorDistance, once: bool) -> LayerState {
    let only = Seq::new(g.len(), |i: int| i == g.entrypoint);
    LayerState {
        candidates: Seq::empty(),
        nearest: seq![(d, g.entrypoint)],
        visited: only,
        pending: Seq::empty(),
        measured: if once {
            Some(only)
        } else {
            None
        },
        computed: if once {
            1
        } else {
            0
        },
        hops: 0,
    }
}

/// The state in which a walk ends on `level`, having come down from the top.
pub open spec fn walk(
    g: GraphModel,
    plan: Plan,
    dist: Seq<VectorDistance>,
    from: LayerState,
    level: int,
) -> LayerState
    decreases g.top() + 1 - level,
{
    if level > g.top() {
        from
    } else {
        search_to_end(
            g,
            level,
            plan.width(level),
            dist,
            enter(walk(g, plan, dist, from, level + 1), plan.width(level)),
        )
    }
}

/// The nodes whose distances a walk needs down to `level`, one after the other,
/// the entrypoint first.
pub open spec fn walk_reads(
    g: GraphModel,
    plan: Plan,
    dist: Seq<VectorDistance>,
    from: LayerState,
    level: int,
) -> Seq<usize>
    decreases g.top() + 1 - level,
{
    if level > g.top() {
        seq![g.entrypoint]
    } else {
        walk_reads(g, plan, dist, from, level + 1) + level_reads(
            g,
            level,
            plan.width(level),
            dist,
            enter(walk(g, plan, dist, from, level + 1), plan.width(level)),
        )
    }
}

/// What a walk needs down to a level comes first of what it needs in all.
pub proof fn lemma_reads_come_first(
    g: GraphModel,
    plan: Plan,
    dist: Seq<VectorDistance>,
    from: LayerState,
    level: int,
)
    requires
        0 <= level <= g.top() + 1,
    ensures
        ({
            let some = walk_reads(g, plan, dist, from, level);
            let all = walk_reads(g, plan, dist, from, 0);
            &&& some.len() <= all.len()
            &&& forall|k: int| 0 <= k < some.len() ==> #[trigger] all[k] == some[k]
        }),
    decreases level,
{
    if level > 0 {
        lemma_reads_come_first(g, plan, dist, from, level - 1);
        let some = walk_reads(g, plan, dist, from, level);
        let more = walk_reads(g, plan, dist, from, level - 1);
        let all = walk_reads(g, plan, dist, from, 0);
        assert forall|k: int| 0 <= k < some.len() implies #[trigger] all[k] == some[k] by {
            assert(all[k] == more[k]);
        }
    }
}

/// Before the first level there is a valid search.
pub proof fn lemma_start_valid(g: GraphModel, d: VectorDistance, once: bool)
    requires
        g.wf(),
    ensures
        layer_inv(g, g.top() as int, 1, start(g, d, once)),
{
    let st = start(g, d, once);
    let none = Seq::new(g.len(), |i: int| false);
    assert(g.height(g.entrypoint as int) >= 1);
    assert(st.visited =~= none.update(g.entrypoint as int, true));
    crate::vec_set::lemma_count_set_none(none);
    crate::vec_set::lemma_count_set_update(none, g.entrypoint as int);
}

/// The first level starts with a valid search, whose counts have room.
pub proof fn lemma_start_inv(g: GraphModel, d: VectorDistance, once: bool, ef: nat)
    requires
        g.wf(),
        g.countable(),
    ensures
        layer_inv(g, g.top() as int, 1, start(g, d, once)),
        layer_inv(g, g.top() as int, ef, enter(start(g, d, once), ef)),
        tally_inv(g, g.top() as int, enter(start(g, d, once), ef)),
{
    let st = start(g, d, once);
    lemma_start_valid(g, d, once);
    assert(g.height(g.entrypoint as int) >= 1);
    crate::layer::lemma_enter_inv(g, g.top() as int, 1, st, g.top() as int, ef);
    assert(g.len() * g.height(g.entrypoint as int) == g.len() * g.top() + g.len())
        by (nonlinear_arith)
        requires
            g.height(g.entrypoint as int) == g.top() + 1,
    ;
}

/// Being told the true distance does not change where the search of a level
/// ends, and is one thing less that it needs.
pub proof fn lemma_supply_same_end(
    g: GraphModel,
    level: int,
    ef: nat,
    dist: Seq<VectorDistance>,
    st: LayerState,
)
    requires
        layer_inv(g, level, ef, st),
        waiting(st),
    ensures
        search_to_end(g, level, ef, dist, st) == search_to_end(
            g,
            level,
            ef,
            dist,
            supply(st, ef, dist[st.pending[0] as int]),
        ),
        level_reads(g, level, ef, dist, st) == seq![st.pending[0]] + level_reads(
            g,
            level,
            ef,
            dist,
            supply(st, ef, dist[st.pending[0] as int]),
        ),
{
}

/// Settling does not change where the search of a level ends, nor what it needs.
pub proof fn lemma_settle_same_end(
    g: GraphModel,
    level: int,
    ef: nat,
    dist: Seq<VectorDistance>,
    st: LayerState,
)
    ensures
        search_to_end(g, level, ef, dist, st) == search_to_end(
            g,
            level,
            ef,
            dist,
            settle(g, level, st),
        ),
        settle(g, level, st).pending.len() == 0 ==> search_to_end(g, level, ef, dist, st) == settle(
            g,
            level,
            st,
        ),
        level_reads(g, level, ef, dist, st) == level_reads(
            g,
            level,
            ef,
            dist,
            settle(g, level, st),
        ),
        settle(g, level, st).pending.len() == 0 ==> level_reads(g, level, ef, dist, st).len() == 0,
{
    crate::layer::lemma_settle(g, level, st);
}

/// A level that has been searched to its end is where the walk ends on it, and
/// the next level down starts from there.
pub proof fn lemma_next_level(
    g: GraphModel,
    plan: Plan,
    dist: Seq<VectorDistance>,
    from: LayerState,
    level: int,
    st: LayerState,
)
    requires
        0 <= level <= g.top(),
        search_to_end(g, level, plan.width(level), dist, st) == walk(g, plan, dist, from, level),
        over(settle(g, level, st)),
    ensures
        settle(g, level, st) == walk(g, plan, dist, from, level),
        level > 0 ==> search_to_end(
            g,
            level - 1,
            plan.width(level - 1),
            dist,
            enter(settle(g, level, st), plan.width(level - 1)),
        ) == walk(g, plan, dist, from, level - 1),
        level_reads(g, level, plan.width(level), dist, st).len() == 0,
        level > 0 ==> walk_reads(g, plan, dist, from, level) + level_reads(
            g,
            level - 1,
            plan.width(level - 1),
            dist,
            enter(settle(g, level, st), plan.width(level - 1)),
        ) == walk_reads(g, plan, dist, from, level - 1),
{
    lemma_settle_same_end(g, level, plan.width(level), dist, st);
}

} // verus!
