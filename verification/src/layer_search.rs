//! The search of one level, one distance at a time.
//!
//! The search names the node whose vector it needs and is then told how far
//! away that vector is, so that whoever drives it may fetch vectors from
//! wherever they are kept.
use vstd::prelude::*;

use crate::bounded::{
    admits, insert_bounded, insert_by_distance, keep_first, ordered, rank, BoundedNearest,
    MinDistanceHeap,
};
use crate::graph::{GraphModel, HnswGraph, Links};
use crate::layer::{
    enter, expand, layer_inv, met, names, over, settle, skip, supply, tally_inv, targets, waiting,
    LayerState,
};
use crate::stats::HnswStats;
use crate::vec_set::VecSet;
use crate::vector::VectorDistance;
use crate::walk::start;

verus! {

/// The nodes of a list whose items carry something more.
pub open spec fn unlabelled<O>(s: Seq<(VectorDistance, (usize, O))>) -> Links {
    s.map_values(|e: (VectorDistance, (usize, O))| (e.0, e.1.0))
}

pub proof fn lemma_unlabelled_insert<O>(
    s: Seq<(VectorDistance, (usize, O))>,
    ef: nat,
    d: VectorDistance,
    v: usize,
    o: O,
)
    ensures
        unlabelled(insert_bounded(s, ef, d, (v, o))) == insert_bounded(unlabelled(s), ef, d, v),
        admits(s, ef, d) == admits(unlabelled(s), ef, d),
{
    crate::bounded::lemma_rank_depends_on_distances(s, unlabelled(s), d);
    crate::bounded::lemma_rank(s, d);
    assert(unlabelled(insert_bounded(s, ef, d, (v, o))) =~= insert_bounded(
        unlabelled(s),
        ef,
        d,
        v,
    ));
}

/// What a search or an insertion has come to.
#[derive(Debug, Clone, Copy, PartialEq, Eq, Structural)]
pub enum Step {
    /// The distance of this node is needed.
    Fetch(usize),
    /// The search of a level is over, and that of this level, the next one
    /// down, begins.
    Level(usize),
    /// The ground has been searched.
    Done,
}

/// A search in progress on one level. Each of the nearest nodes carries what
/// was made of it when it was found.
pub struct LayerSearch<O> {
    pub level: usize,
    pub candidates: MinDistanceHeap<usize>,
    pub nearest: BoundedNearest<(usize, O)>,
    pub visited: VecSet,
    pub pending: Vec<(usize, VectorDistance)>,
    pub cursor: usize,
    pub measured: Option<VecSet>,
    pub stats: HnswStats,
}

impl<O> LayerSearch<O> {
    /// The state of the search.
    pub open spec fn view(&self) -> LayerState {
        LayerState {
            candidates: self.candidates@,
            nearest: unlabelled(self.nearest@),
            visited: self.visited@,
            pending: Seq::new(
                (self.pending@.len() - self.cursor) as nat,
                |i: int| self.pending@[self.cursor + i].0,
            ),
            measured: match self.measured {
                Some(m) => Some(m@),
                None => None,
            },
            computed: self.stats.distances_computed as nat,
            hops: self.stats.nhops as nat,
        }
    }

    /// How many nearest nodes the search looks for.
    pub open spec fn ef(&self) -> nat {
        self.nearest.capacity as nat
    }

    /// The search is one on this graph, and its counts stay in range.
    pub open spec fn wf(&self, g: GraphModel) -> bool {
        &&& self.cursor <= self.pending@.len()
        &&& self.nearest.wf()
        &&& layer_inv(g, self.level as int, self.ef(), self@)
        &&& tally_inv(g, self.level as int, self@)
    }

    /// The search before its first level: the entrypoint alone is known. With
    /// `once`, each node's distance counts only once, the entrypoint's too.
    pub fn start<G: HnswGraph>(graph: &G, distance: VectorDistance, output: O, once: bool) -> (r:
        Self)
        requires
            graph.view().wf(),
        ensures
            r@ == start(graph.view(), distance, once),
            r.nearest@ == seq![(distance, (graph.view().entrypoint, output))],
            r.nearest.wf(),
            r.ef() == 1,
            r.level == graph.view().top(),
            r.cursor <= r.pending@.len(),
    {
        let ghost g = graph.view();
        let entrypoint: usize = graph.entrypoint();
        let n: usize = graph.len();
        assert(g.height(entrypoint as int) >= 1);
        let level: usize = graph.node_num_levels(entrypoint) - 1;
        let mut nearest: BoundedNearest<(usize, O)> = BoundedNearest::new(1);
        let ghost o = output;
        nearest.insert(distance, (entrypoint, output));
        assert(nearest@ =~= seq![(distance, (entrypoint, o))]);
        let mut visited = VecSet::new(n);
        visited.set(entrypoint);
        assert(visited@ =~= start(g, distance, once).visited);
        let mut stats = HnswStats::default();
        let measured: Option<VecSet> = if once {
            let mut m = VecSet::new(n);
            m.set(entrypoint);
            assert(m@ =~= start(g, distance, once).visited);
            stats.distances_computed = 1;
            Some(m)
        } else {
            None
        };
        let r = LayerSearch {
            level,
            candidates: MinDistanceHeap::new(),
            nearest,
            visited,
            pending: Vec::new(),
            cursor: 0,
            measured,
            stats,
        };
        assert(r@ =~= start(g, distance, once));
        r
    }

    /// Starts on a level with the nearest nodes found so far.
    pub fn enter(&mut self, level: usize, ef: usize)
        requires
            old(self).nearest.wf(),
            forall|k: int|
                0 <= k < old(self).nearest@.len() ==> (#[trigger] old(self).nearest@[k]).1.0
                    < old(self).visited@.len(),
        ensures
            final(self)@ == enter(old(self)@, ef as nat),
            final(self).nearest@ == keep_first(old(self).nearest@, ef as nat),
            final(self).nearest.wf(),
            final(self).ef() == ef,
            final(self).level == level,
            final(self).cursor <= final(self).pending@.len(),
    {
        self.visited.reset();
        self.candidates = MinDistanceHeap::new();
        let ghost n = self.visited@.len();
        let ghost from = self.nearest@;
        let ghost links = unlabelled(from);
        if ef > 0 {
            let mut k: usize = 0;
            assert(links.take(0) =~= Seq::empty());
            assert(self.visited@ =~= Seq::new(n, |i: int| names(links.take(0), i)));
            while k < self.nearest.items.len()
                invariant
                    k <= from.len(),
                    self.nearest@ == from,
                    self.nearest.capacity == old(self).nearest.capacity,
                    from == old(self).nearest@,
                    links == unlabelled(from),
                    ordered(from),
                    self.measured == old(self).measured,
                    self.stats == old(self).stats,
                    n == old(self).visited@.len(),
                    forall|j: int| 0 <= j < from.len() ==> (#[trigger] from[j]).1.0 < n,
                    self.candidates@ == links.take(k as int),
                    self.visited@ == Seq::new(n, |i: int| names(links.take(k as int), i)),
                decreases from.len() - k,
            {
                let distance: VectorDistance = self.nearest.items[k].0;
                let idx: usize = self.nearest.items[k].1.0;
                assert(from[k as int].1.0 < n);
                self.visited.set(idx);
                self.candidates.push(distance, idx);
                proof {
                    let before = links.take(k as int);
                    let after = links.take(k + 1);
                    assert(links[k as int] == (distance, idx));
                    if k > 0 {
                        assert(before.last() == links[k - 1]);
                        assert(from[k - 1].0 <= from[k as int].0);
                    }
                    assert(rank(before, distance) == before.len());
                    assert(insert_by_distance(before, distance, idx) =~= after);
                    assert forall|i: int| 0 <= i < n implies names(after, i) == (names(before, i)
                        || i == idx) by {
                        if names(before, i) {
                            let j = choose|j: int|
                                0 <= j < before.len() && (#[trigger] before[j]).1 == i;
                            assert(after[j].1 == i);
                        }
                        assert(after[k as int].1 == idx);
                        if names(after, i) && i != idx {
                            let j = choose|j: int|
                                0 <= j < after.len() && (#[trigger] after[j]).1 == i;
                            assert(before[j].1 == i);
                        }
                    }
                    assert(self.visited@ =~= Seq::new(n, |i: int| names(after, i)));
                }
                k = k + 1;
            }
            assert(links.take(k as int) =~= links);
        } else {
            assert(self.visited@ =~= Seq::new(n, |i: int| names(Seq::empty(), i)));
        }
        self.nearest.resize(ef);
        self.pending = Vec::new();
        self.cursor = 0;
        self.level = level;
        assert(self@.nearest =~= keep_first(links, ef as nat));
        assert(self@ =~= enter(old(self)@, ef as nat));
    }

    /// Goes on until a distance is needed, and names the node whose distance
    /// that is, or until the search of the level is over.
    pub fn advance<G: HnswGraph>(&mut self, graph: &G) -> (r: Option<usize>)
        requires
            old(self).wf(graph.view()),
        ensures
            final(self).wf(graph.view()),
            final(self)@ == settle(graph.view(), old(self).level as int, old(self)@),
            final(self).nearest == old(self).nearest,
            final(self).level == old(self).level,
            match r {
                Some(v) => waiting(final(self)@) && v == final(self)@.pending[0] && v
                    < graph.view().len(),
                None => over(final(self)@),
            },
    {
        let ghost g = graph.view();
        let ghost level = self.level as int;
        loop
            invariant
                self.wf(g),
                g == graph.view(),
                level == self.level,
                level == old(self).level,
                self.nearest == old(self).nearest,
                settle(g, level, self@) == settle(g, level, old(self)@),
            decreases self.candidates@.len(), self.pending@.len() - self.cursor,
        {
            let ghost st = self@;
            if self.cursor < self.pending.len() {
                let v: usize = self.pending[self.cursor].0;
                assert(st.pending[0] == v);
                if !self.visited.is_set(v) {
                    return Some(v);
                }
                proof {
                    crate::layer::lemma_skip_inv(g, level, self.ef(), st);
                }
                self.cursor = self.cursor + 1;
                assert(self@ =~= skip(st));
            } else {
                let c_distance: VectorDistance;
                let c_index: usize;
                match self.candidates.peek() {
                    Some((d, c)) => {
                        c_distance = d;
                        c_index = *c;
                    },
                    None => {
                        return None;
                    },
                }
                match self.nearest.furthest() {
                    Some((f_distance, _)) => {
                        assert(f_distance == st.nearest.last().0);
                        if c_distance > f_distance {
                            // No candidate can be added to the nearest nodes any more.
                            return None;
                        }
                    },
                    None => {},
                }
                proof {
                    assert(st.candidates[0] == (c_distance, c_index));
                    assert(met(g, level, st.visited, c_index));
                    crate::layer::lemma_expand_inv(g, level, self.ef(), st);
                }
                self.candidates.pop();
                self.stats.nhops = self.stats.nhops + 1;
                self.pending = graph.node_neighbours(c_index, self.level);
                self.cursor = 0;
                assert(self@.pending =~= targets(g.links(c_index as int, level)));
                assert(self@ =~= expand(g, level, st));
            }
        }
    }

    /// Whether a node at this distance would be among the nearest.
    pub fn admits(&self, distance: VectorDistance) -> (r: bool)
        ensures
            r == admits(self@.nearest, self.ef(), distance),
    {
        proof {
            crate::bounded::lemma_rank_depends_on_distances(
                self.nearest@,
                unlabelled(self.nearest@),
                distance,
            );
        }
        self.nearest.admits(distance)
    }

    /// Tells the distance of the node that the search waits for, and what was
    /// made of the node where it is among the nearest.
    pub fn supply(&mut self, distance: VectorDistance, output: Option<O>)
        requires
            exists|g: GraphModel| old(self).wf(g),
            waiting(old(self)@),
            output is Some <==> admits(old(self)@.nearest, old(self).ef(), distance),
        ensures
            forall|g: GraphModel| #[trigger] old(self).wf(g) ==> final(self).wf(g),
            final(self)@ == supply(old(self)@, old(self).ef(), distance),
            final(self).level == old(self).level,
            final(self).ef() == old(self).ef(),
            match output {
                Some(o) => final(self).nearest@ == insert_bounded(
                    old(self).nearest@,
                    old(self).ef(),
                    distance,
                    (old(self)@.pending[0], o),
                ),
                None => final(self).nearest == old(self).nearest,
            },
    {
        let ghost st = self@;
        let ghost level = self.level as int;
        let ghost ef = self.ef();
        proof {
            assert forall|g: GraphModel| #[trigger] old(self).wf(g) implies layer_inv(
                g,
                level,
                ef,
                supply(st, ef, distance),
            ) && tally_inv(g, level, supply(st, ef, distance)) && st.pending[0] < g.len() by {
                crate::layer::lemma_supply_inv(g, level, ef, st, distance);
            }
            let g = choose|g: GraphModel| old(self).wf(g);
            crate::bounded::lemma_insert_bounded(st.nearest, ef, distance, st.pending[0]);
            crate::vec_set::lemma_count_set_bound(st.visited);
            crate::vec_set::lemma_count_set_update(st.visited, st.pending[0] as int);
            match st.measured {
                Some(m) => {
                    if !m[st.pending[0] as int] {
                        crate::vec_set::lemma_count_set_update(m, st.pending[0] as int);
                    }
                    crate::vec_set::lemma_count_set_bound(m.update(st.pending[0] as int, true));
                },
                None => {
                    assert(g.len() * level >= 0) by (nonlinear_arith)
                        requires
                            g.len() >= 0,
                            level >= 0,
                    ;
                },
            }
        }
        assert(self.cursor < self.pending.len());
        let v: usize = self.pending[self.cursor].0;
        self.cursor = self.cursor + 1;
        self.visited.set(v);
        let first_time: bool = match &mut self.measured {
            Some(m) => {
                if m.is_set(v) {
                    false
                } else {
                    m.set(v);
                    true
                }
            },
            None => true,
        };
        if first_time {
            self.stats.distances_computed = self.stats.distances_computed + 1;
        }
        match output {
            Some(o) => {
                proof {
                    lemma_unlabelled_insert(self.nearest@, self.ef(), distance, v, o);
                }
                self.nearest.insert(distance, (v, o));
                self.candidates.push(distance, v);
            },
            None => {},
        }
        assert(self@ =~= supply(st, old(self).ef(), distance));
    }
}

} // verus!
