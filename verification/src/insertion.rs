//! The insertion of a vector into the graph.
use vstd::prelude::*;

use crate::bounded::{admits, insert_bounded, keep_first, ordered, rank};
use crate::graph::{GraphModel, HnswGraph, HnswGraphBuilder, Links, VectorHnswNode};
use crate::layer::{
    distinct, enter, layer_inv, level_reads, met, names, over, search_to_end, settle, supply,
    waiting, LayerState,
};
use crate::layer_search::{unlabelled, LayerSearch, Step};
use crate::search::{can_read, distances, read_fails};
use crate::stats::HnswStats;
use crate::store::{HummockError, HummockResult, VectorAccessor, VectorStore};
use crate::trace::{lemma_asked_is_met, lemma_met_were_read};
use crate::vector::{MeasureDistance, MeasureDistanceBuilder, VectorDistance, VectorItem, VectorRef};
use crate::walk::{lemma_reads_come_first, lemma_supply_same_end, start, walk, walk_reads, Plan};

verus! {

/// An insertion looks for `ef_construction` nodes on each level of the new
/// node, and for one above.
pub open spec fn insertion_plan(levels: nat, ef_construction: nat) -> Plan {
    Plan { wide: levels, ef: ef_construction }
}

/// Where the walk of an insertion stands at the end of a level, where `dist`
/// gives the distance of each node.
pub open spec fn insertion_end(
    g: GraphModel,
    levels: nat,
    dist: Seq<VectorDistance>,
    ef_construction: nat,
    level: int,
) -> LayerState {
    walk(
        g,
        insertion_plan(levels, ef_construction),
        dist,
        start(g, dist[g.entrypoint as int], false),
        level,
    )
}

/// Whether an insertion measures node `i`: the entrypoint, or a node that it
/// meets on some level.
pub open spec fn insertion_measures(
    g: GraphModel,
    levels: nat,
    dist: Seq<VectorDistance>,
    ef_construction: nat,
    i: int,
) -> bool {
    ||| i == g.entrypoint
    ||| exists|level: int|
        0 <= level <= g.top() && (#[trigger] insertion_end(
            g,
            levels,
            dist,
            ef_construction,
            level,
        )).visited[i]
}

/// The vectors that an insertion reads, one after the other.
pub open spec fn insertion_reads(
    g: GraphModel,
    levels: nat,
    dist: Seq<VectorDistance>,
    ef_construction: nat,
) -> Seq<usize> {
    walk_reads(
        g,
        insertion_plan(levels, ef_construction),
        dist,
        start(g, dist[g.entrypoint as int], false),
        0,
    )
}

/// Whether an insertion may be stopped by `e`: one of the vectors that it reads
/// and measures may fail with it, and all that are read before may be read.
pub open spec fn insertion_read_fails<S: VectorStore>(
    store: &S,
    g: GraphModel,
    levels: nat,
    dist: Seq<VectorDistance>,
    ef_construction: nat,
    e: HummockError,
) -> bool {
    let reads = insertion_reads(g, levels, dist, ef_construction);
    exists|k: int|
        0 <= k < reads.len() && reads[k] < g.len() && insertion_measures(
            g,
            levels,
            dist,
            ef_construction,
            reads[k] as int,
        ) && #[trigger] read_fails(store, reads[k], e) && forall|j: int|
            0 <= j < k ==> can_read(store, #[trigger] reads[j])
}

/// Whether an insertion may read all that it asks for and measures.
pub open spec fn insertion_reads_succeed<S: VectorStore>(
    store: &S,
    g: GraphModel,
    levels: nat,
    dist: Seq<VectorDistance>,
    ef_construction: nat,
) -> bool {
    let reads = insertion_reads(g, levels, dist, ef_construction);
    &&& forall|j: int| 0 <= j < reads.len() ==> can_read(store, #[trigger] reads[j])
    &&& forall|i: usize|
        i < g.len() && insertion_measures(g, levels, dist, ef_construction, i as int)
            ==> #[trigger] can_read(store, i)
}

/// The links of a new node: on each level up to the entrypoint's top, the
/// nearest nodes found, as many as it may keep there.
pub open spec fn found_links(
    g: GraphModel,
    capacities: Seq<nat>,
    dist: Seq<VectorDistance>,
    ef_construction: nat,
) -> Seq<Links> {
    Seq::new(
        capacities.len(),
        |level: int|
            if level <= g.top() {
                keep_first(
                    insertion_end(g, capacities.len(), dist, ef_construction, level).nearest,
                    capacities[level],
                )
            } else {
                Seq::empty()
            },
    )
}

/// The distance with which one of the links leads to node `i`.
pub open spec fn distance_to(links: Links, i: int) -> VectorDistance {
    links[choose|k: int| 0 <= k < links.len() && (#[trigger] links[k]).1 == i].0
}

/// The distance with which distinct links lead to a node is that of the link.
pub proof fn lemma_distance_to(links: Links, k: int)
    requires
        distinct(links),
        0 <= k < links.len(),
    ensures
        distance_to(links, links[k].1 as int) == links[k].0,
{
    let i = links[k].1 as int;
    let j = choose|j: int| 0 <= j < links.len() && (#[trigger] links[j]).1 == i;
    assert(links[j].1 == links[k].1);
}

/// The links of node `i` on a level once a new node is connected: those that
/// the new node has a link to are offered a link back.
pub open spec fn connected_links(
    g: GraphModel,
    capacities: Seq<Seq<nat>>,
    node: Seq<Links>,
    i: int,
    level: int,
) -> Links {
    if level < node.len() && names(node[level], i) {
        insert_bounded(
            g.links(i, level),
            capacities[i][level],
            distance_to(node[level], i),
            g.len() as usize,
        )
    } else {
        g.links(i, level)
    }
}

/// The graph with a new node, linked both ways. The new node becomes the
/// entrypoint where it is taller than the old one.
pub open spec fn connect(
    g: GraphModel,
    capacities: Seq<Seq<nat>>,
    node: Seq<Links>,
) -> GraphModel {
    GraphModel {
        entrypoint: if g.height(g.entrypoint as int) < node.len() {
            g.len() as usize
        } else {
            g.entrypoint
        },
        nodes: Seq::new(
            g.len() + 1,
            |i: int|
                if i == g.len() {
                    node
                } else {
                    Seq::new(
                        g.height(i),
                        |level: int| connected_links(g, capacities, node, i, level),
                    )
                },
        ),
    }
}

/// Whether the links of a new node can be connected: on each level they lead to
/// nodes of that level, and to none of them twice.
pub open spec fn connectable(g: GraphModel, node: Seq<Links>) -> bool {
    forall|level: int|
        0 <= level < node.len() ==> g.links_lead(#[trigger] node[level], level) && distinct(
            node[level],
        )
}

/// The node with links, on a level, to the nearest nodes found there, as many
/// as it may keep.
pub open spec fn link_level(
    capacities: Seq<nat>,
    level: int,
    st: LayerState,
    node: Seq<Links>,
) -> Seq<Links> {
    if level < node.len() {
        node.update(level, keep_first(st.nearest, capacities[level]))
    } else {
        node
    }
}

/// An insertion in progress.
pub struct GraphInsertion {
    pub layer: LayerSearch<()>,
    pub node: VectorHnswNode,
    pub ef_construction: usize,
}

impl GraphInsertion {
    /// The level that the search has come down to.
    pub open spec fn level(&self) -> int {
        self.layer.level as int
    }

    /// The state of the search on that level.
    pub open spec fn view(&self) -> LayerState {
        self.layer@
    }

    /// How many nearest nodes are looked for on each level.
    pub open spec fn plan(&self) -> Plan {
        insertion_plan(self.node@.len(), self.ef_construction as nat)
    }

    /// The insertion is one into this graph: the node has links on the levels
    /// that the search has left behind, and none below.
    pub open spec fn wf(&self, g: GraphModel) -> bool {
        &&& self.layer.wf(g)
        &&& self.layer.ef() == self.plan().width(self.level())
        &&& 0 <= self.level() <= g.top()
        &&& self.node.wf()
        &&& self.node@.len() > 0
        &&& connectable(g, self.node@)
        &&& forall|l: int|
            0 <= l <= self.level() && l < self.node@.len() ==> (#[trigger] self.node@[l]).len() == 0
    }

    /// Starts at the entrypoint of the graph, which is at `distance`, to insert
    /// a node.
    pub fn new<G: HnswGraph>(
        graph: &G,
        node: VectorHnswNode,
        distance: VectorDistance,
        ef_construction: usize,
    ) -> (r: Self)
        requires
            graph.view().wf(),
            graph.view().countable(),
            node.wf(),
            node.unlinked(),
            node@.len() > 0,
        ensures
            r.wf(graph.view()),
            r.node == node,
            r.ef_construction == ef_construction,
            r.level() == graph.view().top(),
            r@ == enter(
                start(graph.view(), distance, false),
                r.plan().width(graph.view().top() as int),
            ),
    {
        let mut layer: LayerSearch<()> = LayerSearch::start(graph, distance, (), false);
        let level: usize = layer.level;
        let ef: usize = if level < node.num_levels() {
            ef_construction
        } else {
            1
        };
        proof {
            crate::walk::lemma_start_inv(graph.view(), distance, false, ef as nat);
            assert forall|l: int| 0 <= l < node@.len() implies (#[trigger] node@[l]).len() == 0 by {
                assert(node.level_neighbours@[l]@.len() == 0);
            }
        }
        layer.enter(level, ef);
        GraphInsertion { layer, node, ef_construction }
    }

    /// Links the node, on the level that was searched, to the nearest nodes
    /// found there.
    fn link(&mut self)
        requires
            old(self).node.wf(),
            old(self).layer.nearest.wf(),
            old(self).level() < old(self).node@.len() ==> old(self).node@[old(self).level()].len()
                == 0,
        ensures
            final(self).node.wf(),
            final(self).node@ == link_level(
                old(self).node.capacities(),
                old(self).level(),
                old(self)@,
                old(self).node@,
            ),
            final(self).node.capacities() == old(self).node.capacities(),
            final(self).layer == old(self).layer,
            final(self).ef_construction == old(self).ef_construction,
    {
        let level: usize = self.layer.level;
        if level < self.node.num_levels() {
            let ghost found = self@.nearest;
            let ghost before = self.node;
            let ghost cap = before.capacities()[level as int];
            let mut k: usize = 0;
            assert(before@[level as int] =~= keep_first(found.take(0), cap));
            while k < self.layer.nearest.items.len()
                invariant
                    self.layer == old(self).layer,
                    self.ef_construction == old(self).ef_construction,
                    found == unlabelled(self.layer.nearest@),
                    ordered(found),
                    k <= found.len(),
                    level < before@.len(),
                    before == old(self).node,
                    cap == before.capacities()[level as int],
                    self.node.wf(),
                    self.node.capacities() == before.capacities(),
                    self.node@ == before@.update(
                        level as int,
                        keep_first(found.take(k as int), cap),
                    ),
                decreases found.len() - k,
            {
                let distance: VectorDistance = self.layer.nearest.items[k].0;
                let neighbour: usize = self.layer.nearest.items[k].1.0;
                let ghost node = self.node;
                assert(node@.len() == node.level_neighbours@.len());
                assert(node.level_neighbours@[level as int].wf());
                assert(node.level_neighbours@[level as int]@ == node@[level as int]);
                assert(node.level_neighbours@[level as int].capacity
                    == node.capacities()[level as int]);
                self.node.level_neighbours[level].insert(distance, neighbour);
                proof {
                    assert(found[k as int] == (distance, neighbour));
                    lemma_keep_first_push(found, cap, k as int);
                    assert(self.node.capacities() =~= before.capacities());
                    let after = before@.update(
                        level as int,
                        keep_first(found.take(k + 1), cap),
                    );
                    assert(node@[level as int] == keep_first(found.take(k as int), cap));
                    assert forall|l: int| 0 <= l < self.node@.len() implies self.node@[l]
                        == after[l] by {
                        if l != level {
                            assert(self.node.level_neighbours@[l] == node.level_neighbours@[l]);
                            assert(node@[l] == before@[l]);
                        }
                    }
                    assert(self.node@ =~= after);
                    assert forall|l: int|
                        0 <= l < self.node.level_neighbours@.len() implies (
                    #[trigger] self.node.level_neighbours@[l]).wf() by {
                        if l != level {
                            assert(self.node.level_neighbours@[l] == node.level_neighbours@[l]);
                        }
                    }
                }
                k = k + 1;
            }
            assert(found.take(k as int) =~= found);
        }
    }

    /// Goes on until a distance is needed or the search of a level is over, and
    /// then links the node on that level and goes down.
    pub fn next<G: HnswGraph>(&mut self, graph: &G) -> (r: Step)
        requires
            old(self).wf(graph.view()),
        ensures
            final(self).wf(graph.view()),
            final(self).ef_construction == old(self).ef_construction,
            final(self).node.capacities() == old(self).node.capacities(),
            ({
                let s = settle(graph.view(), old(self).level(), old(self)@);
                match r {
                    Step::Fetch(v) => {
                        &&& waiting(s)
                        &&& v == s.pending[0]
                        &&& v < graph.view().len()
                        &&& final(self).level() == old(self).level()
                        &&& final(self)@ == s
                        &&& final(self).node == old(self).node
                    },
                    Step::Level(l) => {
                        &&& over(s)
                        &&& l == old(self).level() - 1
                        &&& final(self).level() == l
                        &&& final(self)@ == enter(s, old(self).plan().width(l as int))
                        &&& final(self).node@ == link_level(
                            old(self).node.capacities(),
                            old(self).level(),
                            s,
                            old(self).node@,
                        )
                    },
                    Step::Done => {
                        &&& over(s)
                        &&& old(self).level() == 0
                        &&& final(self).level() == 0
                        &&& final(self)@ == s
                        &&& final(self).node == old(self).node
                    },
                }
            }),
    {
        let ghost g = graph.view();
        match self.layer.advance(graph) {
            Some(v) => Step::Fetch(v),
            None => {
                if self.layer.level == 0 {
                    return Step::Done;
                }
                let ghost st = self@;
                let ghost upper = self.level();
                let ghost capacities = self.node.capacities();
                let ghost node = self.node@;
                self.link();
                proof {
                    lemma_link_level(g, self.layer.ef(), capacities, upper, st, node);
                    assert(self.node@.len() == node.len());
                }
                let level: usize = self.layer.level - 1;
                let ef: usize = if level < self.node.num_levels() {
                    self.ef_construction
                } else {
                    1
                };
                proof {
                    crate::layer::lemma_enter_inv(
                        g,
                        upper,
                        self.layer.ef(),
                        st,
                        level as int,
                        ef as nat,
                    );
                    let items = self.layer.nearest@;
                    assert forall|k: int| 0 <= k < items.len() implies (#[trigger] items[k]).1.0
                        < g.len() by {
                        assert(st.nearest[k] == (items[k].0, items[k].1.0));
                        assert(met(g, upper, st.visited, st.nearest[k].1));
                    }
                }
                self.layer.enter(level, ef);
                Step::Level(level)
            },
        }
    }

    /// Tells the distance of the node that the search waits for.
    pub fn supply(&mut self, distance: VectorDistance)
        requires
            exists|g: GraphModel| old(self).wf(g),
            waiting(old(self)@),
        ensures
            forall|g: GraphModel| #[trigger] old(self).wf(g) ==> final(self).wf(g),
            final(self)@ == supply(old(self)@, old(self).layer.ef(), distance),
            final(self).level() == old(self).level(),
            final(self).node == old(self).node,
            final(self).ef_construction == old(self).ef_construction,
    {
        proof {
            let g = choose|g: GraphModel| old(self).wf(g);
            assert(self.layer.wf(g));
        }
        let output: Option<()> = if self.layer.admits(distance) {
            Some(())
        } else {
            None
        };
        self.layer.supply(distance, output);
        proof {
            assert forall|g: GraphModel| #[trigger] old(self).wf(g) implies self.wf(g) by {
                assert(old(self).layer.wf(g));
            }
        }
    }

    /// Adds the node to the graph, linked both ways, once the ground has been
    /// searched, and tells what the insertion cost.
    pub fn finish(self, graph: &mut HnswGraphBuilder) -> (r: HnswStats)
        requires
            old(graph).wf(),
            self.wf(old(graph)@),
            self.level() == 0,
        ensures
            final(graph).wf(),
            final(graph)@ == connect(
                old(graph)@,
                old(graph).capacities(),
                link_level(self.node.capacities(), 0, self@, self.node@),
            ),
            final(graph).capacities() == old(graph).capacities().push(self.node.capacities()),
            r == self.layer.stats,
    {
        let ghost g = graph@;
        let mut this = self;
        this.link();
        proof {
            lemma_link_level(g, self.layer.ef(), self.node.capacities(), 0, self@, self.node@);
        }
        let GraphInsertion { layer, node, ef_construction: _ } = this;
        connect_node(graph, node);
        layer.stats
    }
}

/// Linking a level that has been searched keeps the node connectable.
proof fn lemma_link_level(
    g: GraphModel,
    ef: nat,
    capacities: Seq<nat>,
    level: int,
    st: LayerState,
    node: Seq<Links>,
)
    requires
        layer_inv(g, level, ef, st),
        connectable(g, node),
    ensures
        connectable(g, link_level(capacities, level, st, node)),
        link_level(capacities, level, st, node).len() == node.len(),
{
    let r = link_level(capacities, level, st, node);
    assert forall|l: int| 0 <= l < r.len() implies g.links_lead(#[trigger] r[l], l) && distinct(
        r[l],
    ) by {
        if l == level {
            let kept = r[l];
            assert forall|k: int| 0 <= k < kept.len() implies (#[trigger] kept[k]).1 < g.len() && l
                < g.height(kept[k].1 as int) by {
                assert(kept[k] == st.nearest[k]);
                assert(met(g, level, st.visited, st.nearest[k].1));
            }
            assert forall|i: int, j: int| 0 <= i < j < kept.len() implies (#[trigger] kept[i]).1
                != (#[trigger] kept[j]).1 by {
                assert(kept[i] == st.nearest[i] && kept[j] == st.nearest[j]);
            }
        } else {
            assert(r[l] == node[l]);
        }
    }
}

/// Whether node `i` has been offered its link back on level `l`, with the
/// levels below `level` and the first `k` links of `level` done.
spec fn offered(node: Seq<Links>, level: int, k: int, i: int, l: int) -> bool {
    l < node.len() && (l < level && names(node[l], i) || l == level && names(node[l].take(k), i))
}

/// The links of node `i` on level `l` when only some links back were offered.
spec fn partly_connected(
    g: GraphModel,
    capacities: Seq<Seq<nat>>,
    node: Seq<Links>,
    level: int,
    k: int,
    i: int,
    l: int,
) -> Links {
    if offered(node, level, k, i, l) {
        connected_links(g, capacities, node, i, l)
    } else {
        g.links(i, l)
    }
}

/// Adds a node to the graph and offers a link back to each node that it has a
/// link to.
fn connect_node(graph: &mut HnswGraphBuilder, node: VectorHnswNode)
    requires
        old(graph).wf(),
        node.wf(),
        node@.len() > 0,
        connectable(old(graph)@, node@),
    ensures
        final(graph).wf(),
        final(graph)@ == connect(old(graph)@, old(graph).capacities(), node@),
        final(graph).capacities() == old(graph).capacities().push(node.capacities()),
{
    let ghost g = graph@;
    let ghost before = *graph;
    let ghost caps = graph.capacities();
    let ghost links = node@;
    let vector_index: usize = graph.nodes.len();
    let mut level: usize = 0;
    proof {
        lemma_part_done_start(*graph, links);
    }
    while level < node.level_neighbours.len()
        invariant
            g == before@,
            before.wf(),
            before == *old(graph),
            caps == before.capacities(),
            links == node@,
            connectable(g, links),
            vector_index == g.len(),
            level <= links.len(),
            graph.entrypoint == before.entrypoint,
            part_done(*graph, g, caps, links, level as int, 0),
        decreases links.len() - level,
    {
        let mut k: usize = 0;
        assert(links[level as int] == node.level_neighbours@[level as int]@);
        while k < node.level_neighbours[level].items.len()
            invariant
                g == before@,
                before.wf(),
                before == *old(graph),
                caps == before.capacities(),
                links == node@,
                connectable(g, links),
                vector_index == g.len(),
                level < links.len(),
                links[level as int] == node.level_neighbours@[level as int]@,
                k <= links[level as int].len(),
                graph.entrypoint == before.entrypoint,
                part_done(*graph, g, caps, links, level as int, k as int),
            decreases links[level as int].len() - k,
        {
            let distance: VectorDistance = node.level_neighbours[level].items[k].0;
            let neighbour: usize = node.level_neighbours[level].items[k].1;
            let ghost now = *graph;
            assert(links[level as int][k as int] == (distance, neighbour));
            assert(g.links_lead(links[level as int], level as int));
            assert(node_done(now, g, caps, links, level as int, k as int, neighbour as int));
            assert(list_done(
                now,
                g,
                caps,
                links,
                level as int,
                k as int,
                neighbour as int,
                level as int,
            ));
            graph.nodes[neighbour].level_neighbours[level].insert(distance, vector_index);
            proof {
                lemma_part_done_step(
                    now,
                    *graph,
                    g,
                    caps,
                    links,
                    level as int,
                    k as int,
                );
            }
            k = k + 1;
        }
        proof {
            lemma_part_done_next_level(*graph, g, caps, links, level as int);
        }
        level = level + 1;
    }
    proof {
        assert(node_done(*graph, g, caps, links, level as int, 0, g.entrypoint as int));
    }
    let ghost now = *graph;
    let ghost n = node;
    let taller: bool = graph.nodes[graph.entrypoint].num_levels() < node.num_levels();
    if taller {
        graph.entrypoint = vector_index;
    }
    graph.nodes.push(node);
    proof {
        assert(graph.nodes.len() == graph.nodes@.len());
        assert(n.level_neighbours.len() == links.len());
        lemma_part_done_end(now, *graph, g, caps, n);
        lemma_connect_wf(g, caps, links);
    }
}

/// One list of the graph while links back are offered.
spec fn list_done(
    now: HnswGraphBuilder,
    g: GraphModel,
    caps: Seq<Seq<nat>>,
    node: Seq<Links>,
    level: int,
    k: int,
    i: int,
    l: int,
) -> bool {
    let list = now.nodes@[i].level_neighbours@[l];
    &&& list.wf()
    &&& list.capacity == caps[i][l]
    &&& list@ == partly_connected(g, caps, node, level, k, i, l)
}

/// One node of the graph while links back are offered.
spec fn node_done(
    now: HnswGraphBuilder,
    g: GraphModel,
    caps: Seq<Seq<nat>>,
    node: Seq<Links>,
    level: int,
    k: int,
    i: int,
) -> bool {
    &&& now.nodes@[i].level_neighbours@.len() == g.height(i)
    &&& forall|l: int|
        0 <= l < g.height(i) ==> #[trigger] list_done(now, g, caps, node, level, k, i, l)
}

/// The graph while links back are offered.
spec fn part_done(
    now: HnswGraphBuilder,
    g: GraphModel,
    caps: Seq<Seq<nat>>,
    node: Seq<Links>,
    level: int,
    k: int,
) -> bool {
    &&& now.nodes@.len() == g.len()
    &&& forall|i: int|
        0 <= i < g.len() ==> #[trigger] node_done(now, g, caps, node, level, k, i)
}

proof fn lemma_part_done_start(now: HnswGraphBuilder, node: Seq<Links>)
    requires
        now.wf(),
    ensures
        part_done(now, now@, now.capacities(), node, 0, 0),
{
    let g = now@;
    let caps = now.capacities();
    assert forall|i: int| 0 <= i < g.len() implies #[trigger] node_done(
        now,
        g,
        caps,
        node,
        0,
        0,
        i,
    ) by {
        assert(now.nodes@[i].wf());
        assert forall|l: int| 0 <= l < g.height(i) implies #[trigger] list_done(
            now,
            g,
            caps,
            node,
            0,
            0,
            i,
            l,
        ) by {
            assert(now.nodes@[i].level_neighbours@[l].wf());
            assert(!offered(node, 0, 0, i, l));
        }
    }
}

proof fn lemma_part_done_next_level(
    now: HnswGraphBuilder,
    g: GraphModel,
    caps: Seq<Seq<nat>>,
    node: Seq<Links>,
    level: int,
)
    requires
        0 <= level < node.len(),
        part_done(now, g, caps, node, level, node[level].len() as int),
    ensures
        part_done(now, g, caps, node, level + 1, 0),
{
    let k = node[level].len() as int;
    assert(node[level].take(k) =~= node[level]);
    assert forall|i: int| 0 <= i < g.len() implies #[trigger] node_done(
        now,
        g,
        caps,
        node,
        level + 1,
        0,
        i,
    ) by {
        assert(node_done(now, g, caps, node, level, k, i));
        assert forall|l: int| 0 <= l < g.height(i) implies #[trigger] list_done(
            now,
            g,
            caps,
            node,
            level + 1,
            0,
            i,
            l,
        ) by {
            assert(list_done(now, g, caps, node, level, k, i, l));
            assert(offered(node, level, k, i, l) == offered(node, level + 1, 0, i, l));
        }
    }
}

proof fn lemma_part_done_step(
    now: HnswGraphBuilder,
    after: HnswGraphBuilder,
    g: GraphModel,
    caps: Seq<Seq<nat>>,
    node: Seq<Links>,
    level: int,
    k: int,
)
    requires
        connectable(g, node),
        0 <= level < node.len(),
        0 <= k < node[level].len(),
        g.len() <= usize::MAX,
        part_done(now, g, caps, node, level, k),
        ({
            let (d, nb) = node[level][k];
            let old_list = now.nodes@[nb as int].level_neighbours@[level];
            let new_list = after.nodes@[nb as int].level_neighbours@[level];
            &&& nb < g.len()
            &&& level < g.height(nb as int)
            &&& after.nodes@.len() == now.nodes@.len()
            &&& forall|i: int|
                0 <= i < now.nodes@.len() && i != nb ==> #[trigger] after.nodes@[i]
                    == now.nodes@[i]
            &&& after.nodes@[nb as int].level_neighbours@.len()
                == now.nodes@[nb as int].level_neighbours@.len()
            &&& forall|l: int|
                0 <= l < g.height(nb as int) && l != level ==> #[trigger] after.nodes@[nb as int].level_neighbours@[l]
                    == now.nodes@[nb as int].level_neighbours@[l]
            &&& new_list.wf()
            &&& new_list.capacity == old_list.capacity
            &&& new_list@ == insert_bounded(
                old_list@,
                old_list.capacity as nat,
                d,
                g.len() as usize,
            )
        }),
    ensures
        part_done(after, g, caps, node, level, k + 1),
{
    let (d, nb) = node[level][k];
    let links = node[level];
    let before = links.take(k);
    let next = links.take(k + 1);
    assert(distinct(links));
    assert(!names(before, nb as int)) by {
        if names(before, nb as int) {
            let j = choose|j: int| 0 <= j < before.len() && (#[trigger] before[j]).1 == nb;
            assert(links[j].1 == links[k].1);
        }
    }
    assert(names(next, nb as int)) by {
        assert(next[k].1 == nb);
    }
    assert forall|i: int| i != nb implies names(next, i) == names(before, i) by {
        if names(next, i) {
            let j = choose|j: int| 0 <= j < next.len() && (#[trigger] next[j]).1 == i;
            assert(before[j].1 == i);
        }
        if names(before, i) {
            let j = choose|j: int| 0 <= j < before.len() && (#[trigger] before[j]).1 == i;
            assert(next[j].1 == i);
        }
    }
    assert(names(links, nb as int) && distance_to(links, nb as int) == d) by {
        assert(links[k].1 == nb);
        lemma_distance_to(links, k);
    }
    assert forall|i: int| 0 <= i < g.len() implies #[trigger] node_done(
        after,
        g,
        caps,
        node,
        level,
        k + 1,
        i,
    ) by {
        assert(node_done(now, g, caps, node, level, k, i));
        assert forall|l: int| 0 <= l < g.height(i) implies #[trigger] list_done(
            after,
            g,
            caps,
            node,
            level,
            k + 1,
            i,
            l,
        ) by {
            assert(list_done(now, g, caps, node, level, k, i, l));
            if i == nb && l == level {
                assert(!offered(node, level, k, i, l));
                assert(offered(node, level, k + 1, i, l));
            } else {
                assert(offered(node, level, k, i, l) == offered(node, level, k + 1, i, l));
                if i == nb {
                    assert(after.nodes@[nb as int].level_neighbours@[l]
                        == now.nodes@[nb as int].level_neighbours@[l]);
                } else {
                    assert(after.nodes@[i] == now.nodes@[i]);
                }
            }
        }
    }
}

proof fn lemma_part_done_end(
    now: HnswGraphBuilder,
    after: HnswGraphBuilder,
    g: GraphModel,
    caps: Seq<Seq<nat>>,
    node: VectorHnswNode,
)
    requires
        node.wf(),
        part_done(now, g, caps, node@, node@.len() as int, 0),
        caps.len() == g.len(),
        forall|i: int| 0 <= i < g.len() ==> (#[trigger] caps[i]).len() == g.height(i),
        after.nodes@ == now.nodes@.push(node),
        after.entrypoint == connect(g, caps, node@).entrypoint,
    ensures
        after@ == connect(g, caps, node@),
        after.capacities() == caps.push(node.capacities()),
        forall|i: int| 0 <= i < after.nodes@.len() ==> (#[trigger] after.nodes@[i]).wf(),
{
    let level = node@.len() as int;
    let end = connect(g, caps, node@);
    assert forall|i: int| 0 <= i < g.len() implies (#[trigger] after.nodes@[i]).wf()
        && after@.nodes[i] == end.nodes[i] && after.capacities()[i] == caps[i] by {
        assert(node_done(now, g, caps, node@, level, 0, i));
        let m = after.nodes@[i];
        assert(m == now.nodes@[i]);
        assert forall|l: int| 0 <= l < g.height(i) implies (
        #[trigger] m.level_neighbours@[l]).wf() && m@[l] == end.nodes[i][l] && m.capacities()[l]
            == caps[i][l] by {
            assert(list_done(now, g, caps, node@, level, 0, i, l));
        }
        assert(m@ =~= end.nodes[i]);
        assert(m.capacities() =~= caps[i]);
    }
    assert(after@.nodes =~= end.nodes);
    assert(after.capacities() =~= caps.push(node.capacities()));
}

/// A connected graph is still one whose links lead to nodes of their level.
pub proof fn lemma_connect_wf(g: GraphModel, caps: Seq<Seq<nat>>, node: Seq<Links>)
    requires
        g.wf(),
        g.len() + 1 <= usize::MAX,
        1 <= node.len() <= usize::MAX,
        connectable(g, node),
    ensures
        connect(g, caps, node).wf(),
{
    let c = connect(g, caps, node);
    assert forall|i: int| 0 <= i < c.len() implies #[trigger] c.height(i) <= usize::MAX by {
        if i < g.len() {
            assert(g.height(i) <= usize::MAX);
        }
    }
    assert forall|i: int, level: int|
        0 <= i < c.len() && 0 <= level < c.height(i) implies c.links_lead(
        #[trigger] c.links(i, level),
        level,
    ) by {
        let links = c.links(i, level);
        assert forall|k: int| 0 <= k < links.len() implies (#[trigger] links[k]).1 < c.len()
            && level < c.height(links[k].1 as int) by {
            if i == g.len() {
                assert(g.links_lead(node[level], level));
                assert(links[k] == node[level][k]);
            } else {
                let old_links = g.links(i, level);
                assert(g.links_lead(old_links, level));
                if level < node.len() && names(node[level], i) {
                    crate::layer::lemma_insert_bounded_members(
                        old_links,
                        caps[i][level],
                        distance_to(node[level], i),
                        g.len() as usize,
                        k,
                    );
                }
            }
        }
    }
}

/// Offering the next of an ordered sequence to its bounded beginning gives the
/// next bounded beginning.
proof fn lemma_keep_first_push(s: Links, capacity: nat, k: int)
    requires
        ordered(s),
        0 <= k < s.len(),
    ensures
        insert_bounded(keep_first(s.take(k), capacity), capacity, s[k].0, s[k].1) == keep_first(
            s.take(k + 1),
            capacity,
        ),
{
    let kept = keep_first(s.take(k), capacity);
    let d = s[k].0;
    if kept.len() > 0 {
        assert(kept.last() == s[kept.len() - 1]);
        assert(s[kept.len() - 1].0 <= s[k].0);
    }
    assert(rank(kept, d) == kept.len());
    assert(insert_bounded(kept, capacity, d, s[k].1) =~= keep_first(s.take(k + 1), capacity));
}

/// The links of a node whose insertion has come down to `level`: found ones
/// above, and none from there down.
pub open spec fn linked_down_to(
    g: GraphModel,
    capacities: Seq<nat>,
    dist: Seq<VectorDistance>,
    ef_construction: nat,
    level: int,
    node: Seq<Links>,
) -> bool {
    let found = found_links(g, capacities, dist, ef_construction);
    &&& node.len() == capacities.len()
    &&& forall|l: int| level < l < node.len() ==> #[trigger] node[l] == found[l]
    &&& forall|l: int| 0 <= l <= level && l < node.len() ==> (#[trigger] node[l]).len() == 0
}

/// Linking the level at whose end the walk stands links down to the next one.
proof fn lemma_linked_down(
    g: GraphModel,
    capacities: Seq<nat>,
    dist: Seq<VectorDistance>,
    ef_construction: nat,
    level: int,
    node: Seq<Links>,
)
    requires
        0 <= level <= g.top(),
        linked_down_to(g, capacities, dist, ef_construction, level, node),
    ensures
        ({
            let end = insertion_end(g, capacities.len(), dist, ef_construction, level);
            linked_down_to(
                g,
                capacities,
                dist,
                ef_construction,
                level - 1,
                link_level(capacities, level, end, node),
            )
        }),
{
    let end = insertion_end(g, capacities.len(), dist, ef_construction, level);
    let next = link_level(capacities, level, end, node);
    let found = found_links(g, capacities, dist, ef_construction);
    assert forall|l: int| level - 1 < l < next.len() implies #[trigger] next[l] == found[l] by {
        if l > level {
            assert(node[l] == found[l]);
        }
    }
    assert forall|l: int| 0 <= l <= level - 1 && l < next.len() implies (#[trigger] next[l]).len()
        == 0 by {
        assert(next[l] == node[l]);
    }
}

/// Inserts a node for the vector `vec`, which the store will number next, into
/// the graph: finds the nearest nodes on each level of the node, links the node
/// to them, and offers them links back. The graph stays as it is where a vector
/// cannot be read.
pub fn insert_graph<M: MeasureDistanceBuilder, S: VectorStore>(
    vector_store: &S,
    graph: &mut HnswGraphBuilder,
    node: VectorHnswNode,
    vec: VectorRef<'_>,
    ef_construction: usize,
) -> (r: HummockResult<HnswStats>)
    requires
        vector_store.wf(),
        old(graph).wf(),
        old(graph)@.countable(),
        old(graph)@.len() <= vector_store.spec_len(),
        node.wf(),
        node.unlinked(),
        node@.len() > 0,
    ensures
        final(graph).wf(),
        vector_store.always_reads() ==> r is Ok,
        match r {
            Ok(stats) => {
                let g = old(graph)@;
                let dist = distances::<M, S>(vector_store, vec@, g.len());
                let end = insertion_end(g, node@.len(), dist, ef_construction as nat, 0);
                &&& insertion_reads_succeed(
                    vector_store,
                    g,
                    node@.len(),
                    dist,
                    ef_construction as nat,
                )
                &&& final(graph)@ == connect(
                    g,
                    old(graph).capacities(),
                    found_links(g, node.capacities(), dist, ef_construction as nat),
                )
                &&& final(graph).capacities() == old(graph).capacities().push(node.capacities())
                &&& stats.distances_computed == end.computed
                &&& stats.nhops == end.hops
            },
            Err(e) => *final(graph) == *old(graph) && insertion_read_fails(
                vector_store,
                old(graph)@,
                node@.len(),
                distances::<M, S>(vector_store, vec@, old(graph)@.len()),
                ef_construction as nat,
                e,
            ),
        },
{
    let ghost g = graph@;
    let ghost dist = distances::<M, S>(vector_store, vec@, g.len());
    let ghost caps = node.capacities();
    let ghost ef = ef_construction as nat;
    let ghost plan = insertion_plan(caps.len(), ef);
    let ghost from = start(g, dist[g.entrypoint as int], false);
    let measure = M::new(vec);
    let entrypoint: usize = graph.entrypoint();
    let accessor = match vector_store.get_vector(entrypoint) {
        Ok(a) => a,
        Err(e) => {
            proof {
                let reads = insertion_reads(g, node@.len(), dist, ef);
                assert(caps.len() == node@.len());
                lemma_reads_come_first(g, plan, dist, from, g.top() as int + 1);
                assert(reads[0] == seq![entrypoint][0]);
                assert(read_fails(vector_store, reads[0], e));
            }
            return Err(e);
        },
    };
    let ghost mut done = seq![entrypoint];
    assert(can_read(vector_store, entrypoint));
    let distance: VectorDistance = measure.measure(accessor.vec_ref());
    assert(distance == dist[entrypoint as int]);
    let ghost fresh = node;
    let mut insertion = GraphInsertion::new(graph, node, distance, ef_construction);
    proof {
        assert(walk(g, plan, dist, from, g.top() as int + 1) == from);
        assert(walk_reads(g, plan, dist, from, g.top() as int + 1) == done);
        assert(caps.len() == fresh@.len());
        let found = found_links(g, caps, dist, ef);
        assert forall|l: int| 0 <= l < fresh@.len() implies (#[trigger] fresh@[l]).len() == 0 by {
            assert(fresh.level_neighbours@[l]@.len() == 0);
        }
        assert forall|l: int| g.top() < l < fresh@.len() implies #[trigger] fresh@[l]
            == found[l] by {
            assert(fresh@[l] =~= found[l]);
        }
    }
    loop
        invariant
            *graph == *old(graph),
            graph.wf(),
            vector_store.wf(),
            g == graph@,
            g.len() <= vector_store.spec_len(),
            forall|v: Seq<VectorItem>| #[trigger]
                measure.spec_measure(v) == M::spec_distance(vec@, v),
            dist == distances::<M, S>(vector_store, vec@, g.len()),
            ef == ef_construction,
            plan == insertion_plan(caps.len(), ef),
            from == start(g, dist[g.entrypoint as int], false),
            insertion.ef_construction == ef_construction,
            caps.len() == node@.len(),
            insertion.node.capacities() == caps,
            insertion.wf(g),
            search_to_end(
                g,
                insertion.level(),
                plan.width(insertion.level()),
                dist,
                insertion@,
            ) == insertion_end(g, caps.len(), dist, ef, insertion.level()),
            linked_down_to(g, caps, dist, ef, insertion.level(), insertion.node@),
            forall|j: int| 0 <= j < done.len() ==> can_read(vector_store, #[trigger] done[j]),
            done + level_reads(
                g,
                insertion.level(),
                plan.width(insertion.level()),
                dist,
                insertion@,
            ) == walk_reads(g, plan, dist, from, insertion.level()),
        ensures
            insertion.wf(g),
            insertion.level() == 0,
            insertion@ == insertion_end(g, caps.len(), dist, ef, 0),
            done == walk_reads(g, plan, dist, from, 0),
            insertion.node.capacities() == caps,
            linked_down_to(g, caps, dist, ef, 0, insertion.node@),
        decreases insertion.level(), crate::vec_set::count_clear(insertion@.visited),
    {
        let ghost before = insertion;
        proof {
            assert(insertion.node@.len() == insertion.node.capacities().len());
            crate::layer::lemma_settle(g, insertion.level(), insertion@);
            crate::walk::lemma_settle_same_end(
                g,
                insertion.level(),
                plan.width(insertion.level()),
                dist,
                insertion@,
            );
        }
        match insertion.next(&*graph) {
            Step::Fetch(idx) => {
                let ghost st = insertion@;
                let accessor = match vector_store.get_vector(idx) {
                    Ok(a) => a,
                    Err(e) => {
                        proof {
                            let level = insertion.level();
                            lemma_asked_is_met(g, level, plan.width(level), dist, st);
                            assert(insertion_end(g, caps.len(), dist, ef, level).visited[idx as int]);
                            assert(insertion_measures(g, caps.len(), dist, ef, idx as int));
                            let reads = insertion_reads(g, caps.len(), dist, ef);
                            let k = done.len() as int;
                            lemma_supply_same_end(g, level, plan.width(level), dist, st);
                            lemma_reads_come_first(g, plan, dist, from, level);
                            assert(walk_reads(g, plan, dist, from, level)[k] == idx);
                            assert(read_fails(vector_store, reads[k], e));
                            assert forall|j: int| 0 <= j < k implies can_read(
                                vector_store,
                                #[trigger] reads[j],
                            ) by {
                                assert(walk_reads(g, plan, dist, from, level)[j] == done[j]);
                            }
                        }
                        return Err(e);
                    },
                };
                assert(can_read(vector_store, idx));
                let distance: VectorDistance = measure.measure(accessor.vec_ref());
                assert(distance == dist[idx as int]);
                proof {
                    let ef = insertion.layer.ef();
                    assert(insertion.node@.len() == insertion.node.capacities().len());
                    lemma_supply_same_end(g, insertion.level(), ef, dist, st);
                    crate::layer::lemma_supply_inv(g, insertion.level(), ef, st, distance);
                    let next = supply(st, ef, distance);
                    let rest = level_reads(g, insertion.level(), ef, dist, next);
                    assert(done + (seq![idx] + rest) =~= done.push(idx) + rest);
                    done = done.push(idx);
                }
                insertion.supply(distance);
            },
            Step::Level(_) => {
                proof {
                    crate::walk::lemma_next_level(
                        g,
                        plan,
                        dist,
                        from,
                        before.level(),
                        before@,
                    );
                    assert(done =~= walk_reads(g, plan, dist, from, before.level()));
                    lemma_linked_down(g, caps, dist, ef, before.level(), before.node@);
                }
            },
            Step::Done => {
                proof {
                    crate::walk::lemma_next_level(
                        g,
                        plan,
                        dist,
                        from,
                        before.level(),
                        before@,
                    );
                    assert(done =~= walk_reads(g, plan, dist, from, 0));
                }
                break;
            },
        }
    }
    proof {
        let found = found_links(g, caps, dist, ef);
        let linked = link_level(caps, 0, insertion@, insertion.node@);
        assert forall|l: int| 0 <= l < linked.len() implies linked[l] == found[l] by {
            if l > 0 {
                assert(insertion.node@[l] == found[l]);
            }
        }
        assert(linked =~= found);
        assert forall|i: usize|
            i < g.len() && insertion_measures(g, caps.len(), dist, ef, i as int) implies
            #[trigger] can_read(vector_store, i) by {
            lemma_met_were_read(g, plan, dist, false, 0, i);
            if i != g.entrypoint {
                let l = choose|l: int|
                    0 <= l <= g.top() && (#[trigger] insertion_end(
                        g,
                        caps.len(),
                        dist,
                        ef,
                        l,
                    )).visited[i as int];
                assert(walk(g, plan, dist, from, l).visited[i as int]);
            }
            assert(can_read(vector_store, done[done.index_of(i)]));
        }
    }
    Ok(insertion.finish(graph))
}

} // verus!
