//! The layered graph: what a search reads of it, and the one that is built in
//! memory.
use vstd::prelude::*;

use crate::bounded::BoundedNearest;
use crate::options::{gen_level, HnswBuilderOptions};
use crate::vector::VectorDistance;

verus! {

/// The links of one node on one level: each neighbour with its distance.
pub type Links = Seq<(VectorDistance, usize)>;

/// A layered graph, as a mathematical value.
pub struct GraphModel {
    /// The node at which every search starts.
    pub entrypoint: usize,
    /// The links of each node, level by level from the ground up.
    pub nodes: Seq<Seq<Links>>,
}

impl GraphModel {
    /// The number of nodes.
    pub open spec fn len(&self) -> nat {
        self.nodes.len()
    }

    /// The number of levels of a node.
    pub open spec fn height(&self, i: int) -> nat {
        self.nodes[i].len()
    }

    /// The links of a node on a level.
    pub open spec fn links(&self, i: int, level: int) -> Links {
        self.nodes[i][level]
    }

    /// The highest level of the entrypoint.
    pub open spec fn top(&self) -> nat {
        (self.height(self.entrypoint as int) - 1) as nat
    }

    /// Whether `links` lead, on `level`, to nodes that reach up to that level.
    pub open spec fn links_lead(&self, links: Links, level: int) -> bool {
        forall|k: int|
            0 <= k < links.len() ==> (#[trigger] links[k]).1 < self.len() && level < self.height(
                links[k].1 as int,
            )
    }

    /// The entrypoint is a node that stands on the ground, and every link leads
    /// to a node of its level.
    pub open spec fn wf(&self) -> bool {
        &&& self.entrypoint < self.len() <= usize::MAX
        &&& 1 <= self.height(self.entrypoint as int)
        &&& forall|i: int| 0 <= i < self.len() ==> #[trigger] self.height(i) <= usize::MAX
        &&& forall|i: int, level: int|
            0 <= i < self.len() && 0 <= level < self.height(i) ==> self.links_lead(
                #[trigger] self.links(i, level),
                level,
            )
    }

    /// Whether the nodes, and the levels of each of them, can be counted.
    pub open spec fn sized(&self) -> bool {
        &&& self.len() <= usize::MAX
        &&& forall|i: int| 0 <= i < self.len() ==> #[trigger] self.height(i) <= usize::MAX
    }

    /// Whether the hops and distances of one search can be counted.
    pub open spec fn countable(&self) -> bool {
        self.len() * self.height(self.entrypoint as int) <= usize::MAX
    }
}

/// A graph has as many nodes as lists of levels, a node as many levels as lists
/// of links, and the top is the highest level that the entrypoint has.
pub proof fn law_what_a_graph_is(g: GraphModel, i: int, level: int)
    ensures
        g.len() == g.nodes.len(),
        g.height(i) == g.nodes[i].len(),
        g.links(i, level) == g.nodes[i][level],
        g.nodes[g.entrypoint as int].len() > 0 ==> g.top() + 1
            == g.nodes[g.entrypoint as int].len(),
{
}

/// A search can go through a graph whose entrypoint is a node with a level, and
/// whose links, each on its level, lead to nodes that have that level. Its hops
/// and distances can be counted where the nodes, times the entrypoint's levels,
/// can.
pub proof fn law_what_a_search_can_go_through(g: GraphModel)
    ensures
        g.wf() == ({
            &&& g.nodes.len() <= usize::MAX
            &&& forall|i: int|
                0 <= i < g.nodes.len() ==> (#[trigger] g.nodes[i]).len() <= usize::MAX
            &&& g.entrypoint < g.nodes.len()
            &&& g.nodes[g.entrypoint as int].len() > 0
            &&& forall|i: int, level: int, k: int|
                0 <= i < g.nodes.len() && 0 <= level < g.nodes[i].len() && 0 <= k
                    < g.nodes[i][level].len() ==> {
                    let to = (#[trigger] g.nodes[i][level][k]).1;
                    to < g.nodes.len() && level < g.nodes[to as int].len()
                }
        }),
        g.countable() == (g.nodes.len() * g.nodes[g.entrypoint as int].len() <= usize::MAX),
{
    if g.wf() {
        assert forall|i: int| 0 <= i < g.nodes.len() implies (#[trigger] g.nodes[i]).len()
            <= usize::MAX by {
            assert(g.height(i) <= usize::MAX);
        }
        assert forall|i: int, level: int, k: int|
            0 <= i < g.nodes.len() && 0 <= level < g.nodes[i].len() && 0 <= k
                < g.nodes[i][level].len() implies ({
            let to = (#[trigger] g.nodes[i][level][k]).1;
            to < g.nodes.len() && level < g.nodes[to as int].len()
        }) by {
            assert(g.links_lead(g.links(i, level), level));
            assert(g.links(i, level)[k].1 < g.len());
        }
    } else if g.nodes.len() <= usize::MAX && (forall|i: int|
        0 <= i < g.nodes.len() ==> (#[trigger] g.nodes[i]).len() <= usize::MAX) && g.entrypoint
        < g.nodes.len() && g.nodes[g.entrypoint as int].len() > 0 && (forall|
        i: int,
        level: int,
        k: int,
    |
        0 <= i < g.nodes.len() && 0 <= level < g.nodes[i].len() && 0 <= k < g.nodes[i][level].len()
            ==> {
            let to = (#[trigger] g.nodes[i][level][k]).1;
            to < g.nodes.len() && level < g.nodes[to as int].len()
        }) {
        assert forall|i: int, level: int|
            0 <= i < g.len() && 0 <= level < g.height(i) implies g.links_lead(
            #[trigger] g.links(i, level),
            level,
        ) by {
            let links = g.links(i, level);
            assert forall|k: int| 0 <= k < links.len() implies (#[trigger] links[k]).1 < g.len()
                && level < g.height(links[k].1 as int) by {
                assert(g.nodes[i][level][k] == links[k]);
            }
        }
        assert(g.wf());
    }
}

/// What a search reads of a graph.
pub trait HnswGraph {
    /// The graph as a mathematical value.
    spec fn view(&self) -> GraphModel;

    /// The node at which a search starts.
    fn entrypoint(&self) -> (r: usize)
        ensures
            r == self.view().entrypoint,
    ;

    /// The number of nodes.
    fn len(&self) -> (r: usize)
        requires
            self.view().len() <= usize::MAX,
        ensures
            r == self.view().len(),
    ;

    /// Returns the number of levels for `idx` (levels are indexed 0..num_levels-1).
    fn node_num_levels(&self, idx: usize) -> (r: usize)
        requires
            idx < self.view().len(),
            self.view().height(idx as int) <= usize::MAX,
        ensures
            r == self.view().height(idx as int),
    ;

    /// The neighbours of `idx` on a level, each with its distance.
    fn node_neighbours(&self, idx: usize, level: usize) -> (r: Vec<(usize, VectorDistance)>)
        requires
            idx < self.view().len(),
            level < self.view().height(idx as int),
        ensures
            r@.len() == self.view().links(idx as int, level as int).len(),
            forall|k: int|
                0 <= k < r@.len() ==> #[trigger] r@[k] == (
                    self.view().links(idx as int, level as int)[k].1,
                    self.view().links(idx as int, level as int)[k].0,
                ),
    ;
}

/// Tells whether every link of a node on a level leads to a node of that level.
fn links_lead<G: HnswGraph>(graph: &G, idx: usize, level: usize) -> (r: bool)
    requires
        graph.view().sized(),
        idx < graph.view().len(),
        level < graph.view().height(idx as int),
    ensures
        r == graph.view().links_lead(graph.view().links(idx as int, level as int), level as int),
{
    let ghost g = graph.view();
    let ghost links = g.links(idx as int, level as int);
    let neighbours = graph.node_neighbours(idx, level);
    let n: usize = graph.len();
    let mut k: usize = 0;
    while k < neighbours.len()
        invariant
            g == graph.view(),
            g.sized(),
            n == g.len(),
            links == g.links(idx as int, level as int),
            neighbours@.len() == links.len(),
            forall|j: int| 0 <= j < links.len() ==> (#[trigger] neighbours@[j]).0 == links[j].1,
            k <= links.len(),
            forall|j: int|
                0 <= j < k ==> (#[trigger] links[j]).1 < g.len() && level < g.height(
                    links[j].1 as int,
                ),
        decreases links.len() - k,
    {
        let to: usize = neighbours[k].0;
        assert(to == links[k as int].1);
        if to >= n {
            return false;
        }
        assert(g.height(to as int) <= usize::MAX);
        if graph.node_num_levels(to) <= level {
            return false;
        }
        k = k + 1;
    }
    true
}

/// Tells whether a search can go through a graph: the entrypoint is a node that
/// stands on the ground, and every link leads to a node of its level.
pub fn graph_is_wf<G: HnswGraph>(graph: &G) -> (r: bool)
    requires
        graph.view().sized(),
    ensures
        r == graph.view().wf(),
{
    let ghost g = graph.view();
    let n: usize = graph.len();
    let entrypoint: usize = graph.entrypoint();
    if entrypoint >= n {
        return false;
    }
    assert(g.height(entrypoint as int) <= usize::MAX);
    if graph.node_num_levels(entrypoint) == 0 {
        return false;
    }
    let mut i: usize = 0;
    while i < n
        invariant
            g == graph.view(),
            g.sized(),
            n == g.len(),
            i <= n,
            forall|j: int, l: int|
                0 <= j < i && 0 <= l < g.height(j) ==> g.links_lead(#[trigger] g.links(j, l), l),
        decreases n - i,
    {
        assert(g.height(i as int) <= usize::MAX);
        let levels: usize = graph.node_num_levels(i);
        let mut level: usize = 0;
        while level < levels
            invariant
                g == graph.view(),
                g.sized(),
                i < g.len(),
                levels == g.height(i as int),
                level <= levels,
                forall|l: int|
                    0 <= l < level ==> g.links_lead(#[trigger] g.links(i as int, l), l),
            decreases levels - level,
        {
            if !links_lead(graph, i, level) {
                assert(!g.links_lead(g.links(i as int, level as int), level as int));
                return false;
            }
            level = level + 1;
        }
        i = i + 1;
    }
    true
}

/// Tells whether the hops and distances of one search can be counted.
pub fn graph_is_countable<G: HnswGraph>(graph: &G) -> (r: bool)
    requires
        graph.view().sized(),
        graph.view().entrypoint < graph.view().len(),
    ensures
        r == graph.view().countable(),
{
    assert(graph.view().height(graph.view().entrypoint as int) <= usize::MAX);
    let levels: usize = graph.node_num_levels(graph.entrypoint());
    graph.len().checked_mul(levels).is_some()
}

/// A node of a graph in memory: its bounded list of neighbours on each level.
pub struct VectorHnswNode {
    pub level_neighbours: Vec<BoundedNearest<usize>>,
}

impl VectorHnswNode {
    /// The links of the node, level by level.
    pub open spec fn view(&self) -> Seq<Links> {
        self.level_neighbours@.map_values(|b: BoundedNearest<usize>| b@)
    }

    /// How many links the node may have on each level.
    pub open spec fn capacities(&self) -> Seq<nat> {
        self.level_neighbours@.map_values(|b: BoundedNearest<usize>| b.capacity as nat)
    }

    /// Every list is in order and within its bound.
    pub open spec fn wf(&self) -> bool {
        forall|level: int|
            0 <= level < self.level_neighbours@.len() ==> (
            #[trigger] self.level_neighbours@[level]).wf()
    }

    /// No link on any level.
    pub open spec fn unlinked(&self) -> bool {
        forall|level: int|
            0 <= level < self.level_neighbours@.len() ==> (
            #[trigger] self.level_neighbours@[level])@.len() == 0
    }

    /// Returns the number of levels this node has (levels are indexed 0..num_levels-1).
    pub fn num_levels(&self) -> (r: usize)
        ensures
            r == self@.len(),
    {
        self.level_neighbours.len()
    }
}

/// An unlinked node for which the level `drawn` was drawn.
pub fn new_node(options: &HnswBuilderOptions, drawn: usize) -> (r: VectorHnswNode)
    requires
        2 * options.m <= usize::MAX,
        options.top_level(drawn) < usize::MAX,
    ensures
        r.wf(),
        r.unlinked(),
        r@.len() == options.top_level(drawn) + 1,
        r.capacities() == options.capacities(drawn),
{
    let top: usize = gen_level(options, drawn);
    let mut level_neighbours: Vec<BoundedNearest<usize>> = Vec::new();
    let mut i: usize = 0;
    while i <= top
        invariant
            i <= top + 1,
            top < usize::MAX,
            2 * options.m <= usize::MAX,
            level_neighbours@.len() == i,
            forall|level: int|
                0 <= level < i ==> {
                    let b = #[trigger] level_neighbours@[level];
                    b.wf() && b@.len() == 0 && b.capacity == options.spec_level_m(level)
                },
        decreases top + 1 - i,
    {
        level_neighbours.push(BoundedNearest::new(options.level_m(i)));
        i = i + 1;
    }
    let r = VectorHnswNode { level_neighbours };
    assert(r.capacities() =~= options.capacities(drawn));
    r
}

/// A graph that is built in memory.
pub struct HnswGraphBuilder {
    /// The node at which every search starts.
    pub entrypoint: usize,
    pub nodes: Vec<VectorHnswNode>,
}

impl HnswGraphBuilder {
    /// How many links each node may have on each level.
    pub open spec fn capacities(&self) -> Seq<Seq<nat>> {
        self.nodes@.map_values(|n: VectorHnswNode| n.capacities())
    }

    /// Every list of every node is in order and within its bound, and the graph
    /// hangs together.
    pub open spec fn wf(&self) -> bool {
        &&& forall|i: int| 0 <= i < self.nodes@.len() ==> (#[trigger] self.nodes@[i]).wf()
        &&& self@.wf()
    }

    /// The nodes of a graph in memory, and their levels, can be counted.
    pub proof fn lemma_sized(&self)
        ensures
            self@.sized(),
    {
        assert forall|i: int| 0 <= i < self@.len() implies #[trigger] self@.height(i)
            <= usize::MAX by {
            assert(self@.height(i) == self.nodes@[i].level_neighbours.len());
        }
        assert(self@.len() == self.nodes.len());
    }

    /// Tells whether every list of every node is in order and within its bound,
    /// and the graph hangs together.
    pub fn is_wf(&self) -> (r: bool)
        ensures
            r == self.wf(),
    {
        let mut i: usize = 0;
        while i < self.nodes.len()
            invariant
                i <= self.nodes@.len(),
                forall|j: int| 0 <= j < i ==> (#[trigger] self.nodes@[j]).wf(),
            decreases self.nodes@.len() - i,
        {
            let lists = &self.nodes[i].level_neighbours;
            let mut level: usize = 0;
            while level < lists.len()
                invariant
                    i < self.nodes@.len(),
                    lists == self.nodes@[i as int].level_neighbours,
                    level <= lists@.len(),
                    forall|l: int| 0 <= l < level ==> (#[trigger] lists@[l]).wf(),
                decreases lists@.len() - level,
            {
                if !lists[level].is_wf() {
                    assert(!self.nodes@[i as int].wf()) by {
                        assert(!self.nodes@[i as int].level_neighbours@[level as int].wf());
                    }
                    return false;
                }
                level = level + 1;
            }
            i = i + 1;
        }
        proof {
            self.lemma_sized();
        }
        graph_is_wf(self)
    }

    /// Tells whether the hops and distances of one search can be counted.
    pub fn is_countable(&self) -> (r: bool)
        requires
            self@.entrypoint < self@.len(),
        ensures
            r == self@.countable(),
    {
        proof {
            self.lemma_sized();
        }
        graph_is_countable(self)
    }

    /// The graph of one node.
    pub fn first(node: VectorHnswNode) -> (r: Self)
        ensures
            r.entrypoint == 0,
            r.nodes@ == seq![node],
            r@ == (GraphModel { entrypoint: 0, nodes: seq![node@] }),
            r.capacities() == seq![node.capacities()],
            node.wf() && node.unlinked() && node@.len() > 0 ==> r.wf(),
    {
        let ghost n = node;
        let mut nodes: Vec<VectorHnswNode> = Vec::new();
        nodes.push(node);
        let r = HnswGraphBuilder { entrypoint: 0, nodes };
        assert(r.nodes@ =~= seq![n]);
        assert(r@.nodes =~= seq![n@]);
        assert(r.capacities() =~= seq![n.capacities()]);
        assert(n@.len() == n.level_neighbours.len());
        r
    }
}

impl HnswGraph for HnswGraphBuilder {
    open spec fn view(&self) -> GraphModel {
        GraphModel {
            entrypoint: self.entrypoint,
            nodes: self.nodes@.map_values(|n: VectorHnswNode| n@),
        }
    }

    fn entrypoint(&self) -> (r: usize) {
        self.entrypoint
    }

    fn len(&self) -> (r: usize) {
        self.nodes.len()
    }

    fn node_num_levels(&self, idx: usize) -> (r: usize) {
        self.nodes[idx].num_levels()
    }

    fn node_neighbours(&self, idx: usize, level: usize) -> (r: Vec<(usize, VectorDistance)>) {
        let list = &self.nodes[idx].level_neighbours[level];
        let ghost links = self@.links(idx as int, level as int);
        assert(links == list@);
        let mut r: Vec<(usize, VectorDistance)> = Vec::new();
        let mut k: usize = 0;
        while k < list.items.len()
            invariant
                links == list@,
                k <= links.len(),
                r@.len() == k,
                forall|j: int| 0 <= j < k ==> #[trigger] r@[j] == (links[j].1, links[j].0),
            decreases links.len() - k,
        {
            r.push((list.items[k].1, list.items[k].0));
            k = k + 1;
        }
        r
    }
}

} // verus!
