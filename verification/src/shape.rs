//! A summary of a graph's shape.
use vstd::prelude::*;

use crate::graph::{GraphModel, HnswGraph, Links};

verus! {

/// The shape of a graph. Its average outdegree is `total_edges` over
/// `node_count`.
#[derive(Debug, Clone)]
pub struct GraphShapeSummary {
    /// How many nodes have each number of levels; the last entry counts those
    /// with more, too.
    pub level_histogram: Vec<usize>,
    pub total_edges: usize,
    pub node_count: usize,
}

/// The entry of a histogram with `size` entries that counts a node.
pub open spec fn bucket(g: GraphModel, size: nat, i: int) -> int {
    if g.height(i) < size {
        g.height(i) as int
    } else {
        size - 1
    }
}

/// How many of the first `n` nodes an entry of the histogram counts.
pub open spec fn bucket_count(g: GraphModel, size: nat, b: int, n: nat) -> nat
    decreases n,
{
    if n == 0 {
        0
    } else {
        bucket_count(g, size, b, (n - 1) as nat) + if bucket(g, size, n - 1) == b {
            1nat
        } else {
            0nat
        }
    }
}

/// How many links a node has on its first `levels` levels.
pub open spec fn node_edges(node: Seq<Links>, levels: nat) -> nat
    decreases levels,
{
    if levels == 0 {
        0
    } else {
        node_edges(node, (levels - 1) as nat) + node[levels - 1].len()
    }
}

/// How many links the first `n` nodes have.
pub open spec fn edges(g: GraphModel, n: nat) -> nat
    decreases n,
{
    if n == 0 {
        0
    } else {
        edges(g, (n - 1) as nat) + node_edges(g.nodes[n - 1], g.height(n - 1))
    }
}

pub proof fn lemma_node_edges_monotone(node: Seq<Links>, a: nat, b: nat)
    requires
        a <= b,
    ensures
        node_edges(node, a) <= node_edges(node, b),
    decreases b,
{
    if a < b {
        lemma_node_edges_monotone(node, a, (b - 1) as nat);
    }
}

pub proof fn lemma_edges_monotone(g: GraphModel, a: nat, b: nat)
    requires
        a <= b,
    ensures
        edges(g, a) <= edges(g, b),
    decreases b,
{
    if a < b {
        lemma_edges_monotone(g, a, (b - 1) as nat);
    }
}

pub proof fn lemma_bucket_count_bound(g: GraphModel, size: nat, b: int, n: nat)
    ensures
        bucket_count(g, size, b, n) <= n,
    decreases n,
{
    if n > 0 {
        lemma_bucket_count_bound(g, size, b, (n - 1) as nat);
    }
}

/// Summarizes the shape of a graph, with a histogram of `max_levels` entries,
/// or of one where that is zero.
pub fn summarize<G: HnswGraph>(g: &G, max_levels: usize) -> (r: GraphShapeSummary)
    requires
        g.view().sized(),
        edges(g.view(), g.view().len()) <= usize::MAX,
    ensures
        r.level_histogram@.len() == if max_levels == 0 {
            1
        } else {
            max_levels as nat
        },
        forall|b: int|
            0 <= b < r.level_histogram@.len() ==> #[trigger] r.level_histogram@[b] == bucket_count(
                g.view(),
                r.level_histogram@.len(),
                b,
                g.view().len(),
            ),
        r.total_edges == edges(g.view(), g.view().len()),
        r.node_count == g.view().len(),
{
    let ghost m = g.view();
    let size: usize = if max_levels == 0 {
        1
    } else {
        max_levels
    };
    let mut hist: Vec<usize> = vec![0usize; size];
    let mut total: usize = 0;
    let n: usize = g.len();
    let mut i: usize = 0;
    while i < n
        invariant
            m == g.view(),
            m.sized(),
            n == m.len(),
            i <= n,
            size > 0,
            hist@.len() == size,
            edges(m, m.len()) <= usize::MAX,
            total == edges(m, i as nat),
            forall|b: int|
                0 <= b < size ==> #[trigger] hist@[b] == bucket_count(
                    m,
                    size as nat,
                    b,
                    i as nat,
                ),
        decreases n - i,
    {
        assert(m.height(i as int) <= usize::MAX);
        let levels: usize = g.node_num_levels(i);
        let at: usize = if levels < size {
            levels
        } else {
            size - 1
        };
        proof {
            lemma_bucket_count_bound(m, size as nat, at as int, i as nat);
            lemma_edges_monotone(m, (i + 1) as nat, n as nat);
        }
        hist[at] = hist[at] + 1;
        let mut level: usize = 0;
        while level < levels
            invariant
                m == g.view(),
                i < m.len(),
                levels == m.height(i as int),
                level <= levels,
                edges(m, i as nat) + node_edges(m.nodes[i as int], levels as nat) <= usize::MAX,
                total == edges(m, i as nat) + node_edges(m.nodes[i as int], level as nat),
            decreases levels - level,
        {
            proof {
                lemma_node_edges_monotone(m.nodes[i as int], (level + 1) as nat, levels as nat);
            }
            total = total + g.node_neighbours(i, level).len();
            level = level + 1;
        }
        i = i + 1;
    }
    GraphShapeSummary { level_histogram: hist, total_edges: total, node_count: n }
}

/// Each entry of a histogram but the last counts the nodes that have as many
/// levels as its place says, and the last those that have at least as many.
pub proof fn law_histogram_counts_heights(g: GraphModel, size: nat, b: int)
    requires
        0 <= b < size,
    ensures
        b < size - 1 ==> bucket_count(g, size, b, g.nodes.len()) == Set::new(
            |i: int| 0 <= i < g.nodes.len() && g.nodes[i].len() == b,
        ).len(),
        b == size - 1 ==> bucket_count(g, size, b, g.nodes.len()) == Set::new(
            |i: int| 0 <= i < g.nodes.len() && g.nodes[i].len() >= b,
        ).len(),
{
    lemma_bucket_is_set(g, size, b, g.nodes.len());
    if b < size - 1 {
        assert(counted_by(g, size, b, g.nodes.len()) =~= Set::new(
            |i: int| 0 <= i < g.nodes.len() && g.nodes[i].len() == b,
        ));
    } else {
        assert(counted_by(g, size, b, g.nodes.len()) =~= Set::new(
            |i: int| 0 <= i < g.nodes.len() && g.nodes[i].len() >= b,
        ));
    }
}

/// Those of the first `n` nodes that an entry of the histogram is to count.
spec fn counted_by(g: GraphModel, size: nat, b: int, n: nat) -> Set<int> {
    Set::new(
        |i: int|
            0 <= i < n && if b < size - 1 {
                g.nodes[i].len() == b
            } else {
                g.nodes[i].len() >= b
            },
    )
}

proof fn lemma_bucket_is_set(g: GraphModel, size: nat, b: int, n: nat)
    requires
        0 <= b < size,
    ensures
        counted_by(g, size, b, n).finite(),
        counted_by(g, size, b, n).len() == bucket_count(g, size, b, n),
    decreases n,
{
    if n == 0 {
        assert(counted_by(g, size, b, n) =~= Set::empty());
    } else {
        let m = (n - 1) as nat;
        lemma_bucket_is_set(g, size, b, m);
        if counted_by(g, size, b, n).contains(n - 1) {
            assert(counted_by(g, size, b, n) =~= counted_by(g, size, b, m).insert(n - 1));
        } else {
            assert(counted_by(g, size, b, n) =~= counted_by(g, size, b, m));
        }
    }
}

/// The edges are the links of every node on every level: one for each node, level
/// and place in the list there.
pub proof fn law_edges_count_every_link(g: GraphModel)
    ensures
        edges(g, g.nodes.len()) == Set::new(
            |e: (int, int, int)|
                0 <= e.0 < g.nodes.len() && 0 <= e.1 < g.nodes[e.0].len() && 0 <= e.2
                    < g.nodes[e.0][e.1].len(),
        ).len(),
{
    lemma_edges_are_set(g, g.nodes.len());
    assert(links_of(g, g.nodes.len()) =~= Set::new(
        |e: (int, int, int)|
            0 <= e.0 < g.nodes.len() && 0 <= e.1 < g.nodes[e.0].len() && 0 <= e.2
                < g.nodes[e.0][e.1].len(),
    ));
}

/// The links of the first `n` nodes.
spec fn links_of(g: GraphModel, n: nat) -> Set<(int, int, int)> {
    Set::new(
        |e: (int, int, int)|
            0 <= e.0 < n && 0 <= e.1 < g.nodes[e.0].len() && 0 <= e.2 < g.nodes[e.0][e.1].len(),
    )
}

/// The links of one node on its first `levels` levels.
spec fn links_below(g: GraphModel, i: int, levels: nat) -> Set<(int, int, int)> {
    Set::new(
        |e: (int, int, int)| e.0 == i && 0 <= e.1 < levels && 0 <= e.2 < g.nodes[i][e.1].len(),
    )
}

proof fn lemma_node_edges_are_set(g: GraphModel, i: int, levels: nat)
    ensures
        links_below(g, i, levels).finite(),
        links_below(g, i, levels).len() == node_edges(g.nodes[i], levels),
    decreases levels,
{
    if levels == 0 {
        assert(links_below(g, i, levels) =~= Set::empty());
    } else {
        let l = levels - 1;
        let below = links_below(g, i, l as nat);
        let n = g.nodes[i][l].len() as int;
        let places = vstd::set_lib::set_int_range(0, n);
        let f = |k: int| (i, l, k);
        let here = places.map(f);
        lemma_node_edges_are_set(g, i, l as nat);
        vstd::set_lib::lemma_int_range(0, n);
        vstd::set_lib::lemma_map_size(places, here, f);
        assert forall|e: (int, int, int)| links_below(g, i, levels).contains(e) == (below
            + here).contains(e) by {
            if e.0 == i && e.1 == l && 0 <= e.2 < n {
                assert(places.contains(e.2));
                assert(f(e.2) == e);
            }
        }
        assert(links_below(g, i, levels) =~= below + here);
        vstd::set_lib::lemma_set_disjoint_lens(below, here);
    }
}

proof fn lemma_edges_are_set(g: GraphModel, n: nat)
    ensures
        links_of(g, n).finite(),
        links_of(g, n).len() == edges(g, n),
    decreases n,
{
    if n == 0 {
        assert(links_of(g, n) =~= Set::empty());
    } else {
        let m = (n - 1) as nat;
        let i = n - 1;
        let here = links_below(g, i, g.nodes[i].len());
        lemma_edges_are_set(g, m);
        lemma_node_edges_are_set(g, i, g.nodes[i].len());
        assert(links_of(g, n) =~= links_of(g, m) + here);
        vstd::set_lib::lemma_set_disjoint_lens(links_of(g, m), here);
    }
}

/// The sum of the first `k` entries of a histogram with `size` entries over the
/// first `n` nodes.
pub open spec fn histogram_sum(g: GraphModel, size: nat, n: nat, k: nat) -> nat
    decreases k,
{
    if k == 0 {
        0
    } else {
        histogram_sum(g, size, n, (k - 1) as nat) + bucket_count(g, size, k - 1, n)
    }
}

proof fn lemma_histogram_step(g: GraphModel, size: nat, n: nat, k: nat)
    requires
        n > 0,
    ensures
        histogram_sum(g, size, n, k) == histogram_sum(g, size, (n - 1) as nat, k) + if 0 <= bucket(
            g,
            size,
            n - 1,
        ) < k {
            1nat
        } else {
            0nat
        },
    decreases k,
{
    if k > 0 {
        lemma_histogram_step(g, size, n, (k - 1) as nat);
    }
}

/// The histogram counts every node once.
pub proof fn law_histogram_counts_every_node(g: GraphModel, size: nat, n: nat)
    requires
        size > 0,
    ensures
        histogram_sum(g, size, n, size) == n,
    decreases n,
{
    if n == 0 {
        lemma_histogram_of_none(g, size, size);
    } else {
        law_histogram_counts_every_node(g, size, (n - 1) as nat);
        lemma_histogram_step(g, size, n, size);
    }
}

proof fn lemma_histogram_of_none(g: GraphModel, size: nat, k: nat)
    ensures
        histogram_sum(g, size, 0, k) == 0,
    decreases k,
{
    if k > 0 {
        lemma_histogram_of_none(g, size, (k - 1) as nat);
    }
}

} // verus!
