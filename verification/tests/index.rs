//! Searches of whole indices.
use hnsw::bounded::BoundedNearest;
use hnsw::builder::HnswBuilder;
use hnsw::graph::{new_node, HnswGraph, HnswGraphBuilder, VectorHnswNode};
use hnsw::insertion::GraphInsertion;
use hnsw::layer_search::Step;
use hnsw::options::HnswBuilderOptions;
use hnsw::search::{nearest, NearestSearch};
use hnsw::store::{HummockResult, VectorStoreImpl};
use hnsw::vector::{
    Components, MeasureDistance, MeasureDistanceBuilder, VectorDistance, VectorItem, VectorRef,
};
use rand::distr::uniform::{UniformFloat, UniformSampler};
use rand::rngs::StdRng;
use rand::{Rng, SeedableRng};

/// Orders integers as `f64::total_cmp` orders the distances; its own inverse
/// but for the types.
fn key(d: f64) -> VectorDistance {
    let bits = d.to_bits() as i64;
    bits ^ (((bits >> 63) as u64) >> 1) as i64
}

fn distance_of(key: VectorDistance) -> f64 {
    let bits = key ^ (((key >> 63) as u64) >> 1) as i64;
    f64::from_bits(bits as u64)
}

/// Minimal L2 distance for tests using only public traits.
struct TestL2;

struct TestL2Measure<'a> {
    q: VectorRef<'a>,
}

impl MeasureDistanceBuilder for TestL2 {
    type Measure<'a> = TestL2Measure<'a>;

    fn spec_distance(_q: Components, _v: Components) -> VectorDistance {
        unreachable!()
    }

    fn new<'a>(q: VectorRef<'a>) -> Self::Measure<'a> {
        TestL2Measure { q }
    }

    fn distance(a: VectorRef<'_>, b: VectorRef<'_>) -> VectorDistance {
        let sum = a
            .as_slice()
            .iter()
            .zip(b.as_slice().iter())
            .map(|(&x, &y)| {
                let d = (f32::from_bits(x) as f64) - (f32::from_bits(y) as f64);
                d * d
            })
            .sum::<f64>();
        key(sum)
    }
}

impl<'a> MeasureDistance for TestL2Measure<'a> {
    fn spec_measure(&self, _v: Components) -> VectorDistance {
        unreachable!()
    }

    fn measure(&self, v: VectorRef<'_>) -> VectorDistance {
        TestL2::distance(self.q, v)
    }
}

type Index = HnswBuilder<VectorStoreImpl, HnswGraphBuilder, TestL2>;

fn unlinked_node(capacities: &[usize]) -> VectorHnswNode {
    VectorHnswNode {
        level_neighbours: capacities.iter().map(|&c| BoundedNearest::new(c)).collect(),
    }
}

fn draw_level(options: &HnswBuilderOptions, rng: &mut StdRng) -> usize {
    let m_l = 1.0 / (options.m as f32).ln();
    (-UniformFloat::<f32>::sample_single(0.0, 1.0, rng)
        .unwrap()
        .ln()
        * m_l)
        .floor() as usize
}

fn gen_vector(rng: &mut StdRng, dim: usize) -> Vec<VectorItem> {
    (0..dim).map(|_| rng.random::<f32>().to_bits()).collect()
}

fn gen_info(i: usize) -> Vec<u8> {
    i.to_le_bytes().to_vec()
}

fn decode_info_usize(info: &[u8]) -> usize {
    let mut a = [0u8; std::mem::size_of::<usize>()];
    let n = a.len();
    a.copy_from_slice(&info[..n]);
    usize::from_le_bytes(a)
}

fn opts(m: usize, efc: usize, max_level: usize) -> HnswBuilderOptions {
    HnswBuilderOptions {
        m,
        ef_construction: efc,
        max_level,
    }
}

fn as_ref(v: &[VectorItem]) -> VectorRef<'_> {
    VectorRef::from_slice_unchecked(v)
}

fn build_from(
    dim: usize,
    seed: u64,
    options: HnswBuilderOptions,
    vecs: &[Vec<VectorItem>],
) -> HummockResult<Index> {
    let mut rng = StdRng::seed_from_u64(seed);
    let mut hnsw: Index = HnswBuilder::new(dim, options);
    for (i, v) in vecs.iter().enumerate() {
        let level = draw_level(&options, &mut rng);
        let stats = hnsw.insert(as_ref(v), &gen_info(i), level)?;
        if i == 0 {
            // first insert yields default stats
            assert_eq!(stats.distances_computed(), 0);
            assert_eq!(stats.nhops(), 0);
        }
    }
    Ok(hnsw)
}

fn build_index(
    dim: usize,
    n: usize,
    seed: u64,
    options: HnswBuilderOptions,
) -> HummockResult<(Index, Vec<Vec<VectorItem>>)> {
    let mut data = StdRng::seed_from_u64(seed ^ 0xDA7A);
    let vecs: Vec<Vec<VectorItem>> = (0..n).map(|_| gen_vector(&mut data, dim)).collect();
    Ok((build_from(dim, seed, options, &vecs)?, vecs))
}

fn gen_query(dim: usize) -> Vec<VectorItem> {
    gen_vector(&mut StdRng::seed_from_u64(0x5EED), dim)
}

fn brute_force_knn(q: VectorRef<'_>, vecs: &[Vec<VectorItem>], k: usize) -> Vec<usize> {
    let mut s: Vec<(VectorDistance, usize)> = vecs
        .iter()
        .enumerate()
        .map(|(i, v)| (TestL2::distance(q, as_ref(v)), i))
        .collect();
    s.sort_by_key(|e| e.0);
    s.truncate(k);
    s.into_iter().map(|(_, i)| i).collect()
}

// Exactness when the graph is dense, single-level.
#[test]
fn hnsw_search_matches_bruteforce_when_dense_single_level() {
    let dim = 8;
    let n = 32;
    // Force a dense ground layer by making capacity huge and no upper levels.
    let options = opts(n * 2, n * 2, 0);
    let (hnsw, vecs) = build_index(dim, n, 1234, options).unwrap();
    let q = gen_query(dim);
    let k = 10;

    let (hits, _stats) = hnsw
        .search(as_ref(&q), |_v, _d, info| decode_info_usize(info), n, k)
        .unwrap();
    let truth = brute_force_knn(as_ref(&q), &vecs, k);
    assert_eq!(hits, truth);
}

// With dense single-level graph, ef_search < top_n returns the true best `ef_search`.
#[test]
fn hnsw_search_best_m_equals_bruteforce_when_ef_lt_topn_dense() {
    let dim = 8;
    let n = 32;
    let options = opts(n * 2, n * 2, 0);
    let (hnsw, vecs) = build_index(dim, n, 4321, options).unwrap();
    let q = gen_query(dim);
    let ef = 5;
    let top_n = 10;

    let (hits, _stats) = hnsw
        .search(as_ref(&q), |_v, _d, info| decode_info_usize(info), ef, top_n)
        .unwrap();
    let truth = brute_force_knn(as_ref(&q), &vecs, ef);
    assert_eq!(hits, truth);
}

// Multi-level navigation still finds the true top-1.
#[test]
fn hnsw_search_top1_equals_bruteforce_multi_level() {
    let dim = 8;
    let n = 64;
    // Allow multiple levels; big ef to make search thorough.
    let options = opts(8, 64, 8);
    let (hnsw, vecs) = build_index(dim, n, 2468, options).unwrap();
    let q = gen_query(dim);

    let (out, _stats) = hnsw
        .search(as_ref(&q), |_v, _d, info| decode_info_usize(info), 64, 1)
        .unwrap();
    let truth = brute_force_knn(as_ref(&q), &vecs, 1);
    assert_eq!(out, truth);
}

#[test]
fn hnsw_search_singleton_returns_only_item() {
    let dim = 8;
    let (hnsw, vecs) = build_index(dim, 1, 7, opts(8, 16, 8)).unwrap();
    let q = as_ref(&vecs[0]);
    let (out, stats) = hnsw
        .search(q, |_v, _d, info| decode_info_usize(info), 8, 5)
        .unwrap();
    assert_eq!(out, vec![0]);
    assert_eq!(stats.distances_computed(), 1);
    // A hop is counted once per popped candidate, even if no neighbors exist.
    assert_eq!(stats.nhops(), 1);
}

#[test]
fn hnsw_search_topn_zero_is_empty() {
    let dim = 8;
    let (hnsw, vecs) = build_index(dim, 10, 42, opts(8, 32, 8)).unwrap();
    let q = as_ref(&vecs[0]);
    let (out, _stats) = hnsw
        .search(q, |_v, _d, info| decode_info_usize(info), 10, 0)
        .unwrap();
    assert!(out.is_empty());
}

#[test]
fn hnsw_search_len_is_min_of_topn_and_ef() {
    let dim = 8;
    let n = 32;
    let (hnsw, vecs) = build_index(dim, n, 11, opts(8, 32, 8)).unwrap();
    let q = as_ref(&vecs[0]);
    let ef = 3usize;
    let top_n = 10usize;
    let (out, _stats) = hnsw
        .search(q, |_v, _d, info| decode_info_usize(info), ef, top_n)
        .unwrap();
    assert_eq!(out.len(), ef);
}

#[test]
fn hnsw_search_topn_over_dataset_caps_at_dataset_size() {
    let dim = 6;
    let n = 12;
    let (hnsw, vecs) = build_index(dim, n, 99, opts(8, 32, 8)).unwrap();
    let q = as_ref(&vecs[0]);
    // ef large enough; request more than dataset.
    let (out, _stats) = hnsw
        .search(q, |_v, _d, info| decode_info_usize(info), n * 2, n * 5)
        .unwrap();
    assert_eq!(out.len(), n);
}

#[test]
fn hnsw_search_forwards_info_payload() {
    let dim = 5;
    let n = 20;
    let (hnsw, vecs) = build_index(dim, n, 2025, opts(8, 64, 8)).unwrap();
    // Query exactly the ith vector to make its info the obvious top-1.
    let i = 7usize;
    let q = as_ref(&vecs[i]);
    let (out, _stats) = hnsw
        .search(q, |_v, _d, info| decode_info_usize(info), 32, 1)
        .unwrap();
    assert_eq!(out, vec![i]);
}

#[test]
fn hnsw_search_increasing_ef_does_not_worsen_best_distance() {
    let dim = 8;
    let n = 50;
    let (hnsw, _vecs) = build_index(dim, n, 31415, opts(8, 64, 8)).unwrap();
    let q = gen_query(dim); // query not in the index
    // Return the best distance itself.
    let (small, _s_stats) = hnsw
        .search(as_ref(&q), |_v, d, _info| distance_of(d), 4, 1)
        .unwrap();
    let (large, _l_stats) = hnsw
        .search(as_ref(&q), |_v, d, _info| distance_of(d), 64, 1)
        .unwrap();
    assert!(large[0] <= small[0] + 1e-6);
}

#[test]
fn hnsw_search_results_are_sorted_by_distance_non_decreasing() {
    let dim = 8;
    let n = 40;
    let (hnsw, _vecs) = build_index(dim, n, 2718, opts(8, 64, 8)).unwrap();
    let q = gen_query(dim);
    let (dists, _stats) = hnsw
        .search(as_ref(&q), |_v, d, _info| distance_of(d), n, n)
        .unwrap();
    // verify non-decreasing distances
    for w in dists.windows(2) {
        assert!(w[0] <= w[1] + 1e-6);
    }
}

#[test]
fn hnsw_search_handles_ties_returns_both_zero_distance_hits() {
    let dim = 6;
    // Build with two identical vectors first to maximize chance they're both in the final top.
    let options = opts(8, 64, 8);
    let mut data = StdRng::seed_from_u64(321);

    // identical base vector
    let v0 = gen_vector(&mut data, dim);
    let v1 = v0.clone();
    let v2 = gen_vector(&mut data, dim);
    let hnsw = build_from(dim, 123, options, &[v0.clone(), v1, v2]).unwrap();

    // Query exactly the shared vector.
    let (dists, _stats) = hnsw
        .search(as_ref(&v0), |_v, d, _info| distance_of(d), 16, 2)
        .unwrap();
    assert_eq!(dists.len(), 2);
    assert!((dists[0] - 0.0).abs() < 1e-8);
    assert!((dists[1] - 0.0).abs() < 1e-8);
}

#[test]
fn hnsw_search_is_deterministic_with_seeded_build() {
    let dim = 8;
    let n = 30;
    let seed = 7777;
    let options = opts(8, 64, 8);

    let (hnsw_a, vecs_a) = build_index(dim, n, seed, options).unwrap();
    let q = gen_query(dim);

    let (out_a, _sa) = hnsw_a
        .search(as_ref(&q), |_v, _d, info| decode_info_usize(info), 32, 10)
        .unwrap();

    // Rebuild with the same seed and identical data order.
    let hnsw_b = build_from(dim, seed, options, &vecs_a).unwrap();
    let (out_b, _sb) = hnsw_b
        .search(as_ref(&q), |_v, _d, info| decode_info_usize(info), 32, 10)
        .unwrap();

    assert_eq!(out_a, out_b);
    assert_eq!(hnsw_a.print_graph(), hnsw_b.print_graph());
}

#[test]
fn hnsw_search_stats_are_sane() {
    let dim = 8;
    let n = 50;
    let (hnsw, _vecs) = build_index(dim, n, 13579, opts(8, 64, 8)).unwrap();
    let q = gen_query(dim);
    let (out, stats) = hnsw
        .search(as_ref(&q), |_v, _d, info| decode_info_usize(info), 20, 10)
        .unwrap();
    assert!(stats.distances_computed() >= out.len());
    assert!(stats.distances_computed() <= n);
    // Very loose sanity bound; behavior-focused (not internals).
    assert!(stats.nhops() <= n * 2);
}

#[test]
fn hnsw_search_ef_zero_returns_empty() {
    let (hnsw, vecs) = build_index(8, 10, 42, opts(8, 32, 8)).unwrap();
    let q = as_ref(&vecs[0]);
    let (out, _stats) = hnsw
        .search(q, |_v, _d, info| decode_info_usize(info), 0, 5)
        .unwrap();
    assert!(out.is_empty());
}

#[test]
#[should_panic(expected = "HNSW graph is empty")]
fn hnsw_search_panics_on_empty_graph() {
    let hnsw: Index = HnswBuilder::new(8, opts(8, 32, 8));
    let q = gen_query(8);
    let _ = hnsw.search(as_ref(&q), |_v, _d, info| decode_info_usize(info), 8, 1);
}

// Visits in the upper-layer descent of an insertion should be: entry_top, entry_top-1, ..., node_top+1 (inclusive).
#[test]
fn hnsw_insert_graph_visits_expected_upper_layers() {
    let dim = 8;
    let options = opts(8, 16, 8); // m, ef_construction, max_level

    // Try a handful of seeds so we reliably get an entry node with >= 3 levels.
    // This remains deterministic across runs.
    for seed in 1u64..=200 {
        // Fresh builder per attempt so the RNG state matches expectations.
        let mut rng = StdRng::seed_from_u64(seed);
        let mut data = StdRng::seed_from_u64(seed + 1000);
        let mut hnsw: Index = HnswBuilder::new(dim, options);

        // Insert first vector: becomes the entrypoint.
        let v0 = gen_vector(&mut data, dim);
        let level = draw_level(&options, &mut rng);
        let _ = hnsw.insert(as_ref(&v0), &gen_info(0), level).unwrap();

        // The same index once more, for an insertion as a whole.
        let mut twin: Index = HnswBuilder::new(dim, options);
        let _ = twin.insert(as_ref(&v0), &gen_info(0), level).unwrap();

        // Peek current entrypoint's top level index.
        let g = hnsw.graph.as_mut().unwrap();
        let entry_idx = g.entrypoint();
        let entry_top = g.node_num_levels(entry_idx).saturating_sub(1);

        // We need at least 2 upper layers to make the assertion interesting.
        if entry_top < 2 {
            continue; // try next seed
        }

        // Insert second vector and record which levels are searched.
        let v1 = gen_vector(&mut data, dim);
        let drawn = draw_level(&options, &mut rng);
        let node = new_node(&options, drawn);
        let measure = TestL2::new(as_ref(&v1));
        let mut insertion = GraphInsertion::new(
            &*g,
            node,
            measure.measure(as_ref(&v0)),
            options.ef_construction,
        );
        let mut visited = vec![insertion.layer.level];
        loop {
            match insertion.next(&*g) {
                Step::Fetch(_) => insertion.supply(measure.measure(as_ref(&v0))),
                Step::Level(l) => visited.push(l),
                Step::Done => break,
            }
        }
        let stats = insertion.finish(g);

        // After insertion, read the new node's level count (it is at the tail).
        let new_idx = g.len() - 1;
        let node_top = g.node_num_levels(new_idx).saturating_sub(1);

        // If the new node's top level > entry_top, HNSW would promote it to entrypoint.
        // That changes the descent semantics; skip such seeds to keep the assertion crisp.
        if node_top > entry_top {
            continue;
        }

        // What the algorithm *should* have visited on the first descent:
        let expected: Vec<usize> = ((node_top + 1)..=entry_top).rev().collect();

        // Keep only *upper-layer* calls (>= 1); the final ground pass is level 0.
        let upper: Vec<usize> = visited.into_iter().filter(|&l| l >= 1).collect();

        assert_eq!(
            upper, expected,
            "seed={seed}, entry_top={entry_top}, node_top={node_top}"
        );

        // The insertion as a whole comes to the same.
        let whole = twin.insert(as_ref(&v1), &gen_info(1), drawn).unwrap();
        assert_eq!(stats.distances_computed(), whole.distances_computed());
        assert_eq!(stats.nhops(), whole.nhops());
        let t = twin.graph.as_ref().unwrap();
        assert_eq!(g.entrypoint(), t.entrypoint());
        assert_eq!(g.len(), t.len());
        for i in 0..g.len() {
            assert_eq!(g.node_num_levels(i), t.node_num_levels(i));
            for l in 0..g.node_num_levels(i) {
                assert_eq!(g.node_neighbours(i, l), t.node_neighbours(i, l));
            }
        }
        return; // success on this seed
    }

    panic!(
        "could not find a suitable seed (entry_top>=2 and node_top<=entry_top) within the search window"
    );
}

// Visits in the upper-layer descent of a search should be: entry_top, entry_top-1, ..., 1 (then the ground pass at 0 separately).
#[test]
fn hnsw_nearest_visits_expected_upper_layers() {
    // Build minimal graph with one node of 3 levels (indices 0,1,2).
    let dim = 1;
    let mut data = StdRng::seed_from_u64(3);
    let mut store = VectorStoreImpl::new(dim);
    let v0 = gen_vector(&mut data, dim);
    store.add(as_ref(&v0), &gen_info(0));

    let graph = HnswGraphBuilder::first(unlinked_node(&[0, 0, 0]));

    // Query doesn't matter; we just want to observe level calls.
    let q = gen_vector(&mut data, dim);
    let measure = TestL2::new(as_ref(&q));

    // ef_search >= 1 to ensure we do the usual traversal.
    let mut search = NearestSearch::new(&graph, measure.measure(as_ref(&v0)), 0usize, 4);
    let mut visited = vec![search.layer.level];
    loop {
        match search.next(&graph) {
            Step::Fetch(_) => {
                let d = measure.measure(as_ref(&v0));
                let output = if search.admits(d) { Some(0usize) } else { None };
                search.supply(d, output);
            }
            Step::Level(l) => visited.push(l),
            Step::Done => break,
        }
    }
    let (out, stats) = search.finish(1);

    // Extract only upper-layer visits (>= 1). Ground layer (0) is handled later and isn't part of this loop.
    let upper: Vec<usize> = visited.into_iter().filter(|&l| l >= 1).collect();

    // With entry_top = 2, we expect visits at levels [2, 1] in that order.
    assert_eq!(
        upper,
        vec![2, 1],
        "nearest should visit levels [2, 1] top-down before level 0"
    );

    // The search as a whole comes to the same.
    let (whole, whole_stats) = nearest::<usize, TestL2, _, _, _>(
        &store,
        &graph,
        as_ref(&q),
        |_v, _d, _info| 0usize,
        4,
        1,
    )
    .unwrap();
    assert_eq!(out, whole);
    assert_eq!(stats.nhops(), whole_stats.nhops());
    assert_eq!(stats.nhops(), 3);
}

#[test]
fn hnsw_vector_hnsw_node_level_returns_count() {
    // Construct a node with 3 level_neighbours (indices 0, 1, 2).
    let node = unlinked_node(&[0, 0, 0]);

    // By contract, `num_level()` should return the COUNT (3), not the max index (2).
    assert_eq!(
        node.num_levels(),
        node.level_neighbours.len(),
        "VectorHnswNode::num_levels() must return the count of levels, \
         not the maximum level index"
    );
    assert_eq!(node.num_levels(), 3);
}

#[test]
fn hnsw_graph_node_level_returns_count() {
    // Graph with a single node with 4 levels (indices 0,1,2,3).
    let graph = HnswGraphBuilder::first(unlinked_node(&[0, 0, 0, 0]));

    assert_eq!(
        graph.node_num_levels(0),
        4,
        "HnswGraph::node_level() must return the COUNT of levels, not the max index"
    );
}
