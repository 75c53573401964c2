//! The parts of an index, one by one, on whole numbers along a line.
use hnsw::bounded::{BoundedNearest, MinDistanceHeap};
use hnsw::builder::HnswBuilder;
use hnsw::faiss::FaissHnsw;
use hnsw::graph::{
    graph_is_countable, graph_is_wf, new_node, HnswGraph, HnswGraphBuilder, VectorHnswNode,
};
use hnsw::insertion::insert_graph;
use hnsw::options::{gen_level, HnswBuilderOptions};
use hnsw::search::nearest;
use hnsw::stats::HnswStats;
use hnsw::store::{
    HummockError, HummockResult, VectorAccessor, VectorStore, VectorStoreImpl,
    VectorStoreImplAccessor,
};
use hnsw::vec_set::VecSet;
use hnsw::vector::{
    Components, MeasureDistance, MeasureDistanceBuilder, VectorDistance, VectorItem, VectorRef,
};

/// The distance along a line, of vectors with one whole component.
struct Line;

struct LineMeasure<'a> {
    q: VectorRef<'a>,
}

impl MeasureDistanceBuilder for Line {
    type Measure<'a> = LineMeasure<'a>;

    fn spec_distance(_q: Components, _v: Components) -> VectorDistance {
        unreachable!()
    }

    fn new<'a>(q: VectorRef<'a>) -> Self::Measure<'a> {
        LineMeasure { q }
    }

    fn distance(q: VectorRef<'_>, v: VectorRef<'_>) -> VectorDistance {
        (q.as_slice()[0] as i64 - v.as_slice()[0] as i64).abs()
    }
}

impl<'a> MeasureDistance for LineMeasure<'a> {
    fn spec_measure(&self, _v: Components) -> VectorDistance {
        unreachable!()
    }

    fn measure(&self, v: VectorRef<'_>) -> VectorDistance {
        Line::distance(self.q, v)
    }
}

type Index = HnswBuilder<VectorStoreImpl, HnswGraphBuilder, Line>;

fn as_ref(v: &[VectorItem]) -> VectorRef<'_> {
    VectorRef::from_slice_unchecked(v)
}

fn opts(m: usize, efc: usize, max_level: usize) -> HnswBuilderOptions {
    HnswBuilderOptions {
        m,
        ef_construction: efc,
        max_level,
    }
}

fn unlinked_node(capacities: &[usize]) -> VectorHnswNode {
    VectorHnswNode {
        level_neighbours: capacities.iter().map(|&c| BoundedNearest::new(c)).collect(),
    }
}

/// An index of points on the line, each with the level drawn for it.
fn index_of(options: HnswBuilderOptions, points: &[(u32, usize)]) -> Index {
    let mut index: Index = HnswBuilder::new(1, options);
    for (i, &(x, drawn)) in points.iter().enumerate() {
        index.insert(as_ref(&[x]), &[i as u8], drawn).unwrap();
    }
    index
}

fn find(index: &Index, x: u32, ef: usize, top_n: usize) -> Vec<(VectorDistance, u8)> {
    index
        .search(as_ref(&[x]), |_v, d, info| (d, info[0]), ef, top_n)
        .unwrap()
        .0
}

fn neighbours(graph: &HnswGraphBuilder, idx: usize, level: usize) -> Vec<usize> {
    graph
        .node_neighbours(idx, level)
        .into_iter()
        .map(|(i, _)| i)
        .collect()
}

/// A store of which one vector cannot be read.
struct Broken {
    store: VectorStoreImpl,
    missing: usize,
}

impl VectorStore for Broken {
    type Accessor<'a> = VectorStoreImplAccessor<'a>;

    fn spec_len(&self) -> vstd::prelude::nat {
        unreachable!()
    }

    fn vector_at(&self, _i: vstd::prelude::int) -> Components {
        unreachable!()
    }

    fn info_at(&self, _i: vstd::prelude::int) -> vstd::seq::Seq<u8> {
        unreachable!()
    }

    fn always_reads(&self) -> bool {
        false
    }

    fn wf(&self) -> bool {
        true
    }

    fn get_vector(&self, idx: usize) -> HummockResult<VectorStoreImplAccessor<'_>> {
        if idx == self.missing {
            Err(HummockError {
                reason: format!("vector {} is missing", idx),
            })
        } else {
            self.store.get_vector(idx)
        }
    }
}

/// A store of which no vector from one on can be read.
struct BrokenFrom {
    store: VectorStoreImpl,
    from: usize,
}

impl VectorStore for BrokenFrom {
    type Accessor<'a> = VectorStoreImplAccessor<'a>;

    fn spec_len(&self) -> vstd::prelude::nat {
        unreachable!()
    }

    fn vector_at(&self, _i: vstd::prelude::int) -> Components {
        unreachable!()
    }

    fn info_at(&self, _i: vstd::prelude::int) -> vstd::seq::Seq<u8> {
        unreachable!()
    }

    fn always_reads(&self) -> bool {
        false
    }

    fn wf(&self) -> bool {
        true
    }

    fn get_vector(&self, idx: usize) -> HummockResult<VectorStoreImplAccessor<'_>> {
        if idx >= self.from {
            Err(HummockError {
                reason: format!("vector {} is missing", idx),
            })
        } else {
            self.store.get_vector(idx)
        }
    }
}

#[test]
fn bounded_list_keeps_the_nearest() {
    let mut list: BoundedNearest<&str> = BoundedNearest::new(3);
    assert_eq!(list.len(), 0);
    assert!(list.furthest().is_none());
    for (d, item) in [(5, "e"), (1, "a"), (4, "d"), (2, "b"), (9, "z")] {
        list.insert(d, item);
    }
    assert_eq!(list.len(), 3);
    assert_eq!(list.furthest(), Some((4, &"d")));
    assert!(list.admits(3));
    // What is no nearer than the furthest of a full list stays out.
    assert!(!list.admits(4));
    list.insert(4, "late");
    assert_eq!(
        list.collect_with(|s| s.to_string(), None),
        vec!["a", "b", "d"]
    );
}

#[test]
fn bounded_list_holds_the_same_whatever_the_order() {
    let mut forth: BoundedNearest<i64> = BoundedNearest::new(4);
    let mut back: BoundedNearest<i64> = BoundedNearest::new(4);
    for d in 0..10 {
        forth.insert(d, d);
        back.insert(9 - d, 9 - d);
    }
    assert_eq!(forth.collect_with(|d| d, None), vec![0, 1, 2, 3]);
    assert_eq!(back.collect_with(|d| d, None), vec![0, 1, 2, 3]);
}

#[test]
fn bounded_list_resizes_and_hands_out() {
    let mut list: BoundedNearest<u8> = BoundedNearest::new(4);
    for (d, item) in [(3, 30), (1, 10), (2, 20), (1, 11)] {
        list.insert(d, item);
    }
    list.resize(3);
    assert_eq!(list.capacity, 3);
    assert_eq!(list.furthest(), Some((2, &20)));
    list.resize(5);
    assert!(list.admits(100));
    list.insert(100, 99);
    assert_eq!(
        list.collect_with(|item| item as u32 + 1, Some(2)),
        vec![11, 12]
    );
}

#[test]
fn bounded_list_of_nothing_admits_nothing() {
    let mut list: BoundedNearest<u8> = BoundedNearest::new(0);
    assert!(!list.admits(i64::MIN));
    list.insert(i64::MIN, 1);
    assert_eq!(list.len(), 0);
}

#[test]
fn heap_pops_the_nearest_first() {
    let mut heap: MinDistanceHeap<char> = MinDistanceHeap::new();
    assert!(heap.pop().is_none());
    heap.push(3, 'c');
    heap.push(-1, 'a');
    heap.push(2, 'b');
    assert_eq!(heap.peek(), Some((-1, &'a')));
    assert_eq!(heap.pop(), Some((-1, 'a')));
    assert_eq!(heap.pop(), Some((2, 'b')));
    assert_eq!(heap.pop(), Some((3, 'c')));
    assert!(heap.peek().is_none());
}

#[test]
fn set_of_places_sets_and_resets() {
    let mut set = VecSet::new(3);
    assert!(!set.is_set(0) && !set.is_set(1) && !set.is_set(2));
    set.set(1);
    assert!(!set.is_set(0) && set.is_set(1) && !set.is_set(2));
    set.reset();
    assert!(!set.is_set(1));
    assert_eq!(set.payload.len(), 3);
}

#[test]
fn ground_level_has_twice_the_connections() {
    let options = opts(8, 16, 4);
    assert_eq!(options.level_m(0), 16);
    assert_eq!(options.level_m(1), 8);
    assert_eq!(options.level_m(4), 8);
}

#[test]
fn drawn_level_is_capped() {
    let options = opts(8, 16, 4);
    assert_eq!(gen_level(&options, 0), 0);
    assert_eq!(gen_level(&options, 3), 3);
    assert_eq!(gen_level(&options, 4), 4);
    assert_eq!(gen_level(&options, 5), 4);
    assert_eq!(gen_level(&options, usize::MAX), 4);
}

#[test]
fn new_node_has_a_list_for_each_level() {
    let node = new_node(&opts(3, 16, 4), 2);
    assert_eq!(node.num_levels(), 3);
    let capacities: Vec<usize> = node.level_neighbours.iter().map(|l| l.capacity).collect();
    assert_eq!(capacities, vec![6, 3, 3]);
    assert!(node.level_neighbours.iter().all(|l| l.len() == 0));
    assert_eq!(new_node(&opts(3, 16, 1), 9).num_levels(), 2);
}

#[test]
fn first_graph_has_one_node() {
    let graph = HnswGraphBuilder::first(unlinked_node(&[4, 2]));
    assert_eq!(graph.entrypoint(), 0);
    assert_eq!(graph.len(), 1);
    assert_eq!(graph.node_num_levels(0), 2);
    assert!(graph.node_neighbours(0, 1).is_empty());
}

#[test]
fn stats_start_at_zero() {
    let stats = HnswStats::default();
    assert_eq!(stats.distances_computed(), 0);
    assert_eq!(stats.nhops(), 0);
    assert_eq!(
        format!("{:?}", stats),
        "HnswStats { distances_computed: 0, nhops: 0 }"
    );
}

#[test]
fn store_gives_back_what_was_added() {
    let mut store = VectorStoreImpl::new(2);
    assert_eq!(store.len(), 0);
    store.add(as_ref(&[1, 2]), b"one");
    store.add(as_ref(&[3, 4]), b"");
    store.add(as_ref(&[5, 6]), b"three");
    assert_eq!(store.len(), 3);
    let records: Vec<(Vec<u32>, Vec<u8>)> = (0..3)
        .map(|i| (store.vec_ref(i).as_slice().to_vec(), store.info(i).to_vec()))
        .collect();
    assert_eq!(
        records,
        vec![
            (vec![1, 2], b"one".to_vec()),
            (vec![3, 4], vec![]),
            (vec![5, 6], b"three".to_vec()),
        ]
    );
    let accessor = store.get_vector(2).unwrap();
    assert_eq!(accessor.vec_ref().as_slice(), &[5, 6]);
    assert_eq!(accessor.vec_ref().dimension(), 2);
    assert_eq!(accessor.info(), b"three");
}

#[test]
fn vectors_may_have_no_components() {
    let mut store = VectorStoreImpl::new(0);
    store.add(as_ref(&[]), b"a");
    store.add(as_ref(&[]), b"b");
    assert_eq!(store.vec_ref(1).dimension(), 0);
    assert_eq!(store.info(0), b"a");
    assert_eq!(store.info(1), b"b");
}

#[test]
fn insertion_links_both_ways() {
    let index = index_of(opts(2, 8, 3), &[(10, 0), (20, 0), (14, 0)]);
    let graph = index.graph.as_ref().unwrap();
    assert_eq!(neighbours(graph, 0, 0), vec![2, 1]);
    assert_eq!(neighbours(graph, 1, 0), vec![2, 0]);
    assert_eq!(
        graph.node_neighbours(2, 0),
        vec![(0usize, 4i64), (1usize, 6i64)]
    );
}

#[test]
fn insertion_links_only_shared_levels() {
    // The second node rises above the first one, and has no neighbour up there.
    let index = index_of(opts(2, 8, 3), &[(10, 1), (20, 3)]);
    let graph = index.graph.as_ref().unwrap();
    assert_eq!(graph.node_num_levels(1), 4);
    assert_eq!(neighbours(graph, 1, 0), vec![0]);
    assert_eq!(neighbours(graph, 1, 1), vec![0]);
    assert!(neighbours(graph, 1, 2).is_empty());
    assert!(neighbours(graph, 1, 3).is_empty());
    assert_eq!(neighbours(graph, 0, 1), vec![1]);
}

#[test]
fn taller_node_becomes_the_entrypoint() {
    let mut index = index_of(opts(2, 8, 3), &[(10, 1), (20, 1)]);
    assert_eq!(index.graph.as_ref().unwrap().entrypoint(), 0);
    index.insert(as_ref(&[30]), &[2], 2).unwrap();
    assert_eq!(index.graph.as_ref().unwrap().entrypoint(), 2);
    index.insert(as_ref(&[40]), &[3], 0).unwrap();
    assert_eq!(index.graph.as_ref().unwrap().entrypoint(), 2);
}

#[test]
fn full_lists_keep_the_nearest_neighbours() {
    // On the ground a node keeps four neighbours, the nearest of those it met.
    let index = index_of(
        opts(2, 8, 0),
        &[(0, 0), (100, 0), (10, 0), (90, 0), (20, 0), (80, 0), (30, 0)],
    );
    let graph = index.graph.as_ref().unwrap();
    assert_eq!(neighbours(graph, 0, 0), vec![2, 4, 6, 3]);
    for i in 0..graph.len() {
        assert!(graph.node_neighbours(i, 0).len() <= 4);
        assert!(!neighbours(graph, i, 0).contains(&i));
    }
}

#[test]
fn insertion_stats_count_what_was_looked_at() {
    let mut index = index_of(opts(2, 8, 3), &[(10, 0)]);
    // The entrypoint's own distance does not count.
    let stats = index.insert(as_ref(&[20]), &[1], 0).unwrap();
    assert_eq!(stats.distances_computed(), 0);
    assert_eq!(stats.nhops(), 1);
    let stats = index.insert(as_ref(&[30]), &[2], 0).unwrap();
    assert_eq!(stats.distances_computed(), 1);
    assert_eq!(stats.nhops(), 2);
}

#[test]
fn insertion_counts_a_node_again_on_every_level() {
    let mut index = index_of(opts(2, 8, 3), &[(10, 1), (20, 1)]);
    let stats = index.insert(as_ref(&[30]), &[2], 1).unwrap();
    assert_eq!(stats.nhops(), 4);
    assert_eq!(stats.distances_computed(), 1);
}

#[test]
fn search_counts_a_node_once() {
    let index = index_of(opts(2, 8, 3), &[(10, 1), (20, 1), (30, 1)]);
    let (hits, stats) = index
        .search(as_ref(&[29]), |_v, _d, info| info[0], 8, 8)
        .unwrap();
    assert_eq!(hits, vec![2, 1, 0]);
    assert_eq!(stats.distances_computed(), 3);
}

#[test]
fn construction_without_ef_links_nothing() {
    let index = index_of(opts(2, 0, 3), &[(10, 0), (20, 0)]);
    let graph = index.graph.as_ref().unwrap();
    assert_eq!(graph.len(), 2);
    assert!(graph.node_neighbours(0, 0).is_empty());
    assert!(graph.node_neighbours(1, 0).is_empty());
    // Only the entrypoint can be found.
    assert_eq!(find(&index, 20, 8, 8), vec![(10, 0)]);
}

#[test]
fn search_hands_out_vectors_and_distances() {
    let index = index_of(opts(2, 8, 3), &[(10, 0), (20, 0), (14, 0)]);
    let (hits, _) = index
        .search(
            as_ref(&[13]),
            |v, d, info| (v.as_slice().to_vec(), d, info.to_vec()),
            8,
            2,
        )
        .unwrap();
    assert_eq!(
        hits,
        vec![(vec![14], 1, vec![2u8]), (vec![10], 3, vec![0u8])]
    );
}

#[test]
fn nothing_asked_nothing_found() {
    let index = index_of(opts(2, 8, 3), &[(10, 1), (20, 0), (14, 0)]);
    assert!(find(&index, 13, 0, 5).is_empty());
    assert!(find(&index, 13, 5, 0).is_empty());
}

#[test]
fn no_hit_is_further_than_the_entrypoint() {
    let index = index_of(opts(2, 4, 3), &[(10, 2), (20, 0), (50, 1), (90, 0), (70, 0)]);
    for x in [0, 15, 55, 100] {
        let hits = find(&index, x, 1, 1);
        assert_eq!(hits.len(), 1);
        assert!(hits[0].0 <= (x as i64 - 10).abs());
    }
}

#[test]
fn roomy_index_is_exact() {
    let xs = [50u32, 3, 97, 41, 68, 12, 79, 26];
    let points: Vec<(u32, usize)> = xs.iter().enumerate().map(|(i, &x)| (x, i % 3)).collect();
    let index = index_of(opts(8, 8, 2), &points);
    for x in [0u32, 30, 61, 99] {
        let mut truth: Vec<(VectorDistance, u8)> = xs
            .iter()
            .enumerate()
            .map(|(i, &y)| ((x as i64 - y as i64).abs(), i as u8))
            .collect();
        truth.sort();
        for ef in 1..=8 {
            assert_eq!(find(&index, x, ef, 8), truth[..ef].to_vec());
        }
    }
}

#[test]
fn wider_search_is_no_worse_at_any_place() {
    let xs = [50u32, 3, 97, 41, 68, 12, 79, 26, 33, 88, 7, 60];
    let points: Vec<(u32, usize)> = xs.iter().enumerate().map(|(i, &x)| (x, i % 2)).collect();
    let index = index_of(opts(2, 2, 2), &points);
    for x in [0u32, 30, 64, 99] {
        for ef in 1..12 {
            let narrow = find(&index, x, ef, 12);
            let wide = find(&index, x, ef + 1, 12);
            assert!(narrow.len() <= wide.len());
            for (n, w) in narrow.iter().zip(wide.iter()) {
                assert!(w.0 <= n.0);
            }
        }
    }
}

#[test]
fn hits_are_locally_nearest() {
    let xs = [50u32, 3, 97, 41, 68, 12, 79, 26, 33, 88, 7, 60];
    let points: Vec<(u32, usize)> = xs.iter().enumerate().map(|(i, &x)| (x, i % 2)).collect();
    let index = index_of(opts(2, 2, 2), &points);
    let graph = index.graph.as_ref().unwrap();
    for x in [0u32, 30, 64, 99] {
        let hits = find(&index, x, 3, 3);
        let furthest = hits.last().unwrap().0;
        for &(_, i) in &hits {
            for n in neighbours(graph, i as usize, 0) {
                let d = (x as i64 - xs[n] as i64).abs();
                assert!(d >= furthest || hits.iter().any(|h| h.1 as usize == n));
            }
        }
    }
}

#[test]
fn exhaustive_search_finds_all() {
    let xs = [50u32, 3, 97, 41, 68, 12];
    let points: Vec<(u32, usize)> = xs.iter().map(|&x| (x, 0)).collect();
    let index = index_of(opts(2, 4, 0), &points);
    let mut found: Vec<u8> = find(&index, 0, 6, 6).into_iter().map(|h| h.1).collect();
    found.sort();
    assert_eq!(found, vec![0, 1, 2, 3, 4, 5]);
}

#[test]
fn same_insertions_give_the_same_index() {
    let points = [(50, 0), (3, 2), (97, 1), (41, 0), (68, 0)];
    let a = index_of(opts(2, 2, 3), &points);
    let b = index_of(opts(2, 2, 3), &points);
    assert_eq!(a.print_graph(), b.print_graph());
    assert_eq!(find(&a, 44, 3, 3), find(&b, 44, 3, 3));
}

#[test]
fn graph_is_listed_line_by_line() {
    let mut index: Index = HnswBuilder::new(1, opts(2, 8, 3));
    assert_eq!(index.print_graph(), "empty graph\n");
    for (i, (x, drawn)) in [(10u32, 1usize), (20, 0), (14, 1)].into_iter().enumerate() {
        index.insert(as_ref(&[x]), &[i as u8], drawn).unwrap();
    }
    assert_eq!(
        index.print_graph(),
        "entrypoint 0 has 2 levels\n\
         node 0 has 2 levels\n\
         level 0: 2 1 \n\
         level 1: 2 \n\
         node 1 has 1 levels\n\
         level 0: 2 0 \n\
         node 2 has 2 levels\n\
         level 0: 0 1 \n\
         level 1: 0 \n"
    );
}

#[test]
fn listing_writes_numbers_in_decimal() {
    let points: Vec<(u32, usize)> = (0..12).map(|i| (10 * i, 0)).collect();
    let index = index_of(opts(2, 2, 0), &points);
    let text = index.print_graph();
    assert!(text.contains("node 9 has 1 levels\nlevel 0: 8 10 7 11 \n"));
    assert!(text.contains("node 10 has 1 levels\n"));
    assert!(text.ends_with("node 11 has 1 levels\nlevel 0: 10 9 \n"));
}

#[test]
fn graph_shape_counts_levels_and_edges() {
    let empty: Index = HnswBuilder::new(1, opts(2, 8, 3));
    assert!(empty.graph_shape(4).is_none());
    let index = index_of(opts(2, 8, 3), &[(10, 1), (20, 0), (14, 1)]);
    let shape = index.graph_shape(4).unwrap();
    assert_eq!(shape.level_histogram, vec![0, 1, 2, 0]);
    assert_eq!(shape.total_edges, 8);
    assert_eq!(shape.node_count, 3);
    // The last entry takes in all nodes that are taller.
    assert_eq!(index.graph_shape(2).unwrap().level_histogram, vec![0, 3]);
    assert_eq!(index.graph_shape(0).unwrap().level_histogram, vec![3]);
    for max_levels in 0..6 {
        let hist = index.graph_shape(max_levels).unwrap().level_histogram;
        assert_eq!(hist.iter().sum::<usize>(), 3);
    }
}

#[test]
fn faiss_graph_is_taken_over() {
    let index = index_of(opts(2, 8, 3), &[(10, 0), (20, 0), (14, 0)]);
    let faiss = FaissHnsw {
        entry_point: Some((2, 1)),
        levels: vec![1, 1, 2],
        neighbors: vec![
            vec![vec![1, 2]],
            vec![vec![2]],
            vec![vec![1, 0], vec![]],
        ],
    };
    assert_eq!(faiss.levels_raw(), &vec![1, 1, 2]);
    assert_eq!(faiss.neighbors_raw(2, 0), &vec![1, 0]);
    let index = index.with_faiss_hnsw(faiss);
    let graph = index.graph.as_ref().unwrap();
    assert_eq!(graph.entrypoint(), 2);
    assert_eq!(graph.node_num_levels(2), 2);
    // Measured anew, and nearest first.
    assert_eq!(
        graph.node_neighbours(0, 0),
        vec![(2usize, 4i64), (1usize, 10i64)]
    );
    assert_eq!(
        graph.node_neighbours(2, 0),
        vec![(0usize, 4i64), (1usize, 6i64)]
    );
    assert!(graph.node_neighbours(2, 1).is_empty());
    assert_eq!(find(&index, 19, 3, 3), vec![(1, 1), (5, 2), (9, 0)]);
}

#[test]
fn faiss_graph_over_nothing_leaves_an_empty_index() {
    let index: Index = HnswBuilder::new(1, opts(2, 8, 3));
    let index = index.with_faiss_hnsw(FaissHnsw {
        entry_point: Some((0, 0)),
        levels: vec![],
        neighbors: vec![],
    });
    assert!(index.graph.is_none());
    assert_eq!(index.vector_store.len(), 0);
    assert_eq!(index.vector_store.dimension, 1);
}

#[test]
fn list_tells_whether_it_is_in_order() {
    let mut list: BoundedNearest<u8> = BoundedNearest::new(2);
    list.insert(7, 1);
    list.insert(3, 2);
    assert!(list.is_wf());
    list.items[0].0 = 8;
    assert!(!list.is_wf());
    list.items[1].0 = 8;
    assert!(list.is_wf());
    list.capacity = 1;
    assert!(!list.is_wf());
}

#[test]
fn graph_tells_whether_it_hangs_together() {
    let graph = || {
        index_of(opts(2, 8, 3), &[(10, 1), (20, 0), (14, 1)])
            .graph
            .unwrap()
    };
    assert!(graph().is_wf() && graph_is_wf(&graph()));
    assert!(graph().is_countable() && graph_is_countable(&graph()));
    // The entrypoint is no node.
    let mut g = graph();
    g.entrypoint = 3;
    assert!(!g.is_wf() && !graph_is_wf(&g));
    // The entrypoint has no level.
    let mut g = graph();
    g.nodes.push(unlinked_node(&[]));
    assert!(g.is_wf() && graph_is_wf(&g));
    g.entrypoint = 3;
    assert!(!g.is_wf() && !graph_is_wf(&g));
    // A link leads out of the graph.
    let mut g = graph();
    g.nodes[0].level_neighbours[0].items[0].1 = 3;
    assert!(!g.is_wf() && !graph_is_wf(&g));
    // A link leads to a node that does not reach its level.
    let mut g = graph();
    g.nodes[0].level_neighbours[1].items[0].1 = 1;
    assert!(!g.is_wf() && !graph_is_wf(&g));
    // A list is out of order, which a search does not mind.
    let mut g = graph();
    g.nodes[0].level_neighbours[0].items[0].0 = 99;
    assert!(!g.is_wf() && graph_is_wf(&g));
}

#[test]
fn faiss_graph_may_be_replaced_by_another() {
    let index = index_of(opts(2, 8, 3), &[(10, 0), (20, 0)]);
    // The entrypoint has no level.
    let index = index.with_faiss_hnsw(FaissHnsw {
        entry_point: Some((1, 0)),
        levels: vec![1, 0],
        neighbors: vec![vec![vec![]], vec![]],
    });
    assert!(!index.graph.as_ref().unwrap().is_wf());
    assert_eq!(index.graph_shape(2).unwrap().level_histogram, vec![1, 1]);
    let index = index.with_faiss_hnsw(FaissHnsw {
        entry_point: Some((0, 0)),
        levels: vec![1, 1],
        neighbors: vec![vec![vec![1]], vec![vec![0]]],
    });
    assert!(index.graph.as_ref().unwrap().is_wf());
    assert_eq!(find(&index, 20, 2, 1), vec![(0, 1)]);
}

#[test]
fn node_without_a_level_is_passed_by() {
    let index = index_of(opts(2, 8, 3), &[(10, 0), (20, 0), (30, 0)]);
    let mut index = index.with_faiss_hnsw(FaissHnsw {
        entry_point: Some((0, 0)),
        levels: vec![1, 0, 1],
        neighbors: vec![vec![vec![2]], vec![], vec![vec![0]]],
    });
    assert!(index.graph.as_ref().unwrap().is_wf());
    assert_eq!(find(&index, 20, 8, 8), vec![(10, 0), (10, 2)]);
    index.insert(as_ref(&[19]), &[3], 0).unwrap();
    assert_eq!(
        neighbours(index.graph.as_ref().unwrap(), 3, 0),
        vec![0, 2]
    );
}

#[test]
fn fewer_hits_cut_the_tail() {
    let index = index_of(opts(2, 8, 3), &[(10, 1), (20, 0), (14, 1), (50, 0)]);
    let all = find(&index, 13, 4, 4);
    assert_eq!(all.len(), 4);
    for top_n in 0..4 {
        assert_eq!(find(&index, 13, 4, top_n), all[..top_n].to_vec());
    }
}

#[test]
fn first_failed_read_decides() {
    // From the entrypoint the search comes to the second node, then the third.
    let index = index_of(opts(2, 8, 0), &[(10, 0), (20, 0), (30, 0)]);
    let index = index.with_faiss_hnsw(FaissHnsw {
        entry_point: Some((0, 0)),
        levels: vec![1, 1, 1],
        neighbors: vec![vec![vec![1]], vec![vec![0, 2]], vec![vec![1]]],
    });
    let mut graph = index.graph.unwrap();
    let broken = BrokenFrom {
        store: index.vector_store,
        from: 1,
    };
    let r = nearest::<i64, Line, _, _, _>(&broken, &graph, as_ref(&[30]), |_v, d, _i| d, 8, 8);
    assert_eq!(r.err().unwrap().reason, "vector 1 is missing");
    let node = new_node(&opts(2, 8, 0), 0);
    let r = insert_graph::<Line, _>(&broken, &mut graph, node, as_ref(&[30]), 8);
    assert_eq!(r.err().unwrap().reason, "vector 1 is missing");
    assert_eq!(graph.len(), 3);
}

#[test]
fn hops_stay_between_their_bounds() {
    let xs = [50u32, 3, 97, 41, 68, 12, 79, 26, 33, 88, 7, 60];
    let points: Vec<(u32, usize)> = xs.iter().enumerate().map(|(i, &x)| (x, i % 3)).collect();
    let index = index_of(opts(2, 4, 2), &points);
    let graph = index.graph.as_ref().unwrap();
    let heights: usize = (0..graph.len()).map(|i| graph.node_num_levels(i)).sum();
    let top = graph.node_num_levels(graph.entrypoint()) - 1;
    for x in [0u32, 30, 64, 99] {
        for ef in 0..12 {
            let (hits, stats) = index.search(as_ref(&[x]), |_v, d, _i| d, ef, 12).unwrap();
            assert!(stats.nhops() <= heights);
            if ef == 0 {
                assert!(stats.nhops() >= top);
            } else {
                assert!(stats.nhops() >= top + hits.len().max(1));
            }
            assert!(stats.distances_computed() >= 1);
        }
    }
}

#[test]
fn entrypoint_is_the_first_of_the_tallest() {
    let index = index_of(opts(2, 8, 3), &[(10, 0), (20, 2), (30, 1), (40, 2), (50, 0)]);
    assert_eq!(index.graph.as_ref().unwrap().entrypoint(), 1);
}

#[test]
fn connected_ground_yields_all_asked() {
    // A line of nodes, each linked to the next and the one before.
    let index = index_of(opts(2, 8, 0), &[(10, 0), (20, 0), (30, 0), (40, 0)]);
    let index = index.with_faiss_hnsw(FaissHnsw {
        entry_point: Some((0, 0)),
        levels: vec![1, 1, 1, 1],
        neighbors: vec![
            vec![vec![1]],
            vec![vec![0, 2]],
            vec![vec![1, 3]],
            vec![vec![2]],
        ],
    });
    for ef in 0..6 {
        assert_eq!(find(&index, 35, ef, 9).len(), ef.min(4));
        assert_eq!(find(&index, 35, ef, 2).len(), ef.min(2));
    }
    let exact: Vec<VectorDistance> = find(&index, 35, 4, 3).into_iter().map(|h| h.0).collect();
    assert_eq!(exact, vec![5, 5, 15]);
}

#[test]
fn new_node_is_linked_to_its_nearest() {
    let mut index = index_of(opts(2, 8, 0), &[(10, 0), (90, 0), (20, 0), (80, 0), (30, 0)]);
    index.insert(as_ref(&[24]), &[5], 0).unwrap();
    let graph = index.graph.as_ref().unwrap();
    assert_eq!(
        graph.node_neighbours(5, 0),
        vec![(2usize, 4i64), (4, 6), (0, 14), (3, 56)]
    );
}

#[test]
fn highest_level_may_be_beyond_counting() {
    let index = index_of(opts(2, 8, usize::MAX), &[(10, 0), (20, 5)]);
    assert_eq!(index.graph.as_ref().unwrap().node_num_levels(1), 6);
    assert_eq!(find(&index, 20, 2, 2), vec![(0, 1), (10, 0)]);
}

#[test]
fn unread_vectors_may_be_missing() {
    // No link leads to the third node, so that it is never read.
    let index = index_of(opts(2, 8, 0), &[(10, 0), (20, 0), (14, 0)]);
    let index = index.with_faiss_hnsw(FaissHnsw {
        entry_point: Some((0, 0)),
        levels: vec![1, 1, 1],
        neighbors: vec![vec![vec![1]], vec![vec![0]], vec![vec![0]]],
    });
    let mut graph = index.graph.unwrap();
    let broken = Broken {
        store: index.vector_store,
        missing: 2,
    };
    let r = nearest::<i64, Line, _, _, _>(&broken, &graph, as_ref(&[14]), |_v, d, _i| d, 8, 8);
    assert_eq!(r.unwrap().0, vec![4, 6]);
    let node = new_node(&opts(2, 8, 0), 0);
    let r = insert_graph::<Line, _>(&broken, &mut graph, node, as_ref(&[16]), 8);
    assert!(r.is_ok());
    assert_eq!(neighbours(&graph, 3, 0), vec![1, 0]);
}

#[test]
fn search_passes_on_a_failed_read() {
    let index = index_of(opts(2, 8, 3), &[(10, 0), (20, 0), (14, 0)]);
    let graph = index.graph.unwrap();
    for missing in 0..3 {
        let mut store = VectorStoreImpl::new(1);
        for x in [10, 20, 14] {
            store.add(as_ref(&[x]), &[]);
        }
        let broken = Broken { store, missing };
        let r = nearest::<i64, Line, _, _, _>(&broken, &graph, as_ref(&[12]), |_v, d, _i| d, 8, 8);
        match r {
            Err(e) => assert_eq!(e.reason, format!("vector {} is missing", missing)),
            Ok(_) => panic!("vector {} was never read", missing),
        }
    }
}

#[test]
fn failed_insertion_leaves_the_graph_alone() {
    let index = index_of(opts(2, 8, 3), &[(10, 0), (20, 0)]);
    let mut graph = index.graph.unwrap();
    let broken = Broken {
        store: index.vector_store,
        missing: 1,
    };
    let node = new_node(&opts(2, 8, 3), 2);
    let r = insert_graph::<Line, _>(&broken, &mut graph, node, as_ref(&[14]), 8);
    assert!(r.is_err());
    assert_eq!(graph.len(), 2);
    assert_eq!(graph.entrypoint(), 0);
    assert_eq!(neighbours(&graph, 0, 0), vec![1]);
    assert_eq!(neighbours(&graph, 1, 0), vec![0]);
}
