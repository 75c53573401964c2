//! Lists of items ordered by distance: the bounded list of the nearest ones,
//! and the queue that gives back the nearest first.
use vstd::prelude::*;

use crate::vector::VectorDistance;

verus! {

/// Whether distances never fall along the sequence.
pub open spec fn ordered<T>(s: Seq<(VectorDistance, T)>) -> bool {
    forall|i: int, j: int| 0 <= i <= j < s.len() ==> (#[trigger] s[i]).0 <= (#[trigger] s[j]).0
}

/// The place behind the last item that is no further than `d`.
pub open spec fn rank<T>(s: Seq<(VectorDistance, T)>, d: VectorDistance) -> nat
    decreases s.len(),
{
    if s.len() == 0 {
        0
    } else if s.last().0 <= d {
        s.len()
    } else {
        rank(s.drop_last(), d)
    }
}

/// The sequence with one more item, at its place by distance and behind those
/// that are as far.
pub open spec fn insert_by_distance<T>(
    s: Seq<(VectorDistance, T)>,
    d: VectorDistance,
    item: T,
) -> Seq<(VectorDistance, T)> {
    s.insert(rank(s, d) as int, (d, item))
}

/// At most the first `capacity` items.
pub open spec fn keep_first<T>(s: Seq<T>, capacity: nat) -> Seq<T> {
    if s.len() <= capacity {
        s
    } else {
        s.take(capacity as int)
    }
}

/// The `capacity` nearest of the items and a new one.
pub open spec fn insert_bounded<T>(
    s: Seq<(VectorDistance, T)>,
    capacity: nat,
    d: VectorDistance,
    item: T,
) -> Seq<(VectorDistance, T)> {
    keep_first(insert_by_distance(s, d, item), capacity)
}

/// Whether a new item at distance `d` would be among the `capacity` nearest.
pub open spec fn admits<T>(s: Seq<(VectorDistance, T)>, capacity: nat, d: VectorDistance) -> bool {
    rank(s, d) < capacity
}

pub proof fn lemma_rank<T>(s: Seq<(VectorDistance, T)>, d: VectorDistance)
    ensures
        rank(s, d) <= s.len(),
        rank(s, d) > 0 ==> s[rank(s, d) - 1].0 <= d,
        forall|i: int| rank(s, d) <= i < s.len() ==> d < (#[trigger] s[i]).0,
        ordered(s) ==> forall|i: int| 0 <= i < rank(s, d) ==> (#[trigger] s[i]).0 <= d,
    decreases s.len(),
{
    if s.len() > 0 && s.last().0 > d {
        let t = s.drop_last();
        lemma_rank(t, d);
        assert forall|i: int| rank(s, d) <= i < s.len() implies d < (#[trigger] s[i]).0 by {
            if i < t.len() {
                assert(t[i] == s[i]);
            }
        }
        assert(ordered(s) ==> ordered(t));
        assert forall|i: int| ordered(s) && 0 <= i < rank(s, d) implies (#[trigger] s[i]).0 <= d by {
            assert(t[i] == s[i]);
        }
    }
}

/// Two sequences with the same distances give an item the same place.
pub proof fn lemma_rank_depends_on_distances<T, U>(
    s: Seq<(VectorDistance, T)>,
    t: Seq<(VectorDistance, U)>,
    d: VectorDistance,
)
    requires
        s.len() == t.len(),
        forall|i: int| 0 <= i < s.len() ==> (#[trigger] s[i]).0 == t[i].0,
    ensures
        rank(s, d) == rank(t, d),
    decreases s.len(),
{
    if s.len() > 0 {
        assert(s[s.len() - 1].0 == t[t.len() - 1].0);
        assert forall|i: int| 0 <= i < s.drop_last().len() implies (#[trigger] s.drop_last()[i]).0
            == t.drop_last()[i].0 by {
            assert(s.drop_last()[i] == s[i]);
        }
        lemma_rank_depends_on_distances(s.drop_last(), t.drop_last(), d);
    }
}

/// Inserting keeps the order.
pub proof fn lemma_insert_ordered<T>(s: Seq<(VectorDistance, T)>, d: VectorDistance, item: T)
    requires
        ordered(s),
    ensures
        ordered(insert_by_distance(s, d, item)),
        insert_by_distance(s, d, item).len() == s.len() + 1,
{
    lemma_rank(s, d);
    let p = rank(s, d) as int;
    let r = insert_by_distance(s, d, item);
    assert forall|i: int, j: int| 0 <= i <= j < r.len() implies (#[trigger] r[i]).0 <= (
    #[trigger] r[j]).0 by {
        if i < p {
            assert(r[i] == s[i]);
        } else if i > p {
            assert(r[i] == s[i - 1]);
        }
        if j < p {
            assert(r[j] == s[j]);
        } else if j > p {
            assert(r[j] == s[j - 1]);
        }
    }
}

/// Inserting with a bound keeps the order, and the bound.
pub proof fn lemma_insert_bounded<T>(
    s: Seq<(VectorDistance, T)>,
    capacity: nat,
    d: VectorDistance,
    item: T,
)
    requires
        ordered(s),
        s.len() <= capacity,
    ensures
        ordered(insert_bounded(s, capacity, d, item)),
        insert_bounded(s, capacity, d, item).len() == if s.len() < capacity {
            s.len() + 1
        } else {
            s.len()
        },
        !admits(s, capacity, d) ==> insert_bounded(s, capacity, d, item) == s,
{
    lemma_rank(s, d);
    lemma_insert_ordered(s, d, item);
    let r = insert_by_distance(s, d, item);
    let k = insert_bounded(s, capacity, d, item);
    assert forall|i: int, j: int| 0 <= i <= j < k.len() implies (#[trigger] k[i]).0 <= (
    #[trigger] k[j]).0 by {
        assert(k[i] == r[i]);
        assert(k[j] == r[j]);
    }
    if !admits(s, capacity, d) {
        assert(k =~= s);
    }
}

/// The items in order of distance, equally far ones as they came.
pub open spec fn arrange<T>(s: Seq<(VectorDistance, T)>) -> Seq<(VectorDistance, T)>
    decreases s.len(),
{
    if s.len() == 0 {
        Seq::empty()
    } else {
        insert_by_distance(arrange(s.drop_last()), s.last().0, s.last().1)
    }
}

/// Arranging gives the same items, in order.
pub proof fn lemma_arrange<T>(s: Seq<(VectorDistance, T)>)
    ensures
        ordered(arrange(s)),
        arrange(s).len() == s.len(),
        arrange(s).to_multiset() == s.to_multiset(),
    decreases s.len(),
{
    broadcast use vstd::seq_lib::group_to_multiset_ensures;

    if s.len() == 0 {
        assert(arrange(s) =~= s);
    } else {
        let t = s.drop_last();
        lemma_arrange(t);
        lemma_insert_ordered(arrange(t), s.last().0, s.last().1);
        lemma_rank(arrange(t), s.last().0);
        assert(s =~= t.push(s.last()));
    }
}

/// Keeping the first items keeps all of them or as many as the bound, and each
/// at its place.
pub proof fn law_keep_first<T>(s: Seq<T>, capacity: nat)
    ensures
        s.len() <= capacity ==> keep_first(s, capacity).len() == s.len(),
        capacity <= s.len() ==> keep_first(s, capacity).len() == capacity,
        forall|i: int|
            0 <= i < s.len() && i < capacity ==> #[trigger] keep_first(s, capacity)[i] == s[i],
{
}

/// A queue in order takes a new item in behind all that are no further and
/// before all that are, and stays in order with its other items as they were.
pub proof fn law_queue_takes_in<T>(s: Seq<(VectorDistance, T)>, d: VectorDistance, item: T)
    requires
        forall|i: int, j: int|
            0 <= i <= j < s.len() ==> (#[trigger] s[i]).0 <= (#[trigger] s[j]).0,
    ensures
        ({
            let r = insert_by_distance(s, d, item);
            &&& forall|i: int, j: int|
                0 <= i <= j < r.len() ==> (#[trigger] r[i]).0 <= (#[trigger] r[j]).0
            &&& r.to_multiset() == s.to_multiset().insert((d, item))
            &&& exists|p: int|
                {
                    &&& 0 <= p <= s.len()
                    &&& r == #[trigger] s.insert(p, (d, item))
                    &&& forall|i: int| 0 <= i < p ==> (#[trigger] s[i]).0 <= d
                    &&& forall|i: int| p <= i < s.len() ==> d < (#[trigger] s[i]).0
                }
        }),
{
    broadcast use vstd::seq_lib::group_to_multiset_ensures;

    lemma_rank(s, d);
    lemma_insert_ordered(s, d, item);
    let p = rank(s, d) as int;
    assert(insert_by_distance(s, d, item) == s.insert(p, (d, item)));
}

/// A bounded list in order takes a new item in where it has room. A full one
/// gives up its furthest item for a nearer one, and is left as it was by any
/// other. It stays in order either way.
pub proof fn law_bounded_list_takes_in<T>(
    s: Seq<(VectorDistance, T)>,
    capacity: nat,
    d: VectorDistance,
    item: T,
)
    requires
        forall|i: int, j: int|
            0 <= i <= j < s.len() ==> (#[trigger] s[i]).0 <= (#[trigger] s[j]).0,
        s.len() <= capacity,
    ensures
        takes_in(s, capacity, d, item, insert_bounded(s, capacity, d, item)),
        admits(s, capacity, d) == (s.len() < capacity || capacity > 0 && d < s.last().0),
{
    broadcast use vstd::seq_lib::group_to_multiset_ensures;

    lemma_rank(s, d);
    lemma_insert_bounded(s, capacity, d, item);
    let p = rank(s, d) as int;
    let all = insert_by_distance(s, d, item);
    let r = insert_bounded(s, capacity, d, item);
    if s.len() == capacity && capacity > 0 {
        if d < s.last().0 {
            assert(p < s.len()) by {
                if p == s.len() {
                    assert(s[p - 1].0 <= d);
                }
            }
            assert(r =~= s.drop_last().insert(p, (d, item)));
        } else {
            assert(p == s.len()) by {
                if p < s.len() {
                    assert(d < s[s.len() - 1].0);
                }
            }
        }
    }
}

/// Whether `r` is what a bounded list holds once it was offered an item: the
/// items and the new one where there is room; those but the last, and the new
/// one, where that one is nearer than the last; and else what it held.
pub open spec fn takes_in<T>(
    s: Seq<(VectorDistance, T)>,
    capacity: nat,
    d: VectorDistance,
    item: T,
    r: Seq<(VectorDistance, T)>,
) -> bool {
    &&& forall|i: int, j: int| 0 <= i <= j < r.len() ==> (#[trigger] r[i]).0 <= (#[trigger] r[j]).0
    &&& s.len() < capacity ==> r.to_multiset() == s.to_multiset().insert((d, item))
    &&& s.len() == capacity && capacity > 0 && d < s.last().0 ==> r.to_multiset()
        == s.drop_last().to_multiset().insert((d, item))
    &&& s.len() == capacity && (capacity == 0 || s.last().0 <= d) ==> r == s
}

/// Puts an item at its place by distance.
fn insert_at_rank<T>(items: &mut Vec<(VectorDistance, T)>, distance: VectorDistance, item: T)
    ensures
        final(items)@ == insert_by_distance(old(items)@, distance, item),
{
    let p: usize = find_rank(items, distance);
    proof {
        lemma_rank(items@, distance);
    }
    items.insert(p, (distance, item));
}

/// Finds the place behind the last item that is no further than `distance`.
fn find_rank<T>(items: &Vec<(VectorDistance, T)>, distance: VectorDistance) -> (p: usize)
    ensures
        p == rank(items@, distance),
{
    let mut p: usize = items.len();
    proof {
        assert(items@.take(p as int) =~= items@);
    }
    while p > 0 && items[p - 1].0 > distance
        invariant
            p <= items@.len(),
            rank(items@, distance) == rank(items@.take(p as int), distance),
        decreases p,
    {
        proof {
            let t = items@.take(p as int);
            assert(t.last() == items@[p - 1]);
            assert(t.drop_last() =~= items@.take(p - 1));
        }
        p = p - 1;
    }
    proof {
        let t = items@.take(p as int);
        if p > 0 {
            assert(t.last() == items@[p - 1]);
        }
    }
    p
}

/// The nearest items seen so far, at most `capacity` of them, nearest first.
pub struct BoundedNearest<T> {
    pub capacity: usize,
    pub items: Vec<(VectorDistance, T)>,
}

impl<T> BoundedNearest<T> {
    /// The items with their distances, nearest first.
    pub open spec fn view(&self) -> Seq<(VectorDistance, T)> {
        self.items@
    }

    /// In order, and within the bound.
    pub open spec fn wf(&self) -> bool {
        &&& ordered(self@)
        &&& self@.len() <= self.capacity
    }

    /// Tells whether the list is in order and within its bound.
    pub fn is_wf(&self) -> (r: bool)
        ensures
            r == self.wf(),
    {
        if self.items.len() > self.capacity {
            return false;
        }
        let mut k: usize = 1;
        while k < self.items.len()
            invariant
                self@ == self.items@,
                1 <= k,
                forall|i: int, j: int|
                    0 <= i <= j < k && j < self@.len() ==> (#[trigger] self@[i]).0 <= (
                    #[trigger] self@[j]).0,
            decreases self@.len() - k,
        {
            if self.items[k - 1].0 > self.items[k].0 {
                assert(self@[k - 1].0 > self@[k as int].0);
                return false;
            }
            assert forall|i: int, j: int| 0 <= i <= j < k + 1 && j < self@.len() implies (
            #[trigger] self@[i]).0 <= (#[trigger] self@[j]).0 by {
                if i < k && j == k {
                    assert(self@[i].0 <= self@[k - 1].0);
                }
            }
            k = k + 1;
        }
        true
    }

    /// An empty list for at most `capacity` items.
    pub fn new(capacity: usize) -> (r: Self)
        ensures
            r.wf(),
            r@ == Seq::<(VectorDistance, T)>::empty(),
            r.capacity == capacity,
    {
        BoundedNearest { capacity, items: Vec::new() }
    }

    /// The number of items.
    pub fn len(&self) -> (n: usize)
        ensures
            n == self@.len(),
    {
        self.items.len()
    }

    /// Whether an item at this distance would enter the list.
    pub fn admits(&self, distance: VectorDistance) -> (r: bool)
        ensures
            r == admits(self@, self.capacity as nat, distance),
    {
        find_rank(&self.items, distance) < self.capacity
    }

    /// Offers an item; one that is no nearer than the furthest of a full list
    /// is dropped, and else the furthest leaves a full list.
    pub fn insert(&mut self, distance: VectorDistance, item: T)
        requires
            old(self).wf(),
        ensures
            final(self).wf(),
            final(self)@ == insert_bounded(old(self)@, old(self).capacity as nat, distance, item),
            final(self).capacity == old(self).capacity,
    {
        proof {
            lemma_rank(self@, distance);
            lemma_insert_bounded(self@, self.capacity as nat, distance, item);
        }
        let p: usize = find_rank(&self.items, distance);
        if p < self.capacity {
            if self.items.len() == self.capacity {
                self.items.pop();
            }
            self.items.insert(p, (distance, item));
            assert(self@ =~= insert_bounded(old(self)@, old(self).capacity as nat, distance, item));
        }
    }

    /// Changes the bound; the furthest items leave where it shrinks.
    pub fn resize(&mut self, capacity: usize)
        requires
            old(self).wf(),
        ensures
            final(self).wf(),
            final(self)@ == keep_first(old(self)@, capacity as nat),
            final(self).capacity == capacity,
    {
        self.items.truncate(capacity);
        self.capacity = capacity;
        assert(self@ =~= keep_first(old(self)@, capacity as nat));
        assert(ordered(self@)) by {
            assert forall|i: int, j: int| 0 <= i <= j < self@.len() implies (#[trigger] self@[i]).0
                <= (#[trigger] self@[j]).0 by {
                assert(self@[i] == old(self)@[i]);
                assert(self@[j] == old(self)@[j]);
            }
        }
    }

    /// The furthest item of the list.
    pub fn furthest(&self) -> (r: Option<(VectorDistance, &T)>)
        ensures
            self@.len() == 0 ==> r is None,
            self@.len() > 0 ==> r == Some((self@.last().0, &self@.last().1)),
    {
        let n: usize = self.items.len();
        if n == 0 {
            None
        } else {
            Some((self.items[n - 1].0, &self.items[n - 1].1))
        }
    }

    /// Hands the items out, nearest first and at most `limit` of them, each
    /// passed through `transform`.
    pub fn collect_with<U, F: Fn(T) -> U>(self, transform: F, limit: Option<usize>) -> (r: Vec<U>)
        requires
            forall|t: T| #[trigger] call_requires(transform, (t,)),
        ensures
            ({
                let kept = match limit {
                    Some(n) => keep_first(self@, n as nat),
                    None => self@,
                };
                &&& r@.len() == kept.len()
                &&& forall|i: int|
                    0 <= i < kept.len() ==> call_ensures(transform, (kept[i].1,), #[trigger] r@[i])
            }),
    {
        let mut rest = self.items;
        match limit {
            Some(n) => {
                rest.truncate(n);
            },
            None => {},
        }
        let ghost kept = match limit {
            Some(n) => keep_first(self@, n as nat),
            None => self@,
        };
        assert(rest@ =~= kept);
        let mut turned: Vec<T> = Vec::new();
        while rest.len() > 0
            invariant
                rest@.len() + turned@.len() == kept.len(),
                rest@ =~= kept.take(rest@.len() as int),
                forall|i: int|
                    0 <= i < turned@.len() ==> #[trigger] turned@[i] == kept[kept.len() - 1 - i].1,
            decreases rest@.len(),
        {
            let ghost before = rest@;
            if let Some(e) = rest.pop() {
                assert(e == kept[before.len() - 1]);
                turned.push(e.1);
            }
        }
        let mut r: Vec<U> = Vec::new();
        while turned.len() > 0
            invariant
                forall|t: T| #[trigger] call_requires(transform, (t,)),
                r@.len() + turned@.len() == kept.len(),
                forall|i: int|
                    0 <= i < turned@.len() ==> #[trigger] turned@[i] == kept[kept.len() - 1 - i].1,
                forall|i: int|
                    0 <= i < r@.len() ==> call_ensures(transform, (kept[i].1,), #[trigger] r@[i]),
            decreases turned@.len(),
        {
            let ghost before = turned@;
            if let Some(t) = turned.pop() {
                assert(t == before[before.len() - 1]);
                assert(t == kept[r@.len() as int].1);
                r.push(transform(t));
            }
        }
        r
    }
}

/// A queue that gives the nearest of its items back first, and among equally
/// near ones the one that came first.
pub struct MinDistanceHeap<T> {
    pub items: Vec<(VectorDistance, T)>,
}

impl<T> MinDistanceHeap<T> {
    /// The items in the order in which they would come out.
    pub open spec fn view(&self) -> Seq<(VectorDistance, T)> {
        self.items@
    }

    /// An empty queue.
    pub fn new() -> (r: Self)
        ensures
            r@ == Seq::<(VectorDistance, T)>::empty(),
    {
        MinDistanceHeap { items: Vec::new() }
    }

    /// Adds an item.
    pub fn push(&mut self, distance: VectorDistance, item: T)
        ensures
            final(self)@ == insert_by_distance(old(self)@, distance, item),
    {
        insert_at_rank(&mut self.items, distance, item);
    }

    /// The nearest item.
    pub fn peek(&self) -> (r: Option<(VectorDistance, &T)>)
        ensures
            self@.len() == 0 ==> r is None,
            self@.len() > 0 ==> r == Some((self@[0].0, &self@[0].1)),
    {
        if self.items.len() == 0 {
            None
        } else {
            Some((self.items[0].0, &self.items[0].1))
        }
    }

    /// Takes the nearest item out.
    pub fn pop(&mut self) -> (r: Option<(VectorDistance, T)>)
        ensures
            old(self)@.len() == 0 ==> r is None && final(self)@ == old(self)@,
            old(self)@.len() > 0 ==> r == Some(old(self)@[0]) && final(self)@
                == old(self)@.drop_first(),
    {
        if self.items.len() == 0 {
            None
        } else {
            let r = self.items.remove(0);
            assert(self@ =~= old(self)@.drop_first());
            Some(r)
        }
    }
}

} // verus!
