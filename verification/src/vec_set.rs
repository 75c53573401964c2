//! A set of small indices, kept as one flag per index.
use vstd::prelude::*;

verus! {

/// How many of the flags are set.
pub open spec fn count_set(s: Seq<bool>) -> nat
    decreases s.len(),
{
    if s.len() == 0 {
        0
    } else {
        count_set(s.drop_last()) + if s.last() {
            1nat
        } else {
            0nat
        }
    }
}

/// How many of the flags are clear.
pub open spec fn count_clear(s: Seq<bool>) -> nat {
    (s.len() - count_set(s)) as nat
}

pub proof fn lemma_count_set_bound(s: Seq<bool>)
    ensures
        count_set(s) <= s.len(),
    decreases s.len(),
{
    if s.len() > 0 {
        lemma_count_set_bound(s.drop_last());
    }
}

/// Setting a clear flag raises the count by one.
pub proof fn lemma_count_set_update(s: Seq<bool>, i: int)
    requires
        0 <= i < s.len(),
        !s[i],
    ensures
        count_set(s.update(i, true)) == count_set(s) + 1,
        count_clear(s.update(i, true)) + 1 == count_clear(s),
    decreases s.len(),
{
    let t = s.update(i, true);
    if i == s.len() - 1 {
        assert(t.drop_last() =~= s.drop_last());
    } else {
        lemma_count_set_update(s.drop_last(), i);
        assert(t.drop_last() =~= s.drop_last().update(i, true));
    }
    lemma_count_set_bound(s);
    lemma_count_set_bound(t);
}

pub proof fn lemma_count_set_none(s: Seq<bool>)
    requires
        forall|i: int| 0 <= i < s.len() ==> !s[i],
    ensures
        count_set(s) == 0,
    decreases s.len(),
{
    if s.len() > 0 {
        lemma_count_set_none(s.drop_last());
    }
}

pub proof fn lemma_count_set_all(s: Seq<bool>)
    requires
        forall|i: int| 0 <= i < s.len() ==> s[i],
    ensures
        count_set(s) == s.len(),
    decreases s.len(),
{
    if s.len() > 0 {
        lemma_count_set_all(s.drop_last());
    }
}

/// The count is the size of the set of the places whose flags are set.
pub proof fn law_count_is_size(s: Seq<bool>)
    ensures
        Set::new(|i: int| 0 <= i < s.len() && s[i]).finite(),
        Set::new(|i: int| 0 <= i < s.len() && s[i]).len() == count_set(s),
    decreases s.len(),
{
    let all = Set::new(|i: int| 0 <= i < s.len() && s[i]);
    if s.len() == 0 {
        assert(all =~= Set::<int>::empty());
    } else {
        let t = s.drop_last();
        let rest = Set::new(|i: int| 0 <= i < t.len() && t[i]);
        law_count_is_size(t);
        if s.last() {
            assert(all =~= rest.insert(s.len() - 1));
        } else {
            assert(all =~= rest);
        }
    }
}

/// A flag that is set makes for a count.
pub proof fn lemma_count_set_some(s: Seq<bool>, i: int)
    requires
        0 <= i < s.len(),
        s[i],
    ensures
        count_set(s) > 0,
    decreases s.len(),
{
    if i < s.len() - 1 {
        lemma_count_set_some(s.drop_last(), i);
    }
}

/// A full count leaves no flag clear.
pub proof fn lemma_count_set_full(s: Seq<bool>, i: int)
    requires
        count_set(s) == s.len(),
        0 <= i < s.len(),
    ensures
        s[i],
    decreases s.len(),
{
    lemma_count_set_bound(s.drop_last());
    if i < s.len() - 1 {
        lemma_count_set_full(s.drop_last(), i);
    }
}

/// More flags set, no smaller a count.
pub proof fn lemma_count_set_monotone(s: Seq<bool>, t: Seq<bool>)
    requires
        s.len() == t.len(),
        forall|i: int| 0 <= i < s.len() && s[i] ==> t[i],
    ensures
        count_set(s) <= count_set(t),
    decreases s.len(),
{
    if s.len() > 0 {
        lemma_count_set_monotone(s.drop_last(), t.drop_last());
    }
}

/// A set of indices below a fixed bound.
pub struct VecSet {
    pub payload: Vec<bool>,
}

impl VecSet {
    /// One flag per index: whether it is in the set.
    pub open spec fn view(&self) -> Seq<bool> {
        self.payload@
    }

    /// The empty set of indices below `size`.
    pub fn new(size: usize) -> (r: Self)
        ensures
            r@ == Seq::new(size as nat, |i: int| false),
    {
        let r = VecSet { payload: vec![false; size] };
        assert(r@ =~= Seq::new(size as nat, |i: int| false));
        r
    }

    /// Adds an index.
    pub fn set(&mut self, idx: usize)
        requires
            idx < old(self)@.len(),
        ensures
            final(self)@ == old(self)@.update(idx as int, true),
    {
        self.payload[idx] = true;
    }

    /// Whether an index is in the set.
    pub fn is_set(&self, idx: usize) -> (r: bool)
        requires
            idx < self@.len(),
        ensures
            r == self@[idx as int],
    {
        self.payload[idx]
    }

    /// Empties the set.
    pub fn reset(&mut self)
        ensures
            final(self)@ == Seq::new(old(self)@.len(), |i: int| false),
    {
        let n: usize = self.payload.len();
        let mut i: usize = 0;
        while i < n
            invariant
                i <= n,
                n == old(self)@.len(),
                self@.len() == n,
                forall|j: int| 0 <= j < i ==> !self@[j],
            decreases n - i,
        {
            self.payload[i] = false;
            i = i + 1;
        }
        assert(self@ =~= Seq::new(old(self)@.len(), |i: int| false));
    }
}

} // verus!
