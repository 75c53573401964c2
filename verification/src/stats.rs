//! What a search or an insertion cost.
use vstd::prelude::*;

verus! {

/// What one search or insertion cost.
#[derive(Debug)]
pub struct HnswStats {
    pub distances_computed: usize,
    pub nhops: usize,
}

impl Default for HnswStats {
    /// Nothing counted yet.
    fn default() -> (r: Self)
        ensures
            r.distances_computed == 0,
            r.nhops == 0,
    {
        HnswStats { distances_computed: 0, nhops: 0 }
    }
}

impl HnswStats {
    /// Number of **unique** vectors whose distance was computed during the query.
    pub fn distances_computed(&self) -> (r: usize)
        ensures
            r == self.distances_computed,
    {
        self.distances_computed
    }

    /// Number of nodes whose neighbours were looked at.
    pub fn nhops(&self) -> (r: usize)
        ensures
            r == self.nhops,
    {
        self.nhops
    }
}

} // verus!
