//! Vectors, distances and the traits that measure them.
use vstd::prelude::*;

verus! {

/// One component of a vector, as the bit pattern of its IEEE 754 single.
pub type VectorItem = u32;

/// A distance, as an integer that orders as the distances do: the nearer of
/// two vectors has the smaller one.
pub type VectorDistance = i64;

/// The components of a vector, as contracts speak of them.
pub type Components = Seq<VectorItem>;

/// A borrowed vector.
#[derive(Clone, Copy)]
pub struct VectorRef<'a> {
    pub items: &'a [VectorItem],
}

impl<'a> VectorRef<'a> {
    /// The components.
    pub open spec fn view(&self) -> Components {
        self.items@
    }

    /// Borrows a slice of components as a vector.
    pub fn from_slice_unchecked(items: &'a [VectorItem]) -> (v: Self)
        ensures
            v@ == items@,
    {
        VectorRef { items }
    }

    /// The number of components.
    pub fn dimension(&self) -> (n: usize)
        ensures
            n == self@.len(),
    {
        self.items.len()
    }

    /// The components as a slice.
    pub fn as_slice(&self) -> (s: &'a [VectorItem])
        ensures
            s@ == self@,
    {
        self.items
    }
}

/// Measures vectors against one fixed query.
pub trait MeasureDistance {
    /// The distance from the query to a vector.
    spec fn spec_measure(&self, v: Components) -> VectorDistance;

    /// Measures one vector.
    fn measure(&self, v: VectorRef<'_>) -> (d: VectorDistance)
        ensures
            d == self.spec_measure(v@),
    ;
}

/// A kind of distance.
pub trait MeasureDistanceBuilder {
    /// What measures against one query.
    type Measure<'a>: MeasureDistance;

    /// The distance from query `q` to vector `v`.
    spec fn spec_distance(q: Components, v: Components) -> VectorDistance;

    /// Fixes the query.
    fn new<'a>(q: VectorRef<'a>) -> (m: Self::Measure<'a>)
        ensures
            forall|v: Components| #[trigger]
                m.spec_measure(v) == Self::spec_distance(q@, v),
    ;

    /// The distance between two vectors, the first of them the query.
    fn distance(q: VectorRef<'_>, v: VectorRef<'_>) -> (d: VectorDistance)
        ensures
            d == Self::spec_distance(q@, v@),
    ;
}

} // verus!
