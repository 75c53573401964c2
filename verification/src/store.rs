//! Where the vectors are kept.
use vstd::prelude::*;

use crate::vector::{VectorItem, VectorRef};

verus! {

/// Why a vector could not be read.
#[derive(Debug)]
pub struct HummockError {
    pub reason: String,
}

pub type HummockResult<T> = Result<T, HummockError>;

/// One vector of a store, with the bytes that were stored along with it.
pub trait VectorAccessor {
    /// The components of the vector.
    spec fn spec_vector(&self) -> Seq<VectorItem>;

    /// The bytes stored along with it.
    spec fn spec_info(&self) -> Seq<u8>;

    /// Whether there is a vector to be read.
    spec fn readable(&self) -> bool;

    /// The vector.
    fn vec_ref(&self) -> (r: VectorRef<'_>)
        requires
            self.readable(),
        ensures
            r@ == self.spec_vector(),
    ;

    /// The bytes stored along with it.
    fn info(&self) -> (r: &[u8])
        requires
            self.readable(),
        ensures
            r@ == self.spec_info(),
    ;
}

/// A store of vectors, numbered from zero.
pub trait VectorStore {
    type Accessor<'a>: VectorAccessor where Self: 'a;

    /// The number of vectors.
    spec fn spec_len(&self) -> nat;

    /// The components of a vector.
    spec fn vector_at(&self, i: int) -> Seq<VectorItem>;

    /// The bytes stored along with a vector.
    spec fn info_at(&self, i: int) -> Seq<u8>;

    /// Whether reading never fails.
    spec fn always_reads(&self) -> bool;

    /// Whether the store is in a state in which it can be read.
    spec fn wf(&self) -> bool;

    /// Reads a vector.
    fn get_vector(&self, idx: usize) -> (r: HummockResult<Self::Accessor<'_>>)
        requires
            self.wf(),
            idx < self.spec_len(),
        ensures
            self.always_reads() ==> r is Ok,
            r matches Ok(a) ==> {
                &&& a.readable()
                &&& a.spec_vector() == self.vector_at(idx as int)
                &&& a.spec_info() == self.info_at(idx as int)
            },
    ;
}

/// Vectors of one dimension, in memory.
pub struct VectorStoreImpl {
    pub dimension: usize,
    pub vector_payload: Vec<VectorItem>,
    pub info_payload: Vec<u8>,
    pub info_offsets: Vec<usize>,
}

/// A vector of a store in memory.
pub struct VectorStoreImplAccessor<'a> {
    pub vector_store_impl: &'a VectorStoreImpl,
    pub idx: usize,
}

/// The place behind the bytes of the `i`th record, the last of which end with
/// the payload.
pub open spec fn info_end(offsets: Seq<usize>, payload: int, i: int) -> int {
    if i < offsets.len() - 1 {
        offsets[i + 1] as int
    } else {
        payload
    }
}

/// A vector with the bytes that were stored along with it.
pub struct Record {
    pub vector: Seq<VectorItem>,
    pub info: Seq<u8>,
}

impl VectorStoreImpl {
    /// The `i`th record.
    pub open spec fn record(&self, i: int) -> Record {
        Record {
            vector: self.vector_payload@.subrange(
                i * self.dimension,
                i * self.dimension + self.dimension,
            ),
            info: self.info_payload@.subrange(
                self.info_offsets@[i] as int,
                info_end(self.info_offsets@, self.info_payload@.len() as int, i),
            ),
        }
    }

    /// The records, in the order in which they were added.
    pub open spec fn view(&self) -> Seq<Record> {
        Seq::new(self.info_offsets@.len(), |i: int| self.record(i))
    }

    /// One vector for each record, and the records' bytes back to back.
    pub open spec fn packed(&self) -> bool {
        &&& self.vector_payload@.len() == self.info_offsets@.len() * self.dimension
        &&& forall|i: int|
            0 <= i < self.info_offsets@.len() ==> (#[trigger] self.info_offsets@[i]) <= info_end(
                self.info_offsets@,
                self.info_payload@.len() as int,
                i,
            )
        &&& forall|i: int|
            0 <= i < self.info_offsets@.len() ==> (#[trigger] self.info_offsets@[i])
                <= self.info_payload@.len()
    }

    /// An empty store for vectors of a dimension.
    pub fn new(dimension: usize) -> (r: Self)
        ensures
            r.packed(),
            r.dimension == dimension,
            r@ == Seq::<Record>::empty(),
    {
        let r = VectorStoreImpl {
            dimension,
            vector_payload: Vec::new(),
            info_payload: Vec::new(),
            info_offsets: Vec::new(),
        };
        assert(r@ =~= Seq::empty());
        r
    }

    /// The number of records.
    pub fn len(&self) -> (r: usize)
        ensures
            r == self@.len(),
    {
        self.info_offsets.len()
    }

    /// The vector of a record.
    pub fn vec_ref(&self, idx: usize) -> (r: VectorRef<'_>)
        requires
            self.packed(),
            idx < self@.len(),
        ensures
            r@ == self@[idx as int].vector,
    {
        proof {
            lemma_within(idx as int, self.info_offsets@.len() as int, self.dimension as int);
            assert(self.vector_payload@.len() == self.vector_payload.len());
        }
        let start: usize = idx * self.dimension;
        let end: usize = start + self.dimension;
        VectorRef::from_slice_unchecked(
            vstd::slice::slice_subrange(self.vector_payload.as_slice(), start, end),
        )
    }

    /// The bytes of a record.
    pub fn info(&self, idx: usize) -> (r: &[u8])
        requires
            self.packed(),
            idx < self@.len(),
        ensures
            r@ == self@[idx as int].info,
    {
        let start: usize = self.info_offsets[idx];
        let end: usize = if idx < self.info_offsets.len() - 1 {
            self.info_offsets[idx + 1]
        } else {
            self.info_payload.len()
        };
        vstd::slice::slice_subrange(self.info_payload.as_slice(), start, end)
    }

    /// Adds a record.
    pub fn add(&mut self, vec: VectorRef<'_>, info: &[u8])
        requires
            old(self).packed(),
            vec@.len() == old(self).dimension,
        ensures
            final(self).packed(),
            final(self).dimension == old(self).dimension,
            final(self)@ == old(self)@.push(Record { vector: vec@, info: info@ }),
    {
        let ghost n = self.info_offsets@.len() as int;
        let ghost dim = self.dimension as int;
        self.vector_payload.extend_from_slice(vec.as_slice());
        let offset: usize = self.info_payload.len();
        self.info_payload.extend_from_slice(info);
        self.info_offsets.push(offset);
        proof {
            let before = *old(self);
            assert(self.vector_payload@ =~= before.vector_payload@ + vec@);
            assert(self.info_payload@ =~= before.info_payload@ + info@);
            assert((n + 1) * dim == n * dim + dim) by (nonlinear_arith);
            assert forall|i: int| 0 <= i < n implies self.record(i) == before.record(i) by {
                lemma_within(i, n, dim);
                assert(self.info_offsets@[i] == before.info_offsets@[i]);
                assert(before.info_offsets@[i] <= info_end(
                    before.info_offsets@,
                    before.info_payload@.len() as int,
                    i,
                ));
                if i < n - 1 {
                    assert(before.info_offsets@[i + 1] <= before.info_payload@.len());
                    assert(self.info_offsets@[i + 1] == before.info_offsets@[i + 1]);
                } else {
                    assert(self.info_offsets@[i + 1] == before.info_payload@.len());
                }
                assert(self.record(i).vector =~= before.record(i).vector);
                assert(self.record(i).info =~= before.record(i).info);
            }
            assert(self.record(n).vector =~= vec@);
            assert(self.record(n).info =~= info@);
            assert(self@ =~= before@.push(Record { vector: vec@, info: info@ }));
        }
    }
}

proof fn lemma_within(i: int, n: int, dim: int)
    by (nonlinear_arith)
    requires
        0 <= i < n,
        0 <= dim,
    ensures
        0 <= i * dim,
        i * dim + dim <= n * dim,
{
}

impl VectorAccessor for VectorStoreImplAccessor<'_> {
    open spec fn spec_vector(&self) -> Seq<VectorItem> {
        self.vector_store_impl@[self.idx as int].vector
    }

    open spec fn spec_info(&self) -> Seq<u8> {
        self.vector_store_impl@[self.idx as int].info
    }

    open spec fn readable(&self) -> bool {
        self.vector_store_impl.packed() && self.idx < self.vector_store_impl@.len()
    }

    fn vec_ref(&self) -> (r: VectorRef<'_>) {
        self.vector_store_impl.vec_ref(self.idx)
    }

    fn info(&self) -> (r: &[u8]) {
        self.vector_store_impl.info(self.idx)
    }
}

impl VectorStore for VectorStoreImpl {
    type Accessor<'a> = VectorStoreImplAccessor<'a>;

    open spec fn spec_len(&self) -> nat {
        self@.len()
    }

    open spec fn vector_at(&self, i: int) -> Seq<VectorItem> {
        self@[i].vector
    }

    open spec fn info_at(&self, i: int) -> Seq<u8> {
        self@[i].info
    }

    open spec fn always_reads(&self) -> bool {
        true
    }

    open spec fn wf(&self) -> bool {
        self.packed()
    }

    fn get_vector(&self, idx: usize) -> (r: HummockResult<VectorStoreImplAccessor<'_>>) {
        Ok(VectorStoreImplAccessor { vector_store_impl: self, idx })
    }
}

/// A store in memory has a vector for each record, never fails to read one, and
/// reads the vector and all of the bytes that the record was added with.
pub proof fn law_store_reads_what_was_added(
    store: VectorStoreImpl,
    after: VectorStoreImpl,
    vector: Seq<VectorItem>,
    info: Seq<u8>,
    i: int,
)
    requires
        after@ == store@.push(Record { vector, info }),
        0 <= i < store@.len(),
    ensures
        store.always_reads(),
        after.spec_len() == store.spec_len() + 1,
        after.vector_at(store.spec_len() as int) == vector,
        after.info_at(store.spec_len() as int) == info,
        after.vector_at(i) == store.vector_at(i),
        after.info_at(i) == store.info_at(i),
        store.vector_at(i) == store@[i].vector,
        store.info_at(i) == store@[i].info,
        store.packed() ==> store.wf(),
{
}

} // verus!
