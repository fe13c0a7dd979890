//! Tensors as the planner sees them: which buffer, which shape, and how they
//! hang on the tape.

use crate::launch::{Buffer, Slice};
use crate::shape::{element_count, numel, span};
use std::sync::Arc;
use vstd::prelude::*;

verus! {

/// Element types.
#[derive(Clone, Copy, Debug, PartialEq, Eq, Structural)]
pub enum Dtype {
    F32,
    F16,
    BF16,
    I64,
}

/// Unique identifier for a trainable parameter in a training run. Keys the
/// gradient store.
#[derive(Clone, Copy, Debug, PartialEq, Eq, Hash, Structural)]
pub struct ParamId(pub u64);

/// Unique identifier of a tape entry's output.
///
/// `generation` is bumped by every clearing of the tape and `index` is the
/// position among the entries of that generation, so an identifier from a
/// cleared tape never equals one of the current tape.
#[derive(Clone, Copy, Debug, PartialEq, Eq, Hash, Structural)]
pub struct NodeId {
    pub generation: u32,
    pub index: u32,
}

/// The extents of a tensor. Cheap to clone.
pub type Shape = Arc<Vec<usize>>;

/// Device-resident storage. Cheap to clone: the handle is shared, and the
/// device memory can go when the last handle has gone.
#[derive(Debug)]
pub enum CudaStorage {
    F32(Arc<Buffer>),
    I64(Arc<Buffer>),
}

impl CudaStorage {
    pub open spec fn buffer(self) -> Buffer {
        match self {
            CudaStorage::F32(b) => *b,
            CudaStorage::I64(b) => *b,
        }
    }
}

impl Clone for CudaStorage {
    fn clone(&self) -> (r: CudaStorage)
        ensures
            r == *self,
    {
        match self {
            CudaStorage::F32(b) => CudaStorage::F32(b.clone()),
            CudaStorage::I64(b) => CudaStorage::I64(b.clone()),
        }
    }
}

/// Contiguous row-major tensor.
///
/// `node_id` is set when the tensor is the output of a recorded operation.
/// `origin` is set only on a parameter's value and its clones: such a tensor
/// finds its node through the parameter instead, so that it stays usable
/// after the tape has been cleared.
#[derive(Debug)]
pub struct CudaTensor {
    pub storage: CudaStorage,
    pub shape: Shape,
    pub node_id: Option<NodeId>,
    pub origin: Option<ParamId>,
}

impl Clone for CudaTensor {
    fn clone(&self) -> (r: CudaTensor)
        ensures
            r == *self,
    {
        CudaTensor {
            storage: self.storage.clone(),
            shape: self.shape.clone(),
            node_id: self.node_id,
            origin: self.origin,
        }
    }
}

impl CudaTensor {
    /// The extents.
    pub open spec fn dims(self) -> Seq<usize> {
        self.shape@
    }

    /// The buffer that holds the elements.
    pub open spec fn buffer(self) -> Buffer {
        self.storage.buffer()
    }

    /// Whether every stride and partial count of the shape fits.
    pub open spec fn wf(self) -> bool {
        span(self.dims()) <= usize::MAX
    }

    /// The buffer with its length.
    pub open spec fn as_slice(self) -> Slice {
        Slice { id: self.buffer(), len: numel(self.dims()) as usize }
    }

    /// A detached f32 tensor over a buffer.
    pub fn new(storage: Arc<Buffer>, shape: Shape) -> (t: CudaTensor)
        ensures
            t == (CudaTensor {
                storage: CudaStorage::F32(storage),
                shape,
                node_id: None,
                origin: None,
            }),
    {
        CudaTensor { storage: CudaStorage::F32(storage), shape, node_id: None, origin: None }
    }

    /// A detached i64 tensor over a buffer.
    pub fn new_i64(storage: Arc<Buffer>, shape: Shape) -> (t: CudaTensor)
        ensures
            t == (CudaTensor {
                storage: CudaStorage::I64(storage),
                shape,
                node_id: None,
                origin: None,
            }),
    {
        CudaTensor { storage: CudaStorage::I64(storage), shape, node_id: None, origin: None }
    }

    pub fn shape(&self) -> (s: &[usize])
        ensures
            s@ == self.dims(),
    {
        self.shape.as_slice()
    }

    pub fn dtype(&self) -> (d: Dtype)
        ensures
            d == (match self.storage {
                CudaStorage::F32(_) => Dtype::F32,
                CudaStorage::I64(_) => Dtype::I64,
            }),
    {
        match &self.storage {
            CudaStorage::F32(_) => Dtype::F32,
            CudaStorage::I64(_) => Dtype::I64,
        }
    }

    pub fn numel(&self) -> (n: usize)
        requires
            self.wf(),
        ensures
            n == numel(self.dims()),
    {
        element_count(self.shape())
    }

    /// The buffer with its length.
    pub fn slice(&self) -> (s: Slice)
        requires
            self.wf(),
        ensures
            s == self.as_slice(),
            s.len == numel(self.dims()),
    {
        proof {
            crate::shape::lemma_numel_le_span(self.dims());
        }
        let id: Buffer = match &self.storage {
            CudaStorage::F32(b) => **b,
            CudaStorage::I64(b) => **b,
        };
        Slice { id, len: self.numel() }
    }

    /// The f32 handle.
    pub fn storage(&self) -> (b: Arc<Buffer>)
        requires
            self.storage is F32,
        ensures
            self.storage == CudaStorage::F32(b),
    {
        match &self.storage {
            CudaStorage::F32(b) => b.clone(),
            CudaStorage::I64(b) => b.clone(),
        }
    }

    /// The i64 handle.
    pub fn storage_i64(&self) -> (b: Arc<Buffer>)
        requires
            self.storage is I64,
        ensures
            self.storage == CudaStorage::I64(b),
    {
        match &self.storage {
            CudaStorage::I64(b) => b.clone(),
            CudaStorage::F32(b) => b.clone(),
        }
    }

    /// The same tensor as the output of the recorded operation `nid`.
    pub fn with_node_id(self, nid: NodeId) -> (t: CudaTensor)
        ensures
            t == (CudaTensor { node_id: Some(nid), ..self }),
    {
        let mut t = self;
        t.node_id = Some(nid);
        t
    }

    /// The same tensor as the value of the parameter `id`.
    pub fn with_origin(self, id: ParamId) -> (t: CudaTensor)
        ensures
            t == (CudaTensor { origin: Some(id), ..self }),
    {
        let mut t = self;
        t.origin = Some(id);
        t
    }

    /// The same elements under another shape. The view is detached: it is one
    /// step removed from whatever node or parameter it shares data with.
    pub fn with_shape(&self, shape: Shape) -> (t: CudaTensor)
        requires
            numel(shape@) == numel(self.dims()),
        ensures
            t == (CudaTensor { storage: self.storage, shape, node_id: None, origin: None }),
    {
        CudaTensor { storage: self.storage.clone(), shape, node_id: None, origin: None }
    }

    /// The same tensor outside any graph.
    pub fn detached(&self) -> (t: CudaTensor)
        ensures
            t == (CudaTensor { node_id: None, origin: None, ..*self }),
    {
        CudaTensor {
            storage: self.storage.clone(),
            shape: self.shape.clone(),
            node_id: None,
            origin: None,
        }
    }
}

/// Whether two shapes are equal.
pub fn same_shape(a: &[usize], b: &[usize]) -> (r: bool)
    ensures
        r == (a@ == b@),
{
    if a.len() != b.len() {
        return false;
    }
    let mut i: usize = 0;
    while i < a.len()
        invariant
            i <= a.len(),
            a.len() == b.len(),
            forall|k: int| 0 <= k < i ==> #[trigger] a[k] == b[k],
        decreases a.len() - i,
    {
        if a[i] != b[i] {
            return false;
        }
        i = i + 1;
    }
    assert(a@ =~= b@);
    true
}

/// A shape of its own with the same extents.
pub fn shape_of(s: &[usize]) -> (r: Shape)
    ensures
        r@ == s@,
{
    let mut v: Vec<usize> = Vec::new();
    let mut i: usize = 0;
    while i < s.len()
        invariant
            i <= s.len(),
            v@ == s@.subrange(0, i as int),
        decreases s.len() - i,
    {
        v.push(s[i]);
        i = i + 1;
    }
    assert(s@.subrange(0, i as int) =~= s@);
    Arc::new(v)
}

} // verus!
