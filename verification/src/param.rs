//! Trainable parameters: how they come into being, are updated, and how their
//! gradients are merged.

use crate::backend::{bind, bound, can_bind, CudaBackend, Planned};
use crate::device::{binary_val, if_short, ones_val, scalar_val, zeros_val};
use crate::error::{CudaError, ShapeError};
use crate::grad::{CudaGradStore, GradMap};
use crate::launch::{Buffer, Kernel, Real};
use crate::ops::plans;
use crate::program::{lemma_val_kept, Program, Term, Val};
use crate::rules::saved;
use crate::shape::{numel, span};
use crate::tape::{node_key, saved_f32, TapeView};
use crate::tensor::{same_shape, CudaTensor, Dtype, NodeId, ParamId, Shape};
use std::sync::Arc;
use vstd::prelude::*;

verus! {

/// A trainable parameter: its current value, and the identifier under which
/// gradients are stored.
#[derive(Debug)]
pub struct CudaParam {
    pub tensor: CudaTensor,
    pub id: ParamId,
}

impl CudaParam {
    /// The parameter's identifier.
    pub fn param_id(&self) -> (id: ParamId)
        ensures
            id == self.id,
    {
        self.id
    }

    /// The parameter's current value.
    pub fn as_tensor(&self) -> (t: &CudaTensor)
        ensures
            *t == self.tensor,
    {
        &self.tensor
    }
}

/// The tensor `t` as the value of the parameter `id`, standing at `n`.
pub open spec fn leaf_of(t: CudaTensor, id: ParamId, n: NodeId) -> CudaTensor {
    CudaTensor { node_id: Some(n), origin: Some(id), ..t }
}

/// The tape and the value when a parameter takes the value `t`: recorded as a
/// leaf, unless operations are not recorded.
pub open spec fn adopted(v: TapeView, grad: bool, t: CudaTensor, id: ParamId) -> (
    TapeView,
    CudaTensor,
) {
    if grad {
        (v.with_leaf(id, t.dims()), leaf_of(t, id, v.node(v.entries.len() as int)))
    } else {
        (v, t)
    }
}

/// `value - lr * grad`.
pub open spec fn stepped_val(value: Val, grad: Val, lr: Real) -> Result<Val, CudaError> {
    if value.dims != grad.dims {
        Err(CudaError::Shape(ShapeError::ShapesDiffer { op: "sgd_step" }))
    } else {
        if_short(
            Kernel::MulScalar,
            grad.count(),
            binary_val(Kernel::Sub, value, scalar_val(Kernel::MulScalar, grad, lr)),
        )
    }
}

/// Whether `f`, run on `b` with nothing recorded, can end in `e` and `out`.
pub open spec fn ran_quietly<R, F: FnOnce(CudaBackend) -> (CudaBackend, R)>(
    f: F,
    b: CudaBackend,
    e: CudaBackend,
    out: R,
) -> bool {
    f.ensures((CudaBackend { grad: false, ..b },), (e, out))
}

/// A new leaf does not lose track of any tensor.
proof fn lemma_tracks_leaf(v: TapeView, p: ParamId, d: Seq<usize>, u: CudaTensor)
    requires
        v.wf(),
        v.entries.len() < u32::MAX,
        v.params.contains_key(p.0) ==> v.params[p.0] == d,
        v.tracks(u),
    ensures
        v.with_leaf(p, d).tracks(u),
{
    let w = v.with_leaf(p, d);
    let n = v.entries.len() as int;
    assert(w.known.contains_key(node_key(v.node(n))));
    if u.origin is None {
        if let Some(m) = u.node_id {
            assert(v.live(m, u.dims()));
            assert(node_key(m) != node_key(v.node(n)));
        }
    }
}

impl CudaBackend {
    /// Records `t` as the current value of the parameter `id`.
    pub fn register_leaf(&mut self, t: CudaTensor, id: ParamId) -> (r: CudaTensor)
        requires
            old(self).wf(),
            old(self).tape@.entries.len() < u32::MAX,
            id.0 < old(self).next_param_id,
            old(self).tape@.params.contains_key(id.0) ==> old(self).tape@.params[id.0] == t.dims(),
        ensures
            (final(self).tape@, r) == adopted(old(self).tape@, true, t, id),
            final(self).wf(),
            final(self).next_param_id == old(self).next_param_id,
            final(self).grad == old(self).grad,
            final(self).tape@.extends(old(self).tape@),
            final(self).tape@.tracks(r),
            forall|u: CudaTensor| #[trigger]
                old(self).tape@.tracks(u) ==> final(self).tape@.tracks(u),
    {
        let ghost v = self.tape@;
        let n = self.tape.push_leaf(id, &t.shape);
        proof {
            assert forall|u: CudaTensor| #[trigger] v.tracks(u) implies self.tape@.tracks(u) by {
                lemma_tracks_leaf(v, id, t.dims(), u);
            }
        }
        t.with_node_id(n).with_origin(id)
    }

    /// Makes `t` the value of the parameter `id`.
    fn adopt(&mut self, t: CudaTensor, id: ParamId) -> (r: CudaTensor)
        requires
            old(self).wf(),
            old(self).tape@.entries.len() < u32::MAX,
            id.0 < old(self).next_param_id,
            old(self).tape@.params.contains_key(id.0) ==> old(self).tape@.params[id.0] == t.dims(),
            old(self).tape@.tracks(t),
        ensures
            (final(self).tape@, r) == adopted(old(self).tape@, old(self).grad, t, id),
            final(self).wf(),
            final(self).next_param_id == old(self).next_param_id,
            final(self).grad == old(self).grad,
            final(self).tape@.extends(old(self).tape@),
            final(self).tape@.tracks(r),
            forall|u: CudaTensor| #[trigger]
                old(self).tape@.tracks(u) ==> final(self).tape@.tracks(u),
    {
        if self.grad {
            self.register_leaf(t, id)
        } else {
            proof {
                let v = self.tape@;
                assert(v.entries.subrange(0, v.entries.len() as int) =~= v.entries);
            }
            t
        }
    }

    /// A new parameter of `len` floats of the caller's: its identifier, and
    /// how its value is made.
    pub fn param_from_slice_f32(&mut self, len: usize, shape: &Shape) -> (r: (ParamId, Planned))
        requires
            old(self).wf(),
            old(self).next_param_id < u64::MAX,
            span(shape@) <= usize::MAX,
            len == numel(shape@),
        ensures
            r.0.0 == old(self).next_param_id,
            plans(Ok(r.1), Ok(Val { term: Term::Upload(len as nat), dims: shape@ })),
            r.1.before is None,
            r.1.record is None,
            *final(self) == (CudaBackend {
                next_param_id: (old(self).next_param_id + 1) as u64,
                ..*old(self)
            }),
            final(self).wf(),
            !final(self).tape@.params.contains_key(r.0.0),
    {
        let id = self.alloc_param_id();
        (id, self.from_slice_f32(len, shape))
    }

    /// A new parameter of zeros. The identifier is spent even where the
    /// element type is refused.
    pub fn param_zeros(&mut self, shape: &Shape, dtype: Dtype) -> (r: Result<
        (ParamId, Planned),
        CudaError,
    >)
        requires
            old(self).wf(),
            old(self).next_param_id < u64::MAX,
            span(shape@) <= usize::MAX,
        ensures
            match r {
                Ok((id, p)) => {
                    &&& dtype == Dtype::F32
                    &&& id.0 == old(self).next_param_id
                    &&& plans(Ok(p), Ok(zeros_val(shape@)))
                    &&& p.before is None
                    &&& p.record is None
                    &&& !final(self).tape@.params.contains_key(id.0)
                },
                Err(e) => dtype != Dtype::F32 && e == CudaError::Unsupported(
                    "zeros: only Dtype::F32 is supported in B4; bf16/f16/i64 land later",
                ),
            },
            *final(self) == (CudaBackend {
                next_param_id: (old(self).next_param_id + 1) as u64,
                ..*old(self)
            }),
            final(self).wf(),
    {
        let id = self.alloc_param_id();
        let p = self.zeros(shape, dtype)?;
        Ok((id, p))
    }

    /// A new parameter of ones. The identifier is spent even where the
    /// element type is refused.
    pub fn param_ones(&mut self, shape: &Shape, dtype: Dtype) -> (r: Result<
        (ParamId, Planned),
        CudaError,
    >)
        requires
            old(self).wf(),
            old(self).next_param_id < u64::MAX,
            span(shape@) <= usize::MAX,
        ensures
            match r {
                Ok((id, p)) => {
                    &&& dtype == Dtype::F32
                    &&& id.0 == old(self).next_param_id
                    &&& plans(Ok(p), Ok(ones_val(shape@)))
                    &&& p.before is None
                    &&& p.record is None
                    &&& !final(self).tape@.params.contains_key(id.0)
                },
                Err(e) => dtype != Dtype::F32 && e == CudaError::Unsupported(
                    "ones: only Dtype::F32 supported in B4",
                ),
            },
            *final(self) == (CudaBackend {
                next_param_id: (old(self).next_param_id + 1) as u64,
                ..*old(self)
            }),
            final(self).wf(),
    {
        let id = self.alloc_param_id();
        let p = self.ones(shape, dtype)?;
        Ok((id, p))
    }

    /// The parameter `id` with the value that `p` has made.
    pub fn new_param(&mut self, id: ParamId, p: Planned, handles: &Vec<Arc<Buffer>>) -> (r:
        CudaParam)
        requires
            old(self).wf(),
            old(self).tape@.entries.len() < u32::MAX,
            id.0 < old(self).next_param_id,
            old(self).tape@.params.contains_key(id.0) ==> old(self).tape@.params[id.0]
                == p.out.dims(),
            p.ok(),
            can_bind(p.out.buffer(), handles@),
        ensures
            r.id == id,
            exists|t: CudaTensor| #[trigger]
                bound(p.out, t, handles@) && (final(self).tape@, r.tensor) == adopted(
                    old(self).tape@,
                    old(self).grad,
                    t,
                    id,
                ),
            final(self).wf(),
            final(self).next_param_id == old(self).next_param_id,
            final(self).grad == old(self).grad,
            final(self).tape@.extends(old(self).tape@),
            final(self).tape@.tracks(r.tensor),
            r.tensor.dims() == p.out.dims(),
            p.out.storage is F32 ==> saved_f32(r.tensor),
            forall|u: CudaTensor| #[trigger]
                old(self).tape@.tracks(u) ==> final(self).tape@.tracks(u),
    {
        let t = bind(&p.out, handles);
        let ghost u = t;
        let tensor = self.adopt(t, id);
        assert(bound(p.out, u, handles@));
        CudaParam { tensor, id }
    }

    /// An existing tensor as a new parameter. The storage is shared.
    pub fn param_from_tensor(&mut self, t: &CudaTensor) -> (r: CudaParam)
        requires
            old(self).wf(),
            old(self).tape@.entries.len() < u32::MAX,
            old(self).next_param_id < u64::MAX,
            old(self).tape@.tracks(*t),
        ensures
            r.id.0 == old(self).next_param_id,
            (final(self).tape@, r.tensor) == adopted(
                old(self).tape@,
                old(self).grad,
                *t,
                r.id,
            ),
            final(self).wf(),
            final(self).next_param_id == old(self).next_param_id + 1,
            final(self).grad == old(self).grad,
            final(self).tape@.extends(old(self).tape@),
            final(self).tape@.tracks(r.tensor),
            forall|u: CudaTensor| #[trigger]
                old(self).tape@.tracks(u) ==> final(self).tape@.tracks(u),
    {
        let id = self.alloc_param_id();
        let tensor = self.adopt(t.clone(), id);
        CudaParam { tensor, id }
    }

    /// The same values, cut off from any graph.
    pub fn detach(&self, t: &CudaTensor) -> (r: CudaTensor)
        ensures
            r == (CudaTensor { node_id: None, origin: None, ..*t }),
    {
        t.detached()
    }

    /// How `param - lr * grad` is made.
    pub fn sgd_step(&self, param: &CudaParam, grad: &CudaTensor, lr: Real) -> (r: Result<
        Planned,
        CudaError,
    >)
        requires
            saved_f32(param.tensor),
            saved_f32(*grad),
        ensures
            plans(r, stepped_val(saved(param.tensor), saved(*grad), lr)),
            r matches Ok(p) ==> p.before is None && p.record is None,
    {
        if !same_shape(param.tensor.shape(), grad.shape()) {
            return Err(CudaError::Shape(ShapeError::ShapesDiffer { op: "sgd_step" }));
        }
        let mut program = Program::new();
        let scaled = program.scalar_op(Kernel::MulScalar, grad, lr)?;
        let out = program.sub_inner(&param.tensor, &scaled);
        Ok(Planned { program, out, before: None, record: None })
    }

    /// Gives a parameter the value that `p` has made.
    pub fn update(&mut self, param: &mut CudaParam, p: Planned, handles: &Vec<Arc<Buffer>>)
        requires
            old(self).wf(),
            old(self).tape@.entries.len() < u32::MAX,
            old(param).id.0 < old(self).next_param_id,
            old(self).tape@.params.contains_key(old(param).id.0)
                ==> old(self).tape@.params[old(param).id.0] == p.out.dims(),
            p.ok(),
            can_bind(p.out.buffer(), handles@),
        ensures
            final(param).id == old(param).id,
            exists|t: CudaTensor| #[trigger]
                bound(p.out, t, handles@) && (final(self).tape@, final(param).tensor) == adopted(
                    old(self).tape@,
                    old(self).grad,
                    t,
                    old(param).id,
                ),
            final(self).wf(),
            final(self).next_param_id == old(self).next_param_id,
            final(self).grad == old(self).grad,
            final(self).tape@.extends(old(self).tape@),
            final(self).tape@.tracks(final(param).tensor),
            final(param).tensor.dims() == p.out.dims(),
            p.out.storage is F32 ==> saved_f32(final(param).tensor),
            forall|u: CudaTensor| #[trigger]
                old(self).tape@.tracks(u) ==> final(self).tape@.tracks(u),
    {
        let t = bind(&p.out, handles);
        let ghost u = t;
        let id = param.id;
        param.tensor = self.adopt(t, id);
        assert(bound(p.out, u, handles@));
    }

    /// Replaces a parameter's value by one of the same shape.
    pub fn assign(&mut self, param: &mut CudaParam, value: &CudaTensor) -> (r: Result<
        (),
        CudaError,
    >)
        requires
            old(self).wf(),
            old(self).tape@.entries.len() < u32::MAX,
            old(param).id.0 < old(self).next_param_id,
            old(self).tape@.params.contains_key(old(param).id.0)
                ==> old(self).tape@.params[old(param).id.0] == old(param).tensor.dims(),
            old(self).tape@.tracks(*value),
        ensures
            final(param).id == old(param).id,
            old(param).tensor.dims() != value.dims() ==> r == Err::<(), CudaError>(
                CudaError::Shape(ShapeError::ShapesDiffer { op: "assign" }),
            ) && *final(param) == *old(param) && *final(self) == *old(self),
            old(param).tensor.dims() == value.dims() ==> r is Ok && (
                final(self).tape@,
                final(param).tensor,
            ) == adopted(old(self).tape@, old(self).grad, *value, old(param).id),
            final(self).wf(),
            final(self).next_param_id == old(self).next_param_id,
            final(self).grad == old(self).grad,
            final(self).tape@.extends(old(self).tape@),
            r is Ok ==> final(self).tape@.tracks(final(param).tensor),
            forall|u: CudaTensor| #[trigger]
                old(self).tape@.tracks(u) ==> final(self).tape@.tracks(u),
    {
        if !same_shape(param.tensor.shape(), value.shape()) {
            proof {
                let v = self.tape@;
                assert(v.entries.subrange(0, v.entries.len() as int) =~= v.entries);
            }
            return Err(CudaError::Shape(ShapeError::ShapesDiffer { op: "assign" }));
        }
        let id = param.id;
        param.tensor = self.adopt(value.clone(), id);
        Ok(())
    }

    /// Runs `f` with nothing recorded, and goes back to the mode before.
    pub fn no_grad<R, F: FnOnce(CudaBackend) -> (CudaBackend, R)>(self, f: F) -> (r: (
        CudaBackend,
        R,
    ))
        requires
            f.requires((CudaBackend { grad: false, ..self },)),
        ensures
            exists|b: CudaBackend| #[trigger]
                ran_quietly(f, self, b, r.1) && r.0 == (CudaBackend { grad: self.grad, ..b }),
    {
        let mut quiet = self;
        let before: bool = quiet.set_grad(false);
        let (inner, out) = f(quiet);
        let ghost e = inner;
        let mut b = inner;
        let _ = b.set_grad(before);
        let r = (b, out);
        assert(ran_quietly(f, self, e, r.1) && r.0 == (CudaBackend { grad: self.grad, ..e }));
        r
    }

    /// Merges the gradients of `src` into `dst`: those that both hold are
    /// added. `dst` then holds tensors of the program.
    pub fn merge_grad_stores(&self, dst: &mut CudaGradStore, src: CudaGradStore) -> (p: Program)
        requires
            forall|k: u64| #[trigger] old(dst)@.contains_key(k) ==> saved_f32(old(dst)@[k]),
            forall|k: u64| #[trigger] src@.contains_key(k) ==> saved_f32(src@[k]),
            forall|k: u64|
                old(dst)@.contains_key(k) && #[trigger] src@.contains_key(k) ==> old(dst)@[k].dims()
                    == src@[k].dims() && numel(src@[k].dims()) <= u32::MAX,
        ensures
            p.wf(),
            forall|k: u64| #[trigger]
                final(dst)@.contains_key(k) <==> old(dst)@.contains_key(k) || src@.contains_key(k),
            forall|k: u64| #[trigger]
                final(dst)@.contains_key(k) ==> p.holds_f32(final(dst)@[k]) && p.val(
                    final(dst)@[k],
                ) == merged_val(old(dst)@, src@, k),
    {
        let ghost d0 = dst@;
        let ghost s0 = src@;
        let mut p = Program::new();
        let ks = src.grads.keys();
        let mut i: usize = 0;
        proof {
            assert forall|k: u64| #[trigger] d0.contains_key(k) implies p.holds_f32(d0[k]) && p.val(
                d0[k],
            ) == saved(d0[k]) by {
            }
        }
        while i < ks.len()
            invariant
                i <= ks@.len(),
                src@ == s0,
                d0 == old(dst)@,
                p.wf(),
                ks@.no_duplicates(),
                forall|k: u64| #[trigger] ks@.contains(k) <==> s0.contains_key(k),
                forall|k: u64| #[trigger] d0.contains_key(k) ==> saved_f32(d0[k]),
                forall|k: u64| #[trigger] s0.contains_key(k) ==> saved_f32(s0[k]),
                forall|k: u64|
                    d0.contains_key(k) && #[trigger] s0.contains_key(k) ==> d0[k].dims()
                        == s0[k].dims() && numel(s0[k].dims()) <= u32::MAX,
                forall|k: u64| #[trigger]
                    dst@.contains_key(k) <==> d0.contains_key(k) || ks@.take(i as int).contains(k),
                forall|k: u64| #[trigger]
                    dst@.contains_key(k) ==> p.holds_f32(dst@[k]) && p.val(dst@[k]) == (if ks@.take(
                        i as int,
                    ).contains(k) {
                        merged_val(d0, s0, k)
                    } else {
                        saved(d0[k])
                    }),
                forall|k: u64|
                    #![trigger dst@.contains_key(k)]
                    dst@.contains_key(k) && !ks@.take(i as int).contains(k) ==> dst@[k] == d0[k],
            decreases ks@.len() - i,
        {
            let pid: u64 = ks[i];
            let ghost before = dst@;
            let ghost p1 = p;
            proof {
                assert(ks@.contains(pid));
                assert(!ks@.take(i as int).contains(pid));
                assert forall|k: u64| #[trigger]
                    ks@.take(i + 1).contains(k) <==> ks@.take(i as int).contains(k) || k == pid by {
                    let a = ks@.take(i as int);
                    let b = ks@.take(i + 1);
                    assert(b =~= a.push(pid));
                    if a.contains(k) {
                        let j = choose|j: int| 0 <= j < a.len() && a[j] == k;
                        assert(b[j] == k);
                    }
                    assert(b[i as int] == pid);
                    if b.contains(k) && k != pid {
                        let j = choose|j: int| 0 <= j < b.len() && b[j] == k;
                        assert(a[j] == k);
                    }
                }
            }
            if let Some(g) = src.grads.get(pid) {
                match dst.grads.remove(pid) {
                    None => {
                        dst.grads.insert(pid, g);
                    },
                    Some(existing) => {
                        let sum = p.add_inner(&existing, &g);
                        dst.grads.insert(pid, sum);
                    },
                }
            }
            proof {
                assert forall|k: u64| #[trigger] dst@.contains_key(k) implies p.holds_f32(dst@[k])
                    && p.val(dst@[k]) == (if ks@.take(i + 1).contains(k) {
                    merged_val(d0, s0, k)
                } else {
                    saved(d0[k])
                }) && (!ks@.take(i + 1).contains(k) ==> dst@[k] == d0[k]) by {
                    if k != pid {
                        assert(before.contains_key(k));
                        assert(dst@[k] == before[k]);
                        lemma_val_kept(p1, p, before[k]);
                    }
                }
            }
            i = i + 1;
        }
        proof {
            assert(ks@.take(i as int) =~= ks@);
        }
        p
    }
}

/// What two stores together hold at `k`.
pub open spec fn merged_val(
    dst: Map<u64, CudaTensor>,
    src: Map<u64, CudaTensor>,
    k: u64,
) -> Val {
    if dst.contains_key(k) && src.contains_key(k) {
        binary_val(Kernel::Add, saved(dst[k]), saved(src[k]))
    } else if src.contains_key(k) {
        saved(src[k])
    } else {
        saved(dst[k])
    }
}

/// The same gradients, in lasting buffers.
pub fn bind_all(m: &GradMap, handles: &Vec<Arc<Buffer>>) -> (n: GradMap)
    requires
        forall|k: u64| #[trigger] m@.contains_key(k) ==> can_bind(m@[k].buffer(), handles@),
    ensures
        n@.dom() == m@.dom(),
        forall|k: u64| #[trigger]
            m@.contains_key(k) ==> bound(m@[k], n@[k], handles@) && n@[k].buffer() is Global,
{
    let mut n = GradMap::new();
    let ks = m.keys();
    let mut i: usize = 0;
    while i < ks.len()
        invariant
            i <= ks@.len(),
            forall|k: u64| #[trigger] ks@.contains(k) <==> m@.contains_key(k),
            forall|k: u64| #[trigger] m@.contains_key(k) ==> can_bind(m@[k].buffer(), handles@),
            forall|k: u64| #[trigger]
                n@.contains_key(k) ==> m@.contains_key(k) && bound(m@[k], n@[k], handles@)
                    && n@[k].buffer() is Global,
            forall|j: int| 0 <= j < i ==> n@.contains_key(#[trigger] ks@[j]),
        decreases ks@.len() - i,
    {
        let k: u64 = ks[i];
        assert(ks@.contains(k));
        if let Some(t) = m.get(k) {
            n.insert(k, bind(&t, handles));
        }
        i = i + 1;
    }
    proof {
        assert forall|k: u64| m@.contains_key(k) implies n@.contains_key(k) by {
            assert(ks@.contains(k));
            let j = choose|j: int| 0 <= j < ks@.len() && ks@[j] == k;
            assert(n@.contains_key(ks@[j]));
        }
        assert(n@.dom() =~= m@.dom());
    }
    n
}

impl CudaGradStore {
    /// Moves the gradients to lasting buffers once the program that makes
    /// them has run.
    pub fn settle(&mut self, handles: &Vec<Arc<Buffer>>)
        requires
            forall|k: u64| #[trigger]
                old(self)@.contains_key(k) ==> can_bind(old(self)@[k].buffer(), handles@),
        ensures
            final(self)@.dom() == old(self)@.dom(),
            forall|k: u64| #[trigger]
                old(self)@.contains_key(k) ==> bound(old(self)@[k], final(self)@[k], handles@)
                    && final(self)@[k].buffer() is Global,
    {
        proof {
            let m = self.grads@;
            assert forall|k: u64| #[trigger] m.contains_key(k) implies can_bind(
                m[k].buffer(),
                handles@,
            ) by {
                assert(self@.contains_key(k));
            }
        }
        self.grads = bind_all(&self.grads, handles);
    }
}

} // verus!
