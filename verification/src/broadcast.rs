//! NumPy-style broadcasting: shape resolution, and the host and device paths
//! of binary operations on unequal shapes.

use crate::device::{each, made, padded, padded_shape, lemma_padded};
use crate::error::{CudaError, ShapeError};
use crate::kernels::{
    addressable, broadcast_copy_f32, broadcast_mul_f32, inner, narrow_backward_f32,
    narrow_copy_f32, outer, table_of, MAX_RANK,
};
use crate::device::resized_shape;
use crate::launch::{first_long, too_long, Buffer, Kernel, Slice};
use crate::program::{held_all, held_args, HostTask, HostTaskView, Program, Term, TermArg, Val};
use crate::shape::{
    element_count, expanded_strides, expands_to, lemma_numel_axis, lemma_numel_le_span,
    lemma_span_run, numel, row_major, span, tail,
};
use crate::tensor::{CudaTensor, Shape};
use std::sync::Arc;
use vstd::prelude::*;

verus! {

/// The common extent of two that agree or of which one is one.
pub open spec fn joint(x: usize, y: usize) -> usize {
    if x == y {
        x
    } else if x == 1 {
        y
    } else {
        x
    }
}

/// The first axis from `i` on at which two equal-rank shapes cannot be
/// broadcast together.
pub open spec fn first_clash(a: Seq<usize>, b: Seq<usize>, i: int) -> Option<int>
    decreases a.len() - i,
{
    if i < 0 || i >= a.len() {
        None
    } else if a[i] != b[i] && a[i] != 1 && b[i] != 1 {
        Some(i)
    } else {
        first_clash(a, b, i + 1)
    }
}

/// The greater of two ranks.
pub open spec fn joint_rank(a: Seq<usize>, b: Seq<usize>) -> nat {
    if a.len() >= b.len() {
        a.len()
    } else {
        b.len()
    }
}

/// `a` with leading extents of one up to the joint rank.
pub open spec fn aligned(a: Seq<usize>, b: Seq<usize>) -> Seq<usize> {
    padded(a, (joint_rank(a, b) - a.len()) as nat)
}

/// The shape of a broadcast of two shapes that can be broadcast together.
pub open spec fn joint_dims(a: Seq<usize>, b: Seq<usize>) -> Seq<usize> {
    Seq::new(joint_rank(a, b), |i: int| joint(aligned(a, b)[i], aligned(b, a)[i]))
}

/// Whether two shapes can be broadcast together.
pub open spec fn compatible(a: Seq<usize>, b: Seq<usize>) -> bool {
    first_clash(aligned(a, b), aligned(b, a), 0) is None
}

/// The error for two shapes that cannot.
pub open spec fn clash_error(a: Seq<usize>, b: Seq<usize>) -> CudaError {
    let i = first_clash(aligned(a, b), aligned(b, a), 0)->0;
    CudaError::Shape(
        ShapeError::ExtentMismatch {
            op: "broadcast",
            axis: i as usize,
            lhs: aligned(a, b)[i],
            rhs: aligned(b, a)[i],
        },
    )
}

proof fn lemma_first_clash(a: Seq<usize>, b: Seq<usize>, i: int, k: int)
    requires
        a.len() == b.len(),
        first_clash(a, b, i) is None,
        0 <= i <= k < a.len(),
    ensures
        a[k] == b[k] || a[k] == 1 || b[k] == 1,
    decreases a.len() - i,
{
    if i < k {
        lemma_first_clash(a, b, i + 1, k);
    }
}

proof fn lemma_clash_symmetric(a: Seq<usize>, b: Seq<usize>, i: int)
    requires
        a.len() == b.len(),
    ensures
        first_clash(a, b, i) == first_clash(b, a, i),
    decreases a.len() - i,
{
    if 0 <= i < a.len() {
        lemma_clash_symmetric(a, b, i + 1);
    }
}

/// An operand's span never exceeds that of the shape it is expanded to.
pub proof fn lemma_span_expand(a: Seq<usize>, d: Seq<usize>)
    requires
        expands_to(a, d),
    ensures
        span(a) <= span(d),
    decreases a.len(),
{
    if a.len() > 0 {
        let a1 = a.drop_first();
        let d1 = d.drop_first();
        assert(expands_to(a1, d1)) by {
            assert forall|i: int| 0 <= i < a1.len() implies #[trigger] a1[i] == d1[i] || a1[i]
                == 1 by {
                assert(a[i + 1] == d[i + 1] || a[i + 1] == 1);
            }
        }
        lemma_span_expand(a1, d1);
        lemma_numel_le_span(a1);
        assert(a[0] == d[0] || a[0] == 1);
        let x: nat = if a[0] == 0 { 1 } else { a[0] as nat };
        let y: nat = if d[0] == 0 { 1 } else { d[0] as nat };
        let p = span(a1);
        let q = span(d1);
        assert(x * p <= y * q) by (nonlinear_arith)
            requires
                x <= y,
                p <= q,
        ;
    }
}

/// Both operands of a broadcast expand to its shape.
pub proof fn law_operands_expand_to_joint_shape(a: Seq<usize>, b: Seq<usize>)
    requires
        compatible(a, b),
    ensures
        expands_to(aligned(a, b), joint_dims(a, b)),
        expands_to(aligned(b, a), joint_dims(a, b)),
        span(a) <= span(joint_dims(a, b)),
        span(b) <= span(joint_dims(a, b)),
{
    let pa = aligned(a, b);
    let pb = aligned(b, a);
    let d = joint_dims(a, b);
    lemma_padded(a, (joint_rank(a, b) - a.len()) as nat);
    lemma_padded(b, (joint_rank(a, b) - b.len()) as nat);
    assert forall|i: int| 0 <= i < pa.len() implies #[trigger] pa[i] == d[i] || pa[i] == 1 by {
        lemma_first_clash(pa, pb, 0, i);
    }
    assert forall|i: int| 0 <= i < pb.len() implies #[trigger] pb[i] == d[i] || pb[i] == 1 by {
        lemma_first_clash(pa, pb, 0, i);
    }
    lemma_span_expand(pa, d);
    lemma_span_expand(pb, d);
}

/// Broadcasting does not depend on the order of its operands.
pub proof fn law_broadcast_is_symmetric(a: Seq<usize>, b: Seq<usize>)
    ensures
        compatible(a, b) == compatible(b, a),
        compatible(a, b) ==> joint_dims(a, b) == joint_dims(b, a),
{
    let pa = aligned(a, b);
    let pb = aligned(b, a);
    lemma_padded(a, (joint_rank(a, b) - a.len()) as nat);
    lemma_padded(b, (joint_rank(a, b) - b.len()) as nat);
    lemma_clash_symmetric(pa, pb, 0);
    if compatible(a, b) {
        assert forall|i: int| 0 <= i < joint_dims(a, b).len() implies joint_dims(a, b)[i]
            == joint_dims(b, a)[i] by {
            lemma_first_clash(pa, pb, 0, i);
        }
        assert(joint_dims(a, b) =~= joint_dims(b, a));
    }
}

/// A shape broadcasts with itself to itself.
pub proof fn law_equal_shapes_broadcast_to_themselves(a: Seq<usize>)
    ensures
        compatible(a, a),
        joint_dims(a, a) == a,
{
    lemma_no_self_clash(aligned(a, a), 0);
    assert(aligned(a, a) =~= a);
    assert(joint_dims(a, a) =~= a);
}

proof fn lemma_no_self_clash(a: Seq<usize>, i: int)
    ensures
        first_clash(a, a, i) is None,
    decreases a.len() - i,
{
    if 0 <= i < a.len() {
        lemma_no_self_clash(a, i + 1);
    }
}

/// Resolves a broadcast: both operands padded with leading ones to the joint
/// rank, and the shape of the result.
pub fn broadcast_out_shape(a_shape: &[usize], b_shape: &[usize]) -> (r: Result<
    (Shape, Shape, Shape),
    CudaError,
>)
    ensures
        match r {
            Ok((pa, pb, out)) => {
                &&& compatible(a_shape@, b_shape@)
                &&& pa@ == aligned(a_shape@, b_shape@)
                &&& pb@ == aligned(b_shape@, a_shape@)
                &&& out@ == joint_dims(a_shape@, b_shape@)
            },
            Err(e) => !compatible(a_shape@, b_shape@) && e == clash_error(a_shape@, b_shape@),
        },
{
    let rank: usize = if a_shape.len() >= b_shape.len() {
        a_shape.len()
    } else {
        b_shape.len()
    };
    let pa = padded_shape(a_shape, rank - a_shape.len());
    let pb = padded_shape(b_shape, rank - b_shape.len());
    let mut out: Vec<usize> = Vec::new();
    let mut i: usize = 0;
    while i < rank
        invariant
            i <= rank,
            rank == joint_rank(a_shape@, b_shape@),
            pa@ == aligned(a_shape@, b_shape@),
            pb@ == aligned(b_shape@, a_shape@),
            pa@.len() == rank,
            pb@.len() == rank,
            out@ == joint_dims(a_shape@, b_shape@).subrange(0, i as int),
            first_clash(pa@, pb@, 0) == first_clash(pa@, pb@, i as int),
        decreases rank - i,
    {
        let da: usize = pa[i];
        let db: usize = pb[i];
        if da == db {
            out.push(da);
        } else if da == 1 {
            out.push(db);
        } else if db == 1 {
            out.push(da);
        } else {
            return Err(
                CudaError::Shape(
                    ShapeError::ExtentMismatch { op: "broadcast", axis: i, lhs: da, rhs: db },
                ),
            );
        }
        i = i + 1;
        assert(out@ =~= joint_dims(a_shape@, b_shape@).subrange(0, i as int));
    }
    assert(out@ =~= joint_dims(a_shape@, b_shape@));
    Ok((pa, pb, Arc::new(out)))
}

/// The host path of a broadcast sum or difference.
pub open spec fn host_broadcast_val(subtract: bool, a: Val, b: Val) -> Result<Val, CudaError> {
    if !compatible(a.dims, b.dims) {
        Err(clash_error(a.dims, b.dims))
    } else {
        let out = joint_dims(a.dims, b.dims);
        Ok(
            Val {
                term: Term::Host {
                    task: HostTaskView::Broadcast {
                        subtract,
                        a: aligned(a.dims, b.dims),
                        b: aligned(b.dims, a.dims),
                        out,
                    },
                    inputs: seq![a.term, b.term],
                },
                dims: out,
            },
        )
    }
}

/// The device path of a broadcast product.
pub open spec fn broadcast_mul_val(a: Val, b: Val) -> Result<Val, CudaError> {
    let op = "broadcast_mul_f32";
    if !compatible(a.dims, b.dims) {
        Err(clash_error(a.dims, b.dims))
    } else {
        let out = joint_dims(a.dims, b.dims);
        let n = numel(out);
        let rank = out.len();
        if rank > MAX_RANK {
            Err(CudaError::Shape(ShapeError::RankAbove { op, rank: rank as usize, limit: MAX_RANK }))
        } else if n > u32::MAX {
            Err(too_long(op, n as usize))
        } else {
            Ok(
                Val {
                    term: each(
                        Kernel::BroadcastMul,
                        n,
                        seq![
                            TermArg::Value(a.term),
                            TermArg::Value(b.term),
                            TermArg::Value(Term::Zeros(n)),
                            TermArg::Table(table_of(expanded_strides(aligned(a.dims, b.dims)))),
                            TermArg::Table(table_of(expanded_strides(aligned(b.dims, a.dims)))),
                            TermArg::Table(table_of(row_major(out))),
                            TermArg::Word(rank as u32),
                            TermArg::Word(n as u32),
                        ],
                    ),
                    dims: out,
                },
            )
        }
    }
}

/// `v` repeated along its axes of extent one up to the shape `dims`.
pub open spec fn expanded_val(op: &'static str, v: Val, dims: Seq<usize>) -> Result<
    Val,
    CudaError,
> {
    let rank = dims.len();
    let n = numel(dims);
    if v.dims.len() != rank {
        Err(
            CudaError::Shape(
                ShapeError::RankMismatch { op, lhs: v.dims.len() as usize, rhs: rank as usize },
            ),
        )
    } else if rank > MAX_RANK {
        Err(
            CudaError::Shape(
                ShapeError::RankAbove {
                    op: "broadcast_copy_f32",
                    rank: rank as usize,
                    limit: MAX_RANK,
                },
            ),
        )
    } else if n > u32::MAX {
        Err(too_long("broadcast_copy_f32", n as usize))
    } else {
        Ok(
            Val {
                term: each(
                    Kernel::BroadcastCopy,
                    n,
                    seq![
                        TermArg::Value(v.term),
                        TermArg::Value(Term::Zeros(n)),
                        TermArg::Table(table_of(expanded_strides(v.dims))),
                        TermArg::Table(table_of(row_major(dims))),
                        TermArg::Word(rank as u32),
                        TermArg::Word(n as u32),
                    ],
                ),
                dims,
            },
        )
    }
}

/// The window `start..start + len` of `v` along the axis `dim`.
pub open spec fn narrowed_val(v: Val, dim: usize, start: usize, len: usize) -> Result<
    Val,
    CudaError,
> {
    let o = outer(v.dims, dim as int) as usize;
    let i = inner(v.dims, dim as int) as usize;
    let extent = v.dims[dim as int];
    let n = (o * len * i) as usize;
    match first_long(seq![n, o, extent, len, start, i], 0) {
        Some(bad) => Err(too_long("narrow_copy_f32", bad)),
        None => Ok(
            Val {
                term: each(
                    Kernel::NarrowCopy,
                    n as nat,
                    seq![
                        TermArg::Value(v.term),
                        TermArg::Value(Term::Zeros(n as nat)),
                        TermArg::Word(o as u32),
                        TermArg::Word(extent as u32),
                        TermArg::Word(len as u32),
                        TermArg::Word(start as u32),
                        TermArg::Word(i as u32),
                        TermArg::Word(n as u32),
                    ],
                ),
                dims: v.dims.update(dim as int, len),
            },
        ),
    }
}

/// A tensor of shape `orig` that is zero outside the window that begins at
/// `start` along `dim`, and `g` inside it.
pub open spec fn spread_val(g: Val, dim: usize, start: usize, orig: Seq<usize>) -> Result<
    Val,
    CudaError,
> {
    let op = "narrow_backward_f32";
    let o = outer(orig, dim as int) as usize;
    let i = inner(orig, dim as int) as usize;
    let extent = orig[dim as int];
    let len = g.dims[dim as int];
    let n = (o * extent * i) as usize;
    let expected = (o * len * i) as usize;
    if g.count() != expected {
        Err(
            CudaError::Shape(
                ShapeError::BufferLength { op, len: g.count() as usize, expected },
            ),
        )
    } else {
        match first_long(seq![n, extent, len, start, i], 0) {
            Some(bad) => Err(too_long(op, bad)),
            None => Ok(
                Val {
                    term: each(
                        Kernel::NarrowBackward,
                        n as nat,
                        seq![
                            TermArg::Value(g.term),
                            TermArg::Value(Term::Zeros(n as nat)),
                            TermArg::Word(extent as u32),
                            TermArg::Word(len as u32),
                            TermArg::Word(start as u32),
                            TermArg::Word(i as u32),
                            TermArg::Word(n as u32),
                        ],
                    ),
                    dims: orig,
                },
            ),
        }
    }
}

/// Shortening an axis shortens every count.
pub proof fn lemma_window_dims(s: Seq<usize>, dim: int, len: usize)
    requires
        0 <= dim < s.len(),
        len <= s[dim],
    ensures
        numel(s.update(dim, len)) == outer(s, dim) * len * inner(s, dim),
        span(s.update(dim, len)) <= span(s),
        outer(s, dim) <= span(s),
        inner(s, dim) <= span(s),
        outer(s, dim) * len <= span(s),
        outer(s, dim) * len * inner(s, dim) <= span(s),
        numel(s) == outer(s, dim) * s[dim] * inner(s, dim),
{
    let u = s.update(dim, len);
    lemma_span_run(s, 0, dim);
    lemma_span_run(s, dim + 1, s.len() as int);
    lemma_numel_axis(s, dim);
    lemma_numel_axis(u, dim);
    assert(u.subrange(0, dim) =~= s.subrange(0, dim));
    assert(tail(u, dim + 1) =~= tail(s, dim + 1));
    lemma_numel_le_span(u);
    lemma_numel_le_span(s.subrange(0, dim));
    lemma_numel_le_span(tail(s, dim + 1));
    let a = span(s.subrange(0, dim)) as int;
    let c = span(tail(s, dim + 1)) as int;
    let x = outer(s, dim) as int;
    let z = inner(s, dim) as int;
    let d = if s[dim] == 0 { 1int } else { s[dim] as int };
    let e = if len == 0 { 1int } else { len as int };
    let l = len as int;
    let t = s[dim] as int;
    assert(a * (e * c) <= a * (d * c)) by (nonlinear_arith)
        requires
            1 <= e <= d,
            1 <= a,
            1 <= c,
    ;
    assert(x * l <= a * (d * c) && x * l * z <= a * (d * c)) by (nonlinear_arith)
        requires
            0 <= x <= a,
            0 <= z <= c,
            0 <= l <= d,
            1 <= d,
            1 <= a,
            1 <= c,
    ;
    assert(x * (l * z) == x * l * z) by (nonlinear_arith);
    assert(x * (t * z) == x * t * z) by (nonlinear_arith);
}

impl Program {
    /// Broadcast sum, or difference, on the host.
    pub fn broadcast_binary_op(&mut self, subtract: bool, a: &CudaTensor, b: &CudaTensor) -> (r:
        Result<CudaTensor, CudaError>)
        requires
            old(self).wf(),
            old(self).holds_f32(*a),
            old(self).holds_f32(*b),
            compatible(a.dims(), b.dims()) ==> span(joint_dims(a.dims(), b.dims())) <= usize::MAX,
        ensures
            made(
                *old(self),
                *final(self),
                r,
                host_broadcast_val(subtract, old(self).val(*a), old(self).val(*b)),
            ),
    {
        let ghost base = *self;
        let (pa, pb, out) = broadcast_out_shape(a.shape(), b.shape())?;
        let mut inputs: Vec<Buffer> = Vec::new();
        inputs.push(a.slice().id);
        inputs.push(b.slice().id);
        let ghost ids = inputs@;
        let buf = self.host(
            HostTask::Broadcast { subtract, a: pa, b: pb, out: out.clone() },
            inputs,
        );
        proof {
            assert(held_all(base.state(), ids) =~= seq![base.val(*a).term, base.val(*b).term]);
        }
        Ok(CudaTensor::new(buf, out))
    }

    /// Broadcast product on the device.
    pub fn broadcast_mul_dev(&mut self, a: &CudaTensor, b: &CudaTensor) -> (r: Result<
        CudaTensor,
        CudaError,
    >)
        requires
            old(self).wf(),
            old(self).holds_f32(*a),
            old(self).holds_f32(*b),
            a.dims() != b.dims(),
            compatible(a.dims(), b.dims()) ==> addressable(joint_dims(a.dims(), b.dims())),
        ensures
            made(
                *old(self),
                *final(self),
                r,
                broadcast_mul_val(old(self).val(*a), old(self).val(*b)),
            ),
    {
        let ghost base = *self;
        let (pa, pb, out) = broadcast_out_shape(a.shape(), b.shape())?;
        proof {
            law_operands_expand_to_joint_shape(a.dims(), b.dims());
            lemma_padded(a.dims(), (joint_rank(a.dims(), b.dims()) - a.dims().len()) as nat);
            lemma_padded(b.dims(), (joint_rank(a.dims(), b.dims()) - b.dims().len()) as nat);
            if out@.len() == 0 {
                assert(a.dims() =~= b.dims());
            }
        }
        let n: usize = element_count(out.as_slice());
        let buf = self.zeros(n);
        let l = broadcast_mul_f32(
            a.slice(),
            b.slice(),
            Slice { id: *buf, len: n },
            pa.as_slice(),
            pb.as_slice(),
            out.as_slice(),
        )?;
        let ghost m = self.state();
        let ghost lv = l@;
        self.launch(l, Ghost(base));
        proof {
            assert(held_args(m, lv.dst, lv.args) =~= seq![
                TermArg::Value(base.val(*a).term),
                TermArg::Value(base.val(*b).term),
                TermArg::Value(Term::Zeros(n as nat)),
                TermArg::Table(table_of(expanded_strides(pa@))),
                TermArg::Table(table_of(expanded_strides(pb@))),
                TermArg::Table(table_of(row_major(out@))),
                TermArg::Word(out@.len() as u32),
                TermArg::Word(n as u32),
            ]);
        }
        Ok(CudaTensor::new(buf, out))
    }

    /// `x` repeated along its axes of extent one.
    pub fn broadcast_as_op(&mut self, op: &'static str, x: &CudaTensor, shape: &Shape) -> (r:
        Result<CudaTensor, CudaError>)
        requires
            old(self).wf(),
            old(self).holds_f32(*x),
            shape@.len() >= 1,
            addressable(shape@),
            x.dims().len() == shape@.len() && numel(shape@) <= u32::MAX ==> span(x.dims())
                <= u32::MAX,
        ensures
            made(*old(self), *final(self), r, expanded_val(op, old(self).val(*x), shape@)),
    {
        let ghost base = *self;
        let rank: usize = shape.len();
        if x.shape.len() != rank {
            return Err(
                CudaError::Shape(ShapeError::RankMismatch { op, lhs: x.shape.len(), rhs: rank }),
            );
        }
        let n: usize = element_count(shape.as_slice());
        let buf = self.zeros(n);
        let l = broadcast_copy_f32(
            x.slice(),
            Slice { id: *buf, len: n },
            x.shape(),
            shape.as_slice(),
        )?;
        let ghost m = self.state();
        let ghost lv = l@;
        self.launch(l, Ghost(base));
        proof {
            assert(held_args(m, lv.dst, lv.args) =~= seq![
                TermArg::Value(base.val(*x).term),
                TermArg::Value(Term::Zeros(n as nat)),
                TermArg::Table(table_of(expanded_strides(x.dims()))),
                TermArg::Table(table_of(row_major(shape@))),
                TermArg::Word(rank as u32),
                TermArg::Word(n as u32),
            ]);
        }
        Ok(CudaTensor::new(buf, shape.clone()))
    }

    /// The window `start..start + len` of `x` along the axis `dim`.
    pub fn narrow_op(&mut self, x: &CudaTensor, dim: usize, start: usize, len: usize) -> (r: Result<
        CudaTensor,
        CudaError,
    >)
        requires
            old(self).wf(),
            old(self).holds_f32(*x),
            dim < x.dims().len(),
            len <= x.dims()[dim as int],
        ensures
            made(*old(self), *final(self), r, narrowed_val(old(self).val(*x), dim, start, len)),
    {
        let ghost base = *self;
        proof {
            lemma_window_dims(x.dims(), dim as int, len);
        }
        let dims = resized_shape(&x.shape, dim, len);
        let n: usize = element_count(dims.as_slice());
        let buf = self.zeros(n);
        let l = narrow_copy_f32(x.slice(), Slice { id: *buf, len: n }, x.shape(), dim, start, len)?;
        let ghost m = self.state();
        let ghost lv = l@;
        self.launch(l, Ghost(base));
        proof {
            assert(held_args(m, lv.dst, lv.args) =~= seq![
                TermArg::Value(base.val(*x).term),
                TermArg::Value(Term::Zeros(n as nat)),
                TermArg::Word(outer(x.dims(), dim as int) as u32),
                TermArg::Word(x.dims()[dim as int] as u32),
                TermArg::Word(len as u32),
                TermArg::Word(start as u32),
                TermArg::Word(inner(x.dims(), dim as int) as u32),
                TermArg::Word(n as u32),
            ]);
        }
        Ok(CudaTensor::new(buf, dims))
    }

    /// The gradient of a window, spread over the whole axis.
    pub fn scatter_to_narrow(
        &mut self,
        grad_out: &CudaTensor,
        dim: usize,
        start: usize,
        orig: &Shape,
    ) -> (r: Result<CudaTensor, CudaError>)
        requires
            old(self).wf(),
            old(self).holds_f32(*grad_out),
            dim < orig@.len(),
            dim < grad_out.dims().len(),
            span(orig@) <= usize::MAX,
            grad_out.dims()[dim as int] <= orig@[dim as int],
        ensures
            made(
                *old(self),
                *final(self),
                r,
                spread_val(old(self).val(*grad_out), dim, start, orig@),
            ),
    {
        let ghost base = *self;
        let len: usize = grad_out.shape[dim];
        proof {
            lemma_window_dims(orig@, dim as int, len);
        }
        let n: usize = element_count(orig.as_slice());
        let buf = self.zeros(n);
        let l = narrow_backward_f32(
            grad_out.slice(),
            Slice { id: *buf, len: n },
            orig.as_slice(),
            dim,
            start,
            len,
        )?;
        let ghost m = self.state();
        let ghost lv = l@;
        self.launch(l, Ghost(base));
        proof {
            assert(held_args(m, lv.dst, lv.args) =~= seq![
                TermArg::Value(base.val(*grad_out).term),
                TermArg::Value(Term::Zeros(n as nat)),
                TermArg::Word(orig@[dim as int] as u32),
                TermArg::Word(len as u32),
                TermArg::Word(start as u32),
                TermArg::Word(inner(orig@, dim as int) as u32),
                TermArg::Word(n as u32),
            ]);
        }
        Ok(CudaTensor::new(buf, orig.clone()))
    }
}

} // verus!
