//! Tensor operations as device programs. Each operation states, over the
//! contents and shapes of its operands, what the tensor that it makes is.

use crate::error::{CudaError, ShapeError};
use crate::kernels::{
    add_f32, addressable, inner, launch_binary, launch_unary, launch_unary_scalar, mul_f32,
    neg_f32, outer, split_axis, stride_words, sub_f32, table_of, transpose_2d_f32,
    transpose_nd_f32, MAX_RANK,
};
use crate::launch::{
    element_config, first_long, too_long, u32_len, Kernel, LaunchConfig, Real, Slice,
};
use crate::program::{held_args, Program, Term, TermArg, Val};
use crate::reduce::reduce_sum_dim_keepdim_f32;
use crate::shape::{
    element_count, lemma_numel_axis, lemma_numel_le_span, lemma_numel_swapped, lemma_span_run,
    numel, row_major, span, swapped, tail,
};
use crate::tensor::{same_shape, CudaTensor, Shape};
use std::sync::Arc;
use vstd::prelude::*;

verus! {

/// Whether `r` is the tensor `v`, made by extending the program `p` to `q`.
pub open spec fn made(
    p: Program,
    q: Program,
    r: Result<CudaTensor, CudaError>,
    v: Result<Val, CudaError>,
) -> bool {
    match v {
        Err(e) => r == Err::<CudaTensor, CudaError>(e),
        Ok(v) => {
            &&& r matches Ok(t)
            &&& q.extends(p)
            &&& q.holds_f32(t)
            &&& q.val(t) == v
            &&& t.node_id is None
            &&& t.origin is None
        },
    }
}

/// What a kernel computes.
pub open spec fn run(kernel: Kernel, config: LaunchConfig, args: Seq<TermArg>) -> Term {
    Term::Run { kernel, config, args }
}

/// What an element-wise kernel over `n` elements computes.
pub open spec fn each(kernel: Kernel, n: nat, args: Seq<TermArg>) -> Term {
    run(kernel, element_config(n as u32), args)
}

/// `kernel(a, b)`, element by element.
pub open spec fn binary_val(kernel: Kernel, a: Val, b: Val) -> Val {
    let n = a.count();
    Val {
        term: each(
            kernel,
            n,
            seq![
                TermArg::Value(a.term),
                TermArg::Value(b.term),
                TermArg::Value(Term::Zeros(n)),
                TermArg::Word(n as u32),
            ],
        ),
        dims: a.dims,
    }
}

/// `kernel(a)`, element by element.
pub open spec fn unary_val(kernel: Kernel, a: Val) -> Val {
    let n = a.count();
    Val {
        term: each(
            kernel,
            n,
            seq![
                TermArg::Value(a.term),
                TermArg::Value(Term::Zeros(n)),
                TermArg::Word(n as u32),
            ],
        ),
        dims: a.dims,
    }
}

/// `kernel(a, scalar)`, element by element.
pub open spec fn scalar_val(kernel: Kernel, a: Val, scalar: Real) -> Val {
    let n = a.count();
    Val {
        term: each(
            kernel,
            n,
            seq![
                TermArg::Value(a.term),
                TermArg::Real(scalar),
                TermArg::Value(Term::Zeros(n)),
                TermArg::Word(n as u32),
            ],
        ),
        dims: a.dims,
    }
}

/// The value, unless it has more elements than a kernel can index.
pub open spec fn if_short(kernel: Kernel, n: nat, v: Val) -> Result<Val, CudaError> {
    if n > u32::MAX {
        Err(too_long(kernel.name(), n as usize))
    } else {
        Ok(v)
    }
}

/// A tensor of ones.
pub open spec fn ones_val(dims: Seq<usize>) -> Val {
    Val { term: Term::Ones(numel(dims)), dims }
}

/// A tensor of zeros.
pub open spec fn zeros_val(dims: Seq<usize>) -> Val {
    Val { term: Term::Zeros(numel(dims)), dims }
}

/// `v` with the axes `a` and `b` exchanged.
pub open spec fn transposed_val(op: &'static str, v: Val, a: usize, b: usize) -> Result<
    Val,
    CudaError,
> {
    let rank = v.dims.len();
    let n = v.count();
    if a >= rank || b >= rank {
        Err(
            CudaError::Shape(
                ShapeError::AxisOutOfRange {
                    op,
                    axis: if a >= rank {
                        a
                    } else {
                        b
                    },
                    rank: rank as usize,
                },
            ),
        )
    } else if a == b {
        Ok(v)
    } else {
        let dims = swapped(v.dims, a as int, b as int);
        if rank == 2 {
            match first_long(seq![n as usize, v.dims[0], v.dims[1]], 0) {
                Some(bad) => Err(too_long("transpose_2d_f32", bad)),
                None => Ok(
                    Val {
                        term: each(
                            Kernel::Transpose2d,
                            n,
                            seq![
                                TermArg::Value(v.term),
                                TermArg::Value(Term::Zeros(n)),
                                TermArg::Word(v.dims[0] as u32),
                                TermArg::Word(v.dims[1] as u32),
                            ],
                        ),
                        dims,
                    },
                ),
            }
        } else if rank > MAX_RANK {
            Err(
                CudaError::Shape(
                    ShapeError::RankAbove {
                        op: "transpose_nd_f32",
                        rank: rank as usize,
                        limit: MAX_RANK,
                    },
                ),
            )
        } else if n > u32::MAX {
            Err(too_long("transpose_nd_f32", n as usize))
        } else {
            Ok(
                Val {
                    term: each(
                        Kernel::TransposeNd,
                        n,
                        seq![
                            TermArg::Value(v.term),
                            TermArg::Value(Term::Zeros(n)),
                            TermArg::Table(
                                table_of(swapped(row_major(v.dims), a as int, b as int)),
                            ),
                            TermArg::Table(table_of(row_major(dims))),
                            TermArg::Word(rank as u32),
                            TermArg::Word(n as u32),
                        ],
                    ),
                    dims,
                },
            )
        }
    }
}

/// The sum of `v` over the axis `k`, which stays with extent one.
pub open spec fn reduced_val(v: Val, k: int) -> Result<Val, CudaError> {
    let o = outer(v.dims, k) as usize;
    let i = inner(v.dims, k) as usize;
    let n = (o * i) as usize;
    match first_long(seq![n, o, v.dims[k], i], 0) {
        Some(bad) => Err(too_long("reduce_sum_dim_keepdim_f32", bad)),
        None => Ok(
            Val {
                term: each(
                    Kernel::ReduceSumDimKeepdim,
                    n as nat,
                    seq![
                        TermArg::Value(v.term),
                        TermArg::Value(Term::Zeros(n as nat)),
                        TermArg::Word(o as u32),
                        TermArg::Word(v.dims[k] as u32),
                        TermArg::Word(i as u32),
                    ],
                ),
                dims: v.dims.update(k, 1),
            },
        ),
    }
}

/// `v` summed over every axis from `k` on that `target` has with extent one.
pub open spec fn folded_val(v: Val, target: Seq<usize>, k: int) -> Result<Val, CudaError>
    decreases target.len() - k,
{
    if k < 0 || k >= target.len() {
        Ok(v)
    } else if target[k] == 1 && v.dims[k] > 1 {
        match reduced_val(v, k) {
            Err(e) => Err(e),
            Ok(w) => folded_val(w, target, k + 1),
        }
    } else {
        folded_val(v, target, k + 1)
    }
}

/// `v` summed down to the equal-rank shape `target`.
pub open spec fn summed_val(v: Val, target: Seq<usize>) -> Result<Val, CudaError> {
    if v.dims == target {
        Ok(v)
    } else if v.dims.len() != target.len() {
        Err(
            CudaError::Shape(
                ShapeError::RankMismatch {
                    op: "sum_to_shape",
                    lhs: v.dims.len() as usize,
                    rhs: target.len() as usize,
                },
            ),
        )
    } else {
        match folded_val(v, target, 0) {
            Err(e) => Err(e),
            Ok(w) => if w.dims == target {
                Ok(w)
            } else {
                Err(CudaError::Shape(ShapeError::ShapesDiffer { op: "sum_to_shape" }))
            },
        }
    }
}

/// `n` extents of one, then `s`.
pub open spec fn padded(s: Seq<usize>, n: nat) -> Seq<usize> {
    Seq::new(n, |i: int| 1usize) + s
}

/// `v` summed down to a shape of the same or a lower rank.
pub open spec fn summed_rank_val(v: Val, target: Seq<usize>) -> Result<Val, CudaError> {
    if v.dims.len() == target.len() {
        summed_val(v, target)
    } else if v.dims.len() < target.len() {
        Err(
            CudaError::Shape(
                ShapeError::RankMismatch {
                    op: "sum_to_shape_rank_reduce",
                    lhs: v.dims.len() as usize,
                    rhs: target.len() as usize,
                },
            ),
        )
    } else {
        match summed_val(v, padded(target, (v.dims.len() - target.len()) as nat)) {
            Err(e) => Err(e),
            Ok(w) => Ok(Val { term: w.term, dims: target }),
        }
    }
}

/// Leading extents of one change neither count nor span.
pub proof fn lemma_padded(s: Seq<usize>, n: nat)
    ensures
        numel(padded(s, n)) == numel(s),
        span(padded(s, n)) == span(s),
        padded(s, n).len() == n + s.len(),
    decreases n,
{
    if n == 0 {
        assert(padded(s, 0) =~= s);
    } else {
        let m = (n - 1) as nat;
        lemma_padded(s, m);
        let p = padded(s, n);
        assert(p.drop_first() =~= padded(s, m));
        assert(p[0] == 1);
        assert(1 * numel(padded(s, m)) == numel(padded(s, m)));
        assert(1 * span(padded(s, m)) == span(padded(s, m)));
    }
}

/// Summing an axis away leaves the count of the others.
pub proof fn lemma_reduced_dims(s: Seq<usize>, k: int)
    requires
        0 <= k < s.len(),
    ensures
        numel(s.update(k, 1)) == outer(s, k) * inner(s, k),
        span(s.update(k, 1)) <= span(s),
        outer(s, k) <= span(s),
        inner(s, k) <= span(s),
        outer(s, k) * inner(s, k) <= span(s),
{
    let u = s.update(k, 1);
    lemma_numel_axis(s, k);
    lemma_numel_axis(u, k);
    assert(u.subrange(0, k) =~= s.subrange(0, k));
    assert(tail(u, k + 1) =~= tail(s, k + 1));
    lemma_span_run(s, 0, k);
    lemma_span_run(s, k + 1, s.len() as int);
    lemma_numel_le_span(u);
    let a = span(s.subrange(0, k));
    let b = span(tail(s, k + 1));
    let d: nat = if s[k] == 0 { 1 } else { s[k] as nat };
    lemma_numel_le_span(s.subrange(0, k));
    lemma_numel_le_span(tail(s, k + 1));
    assert(a * (1 * b) <= a * (d * b)) by (nonlinear_arith)
        requires
            d >= 1,
            a >= 1,
            b >= 1,
    ;
}

impl Program {
    /// A tensor of ones.
    pub fn ones_tensor(&mut self, shape: &Shape) -> (t: CudaTensor)
        requires
            old(self).wf(),
            span(shape@) <= usize::MAX,
        ensures
            made(*old(self), *final(self), Ok(t), Ok(ones_val(shape@))),
    {
        let n: usize = element_count(shape.as_slice());
        let b = self.ones(n);
        CudaTensor::new(b, shape.clone())
    }

    /// A tensor of zeros.
    pub fn zeros_tensor(&mut self, shape: &Shape) -> (t: CudaTensor)
        requires
            old(self).wf(),
            span(shape@) <= usize::MAX,
        ensures
            made(*old(self), *final(self), Ok(t), Ok(zeros_val(shape@))),
    {
        let n: usize = element_count(shape.as_slice());
        let b = self.zeros(n);
        CudaTensor::new(b, shape.clone())
    }

    /// `a + b`, `a - b` or `a * b` of two tensors of one shape.
    pub fn binary_op(&mut self, kernel: Kernel, a: &CudaTensor, b: &CudaTensor) -> (t: CudaTensor)
        requires
            old(self).wf(),
            old(self).holds_f32(*a),
            old(self).holds_f32(*b),
            kernel is Add || kernel is Sub || kernel is Mul,
            a.dims() == b.dims(),
            numel(a.dims()) <= u32::MAX,
        ensures
            made(
                *old(self),
                *final(self),
                Ok(t),
                Ok(binary_val(kernel, old(self).val(*a), old(self).val(*b))),
            ),
    {
        let ghost base = *self;
        let n: usize = a.numel();
        let out = self.zeros(n);
        let dst = Slice { id: *out, len: n };
        let l = match kernel {
            Kernel::Add => add_f32(a.slice(), b.slice(), dst),
            Kernel::Sub => sub_f32(a.slice(), b.slice(), dst),
            _ => mul_f32(a.slice(), b.slice(), dst),
        };
        let ghost m = self.state();
        let ghost lv = l@;
        self.launch(l, Ghost(base));
        proof {
            assert(held_args(m, lv.dst, lv.args) =~= seq![
                TermArg::Value(base.val(*a).term),
                TermArg::Value(base.val(*b).term),
                TermArg::Value(Term::Zeros(n as nat)),
                TermArg::Word(n as u32),
            ]);
        }
        CudaTensor::new(out, a.shape.clone())
    }

    pub fn add_inner(&mut self, a: &CudaTensor, b: &CudaTensor) -> (t: CudaTensor)
        requires
            old(self).wf(),
            old(self).holds_f32(*a),
            old(self).holds_f32(*b),
            a.dims() == b.dims(),
            numel(a.dims()) <= u32::MAX,
        ensures
            made(
                *old(self),
                *final(self),
                Ok(t),
                Ok(binary_val(Kernel::Add, old(self).val(*a), old(self).val(*b))),
            ),
    {
        self.binary_op(Kernel::Add, a, b)
    }

    pub fn sub_inner(&mut self, a: &CudaTensor, b: &CudaTensor) -> (t: CudaTensor)
        requires
            old(self).wf(),
            old(self).holds_f32(*a),
            old(self).holds_f32(*b),
            a.dims() == b.dims(),
            numel(a.dims()) <= u32::MAX,
        ensures
            made(
                *old(self),
                *final(self),
                Ok(t),
                Ok(binary_val(Kernel::Sub, old(self).val(*a), old(self).val(*b))),
            ),
    {
        self.binary_op(Kernel::Sub, a, b)
    }

    pub fn mul_inner(&mut self, a: &CudaTensor, b: &CudaTensor) -> (t: CudaTensor)
        requires
            old(self).wf(),
            old(self).holds_f32(*a),
            old(self).holds_f32(*b),
            a.dims() == b.dims(),
            numel(a.dims()) <= u32::MAX,
        ensures
            made(
                *old(self),
                *final(self),
                Ok(t),
                Ok(binary_val(Kernel::Mul, old(self).val(*a), old(self).val(*b))),
            ),
    {
        self.binary_op(Kernel::Mul, a, b)
    }

    pub fn neg_inner(&mut self, a: &CudaTensor) -> (t: CudaTensor)
        requires
            old(self).wf(),
            old(self).holds_f32(*a),
            numel(a.dims()) <= u32::MAX,
        ensures
            made(
                *old(self),
                *final(self),
                Ok(t),
                Ok(unary_val(Kernel::Neg, old(self).val(*a))),
            ),
    {
        let ghost base = *self;
        let n: usize = a.numel();
        let out = self.zeros(n);
        let l = neg_f32(a.slice(), Slice { id: *out, len: n });
        let ghost m = self.state();
        let ghost lv = l@;
        self.launch(l, Ghost(base));
        proof {
            assert(held_args(m, lv.dst, lv.args) =~= seq![
                TermArg::Value(base.val(*a).term),
                TermArg::Value(Term::Zeros(n as nat)),
                TermArg::Word(n as u32),
            ]);
        }
        CudaTensor::new(out, a.shape.clone())
    }

    /// An element-wise function of one tensor.
    pub fn unary_op(&mut self, kernel: Kernel, a: &CudaTensor) -> (r: Result<CudaTensor, CudaError>)
        requires
            old(self).wf(),
            old(self).holds_f32(*a),
        ensures
            made(
                *old(self),
                *final(self),
                r,
                if_short(kernel, numel(a.dims()), unary_val(kernel, old(self).val(*a))),
            ),
    {
        let ghost base = *self;
        let n: usize = a.numel();
        let out = self.zeros(n);
        let l = launch_unary(kernel, a.slice(), Slice { id: *out, len: n })?;
        let ghost m = self.state();
        let ghost lv = l@;
        self.launch(l, Ghost(base));
        proof {
            assert(held_args(m, lv.dst, lv.args) =~= seq![
                TermArg::Value(base.val(*a).term),
                TermArg::Value(Term::Zeros(n as nat)),
                TermArg::Word(n as u32),
            ]);
        }
        Ok(CudaTensor::new(out, a.shape.clone()))
    }

    /// Element-wise quotient of two tensors of one shape.
    pub fn div_op(&mut self, a: &CudaTensor, b: &CudaTensor) -> (r: Result<CudaTensor, CudaError>)
        requires
            old(self).wf(),
            old(self).holds_f32(*a),
            old(self).holds_f32(*b),
            a.dims() == b.dims(),
        ensures
            made(
                *old(self),
                *final(self),
                r,
                if_short(
                    Kernel::Div,
                    numel(a.dims()),
                    binary_val(Kernel::Div, old(self).val(*a), old(self).val(*b)),
                ),
            ),
    {
        let ghost base = *self;
        let n: usize = a.numel();
        let out = self.zeros(n);
        let l = launch_binary(Kernel::Div, a.slice(), b.slice(), Slice { id: *out, len: n })?;
        let ghost m = self.state();
        let ghost lv = l@;
        self.launch(l, Ghost(base));
        proof {
            assert(held_args(m, lv.dst, lv.args) =~= seq![
                TermArg::Value(base.val(*a).term),
                TermArg::Value(base.val(*b).term),
                TermArg::Value(Term::Zeros(n as nat)),
                TermArg::Word(n as u32),
            ]);
        }
        Ok(CudaTensor::new(out, a.shape.clone()))
    }

    /// An element-wise function of a tensor and a scalar.
    pub fn scalar_op(&mut self, kernel: Kernel, a: &CudaTensor, scalar: Real) -> (r: Result<
        CudaTensor,
        CudaError,
    >)
        requires
            old(self).wf(),
            old(self).holds_f32(*a),
        ensures
            made(
                *old(self),
                *final(self),
                r,
                if_short(kernel, numel(a.dims()), scalar_val(kernel, old(self).val(*a), scalar)),
            ),
    {
        let ghost base = *self;
        let n: usize = a.numel();
        let out = self.zeros(n);
        let l = launch_unary_scalar(kernel, a.slice(), scalar, Slice { id: *out, len: n })?;
        let ghost m = self.state();
        let ghost lv = l@;
        self.launch(l, Ghost(base));
        proof {
            assert(held_args(m, lv.dst, lv.args) =~= seq![
                TermArg::Value(base.val(*a).term),
                TermArg::Real(scalar),
                TermArg::Value(Term::Zeros(n as nat)),
                TermArg::Word(n as u32),
            ]);
        }
        Ok(CudaTensor::new(out, a.shape.clone()))
    }

    /// `x` with the axes `dim_a` and `dim_b` exchanged. Equal axes give a copy.
    pub fn transpose_op(&mut self, op: &'static str, x: &CudaTensor, dim_a: usize, dim_b: usize) -> (r:
        Result<CudaTensor, CudaError>)
        requires
            old(self).wf(),
            old(self).holds_f32(*x),
            addressable(x.dims()),
        ensures
            made(
                *old(self),
                *final(self),
                r,
                transposed_val(op, old(self).val(*x), dim_a, dim_b),
            ),
    {
        let ghost base = *self;
        let rank: usize = x.shape.len();
        if dim_a >= rank {
            return Err(CudaError::Shape(ShapeError::AxisOutOfRange { op, axis: dim_a, rank }));
        }
        if dim_b >= rank {
            return Err(CudaError::Shape(ShapeError::AxisOutOfRange { op, axis: dim_b, rank }));
        }
        if dim_a == dim_b {
            let b = self.copy(x.slice().id);
            return Ok(CudaTensor::new(b, x.shape.clone()));
        }
        let dims = swapped_shape(&x.shape, dim_a, dim_b);
        proof {
            lemma_numel_swapped(x.dims(), dim_a as int, dim_b as int);
        }
        let n: usize = x.numel();
        if rank == 2 {
            proof {
                lemma_two(x.dims());
            }
            let out = self.zeros(n);
            let l = transpose_2d_f32(
                x.slice(),
                Slice { id: *out, len: n },
                x.shape[0],
                x.shape[1],
            )?;
            let ghost m = self.state();
            let ghost lv = l@;
            self.launch(l, Ghost(base));
            proof {
                assert(held_args(m, lv.dst, lv.args) =~= seq![
                    TermArg::Value(base.val(*x).term),
                    TermArg::Value(Term::Zeros(n as nat)),
                    TermArg::Word(x.dims()[0] as u32),
                    TermArg::Word(x.dims()[1] as u32),
                ]);
            }
            return Ok(CudaTensor::new(out, dims));
        }
        if rank > MAX_RANK {
            return Err(
                CudaError::Shape(
                    ShapeError::RankAbove { op: "transpose_nd_f32", rank, limit: MAX_RANK },
                ),
            );
        }
        u32_len(n, "transpose_nd_f32")?;
        let out_strides = stride_words(dims.as_slice());
        let mut in_strides = stride_words(x.shape());
        let sa: u32 = in_strides[dim_a];
        let sb: u32 = in_strides[dim_b];
        in_strides.set(dim_a, sb);
        in_strides.set(dim_b, sa);
        assert(in_strides@ =~= table_of(swapped(row_major(x.dims()), dim_a as int, dim_b as int)));
        let out = self.zeros(n);
        let l = transpose_nd_f32(x.slice(), Slice { id: *out, len: n }, in_strides, out_strides)?;
        let ghost m = self.state();
        let ghost lv = l@;
        self.launch(l, Ghost(base));
        proof {
            assert(held_args(m, lv.dst, lv.args) =~= seq![
                TermArg::Value(base.val(*x).term),
                TermArg::Value(Term::Zeros(n as nat)),
                TermArg::Table(in_strides@),
                TermArg::Table(out_strides@),
                TermArg::Word(rank as u32),
                TermArg::Word(n as u32),
            ]);
        }
        Ok(CudaTensor::new(out, dims))
    }

    /// The sum of `x` over the axis `dim`, which stays with extent one.
    pub fn reduce_sum_keepdim(&mut self, x: &CudaTensor, dim: usize) -> (r: Result<
        CudaTensor,
        CudaError,
    >)
        requires
            old(self).wf(),
            old(self).holds_f32(*x),
            dim < x.dims().len(),
        ensures
            made(*old(self), *final(self), r, reduced_val(old(self).val(*x), dim as int)),
    {
        let ghost base = *self;
        let (o, extent, i) = split_axis(x.shape(), dim);
        proof {
            lemma_reduced_dims(x.dims(), dim as int);
        }
        let n: usize = o * i;
        let out = self.zeros(n);
        let l = reduce_sum_dim_keepdim_f32(x.slice(), Slice { id: *out, len: n }, o, extent, i)?;
        let ghost m = self.state();
        let ghost lv = l@;
        self.launch(l, Ghost(base));
        proof {
            assert(held_args(m, lv.dst, lv.args) =~= seq![
                TermArg::Value(base.val(*x).term),
                TermArg::Value(Term::Zeros(n as nat)),
                TermArg::Word(o as u32),
                TermArg::Word(extent as u32),
                TermArg::Word(i as u32),
            ]);
        }
        Ok(CudaTensor::new(out, resized_shape(&x.shape, dim, 1)))
    }

    /// `grad` summed down to the equal-rank shape `target`.
    pub fn sum_to_shape(&mut self, grad: &CudaTensor, target: &[usize]) -> (r: Result<
        CudaTensor,
        CudaError,
    >)
        requires
            old(self).wf(),
            old(self).holds_f32(*grad),
            grad.node_id is None,
            grad.origin is None,
        ensures
            made(*old(self), *final(self), r, summed_val(old(self).val(*grad), target@)),
    {
        let ghost base = *self;
        if same_shape(grad.shape(), target) {
            return Ok(grad.clone());
        }
        let rank: usize = target.len();
        if grad.shape.len() != rank {
            return Err(
                CudaError::Shape(
                    ShapeError::RankMismatch {
                        op: "sum_to_shape",
                        lhs: grad.shape.len(),
                        rhs: rank,
                    },
                ),
            );
        }
        let mut cur = grad.clone();
        let mut dim: usize = 0;
        while dim < rank
            invariant
                dim <= rank,
                rank == target@.len(),
                base == *old(self),
                grad.dims() != target@,
                grad.dims().len() == rank,
                self.extends(base),
                self.holds_f32(cur),
                cur.node_id is None,
                cur.origin is None,
                cur.dims().len() == rank,
                folded_val(base.val(*grad), target@, 0) == folded_val(
                    self.val(cur),
                    target@,
                    dim as int,
                ),
            decreases rank - dim,
        {
            if target[dim] == 1 && cur.shape[dim] > 1 {
                cur = self.reduce_sum_keepdim(&cur, dim)?;
            }
            dim = dim + 1;
        }
        if !same_shape(cur.shape(), target) {
            return Err(CudaError::Shape(ShapeError::ShapesDiffer { op: "sum_to_shape" }));
        }
        Ok(cur)
    }

    /// `grad` summed down to a shape of the same or a lower rank.
    pub fn sum_to_shape_rank_reduce(&mut self, grad: &CudaTensor, target: &Shape) -> (r: Result<
        CudaTensor,
        CudaError,
    >)
        requires
            old(self).wf(),
            old(self).holds_f32(*grad),
            grad.node_id is None,
            grad.origin is None,
            span(target@) <= usize::MAX,
        ensures
            made(*old(self), *final(self), r, summed_rank_val(old(self).val(*grad), target@)),
    {
        let grad_rank: usize = grad.shape.len();
        let target_rank: usize = target.len();
        if grad_rank == target_rank {
            return self.sum_to_shape(grad, target.as_slice());
        }
        if grad_rank < target_rank {
            return Err(
                CudaError::Shape(
                    ShapeError::RankMismatch {
                        op: "sum_to_shape_rank_reduce",
                        lhs: grad_rank,
                        rhs: target_rank,
                    },
                ),
            );
        }
        let wide = padded_shape(target.as_slice(), grad_rank - target_rank);
        let reduced = self.sum_to_shape(grad, wide.as_slice())?;
        Ok(CudaTensor::new(reduced.storage(), target.clone()))
    }
}

/// `shape` with two extents exchanged.
pub fn swapped_shape(shape: &Shape, a: usize, b: usize) -> (r: Shape)
    requires
        a < shape@.len(),
        b < shape@.len(),
    ensures
        r@ == swapped(shape@, a as int, b as int),
{
    let mut v: Vec<usize> = vec_of(shape.as_slice());
    let x: usize = v[a];
    let y: usize = v[b];
    v.set(a, y);
    v.set(b, x);
    Arc::new(v)
}

/// `shape` with one extent replaced.
pub fn resized_shape(shape: &Shape, dim: usize, len: usize) -> (r: Shape)
    requires
        dim < shape@.len(),
    ensures
        r@ == shape@.update(dim as int, len),
{
    let mut v: Vec<usize> = vec_of(shape.as_slice());
    v.set(dim, len);
    Arc::new(v)
}

/// `n` extents of one, then those of `s`.
pub fn padded_shape(s: &[usize], n: usize) -> (r: Shape)
    ensures
        r@ == padded(s@, n as nat),
{
    let mut v: Vec<usize> = Vec::new();
    let mut i: usize = 0;
    while i < n
        invariant
            i <= n,
            v@ == Seq::new(i as nat, |k: int| 1usize),
        decreases n - i,
    {
        v.push(1);
        assert(v@ =~= Seq::new((i + 1) as nat, |k: int| 1usize));
        i = i + 1;
    }
    let mut j: usize = 0;
    while j < s.len()
        invariant
            j <= s.len(),
            v@ == Seq::new(n as nat, |k: int| 1usize) + s@.subrange(0, j as int),
        decreases s.len() - j,
    {
        v.push(s[j]);
        j = j + 1;
        assert(v@ =~= Seq::new(n as nat, |k: int| 1usize) + s@.subrange(0, j as int));
    }
    assert(s@.subrange(0, j as int) =~= s@);
    Arc::new(v)
}

/// The extents of a slice as a list of their own.
pub fn vec_of(s: &[usize]) -> (v: Vec<usize>)
    ensures
        v@ == s@,
{
    let mut v: Vec<usize> = Vec::new();
    let mut i: usize = 0;
    while i < s.len()
        invariant
            i <= s.len(),
            v@ == s@.subrange(0, i as int),
        decreases s.len() - i,
    {
        v.push(s[i]);
        i = i + 1;
    }
    assert(s@.subrange(0, i as int) =~= s@);
    v
}

/// A matrix has as many elements as rows times columns.
pub proof fn lemma_two(s: Seq<usize>)
    requires
        s.len() == 2,
    ensures
        numel(s) == s[0] * s[1],
{
    let t = s.drop_first();
    assert(t.drop_first() =~= Seq::<usize>::empty());
    assert(numel(t.drop_first()) == 1);
    assert(numel(t) == t[0] * 1);
}

} // verus!
