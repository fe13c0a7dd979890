//! The contribution of a recorded operation to the gradient of one input.

use crate::device::made;
use crate::error::CudaError;
use crate::grad::grad_ok;
use crate::launch::{Kernel, Real};
use crate::program::Program;
use crate::rules::{holdable, part, takes};
use crate::shape::{lemma_low_rank, lemma_numel_concat, numel};
use crate::tape::{extent_sum, input_dims, inputs_of, saved_ok, shape_ok, TapeOp};
use crate::tensor::{CudaTensor, NodeId, Shape};
use crate::vjp::{law_joint_shape_absorbs_operands, lemma_solid};
use vstd::prelude::*;

verus! {

/// Whether the contribution to the `k`-th input can be computed from the
/// gradient `g`.
pub open spec fn part_ready(p: Program, op: TapeOp, k: int, g: CudaTensor) -> bool {
    &&& p.wf()
    &&& grad_ok(p, g)
    &&& shape_ok(op, g.dims())
    &&& saved_ok(op)
    &&& takes(op, g.dims())
    &&& holdable(op, g.dims())
    &&& 0 <= k < inputs_of(op).len()
    &&& takes(op, input_dims(op, k, g.dims()))
    &&& op !is Leaf && op !is Conv1d && op !is SsdScan
}

/// Whether `r` is that contribution, of the shape of the input.
pub open spec fn part_made(
    p: Program,
    q: Program,
    op: TapeOp,
    k: int,
    g: CudaTensor,
    r: Result<CudaTensor, CudaError>,
) -> bool {
    &&& made(p, q, r, part(op, k, p.val(g)))
    &&& r matches Ok(t) ==> t.dims() == input_dims(op, k, g.dims())
}

impl Program {
    fn part_simple(&mut self, op: &TapeOp, k: usize, g: &CudaTensor) -> (r: Result<
        CudaTensor,
        CudaError,
    >)
        requires
            part_ready(*old(self), *op, k as int, *g),
            match *op {
                TapeOp::Neg { .. } => true,
                TapeOp::Reshape { .. } => true,
                TapeOp::MulScalar { .. } => true,
                TapeOp::AddScalar { .. } => true,
                TapeOp::Sqrt { .. } => true,
                TapeOp::Div { .. } => true,
                TapeOp::Exp { .. } => true,
                TapeOp::Silu { .. } => true,
                TapeOp::Sigmoid { .. } => true,
                TapeOp::Softplus { .. } => true,
                _ => false,
            },
        ensures
            part_made(*old(self), *final(self), *op, k as int, *g, r),
    {
        proof {
            lemma_solid(g.dims());
            lemma_solid(input_dims(*op, k as int, g.dims()));
        }
        match op {
            TapeOp::Neg { .. } => Ok(self.neg_inner(g)),
            TapeOp::Reshape { orig_shape, .. } => Ok(g.with_shape(orig_shape.clone())),
            TapeOp::MulScalar { scale, .. } => self.scalar_op(Kernel::MulScalar, g, *scale),
            TapeOp::Sqrt { out_val, .. } => self.sqrt_grad(g, out_val),
            TapeOp::Div { rhs_val, out_val, .. } => {
                if k == 0 {
                    self.div_op(g, rhs_val)
                } else {
                    self.divisor_grad(g, rhs_val, out_val)
                }
            },
            TapeOp::Exp { out_val, .. } => Ok(self.mul_inner(g, out_val)),
            TapeOp::Silu { input_val, .. } => self.silu_grad(g, input_val),
            TapeOp::Sigmoid { out_val, .. } => Ok(self.sigmoid_grad(g, out_val)),
            TapeOp::Softplus { input_val, .. } => self.softplus_grad(g, input_val),
            _ => Ok(g.clone()),
        }
    }

    fn part_broadcast(&mut self, op: &TapeOp, k: usize, g: &CudaTensor) -> (r: Result<
        CudaTensor,
        CudaError,
    >)
        requires
            part_ready(*old(self), *op, k as int, *g),
            op is Add || op is Sub || op is Mul,
        ensures
            part_made(*old(self), *final(self), *op, k as int, *g, r),
    {
        proof {
            lemma_solid(g.dims());
            lemma_solid(input_dims(*op, k as int, g.dims()));
        }
        match op {
            TapeOp::Add { lhs_shape, rhs_shape, .. } => {
                if k == 0 {
                    self.sum_to_shape_rank_reduce(g, lhs_shape)
                } else {
                    self.sum_to_shape_rank_reduce(g, rhs_shape)
                }
            },
            TapeOp::Sub { lhs_shape, rhs_shape, .. } => {
                if k == 0 {
                    self.sum_to_shape_rank_reduce(g, lhs_shape)
                } else {
                    self.minus_summed(g, rhs_shape)
                }
            },
            TapeOp::Mul { lhs_val, rhs_val, .. } => {
                proof {
                    law_joint_shape_absorbs_operands(lhs_val.dims(), rhs_val.dims());
                }
                if k == 0 {
                    self.factor_grad(g, rhs_val, &lhs_val.shape)
                } else {
                    self.factor_grad(g, lhs_val, &rhs_val.shape)
                }
            },
            _ => Ok(g.clone()),
        }
    }

    fn part_matmul(&mut self, op: &TapeOp, k: usize, g: &CudaTensor) -> (r: Result<
        CudaTensor,
        CudaError,
    >)
        requires
            part_ready(*old(self), *op, k as int, *g),
            op is MatMul,
        ensures
            part_made(*old(self), *final(self), *op, k as int, *g, r),
    {
        match op {
            TapeOp::MatMul { a_val, b_val, .. } => {
                if k == 0 {
                    self.left_grad(g, a_val, b_val)
                } else {
                    self.right_grad(g, a_val, b_val)
                }
            },
            _ => Ok(g.clone()),
        }
    }

    fn part_shape(&mut self, op: &TapeOp, k: usize, g: &CudaTensor) -> (r: Result<
        CudaTensor,
        CudaError,
    >)
        requires
            part_ready(*old(self), *op, k as int, *g),
            op is Transpose || op is Narrow || op is BroadcastAs || op is Concat,
        ensures
            part_made(*old(self), *final(self), *op, k as int, *g, r),
    {
        proof {
            lemma_solid(g.dims());
            lemma_solid(input_dims(*op, k as int, g.dims()));
        }
        match op {
            TapeOp::Transpose { dim_a, dim_b, .. } => {
                proof {
                    if dim_a == dim_b {
                        assert(crate::shape::swapped(g.dims(), *dim_a as int, *dim_b as int)
                            =~= g.dims());
                    }
                }
                self.transpose_op("transpose_inner", g, *dim_a, *dim_b)
            },
            TapeOp::Narrow { dim, start, orig_shape, .. } => self.scatter_to_narrow(
                g,
                *dim,
                *start,
                orig_shape,
            ),
            TapeOp::BroadcastAs { orig_shape, .. } => self.sum_to_shape(g, orig_shape.as_slice()),
            TapeOp::Concat { inputs, dim, input_shapes } => {
                let mut offset: usize = 0;
                let mut j: usize = 0;
                while j < k
                    invariant
                        j <= k,
                        k < input_shapes@.len(),
                        offset == extent_sum(input_shapes@, *dim as int, j as int),
                        forall|q: int|
                            0 <= q < input_shapes@.len() ==> (#[trigger] input_shapes@[q])@.len()
                                == g.dims().len(),
                        *dim < g.dims().len(),
                        extent_sum(
                            input_shapes@,
                            *dim as int,
                            input_shapes@.len() as int,
                        ) <= usize::MAX,
                    decreases k - j,
                {
                    proof {
                        lemma_extent_sum(
                            input_shapes@,
                            *dim as int,
                            j + 1,
                            input_shapes@.len() as int,
                        );
                        assert(input_shapes@[j as int]@.len() == g.dims().len());
                    }
                    offset = offset + input_shapes[j][*dim];
                    j = j + 1;
                }
                proof {
                    lemma_extent_sum(
                        input_shapes@,
                        *dim as int,
                        k + 1,
                        input_shapes@.len() as int,
                    );
                    lemma_extent_sum(input_shapes@, *dim as int, 0, k as int);
                    assert(input_shapes@[k as int]@.len() == g.dims().len());
                }
                self.narrow_op(g, *dim, offset, input_shapes[k][*dim])
            },
            _ => Ok(g.clone()),
        }
    }

    fn part_rows(&mut self, op: &TapeOp, k: usize, g: &CudaTensor) -> (r: Result<
        CudaTensor,
        CudaError,
    >)
        requires
            part_ready(*old(self), *op, k as int, *g),
            op is Embedding || op is Gather || op is LogSoftmax || op is RmsNorm || op is Cumsum,
        ensures
            part_made(*old(self), *final(self), *op, k as int, *g, r),
    {
        proof {
            lemma_solid(g.dims());
            lemma_solid(input_dims(*op, k as int, g.dims()));
        }
        match op {
            TapeOp::Embedding { indices_val, table_shape, .. } => {
                proof {
                    let id = indices_val.dims();
                    let w = table_shape@[1];
                    assert(id.push(w) =~= id + seq![w]);
                    lemma_numel_concat(id, seq![w]);
                    lemma_low_rank(seq![w]);
                }
                self.embedding_grad(g, indices_val, table_shape)
            },
            TapeOp::Gather { indices_val, dim, input_shape, .. } => {
                proof {
                    lemma_swap_back(input_shape@, *dim as int, input_shape@.len() - 1);
                }
                self.gather_grad(g, indices_val, *dim, input_shape)
            },
            TapeOp::LogSoftmax { dim, out_val, .. } => self.log_softmax_grad(g, out_val, *dim),
            TapeOp::RmsNorm { x_val, w_val, eps, .. } => {
                if k == 0 {
                    self.rmsnorm_grad_x(g, x_val, w_val, *eps)
                } else {
                    self.rmsnorm_backward_w_f32(g, x_val, &w_val.shape, *eps)
                }
            },
            TapeOp::Cumsum { dim, .. } => {
                proof {
                    lemma_swap_back(g.dims(), *dim as int, g.dims().len() - 1);
                }
                self.along_op("transpose_inner", Kernel::ReverseCumsumLastdim, g, *dim)
            },
            _ => Ok(g.clone()),
        }
    }

    fn part_total(&mut self, op: &TapeOp, k: usize, g: &CudaTensor) -> (r: Result<
        CudaTensor,
        CudaError,
    >)
        requires
            part_ready(*old(self), *op, k as int, *g),
            op is MeanAll || op is SumAll,
        ensures
            part_made(*old(self), *final(self), *op, k as int, *g, r),
    {
        proof {
            lemma_low_rank(g.dims());
        }
        match op {
            TapeOp::MeanAll { numel: count, input_shape, .. } => {
                let scaled = self.scalar_op(Kernel::MulScalar, g, Real::OneOver(*count))?;
                self.spread_scalar(&scaled, input_shape)
            },
            TapeOp::SumAll { input_shape, .. } => self.spread_scalar(g, input_shape),
            _ => Ok(g.clone()),
        }
    }

    /// The contribution to the gradient of the `k`-th input of `op`.
    pub fn part_of(&mut self, op: &TapeOp, k: usize, g: &CudaTensor) -> (r: Result<
        CudaTensor,
        CudaError,
    >)
        requires
            part_ready(*old(self), *op, k as int, *g),
        ensures
            part_made(*old(self), *final(self), *op, k as int, *g, r),
    {
        match op {
            TapeOp::Add { .. } => self.part_broadcast(op, k, g),
            TapeOp::Sub { .. } => self.part_broadcast(op, k, g),
            TapeOp::Mul { .. } => self.part_broadcast(op, k, g),
            TapeOp::MatMul { .. } => self.part_matmul(op, k, g),
            TapeOp::Transpose { .. } => self.part_shape(op, k, g),
            TapeOp::Narrow { .. } => self.part_shape(op, k, g),
            TapeOp::BroadcastAs { .. } => self.part_shape(op, k, g),
            TapeOp::Concat { .. } => self.part_shape(op, k, g),
            TapeOp::Embedding { .. } => self.part_rows(op, k, g),
            TapeOp::Gather { .. } => self.part_rows(op, k, g),
            TapeOp::LogSoftmax { .. } => self.part_rows(op, k, g),
            TapeOp::RmsNorm { .. } => self.part_rows(op, k, g),
            TapeOp::Cumsum { .. } => self.part_rows(op, k, g),
            TapeOp::MeanAll { .. } => self.part_total(op, k, g),
            TapeOp::SumAll { .. } => self.part_total(op, k, g),
            _ => self.part_simple(op, k, g),
        }
    }
}

/// Exchanging two axes twice changes nothing.
pub proof fn lemma_swap_back(s: Seq<usize>, a: int, b: int)
    requires
        0 <= a < s.len(),
        0 <= b < s.len(),
    ensures
        crate::shape::swapped(crate::shape::swapped(s, a, b), a, b) == s,
{
    let w = crate::shape::swapped(s, a, b);
    assert(crate::shape::swapped(w, a, b) =~= s);
}

/// The extents along an axis add up monotonically.
pub proof fn lemma_extent_sum(shapes: Seq<Shape>, dim: int, a: int, b: int)
    requires
        0 <= a <= b,
    ensures
        extent_sum(shapes, dim, a) <= extent_sum(shapes, dim, b),
        0 <= extent_sum(shapes, dim, a),
    decreases b,
{
    if a < b {
        lemma_extent_sum(shapes, dim, a, b - 1);
    } else if a > 0 {
        lemma_extent_sum(shapes, dim, a - 1, b - 1);
    }
}

/// The node of the `k`-th input.
pub fn input_at(op: &TapeOp, k: usize) -> (n: Option<NodeId>)
    requires
        k < inputs_of(*op).len(),
    ensures
        n == inputs_of(*op)[k as int],
{
    match op {
        TapeOp::Leaf { .. } => None,
        TapeOp::Add { lhs, rhs, .. } => if k == 0 {
            *lhs
        } else {
            *rhs
        },
        TapeOp::Sub { lhs, rhs, .. } => if k == 0 {
            *lhs
        } else {
            *rhs
        },
        TapeOp::Mul { lhs, rhs, .. } => if k == 0 {
            *lhs
        } else {
            *rhs
        },
        TapeOp::Neg { input } => *input,
        TapeOp::Reshape { input, .. } => *input,
        TapeOp::MulScalar { input, .. } => *input,
        TapeOp::AddScalar { input } => *input,
        TapeOp::Sqrt { input, .. } => *input,
        TapeOp::Div { lhs, rhs, .. } => if k == 0 {
            *lhs
        } else {
            *rhs
        },
        TapeOp::Exp { input, .. } => *input,
        TapeOp::Silu { input, .. } => *input,
        TapeOp::Sigmoid { input, .. } => *input,
        TapeOp::Softplus { input, .. } => *input,
        TapeOp::MatMul { a, b, .. } => if k == 0 {
            *a
        } else {
            *b
        },
        TapeOp::Transpose { input, .. } => *input,
        TapeOp::Narrow { input, .. } => *input,
        TapeOp::BroadcastAs { input, .. } => *input,
        TapeOp::Concat { inputs, .. } => inputs[k],
        TapeOp::Embedding { table, .. } => *table,
        TapeOp::Gather { input, .. } => *input,
        TapeOp::Conv1d { x, w, bias_node, .. } => if k == 0 {
            *x
        } else if k == 1 {
            *w
        } else {
            match bias_node {
                Some(b) => *b,
                None => None,
            }
        },
        TapeOp::LogSoftmax { input, .. } => *input,
        TapeOp::RmsNorm { x, w, .. } => if k == 0 {
            *x
        } else {
            *w
        },
        TapeOp::Cumsum { input, .. } => *input,
        TapeOp::MeanAll { input, .. } => *input,
        TapeOp::SumAll { input, .. } => *input,
        TapeOp::SsdScan(d) => if k == 0 {
            d.x
        } else if k == 1 {
            d.a
        } else if k == 2 {
            d.b
        } else {
            d.c
        },
    }
}

/// The number of inputs.
pub fn input_count(op: &TapeOp) -> (n: usize)
    ensures
        n == inputs_of(*op).len(),
{
    match op {
        TapeOp::Leaf { .. } => 0,
        TapeOp::Add { .. } => 2,
        TapeOp::Sub { .. } => 2,
        TapeOp::Mul { .. } => 2,
        TapeOp::Div { .. } => 2,
        TapeOp::MatMul { .. } => 2,
        TapeOp::Concat { inputs, .. } => inputs.len(),
        TapeOp::Conv1d { bias_node, .. } => if bias_node.is_some() {
            3
        } else {
            2
        },
        TapeOp::RmsNorm { .. } => 2,
        TapeOp::SsdScan(_) => 4,
        _ => 1,
    }
}

} // verus!
