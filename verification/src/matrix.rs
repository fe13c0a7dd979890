//! Products of stacks of matrices, with broadcasting over the leading axes.

use crate::device::made;
use crate::error::{CudaError, ShapeError};
use crate::gemm::{lemma_last_pair, matmul_config, matmul_f32, stack};
use crate::launch::{Buffer, Slice};
use crate::program::{held_all, HostTask, HostTaskView, Program, Term, Val};
use crate::shape::{
    element_count, expands_to, lemma_span_run, numel, span,
};
use crate::tensor::{CudaTensor, Shape};
use std::sync::Arc;
use vstd::prelude::*;

verus! {

/// The leading axes of a stack of matrices.
pub open spec fn lead(s: Seq<usize>) -> Seq<usize> {
    s.subrange(0, s.len() - 2)
}

/// The product of two equal-rank stacks into a tensor of shape `dims`.
pub open spec fn product_val(a: Val, b: Val, dims: Seq<usize>) -> Result<Val, CudaError> {
    match matmul_config(a.dims, b.dims) {
        Err(e) => Err(e),
        Ok((config, batching)) => Ok(
            Val {
                term: Term::Product {
                    gemm: config,
                    batching,
                    a: Box::new(b.term),
                    b: Box::new(a.term),
                    onto: Box::new(Term::Zeros(numel(dims))),
                },
                dims,
            },
        ),
    }
}

/// The stack `v` with its matrices repeated so that its leading axes become
/// `to`, as a stack with a single leading axis.
pub open spec fn repeated_val(v: Val, to: Seq<usize>) -> Val {
    let r = v.dims.len();
    let x = v.dims[r - 2];
    let y = v.dims[r - 1];
    Val {
        term: Term::Host {
            task: HostTaskView::ExpandBatch { lead: lead(v.dims), wide: to, slice: (x * y) as usize },
            inputs: seq![v.term],
        },
        dims: seq![numel(to) as usize, x, y],
    }
}

/// The product of two stacks whose leading axes broadcast to `to`; with
/// `expand` both are first repeated to exactly those.
pub open spec fn stacked_val(a: Val, b: Val, to: Seq<usize>, expand: bool) -> Result<
    Val,
    CudaError,
> {
    let r = a.dims.len();
    let dims = to + seq![a.dims[r - 2], b.dims[r - 1]];
    if expand {
        product_val(repeated_val(a, to), repeated_val(b, to), dims)
    } else {
        product_val(a, b, dims)
    }
}

/// The greater of two extents.
pub open spec fn wider(x: usize, y: usize) -> usize {
    if x >= y {
        x
    } else {
        y
    }
}

/// The greater extent on each leading axis.
pub open spec fn wide_lead(a: Seq<usize>, b: Seq<usize>) -> Seq<usize> {
    Seq::new((a.len() - 2) as nat, |i: int| wider(a[i], b[i]))
}

/// Whether the matrices of two stacks have to be repeated on the host: one
/// stack is smaller than the other without being a single matrix.
pub open spec fn must_expand(a: Seq<usize>, b: Seq<usize>) -> bool {
    let na = stack(a);
    let nb = stack(b);
    a.len() > 2 && ((na < nb && na != 1) || (nb < na && nb != 1))
}

/// The product as the gradient rules use it.
pub open spec fn matmul_inner_val(a: Val, b: Val) -> Result<Val, CudaError> {
    let r = a.dims.len();
    if a.dims[r - 1] != b.dims[r - 2] {
        Err(
            CudaError::Shape(
                ShapeError::ExtentMismatch {
                    op: "matmul_inner",
                    axis: (r - 2) as usize,
                    lhs: a.dims[r - 1],
                    rhs: b.dims[r - 2],
                },
            ),
        )
    } else {
        stacked_val(a, b, wide_lead(a.dims, b.dims), must_expand(a.dims, b.dims))
    }
}

/// Whether a stack repeated to the leading axes `to` can be held.
pub open spec fn can_repeat(s: Seq<usize>, to: Seq<usize>) -> bool {
    let r = s.len();
    &&& span(s) <= usize::MAX
    &&& expands_to(lead(s), to)
    &&& span(seq![numel(to) as usize, s[r - 2], s[r - 1]]) <= usize::MAX
}

impl Program {
    /// The matrices of `x`, repeated on the host.
    fn repeat(&mut self, x: &CudaTensor, to: &Shape) -> (t: CudaTensor)
        requires
            old(self).wf(),
            old(self).holds_f32(*x),
            x.dims().len() >= 2,
            can_repeat(x.dims(), to@),
            span(to@) <= usize::MAX,
        ensures
            made(*old(self), *final(self), Ok(t), Ok(repeated_val(old(self).val(*x), to@))),
    {
        let ghost base = *self;
        let rank: usize = x.shape.len();
        let p: usize = x.shape[rank - 2];
        let q: usize = x.shape[rank - 1];
        proof {
            lemma_last_pair(x.dims());
        }
        let from = crate::tensor::shape_of(vstd::slice::slice_subrange(x.shape(), 0, rank - 2));
        let n: usize = element_count(to.as_slice());
        let mut inputs: Vec<Buffer> = Vec::new();
        inputs.push(x.slice().id);
        let ghost ids = inputs@;
        let buf = self.host(HostTask::ExpandBatch { lead: from, wide: to.clone(), slice: p * q }, inputs);
        proof {
            assert(held_all(base.state(), ids) =~= seq![base.val(*x).term]);
        }
        let dims: Vec<usize> = vec![n, p, q];
        CudaTensor::new(buf, Arc::new(dims))
    }

    /// The product of two equal-rank stacks into a tensor of shape `dims`.
    fn product(&mut self, a: &CudaTensor, b: &CudaTensor, dims: Shape) -> (r: Result<
        CudaTensor,
        CudaError,
    >)
        requires
            old(self).wf(),
            old(self).holds_f32(*a),
            old(self).holds_f32(*b),
            span(dims@) <= usize::MAX,
            a.dims().len() >= 2 && b.dims().len() >= 2 ==> a.dims()[a.dims().len() - 2]
                * b.dims()[b.dims().len() - 1] <= usize::MAX,
        ensures
            made(
                *old(self),
                *final(self),
                r,
                product_val(old(self).val(*a), old(self).val(*b), dims@),
            ),
    {
        let ghost base = *self;
        let n: usize = element_count(dims.as_slice());
        let buf = self.zeros(n);
        let g = matmul_f32(
            a.slice(),
            a.shape(),
            b.slice(),
            b.shape(),
            Slice { id: *buf, len: n },
        )?;
        self.gemm(g, Ghost(base));
        Ok(CudaTensor::new(buf, dims))
    }

    /// The product of two stacks whose leading axes broadcast to `to`.
    pub fn stacked_product(&mut self, a: &CudaTensor, b: &CudaTensor, to: &Shape, expand: bool) -> (r:
        Result<CudaTensor, CudaError>)
        requires
            old(self).wf(),
            old(self).holds_f32(*a),
            old(self).holds_f32(*b),
            a.dims().len() >= 2,
            b.dims().len() == a.dims().len(),
            to@.len() + 2 == a.dims().len(),
            span(to@ + seq![a.dims()[a.dims().len() - 2], b.dims()[b.dims().len() - 1]])
                <= usize::MAX,
            expand ==> can_repeat(a.dims(), to@) && can_repeat(b.dims(), to@),
        ensures
            made(
                *old(self),
                *final(self),
                r,
                stacked_val(old(self).val(*a), old(self).val(*b), to@, expand),
            ),
    {
        let rank: usize = a.shape.len();
        let m: usize = a.shape[rank - 2];
        let n: usize = b.shape[rank - 1];
        let mut v: Vec<usize> = crate::device::vec_of(to.as_slice());
        v.push(m);
        v.push(n);
        let dims: Shape = Arc::new(v);
        assert(dims@ =~= to@ + seq![m, n]);
        proof {
            lemma_last_pair(dims@);
            lemma_span_run(dims@, 0, to@.len() as int);
            assert(dims@.subrange(0, to@.len() as int) =~= to@);
        }
        if expand {
            let ra = self.repeat(a, to);
            let rb = self.repeat(b, to);
            self.product(&ra, &rb, dims)
        } else {
            self.product(a, b, dims)
        }
    }

    /// The product as the gradient rules use it.
    pub fn matmul_inner(&mut self, a: &CudaTensor, b: &CudaTensor) -> (r: Result<
        CudaTensor,
        CudaError,
    >)
        requires
            old(self).wf(),
            old(self).holds_f32(*a),
            old(self).holds_f32(*b),
            a.dims().len() >= 2,
            b.dims().len() == a.dims().len(),
            span(
                wide_lead(a.dims(), b.dims()) + seq![
                    a.dims()[a.dims().len() - 2],
                    b.dims()[b.dims().len() - 1],
                ],
            ) <= usize::MAX,
            must_expand(a.dims(), b.dims()) ==> can_repeat(
                a.dims(),
                wide_lead(a.dims(), b.dims()),
            ) && can_repeat(b.dims(), wide_lead(a.dims(), b.dims())),
        ensures
            made(
                *old(self),
                *final(self),
                r,
                matmul_inner_val(old(self).val(*a), old(self).val(*b)),
            ),
    {
        let rank: usize = a.shape.len();
        let ka: usize = a.shape[rank - 1];
        let kb: usize = b.shape[rank - 2];
        if ka != kb {
            return Err(
                CudaError::Shape(
                    ShapeError::ExtentMismatch {
                        op: "matmul_inner",
                        axis: rank - 2,
                        lhs: ka,
                        rhs: kb,
                    },
                ),
            );
        }
        let mut v: Vec<usize> = Vec::new();
        let mut i: usize = 0;
        while i < rank - 2
            invariant
                i <= rank - 2,
                rank >= 2,
                rank == a.dims().len(),
                rank == b.dims().len(),
                v@ == wide_lead(a.dims(), b.dims()).subrange(0, i as int),
            decreases rank - i,
        {
            if a.shape[i] >= b.shape[i] {
                v.push(a.shape[i]);
            } else {
                v.push(b.shape[i]);
            }
            i = i + 1;
            assert(v@ =~= wide_lead(a.dims(), b.dims()).subrange(0, i as int));
        }
        assert(v@ =~= wide_lead(a.dims(), b.dims()));
        let to: Shape = Arc::new(v);
        proof {
            lemma_span_run(a.dims(), 0, rank - 2);
            lemma_span_run(b.dims(), 0, rank - 2);
        }
        let na: usize = element_count(vstd::slice::slice_subrange(a.shape(), 0, rank - 2));
        let nb: usize = element_count(vstd::slice::slice_subrange(b.shape(), 0, rank - 2));
        let expand: bool = rank > 2 && ((na < nb && na != 1) || (nb < na && nb != 1));
        self.stacked_product(a, b, &to, expand)
    }
}

} // verus!
