//! The gradient rules as device programs.

use crate::broadcast::{
    aligned, compatible, first_clash, joint_dims, joint_rank, law_operands_expand_to_joint_shape,
};
use crate::device::{lemma_padded, made, padded, padded_shape};
use crate::error::CudaError;
use crate::launch::{Kernel, Real};
use crate::matrix::{can_repeat, lead, wide_lead};
use crate::program::Program;
use crate::rules::{
    divisor_grad, factor_grad, left_grad, log_softmax_grad, matmul_holdable, minus_summed,
    right_grad, sigmoid_grad, silu_grad, softplus_grad, spread_scalar, sqrt_grad, times, TWO_BITS,
};
use crate::shape::{
    expands_to, lemma_low_rank, lemma_numel_concat, lemma_numel_swapped, lemma_positive, numel,
    regular, solid, span, swapped,
};
use crate::tape::matmul_fits;
use crate::tensor::{same_shape, CudaTensor, Shape};
use vstd::prelude::*;

verus! {

proof fn lemma_expand_no_clash(a: Seq<usize>, b: Seq<usize>, i: int)
    requires
        a.len() == b.len(),
        expands_to(b, a),
    ensures
        first_clash(a, b, i) is None,
    decreases a.len() - i,
{
    if 0 <= i < a.len() {
        assert(b[i] == a[i] || b[i] == 1);
        lemma_expand_no_clash(a, b, i + 1);
    }
}

/// The joint shape absorbs each of the shapes that it joins.
pub proof fn law_joint_shape_absorbs_operands(a: Seq<usize>, b: Seq<usize>)
    requires
        compatible(a, b),
    ensures
        compatible(joint_dims(a, b), a),
        joint_dims(joint_dims(a, b), a) == joint_dims(a, b),
        compatible(joint_dims(a, b), b),
        joint_dims(joint_dims(a, b), b) == joint_dims(a, b),
{
    let d = joint_dims(a, b);
    law_operands_expand_to_joint_shape(a, b);
    lemma_padded(a, (joint_rank(a, b) - a.len()) as nat);
    lemma_padded(b, (joint_rank(a, b) - b.len()) as nat);
    assert(aligned(d, a) =~= d);
    assert(aligned(d, b) =~= d);
    assert(aligned(a, d) =~= aligned(a, b));
    assert(aligned(b, d) =~= aligned(b, a));
    lemma_expand_no_clash(d, aligned(a, b), 0);
    lemma_expand_no_clash(d, aligned(b, a), 0);
    assert forall|i: int| 0 <= i < d.len() implies joint_dims(d, a)[i] == d[i] by {
        assert(aligned(a, b)[i] == d[i] || aligned(a, b)[i] == 1);
    }
    assert forall|i: int| 0 <= i < d.len() implies joint_dims(d, b)[i] == d[i] by {
        assert(aligned(b, a)[i] == d[i] || aligned(b, a)[i] == 1);
    }
    assert(joint_dims(d, a) =~= d);
    assert(joint_dims(d, b) =~= d);
}

/// A regular shape is indexable in every sense.
pub proof fn lemma_regular(s: Seq<usize>)
    requires
        regular(s),
    ensures
        numel(s) == span(s),
        1 <= numel(s) <= u32::MAX,
        span(s) <= u32::MAX,
        span(s) <= usize::MAX,
{
    lemma_positive(s);
}

/// A shape without empty axes can be counted in every sense.
pub proof fn lemma_solid(s: Seq<usize>)
    requires
        solid(s),
    ensures
        numel(s) == span(s),
        1 <= numel(s),
        span(s) <= usize::MAX,
        crate::kernels::addressable(s),
{
    lemma_positive(s);
}

/// Exchanging two axes keeps a shape without empty axes.
pub proof fn lemma_solid_swapped(s: Seq<usize>, a: int, b: int)
    requires
        solid(s),
        0 <= a < s.len(),
        0 <= b < s.len(),
    ensures
        solid(swapped(s, a, b)),
{
    lemma_numel_swapped(s, a, b);
    let w = swapped(s, a, b);
    assert forall|i: int| 0 <= i < w.len() implies #[trigger] w[i] >= 1 by {
        assert(s[i] >= 1 && s[a] >= 1 && s[b] >= 1);
    }
}

proof fn lemma_stack_dims(j: Seq<usize>, x: usize, y: usize)
    requires
        forall|i: int| 0 <= i < j.len() ==> #[trigger] j[i] >= 1,
        x >= 1,
        y >= 1,
        numel(j) * (x * y) <= usize::MAX,
    ensures
        span(j + seq![x, y]) <= usize::MAX,
        span(seq![numel(j) as usize, x, y]) <= usize::MAX,
        numel(j) <= usize::MAX,
{
    lemma_positive(j);
    let p = seq![x, y];
    let d = j + p;
    assert forall|i: int| 0 <= i < d.len() implies #[trigger] d[i] >= 1 by {
        if i < j.len() {
            assert(d[i] == j[i]);
        } else {
            assert(d[i] == p[i - j.len()]);
        }
    }
    lemma_positive(d);
    lemma_numel_concat(j, p);
    lemma_low_rank(p);
    let n = numel(j) as int;
    let xy = x * y;
    assert(xy >= 1) by (nonlinear_arith)
        requires
            xy == x * y,
            x >= 1,
            y >= 1,
    ;
    assert(n <= n * xy) by (nonlinear_arith)
        requires
            n >= 0,
            xy >= 1,
    ;
    let t = seq![numel(j) as usize, x, y];
    assert forall|i: int| 0 <= i < t.len() implies #[trigger] t[i] >= 1 by {
    }
    lemma_positive(t);
    lemma_low_rank(t);
}

/// Which shapes meet in the gradients of a product.
proof fn lemma_matmul_grads(a: Seq<usize>, b: Seq<usize>, out: Seq<usize>)
    requires
        matmul_fits(a, b, out),
        matmul_holdable(a, b),
        solid(out),
    ensures
        ({
            let r = a.len() as int;
            let pb = padded(b, (r - b.len()) as nat);
            let j = lead(out);
            let bt = swapped(pb, r - 2, r - 1);
            let at = swapped(a, r - 2, r - 1);
            &&& out.len() == r
            &&& pb.len() == r
            &&& numel(pb) == numel(b)
            &&& solid(pb)
            &&& solid(bt)
            &&& solid(at)
            &&& wide_lead(out, bt) == j
            &&& wide_lead(at, out) == j
            &&& span(j + seq![out[r - 2], bt[r - 1]]) <= usize::MAX
            &&& span(j + seq![at[r - 2], out[r - 1]]) <= usize::MAX
            &&& can_repeat(out, j)
            &&& can_repeat(bt, j)
            &&& can_repeat(at, j)
        }),
{
    let r = a.len() as int;
    let n = (r - b.len()) as nat;
    let pb = padded(b, n);
    lemma_padded(b, n);
    let la = lead(a);
    let lb = lead(pb);
    let jd = joint_dims(la, lb);
    law_operands_expand_to_joint_shape(la, lb);
    assert(aligned(la, lb) =~= la);
    assert(aligned(lb, la) =~= lb);
    let j = lead(out);
    assert(j =~= jd);
    assert forall|i: int| 0 <= i < pb.len() implies #[trigger] pb[i] >= 1 by {
        if i >= n {
            assert(pb[i] == b[i - n]);
        }
    }
    assert(solid(pb));
    let bt = swapped(pb, r - 2, r - 1);
    let at = swapped(a, r - 2, r - 1);
    lemma_solid_swapped(pb, r - 2, r - 1);
    lemma_solid_swapped(a, r - 2, r - 1);
    assert(lead(bt) =~= lb);
    assert(lead(at) =~= la);
    assert forall|i: int| 0 <= i < j.len() implies #[trigger] j[i] >= 1 by {
        assert(j[i] == out[i]);
        assert(out[i] >= 1);
    }
    assert forall|i: int| 0 <= i < j.len() implies wide_lead(out, bt)[i] == j[i] by {
        assert(lb[i] == j[i] || lb[i] == 1);
        assert(bt[i] == lb[i]);
        assert(out[i] == j[i]);
        assert(j[i] >= 1);
    }
    assert(wide_lead(out, bt) =~= j);
    assert forall|i: int| 0 <= i < j.len() implies wide_lead(at, out)[i] == j[i] by {
        assert(la[i] == j[i] || la[i] == 1);
        assert(at[i] == la[i]);
        assert(out[i] == j[i]);
        assert(j[i] >= 1);
    }
    assert(wide_lead(at, out) =~= j);
    let m = a[r - 2];
    let k = a[r - 1];
    let q = pb[r - 1];
    assert(m >= 1 && k >= 1 && q >= 1);
    assert(out[r - 2] == m && out[r - 1] == q);
    assert(bt[r - 2] == q && bt[r - 1] == k);
    assert(at[r - 2] == k && at[r - 1] == m);
    lemma_stack_dims(j, m, k);
    lemma_stack_dims(j, k, q);
    assert(k * m == m * k && q * k == k * q) by (nonlinear_arith);
    lemma_stack_dims(j, k, m);
    lemma_stack_dims(j, q, k);
    lemma_numel_concat(j, seq![m, q]);
    assert(j + seq![m, q] =~= out);
    lemma_low_rank(seq![m, q]);
    lemma_stack_dims(j, m, q);
    lemma_solid(out);
    lemma_solid(bt);
    lemma_solid(at);
    assert(expands_to(j, j));
}

impl Program {
    /// `a * b`, broadcasting where the shapes differ.
    pub fn times_op(&mut self, a: &CudaTensor, b: &CudaTensor) -> (r: Result<CudaTensor, CudaError>)
        requires
            old(self).wf(),
            old(self).holds_f32(*a),
            old(self).holds_f32(*b),
            a.dims() == b.dims() ==> numel(a.dims()) <= u32::MAX,
            a.dims() != b.dims() && compatible(a.dims(), b.dims())
                ==> crate::kernels::addressable(joint_dims(a.dims(), b.dims())),
        ensures
            made(
                *old(self),
                *final(self),
                r,
                times(old(self).val(*a), old(self).val(*b)),
            ),
    {
        if same_shape(a.shape(), b.shape()) {
            Ok(self.mul_inner(a, b))
        } else {
            self.broadcast_mul_dev(a, b)
        }
    }

    /// One factor's gradient of a product.
    pub fn factor_grad(&mut self, g: &CudaTensor, other: &CudaTensor, target: &Shape) -> (r: Result<
        CudaTensor,
        CudaError,
    >)
        requires
            old(self).wf(),
            old(self).holds_f32(*g),
            old(self).holds_f32(*other),
            regular(g.dims()),
            compatible(g.dims(), other.dims()),
            joint_dims(g.dims(), other.dims()) == g.dims(),
            span(target@) <= usize::MAX,
        ensures
            made(
                *old(self),
                *final(self),
                r,
                factor_grad(old(self).val(*g), old(self).val(*other), target@),
            ),
    {
        proof {
            lemma_regular(g.dims());
        }
        let t = self.times_op(g, other)?;
        self.sum_to_shape_rank_reduce(&t, target)
    }

    /// The negative of a gradient summed down to a shape.
    pub fn minus_summed(&mut self, g: &CudaTensor, target: &Shape) -> (r: Result<
        CudaTensor,
        CudaError,
    >)
        requires
            old(self).wf(),
            old(self).holds_f32(*g),
            g.node_id is None,
            g.origin is None,
            regular(target@),
        ensures
            made(
                *old(self),
                *final(self),
                r,
                minus_summed(old(self).val(*g), target@),
            ),
    {
        proof {
            lemma_regular(target@);
        }
        let t = self.sum_to_shape_rank_reduce(g, target)?;
        Ok(self.neg_inner(&t))
    }

    /// `g / (2 * out)`.
    pub fn sqrt_grad(&mut self, g: &CudaTensor, out: &CudaTensor) -> (r: Result<
        CudaTensor,
        CudaError,
    >)
        requires
            old(self).wf(),
            old(self).holds_f32(*g),
            old(self).holds_f32(*out),
            g.dims() == out.dims(),
            regular(g.dims()),
        ensures
            made(
                *old(self),
                *final(self),
                r,
                Ok(sqrt_grad(old(self).val(*g), old(self).val(*out))),
            ),
    {
        let twice = self.scalar_op(Kernel::MulScalar, out, Real::Bits(TWO_BITS))?;
        let ones = self.ones_tensor(&out.shape);
        let denom = self.div_op(&ones, &twice)?;
        Ok(self.mul_inner(g, &denom))
    }

    /// `-g * out / rhs`.
    pub fn divisor_grad(&mut self, g: &CudaTensor, rhs: &CudaTensor, out: &CudaTensor) -> (r: Result<
        CudaTensor,
        CudaError,
    >)
        requires
            old(self).wf(),
            old(self).holds_f32(*g),
            old(self).holds_f32(*rhs),
            old(self).holds_f32(*out),
            g.dims() == out.dims(),
            g.dims() == rhs.dims(),
            regular(g.dims()),
        ensures
            made(
                *old(self),
                *final(self),
                r,
                Ok(divisor_grad(old(self).val(*g), old(self).val(*rhs), old(self).val(*out))),
            ),
    {
        let minus = self.neg_inner(g);
        let scaled = self.mul_inner(&minus, out);
        self.div_op(&scaled, rhs)
    }

    /// The gradient of `x * sigmoid(x)`.
    pub fn silu_grad(&mut self, g: &CudaTensor, x: &CudaTensor) -> (r: Result<
        CudaTensor,
        CudaError,
    >)
        requires
            old(self).wf(),
            old(self).holds_f32(*g),
            old(self).holds_f32(*x),
            g.dims() == x.dims(),
            regular(g.dims()),
        ensures
            made(
                *old(self),
                *final(self),
                r,
                Ok(silu_grad(old(self).val(*g), old(self).val(*x))),
            ),
    {
        let sigma = self.unary_op(Kernel::Sigmoid, x)?;
        let ones = self.ones_tensor(&x.shape);
        let rest = self.sub_inner(&ones, &sigma);
        let xs = self.mul_inner(x, &sigma);
        let xsr = self.mul_inner(&xs, &rest);
        let slope = self.add_inner(&sigma, &xsr);
        Ok(self.mul_inner(g, &slope))
    }

    /// The gradient of the sigmoid, from its value.
    pub fn sigmoid_grad(&mut self, g: &CudaTensor, out: &CudaTensor) -> (r: CudaTensor)
        requires
            old(self).wf(),
            old(self).holds_f32(*g),
            old(self).holds_f32(*out),
            g.dims() == out.dims(),
            regular(g.dims()),
        ensures
            made(
                *old(self),
                *final(self),
                Ok(r),
                Ok(sigmoid_grad(old(self).val(*g), old(self).val(*out))),
            ),
    {
        let ones = self.ones_tensor(&out.shape);
        let rest = self.sub_inner(&ones, out);
        let slope = self.mul_inner(out, &rest);
        self.mul_inner(g, &slope)
    }

    /// The gradient of the softplus.
    pub fn softplus_grad(&mut self, g: &CudaTensor, x: &CudaTensor) -> (r: Result<
        CudaTensor,
        CudaError,
    >)
        requires
            old(self).wf(),
            old(self).holds_f32(*g),
            old(self).holds_f32(*x),
            g.dims() == x.dims(),
            regular(g.dims()),
        ensures
            made(
                *old(self),
                *final(self),
                r,
                Ok(softplus_grad(old(self).val(*g), old(self).val(*x))),
            ),
    {
        let sigma = self.unary_op(Kernel::Sigmoid, x)?;
        Ok(self.mul_inner(g, &sigma))
    }

    /// The left factor's gradient of a matrix product.
    pub fn left_grad(&mut self, g: &CudaTensor, a: &CudaTensor, b: &CudaTensor) -> (r: Result<
        CudaTensor,
        CudaError,
    >)
        requires
            old(self).wf(),
            old(self).holds_f32(*g),
            old(self).holds_f32(*a),
            old(self).holds_f32(*b),
            solid(g.dims()),
            matmul_fits(a.dims(), b.dims(), g.dims()),
            matmul_holdable(a.dims(), b.dims()),
        ensures
            made(
                *old(self),
                *final(self),
                r,
                left_grad(old(self).val(*g), old(self).val(*a), old(self).val(*b)),
            ),
    {
        let rank: usize = a.shape.len();
        proof {
            lemma_matmul_grads(a.dims(), b.dims(), g.dims());
            lemma_solid(padded(b.dims(), (rank - b.dims().len()) as nat));
        }
        let wide = padded_shape(b.shape(), rank - b.shape.len());
        let bw = CudaTensor::new(b.storage(), wide);
        let bt = self.transpose_op("transpose_inner", &bw, rank - 2, rank - 1)?;
        let ga = self.matmul_inner(g, &bt)?;
        self.sum_to_shape(&ga, a.shape())
    }

    /// The right factor's gradient of a matrix product.
    pub fn right_grad(&mut self, g: &CudaTensor, a: &CudaTensor, b: &CudaTensor) -> (r: Result<
        CudaTensor,
        CudaError,
    >)
        requires
            old(self).wf(),
            old(self).holds_f32(*g),
            old(self).holds_f32(*a),
            old(self).holds_f32(*b),
            solid(g.dims()),
            matmul_fits(a.dims(), b.dims(), g.dims()),
            matmul_holdable(a.dims(), b.dims()),
        ensures
            made(
                *old(self),
                *final(self),
                r,
                right_grad(old(self).val(*g), old(self).val(*a), old(self).val(*b)),
            ),
    {
        let rank: usize = a.shape.len();
        proof {
            lemma_matmul_grads(a.dims(), b.dims(), g.dims());
            lemma_solid(a.dims());
        }
        let at = self.transpose_op("transpose_inner", a, rank - 2, rank - 1)?;
        let gb = self.matmul_inner(&at, g)?;
        self.sum_to_shape_rank_reduce(&gb, &b.shape)
    }

    /// The gradient of the logarithm of a softmax, from its value.
    pub fn log_softmax_grad(&mut self, g: &CudaTensor, out: &CudaTensor, dim: usize) -> (r: Result<
        CudaTensor,
        CudaError,
    >)
        requires
            old(self).wf(),
            old(self).holds_f32(*g),
            old(self).holds_f32(*out),
            g.dims() == out.dims(),
            regular(g.dims()),
            dim < g.dims().len(),
        ensures
            made(
                *old(self),
                *final(self),
                r,
                log_softmax_grad(old(self).val(*g), old(self).val(*out), dim),
            ),
    {
        proof {
            lemma_regular(g.dims());
            crate::device::lemma_reduced_dims(g.dims(), dim as int);
        }
        let soft = self.unary_op(Kernel::Exp, out)?;
        let sum = self.reduce_sum_keepdim(g, dim)?;
        let wide = if same_shape(sum.shape(), out.shape()) {
            sum
        } else {
            self.broadcast_as_op("broadcast_as_inner", &sum, &out.shape)?
        };
        let scaled = self.mul_inner(&soft, &wide);
        Ok(self.sub_inner(g, &scaled))
    }

    /// A one-element gradient spread over a shape.
    pub fn spread_scalar(&mut self, g: &CudaTensor, dims: &Shape) -> (r: Result<
        CudaTensor,
        CudaError,
    >)
        requires
            old(self).wf(),
            old(self).holds_f32(*g),
            numel(g.dims()) == 1,
            dims@.len() >= 1,
            solid(dims@),
        ensures
            made(*old(self), *final(self), r, spread_scalar(old(self).val(*g), dims@)),
    {
        proof {
            lemma_solid(dims@);
            lemma_padded(Seq::empty(), dims@.len());
        }
        let none: Vec<usize> = Vec::new();
        let unit = padded_shape(none.as_slice(), dims.len());
        assert(none@ =~= Seq::<usize>::empty());
        let wide = g.with_shape(unit);
        self.broadcast_as_op("broadcast_as_inner", &wide, dims)
    }
}

} // verus!
