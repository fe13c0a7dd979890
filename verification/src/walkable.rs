//! Whether what an operation leaves on the tape can be differentiated.

use crate::backend::Draft;
use crate::broadcast::joint_dims;
use crate::conv::ConvDims;
use crate::convolve::{conv_dims, ConvSpec};
use crate::device::padded;
use crate::matrix::lead;
use crate::rules::{holdable, matmul_holdable, strict, takes};
use crate::shape::{
    element_count, lemma_low_rank, lemma_numel_le_span, lemma_positive, lemma_span_run, numel,
    regular, solid,
};
use crate::tape::{conv_of, matmul_fits, Mark, TapeOp};
use crate::tensor::{CudaTensor, NodeId};
use crate::vjp::lemma_solid;
use vstd::prelude::*;

verus! {

/// Whether no extent is zero and a kernel can index all elements.
pub fn is_regular(s: &[usize]) -> (r: bool)
    ensures
        r == regular(s@),
{
    let len: usize = s.len();
    let mut n: u64 = 1;
    let mut i: usize = len;
    assert(s@.subrange(len as int, len as int) =~= Seq::<usize>::empty());
    while i > 0
        invariant
            i <= len,
            len == s@.len(),
            1 <= n <= u32::MAX,
            n == numel(s@.subrange(i as int, len as int)),
            forall|j: int| i <= j < len ==> #[trigger] s@[j] >= 1,
        decreases i,
    {
        i = i - 1;
        let d: usize = s[i];
        if d == 0 {
            assert(s@[i as int] == 0);
            return false;
        }
        let ghost rest = s@.subrange(i as int, len as int);
        proof {
            assert(rest.drop_first() =~= s@.subrange(i + 1, len as int));
            assert(numel(rest) == d * n);
            if regular(s@) {
                assert forall|j: int| 0 <= j < rest.len() implies #[trigger] rest[j] >= 1 by {
                    assert(rest[j] == s@[i + j]);
                }
                lemma_positive(s@);
                lemma_positive(rest);
                lemma_span_run(s@, i as int, len as int);
            }
        }
        if d > 0xffff_ffff {
            assert(d * n >= d) by (nonlinear_arith)
                requires
                    n >= 1,
                    d >= 0,
            ;
            return false;
        }
        let e: u64 = d as u64;
        assert(e * n <= 0xffff_ffff * 0xffff_ffff && e * n >= 1) by (nonlinear_arith)
            requires
                1 <= e <= 0xffff_ffff,
                1 <= n <= 0xffff_ffff,
        ;
        let m: u64 = e * n;
        if m > 0xffff_ffff {
            return false;
        }
        n = m;
    }
    assert(s@.subrange(0, len as int) =~= s@);
    true
}

/// Whether no extent is zero and all elements can be counted.
pub fn is_solid(s: &[usize]) -> (r: bool)
    ensures
        r == solid(s@),
{
    let len: usize = s.len();
    let mut n: usize = 1;
    let mut i: usize = len;
    assert(s@.subrange(len as int, len as int) =~= Seq::<usize>::empty());
    while i > 0
        invariant
            i <= len,
            len == s@.len(),
            1 <= n,
            n == numel(s@.subrange(i as int, len as int)),
            forall|j: int| i <= j < len ==> #[trigger] s@[j] >= 1,
        decreases i,
    {
        i = i - 1;
        let d: usize = s[i];
        if d == 0 {
            assert(s@[i as int] == 0);
            return false;
        }
        let ghost rest = s@.subrange(i as int, len as int);
        proof {
            assert(rest.drop_first() =~= s@.subrange(i + 1, len as int));
            assert(numel(rest) == d * n);
            if solid(s@) {
                assert forall|j: int| 0 <= j < rest.len() implies #[trigger] rest[j] >= 1 by {
                    assert(rest[j] == s@[i + j]);
                }
                lemma_positive(s@);
                lemma_positive(rest);
                lemma_span_run(s@, i as int, len as int);
            }
        }
        assert(d * n >= 1) by (nonlinear_arith)
            requires
                d >= 1,
                n >= 1,
        ;
        match d.checked_mul(n) {
            Some(m) => {
                n = m;
            },
            None => {
                return false;
            },
        }
    }
    assert(s@.subrange(0, len as int) =~= s@);
    true
}

/// Whether the rule of an operation runs kernels that take lengths for granted.
pub fn is_strict(op: &TapeOp) -> (r: bool)
    ensures
        r == strict(*op),
{
    match op {
        TapeOp::Sub { .. }
        | TapeOp::Mul { .. }
        | TapeOp::Neg { .. }
        | TapeOp::Sqrt { .. }
        | TapeOp::Div { .. }
        | TapeOp::Exp { .. }
        | TapeOp::Silu { .. }
        | TapeOp::Sigmoid { .. }
        | TapeOp::Softplus { .. }
        | TapeOp::LogSoftmax { .. }
        | TapeOp::Conv1d { .. }
        | TapeOp::SsdScan(_) => true,
        _ => false,
    }
}

/// A shape with an empty axis has no elements.
proof fn lemma_empty(s: Seq<usize>, i: int)
    requires
        0 <= i < s.len(),
        s[i] == 0,
    ensures
        numel(s) == 0,
    decreases s.len(),
{
    let rest = s.drop_first();
    let (a, b) = (s[0] as int, numel(rest) as int);
    if i == 0 {
        assert(a * b == 0) by (nonlinear_arith)
            requires
                a == 0,
        ;
    } else {
        assert(rest[i - 1] == s[i]);
        lemma_empty(rest, i - 1);
        assert(a * b == 0) by (nonlinear_arith)
            requires
                b == 0,
        ;
    }
}

/// Whether a kernel can index all elements.
pub fn is_short(s: &[usize]) -> (r: bool)
    ensures
        r == (numel(s@) <= u32::MAX),
{
    let mut i: usize = 0;
    while i < s.len()
        invariant
            i <= s@.len(),
            forall|j: int| 0 <= j < i ==> #[trigger] s@[j] >= 1,
        decreases s@.len() - i,
    {
        if s[i] == 0 {
            proof {
                lemma_empty(s@, i as int);
            }
            return true;
        }
        i = i + 1;
    }
    is_regular(s)
}

/// Whether the products that a matrix product's gradients take can be held.
fn holds_matmul(a: &[usize], b: &[usize], out: &[usize]) -> (r: bool)
    requires
        matmul_fits(a@, b@, out@),
        solid(out@),
    ensures
        r == matmul_holdable(a@, b@),
{
    if !is_solid(a) || !is_solid(b) {
        return false;
    }
    let rank: usize = a.len();
    let ghost pb = padded(b@, (rank - b@.len()) as nat);
    let ghost j = joint_dims(lead(a@), lead(pb));
    proof {
        lemma_solid(out@);
        assert(out@.subrange(0, rank - 2) =~= j);
        lemma_span_run(out@, 0, rank - 2);
        lemma_numel_le_span(j);
    }
    let stack: usize = element_count(vstd::slice::slice_subrange(out, 0, rank - 2));
    let (m, k, n): (usize, usize, usize) = (a[rank - 2], a[rank - 1], out[rank - 1]);
    proof {
        assert(stack == numel(j));
        assert(pb[rank - 2] == k && pb[rank - 1] == n);
        assert(stack * (m * k) == stack * m * k && stack * (k * n) == stack * k * n)
            by (nonlinear_arith);
    }
    crate::hosttask::product(stack, m, k).is_some() && crate::hosttask::product(
        stack,
        k,
        n,
    ).is_some()
}

/// Whether what a convolution's gradients need can be held.
fn holds_conv(
    x: &CudaTensor,
    w: &CudaTensor,
    out: &[usize],
    stride: usize,
    padding: usize,
    groups: usize,
) -> (r: bool)
    requires
        x.dims().len() == 3,
        w.dims().len() == 3,
        regular(out@),
        out@ == conv_dims(conv_of(x.dims(), w.dims(), out@, stride, padding, groups)),
    ensures
        r == ({
            let s = conv_of(x.dims(), w.dims(), out@, stride, padding, groups);
            &&& regular(x.dims())
            &&& regular(w.dims())
            &&& !s.depthwise() ==> s.fits()
        }),
{
    if !is_regular(x.shape()) || !is_regular(w.shape()) {
        return false;
    }
    let s = ConvSpec {
        dims: ConvDims {
            batch: x.shape[0],
            c_in: x.shape[1],
            t_in: x.shape[2],
            t_out: out[2],
            k_size: w.shape[2],
            stride,
            padding,
        },
        c_out: w.shape[0],
        per_group: w.shape[1],
        groups,
    };
    assert(s == conv_of(x.dims(), w.dims(), out@, stride, padding, groups));
    if s.is_depthwise() {
        return true;
    }
    proof {
        lemma_low_rank(w.dims());
        lemma_low_rank(out@);
        let b = s.dims.batch as int;
        let c = s.c_out as int;
        let t = s.dims.t_out as int;
        assert(out@[0] == b && out@[1] == c && out@[2] == t);
        assert(w.dims()[0] >= 1);
        assert(c * (b * t) == b * (c * t)) by (nonlinear_arith);
        assert(b * t <= c * (b * t)) by (nonlinear_arith)
            requires
                c >= 1,
                b >= 0,
                t >= 0,
        ;
        assert(s.c_out * s.group_cols() == numel(w.dims()));
        assert(s.c_out * s.rows() == numel(out@));
        assert(s.rows() <= u32::MAX);
        assert(0 <= s.rows()) by (nonlinear_arith)
            requires
                s.rows() == b * t,
                b >= 0,
                t >= 0,
        ;
    }
    let rows: usize = s.dims.batch * s.dims.t_out;
    let cols = crate::hosttask::product(s.dims.c_in, s.dims.k_size, 1);
    let wide = crate::hosttask::product(rows, s.dims.c_in, 1);
    let all = crate::hosttask::product(rows, s.dims.c_in, s.dims.k_size);
    cols.is_some() && wide.is_some() && all.is_some()
}

impl Draft {
    /// Whether the rule of the entry that records it can be applied when its
    /// inputs have the nodes `ids`.
    pub open spec fn smooth(self, ids: Seq<Option<NodeId>>) -> bool {
        &&& takes(self.op, self.dims@)
        &&& holdable(self.op, self.dims@)
        &&& forall|k: int|
            0 <= k < ids.len() ==> ((#[trigger] ids[k]) is Some ==> takes(
                self.op,
                self.operands@[k].dims(),
            ))
        &&& self.op matches TapeOp::Conv1d { w_val, .. } ==> (ids.len() == 3 && ids[2] is Some
            ==> self.operands@[2].dims() == seq![w_val.dims()[0]])
    }

    /// Whether kernels can add to the gradients of the inputs that have nodes.
    pub open spec fn short(self, ids: Seq<Option<NodeId>>) -> bool {
        forall|k: int|
            0 <= k < ids.len() ==> ((#[trigger] ids[k]) is Some ==> numel(self.operands@[k].dims())
                <= u32::MAX)
    }

    /// What a backward pass has to know of the entry that records it.
    pub fn mark(&self, ids: &Vec<Option<NodeId>>) -> (m: Mark)
        requires
            self.ok(),
            ids@.len() == self.operands@.len(),
        ensures
            m.smooth == self.smooth(ids@),
            m.short == self.short(ids@),
    {
        let unasked: bool = is_strict(&self.op);
        let mut even: bool = true;
        let mut short: bool = true;
        let mut k: usize = 0;
        while k < ids.len()
            invariant
                k <= ids@.len(),
                ids@.len() == self.operands@.len(),
                unasked == strict(self.op),
                even == forall|j: int|
                    0 <= j < k ==> ((#[trigger] ids@[j]) is Some ==> takes(
                        self.op,
                        self.operands@[j].dims(),
                    )),
                short == forall|j: int|
                    0 <= j < k ==> ((#[trigger] ids@[j]) is Some ==> numel(
                        self.operands@[j].dims(),
                    ) <= u32::MAX),
            decreases ids@.len() - k,
        {
            if ids[k].is_some() {
                let few: bool = is_short(self.operands[k].shape());
                if !is_solid(self.operands[k].shape()) || (unasked && !few) {
                    assert(ids@[k as int] is Some);
                    even = false;
                }
                if !few {
                    assert(ids@[k as int] is Some);
                    short = false;
                }
            }
            k = k + 1;
        }
        let out = self.dims.as_slice();
        let fine: bool = is_solid(out) && (!unasked || is_short(out));
        Mark { smooth: even && fine && self.holds(ids), short }
    }

    /// Whether what the rule has to hold can be held, and a convolution's bias
    /// has one axis.
    fn holds(&self, ids: &Vec<Option<NodeId>>) -> (r: bool)
        requires
            self.ok(),
            takes(self.op, self.dims@),
            ids@.len() == self.operands@.len(),
        ensures
            r == (holdable(self.op, self.dims@) && (self.op matches TapeOp::Conv1d { w_val, .. }
                ==> (ids@.len() == 3 && ids@[2] is Some ==> self.operands@[2].dims() == seq![
                w_val.dims()[0],
            ]))),
    {
        match &self.op {
            TapeOp::MatMul { a: _, b: _, a_val, b_val } => holds_matmul(
                a_val.shape(),
                b_val.shape(),
                self.dims.as_slice(),
            ),
            TapeOp::Conv1d { x: _, w: _, bias_node: _, x_val, w_val, stride, padding, groups } => {
                if !holds_conv(x_val, w_val, self.dims.as_slice(), *stride, *padding, *groups) {
                    return false;
                }
                if self.operands.len() != 3 || ids[2].is_none() {
                    return true;
                }
                let bias = self.operands[2].shape();
                let c: usize = w_val.shape[0];
                let one: bool = bias.len() == 1 && bias[0] == c;
                assert(one == (bias@ =~= seq![c]));
                one
            },
            TapeOp::MeanAll { input: _, numel: _, input_shape } => input_shape.len() >= 1,
            TapeOp::SumAll { input: _, input_shape } => input_shape.len() >= 1,
            _ => true,
        }
    }
}

} // verus!
