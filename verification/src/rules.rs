//! The gradient rules: what each recorded operation contributes to the
//! gradients of its inputs, as expressions over the gradient of its output
//! and the saved tensors.

use crate::broadcast::{broadcast_mul_val, expanded_val, joint_dims, narrowed_val, spread_val};
use crate::convolve::{
    columns_val, conv_bias_grad_val, conv_input_grad_val, conv_weight_grad_val,
    depthwise_bias_grad_val, depthwise_input_grad_val, depthwise_weight_grad_val, ConvSpec,
};
use crate::device::{
    binary_val, if_short, ones_val, padded, reduced_val, scalar_val, summed_rank_val, summed_val,
    transposed_val, unary_val,
};
use crate::error::CudaError;
use crate::grad::accumulated;
use crate::launch::{Kernel, Real};
use crate::matrix::{lead, matmul_inner_val};
use crate::program::{held, Val};
use crate::rows::{
    along_val, embedding_grad_val, gather_grad_val, rmsnorm_grad_w_val, rmsnorm_grad_x_val,
};
use crate::shape::{numel, regular, solid};
use crate::tape::{conv_of, extent_sum, inputs_of, node_key, TapeOp, TapeView};
use crate::tensor::{CudaTensor, NodeId};
use vstd::prelude::*;

verus! {

/// The bit pattern of the float two.
pub const TWO_BITS: u32 = 0x4000_0000;

/// The gradients of a walk: by node, and by parameter.
#[verifier::ext_equal]
pub struct GradView {
    pub nodes: Map<u64, Val>,
    pub params: Map<u64, Val>,
}

/// A saved tensor's contents and shape.
pub open spec fn saved(t: CudaTensor) -> Val {
    Val { term: held(Map::empty(), t.buffer()), dims: t.dims() }
}

/// A contribution to the gradient of an input, where the input has a node.
pub open spec fn give(st: GradView, n: Option<NodeId>, r: Result<Val, CudaError>) -> Result<
    GradView,
    CudaError,
> {
    match n {
        None => Ok(st),
        Some(id) => match r {
            Err(e) => Err(e),
            Ok(v) => Ok(GradView { nodes: accumulated(st.nodes, node_key(id), v), ..st }),
        },
    }
}

/// A further contribution, after those that led to `s`.
pub open spec fn also(
    s: Result<GradView, CudaError>,
    n: Option<NodeId>,
    r: Result<Val, CudaError>,
) -> Result<GradView, CudaError> {
    match s {
        Err(e) => Err(e),
        Ok(st) => give(st, n, r),
    }
}

/// `a * b`, broadcasting where the shapes differ.
pub open spec fn times(a: Val, b: Val) -> Result<Val, CudaError> {
    if a.dims == b.dims {
        Ok(binary_val(Kernel::Mul, a, b))
    } else {
        broadcast_mul_val(a, b)
    }
}

/// One factor's gradient of a product: the output's gradient times the other
/// factor, summed down to this factor's shape.
pub open spec fn factor_grad(g: Val, other: Val, dims: Seq<usize>) -> Result<Val, CudaError> {
    match times(g, other) {
        Err(e) => Err(e),
        Ok(v) => summed_rank_val(v, dims),
    }
}

/// The negative of a gradient summed down to a shape.
pub open spec fn minus_summed(g: Val, dims: Seq<usize>) -> Result<Val, CudaError> {
    match summed_rank_val(g, dims) {
        Err(e) => Err(e),
        Ok(v) => Ok(unary_val(Kernel::Neg, v)),
    }
}

/// `g / (2 * out)`.
pub open spec fn sqrt_grad(g: Val, out: Val) -> Val {
    let twice = scalar_val(Kernel::MulScalar, out, Real::Bits(TWO_BITS));
    binary_val(Kernel::Mul, g, binary_val(Kernel::Div, ones_val(out.dims), twice))
}

/// `-g * out / rhs`.
pub open spec fn divisor_grad(g: Val, rhs: Val, out: Val) -> Val {
    binary_val(
        Kernel::Div,
        binary_val(Kernel::Mul, unary_val(Kernel::Neg, g), out),
        rhs,
    )
}

/// `g * (s + x * s * (1 - s))` with `s` the sigmoid of `x`.
pub open spec fn silu_grad(g: Val, x: Val) -> Val {
    let s = unary_val(Kernel::Sigmoid, x);
    let rest = binary_val(Kernel::Sub, ones_val(x.dims), s);
    let xs = binary_val(Kernel::Mul, x, s);
    binary_val(
        Kernel::Mul,
        g,
        binary_val(Kernel::Add, s, binary_val(Kernel::Mul, xs, rest)),
    )
}

/// `g * out * (1 - out)`.
pub open spec fn sigmoid_grad(g: Val, out: Val) -> Val {
    let rest = binary_val(Kernel::Sub, ones_val(out.dims), out);
    binary_val(Kernel::Mul, g, binary_val(Kernel::Mul, out, rest))
}

/// `g * sigmoid(x)`.
pub open spec fn softplus_grad(g: Val, x: Val) -> Val {
    binary_val(Kernel::Mul, g, unary_val(Kernel::Sigmoid, x))
}

/// `g` times the transposed right factor, summed down to the left one.
pub open spec fn left_grad(g: Val, a: Val, b: Val) -> Result<Val, CudaError> {
    let r = a.dims.len();
    let wide = Val { term: b.term, dims: padded(b.dims, (r - b.dims.len()) as nat) };
    match transposed_val("transpose_inner", wide, (r - 2) as usize, (r - 1) as usize) {
        Err(e) => Err(e),
        Ok(bt) => match matmul_inner_val(g, bt) {
            Err(e) => Err(e),
            Ok(ga) => summed_val(ga, a.dims),
        },
    }
}

/// The transposed left factor times `g`, summed down to the right one.
pub open spec fn right_grad(g: Val, a: Val, b: Val) -> Result<Val, CudaError> {
    let r = a.dims.len();
    match transposed_val("transpose_inner", a, (r - 2) as usize, (r - 1) as usize) {
        Err(e) => Err(e),
        Ok(at) => match matmul_inner_val(at, g) {
            Err(e) => Err(e),
            Ok(gb) => summed_rank_val(gb, b.dims),
        },
    }
}

/// The gradients of a convolution: bias, input and weight on the depthwise
/// path; bias, weight and input on the general one.
pub open spec fn conv_grad(
    g: Val,
    x: Option<NodeId>,
    w: Option<NodeId>,
    bias: Option<NodeId>,
    xv: Val,
    wv: Val,
    s: ConvSpec,
    st: GradView,
) -> Result<GradView, CudaError> {
    if s.depthwise() {
        also(
            also(
                give(st, bias, depthwise_bias_grad_val(g, s.dims.c_in)),
                x,
                depthwise_input_grad_val(g, wv, s.dims),
            ),
            w,
            depthwise_weight_grad_val(g, xv, s.dims, wv.dims),
        )
    } else {
        match give(st, bias, Ok(conv_bias_grad_val(g, s))) {
            Err(e) => Err(e),
            Ok(s1) => match columns_val(xv, s.dims) {
                Err(e) => Err(e),
                Ok(col) => also(
                    give(s1, w, Ok(conv_weight_grad_val(g, col, s, wv.dims))),
                    x,
                    Ok(conv_input_grad_val(g, wv, s, xv.dims)),
                ),
            },
        }
    }
}

/// `g - softmax * sum(g)`, the sum taken along `dim`.
pub open spec fn log_softmax_grad(g: Val, out: Val, dim: usize) -> Result<Val, CudaError> {
    let soft = unary_val(Kernel::Exp, out);
    match reduced_val(g, dim as int) {
        Err(e) => Err(e),
        Ok(sum) => {
            let wide = if sum.dims == out.dims {
                Ok(sum)
            } else {
                expanded_val("broadcast_as_inner", sum, out.dims)
            };
            match wide {
                Err(e) => Err(e),
                Ok(v) => Ok(
                    binary_val(Kernel::Sub, g, binary_val(Kernel::Mul, soft, v)),
                ),
            }
        },
    }
}

/// A one-element gradient spread over the shape `dims`.
pub open spec fn spread_scalar(g: Val, dims: Seq<usize>) -> Result<Val, CudaError> {
    expanded_val(
        "broadcast_as_inner",
        Val { term: g.term, dims: padded(Seq::empty(), dims.len()) },
        dims,
    )
}

/// The contribution to the gradient of the `k`-th input of an operation with
/// an output gradient `g`.
pub open spec fn part(op: TapeOp, k: int, g: Val) -> Result<Val, CudaError> {
    match op {
        TapeOp::Add { lhs_shape, rhs_shape, .. } => if k == 0 {
            summed_rank_val(g, lhs_shape@)
        } else {
            summed_rank_val(g, rhs_shape@)
        },
        TapeOp::Sub { lhs_shape, rhs_shape, .. } => if k == 0 {
            summed_rank_val(g, lhs_shape@)
        } else {
            minus_summed(g, rhs_shape@)
        },
        TapeOp::Mul { lhs_val, rhs_val, .. } => if k == 0 {
            factor_grad(g, saved(rhs_val), lhs_val.dims())
        } else {
            factor_grad(g, saved(lhs_val), rhs_val.dims())
        },
        TapeOp::Neg { .. } => Ok(unary_val(Kernel::Neg, g)),
        TapeOp::Reshape { orig_shape, .. } => Ok(Val { term: g.term, dims: orig_shape@ }),
        TapeOp::MulScalar { scale, .. } => if_short(
            Kernel::MulScalar,
            g.count(),
            scalar_val(Kernel::MulScalar, g, scale),
        ),
        TapeOp::AddScalar { .. } => Ok(g),
        TapeOp::Sqrt { out_val, .. } => Ok(sqrt_grad(g, saved(out_val))),
        TapeOp::Div { rhs_val, out_val, .. } => if k == 0 {
            Ok(binary_val(Kernel::Div, g, saved(rhs_val)))
        } else {
            Ok(divisor_grad(g, saved(rhs_val), saved(out_val)))
        },
        TapeOp::Exp { out_val, .. } => Ok(binary_val(Kernel::Mul, g, saved(out_val))),
        TapeOp::Silu { input_val, .. } => Ok(silu_grad(g, saved(input_val))),
        TapeOp::Sigmoid { out_val, .. } => Ok(sigmoid_grad(g, saved(out_val))),
        TapeOp::Softplus { input_val, .. } => Ok(softplus_grad(g, saved(input_val))),
        TapeOp::MatMul { a_val, b_val, .. } => if k == 0 {
            left_grad(g, saved(a_val), saved(b_val))
        } else {
            right_grad(g, saved(a_val), saved(b_val))
        },
        TapeOp::Transpose { dim_a, dim_b, .. } => transposed_val(
            "transpose_inner",
            g,
            dim_a,
            dim_b,
        ),
        TapeOp::Narrow { dim, start, orig_shape, .. } => spread_val(g, dim, start, orig_shape@),
        TapeOp::BroadcastAs { orig_shape, .. } => summed_val(g, orig_shape@),
        TapeOp::Concat { dim, input_shapes, .. } => narrowed_val(
            g,
            dim,
            extent_sum(input_shapes@, dim as int, k) as usize,
            input_shapes@[k]@[dim as int],
        ),
        TapeOp::Embedding { indices_val, table_shape, .. } => embedding_grad_val(
            g,
            saved(indices_val),
            table_shape@,
        ),
        TapeOp::Gather { indices_val, dim, input_shape, .. } => gather_grad_val(
            g,
            saved(indices_val),
            dim,
            input_shape@,
        ),
        TapeOp::LogSoftmax { dim, out_val, .. } => log_softmax_grad(g, saved(out_val), dim),
        TapeOp::RmsNorm { x_val, w_val, eps, .. } => if k == 0 {
            rmsnorm_grad_x_val(g, saved(x_val), saved(w_val), eps)
        } else {
            rmsnorm_grad_w_val(g, saved(x_val), w_val.dims(), eps)
        },
        TapeOp::Cumsum { dim, .. } => along_val(
            "transpose_inner",
            Kernel::ReverseCumsumLastdim,
            g,
            dim,
        ),
        TapeOp::MeanAll { numel, input_shape, .. } => spread_scalar(
            scalar_val(Kernel::MulScalar, g, Real::OneOver(numel)),
            input_shape@,
        ),
        TapeOp::SumAll { input_shape, .. } => spread_scalar(g, input_shape@),
        TapeOp::Leaf { .. } => Ok(g),
        TapeOp::Conv1d { .. } => Ok(g),
        TapeOp::SsdScan(_) => Ok(g),
    }
}

/// The contributions to the inputs from the `k`-th on, in order.
pub open spec fn parts(op: TapeOp, g: Val, k: int, s: Result<GradView, CudaError>) -> Result<
    GradView,
    CudaError,
>
    decreases inputs_of(op).len() - k,
{
    if k < 0 || k >= inputs_of(op).len() {
        s
    } else {
        parts(op, g, k + 1, also(s, inputs_of(op)[k], part(op, k, g)))
    }
}

/// What a recorded operation with an output gradient `g` adds to the
/// gradients: a parameter's node to the parameter, any other node to the
/// nodes of its inputs. A scan is differentiated by recomputation instead.
pub open spec fn vjp(op: TapeOp, g: Val, st: GradView) -> Result<GradView, CudaError> {
    match op {
        TapeOp::Leaf { param_id } => Ok(
            GradView { params: accumulated(st.params, param_id.0, g), ..st },
        ),
        TapeOp::Conv1d { x, w, bias_node, x_val, w_val, stride, padding, groups } => conv_grad(
            g,
            x,
            w,
            match bias_node {
                Some(b) => b,
                None => None,
            },
            saved(x_val),
            saved(w_val),
            conv_of(x_val.dims(), w_val.dims(), g.dims, stride, padding, groups),
            st,
        ),
        TapeOp::SsdScan(_) => Ok(st),
        _ => parts(op, g, 0, Ok(st)),
    }
}

/// Whether the stacks of a product can be repeated to their joint leading
/// axes, and the products taken for its gradients can be held.
pub open spec fn matmul_holdable(a: Seq<usize>, b: Seq<usize>) -> bool {
    let r = a.len() as int;
    let pb = padded(b, (r - b.len()) as nat);
    let j = numel(joint_dims(lead(a), lead(pb)));
    &&& solid(a)
    &&& solid(b)
    &&& j * (a[r - 2] * a[r - 1]) <= usize::MAX
    &&& j * (pb[r - 2] * pb[r - 1]) <= usize::MAX
}

/// Whether what the rule of an operation has to hold on the way can be held.
pub open spec fn holdable(op: TapeOp, out: Seq<usize>) -> bool {
    match op {
        TapeOp::MatMul { a_val, b_val, .. } => matmul_holdable(a_val.dims(), b_val.dims()),
        TapeOp::Conv1d { x_val, w_val, stride, padding, groups, .. } => {
            let s = conv_of(x_val.dims(), w_val.dims(), out, stride, padding, groups);
            &&& regular(x_val.dims())
            &&& regular(w_val.dims())
            &&& !s.depthwise() ==> s.fits()
        },
        TapeOp::MeanAll { input_shape, .. } => input_shape@.len() >= 1,
        TapeOp::SumAll { input_shape, .. } => input_shape@.len() >= 1,
        _ => true,
    }
}

/// Whether the rule of an operation runs kernels over whole tensors that take
/// their lengths for granted. Other rules hand gradients on as they are, or
/// fail where a length does not fit.
pub open spec fn strict(op: TapeOp) -> bool {
    op is Sub || op is Mul || op is Neg || op is Sqrt || op is Div || op is Exp || op is Silu
        || op is Sigmoid || op is Softplus || op is LogSoftmax || op is Conv1d || op is SsdScan
}

/// Whether the rule of an operation can take a gradient of shape `d`: it is not
/// empty, and not too long for kernels that index it unasked.
pub open spec fn takes(op: TapeOp, d: Seq<usize>) -> bool {
    &&& solid(d)
    &&& strict(op) ==> numel(d) <= u32::MAX
}

/// Whether an operation with an output of shape `out` can be differentiated
/// on the device: its rule can take the gradients of output and inputs, a
/// convolution's bias has one axis, and what the rule has to hold on the way
/// can be held.
pub open spec fn differentiable(v: TapeView, op: TapeOp, out: Seq<usize>) -> bool {
    &&& takes(op, out)
    &&& holdable(op, out)
    &&& forall|k: int|
        0 <= k < inputs_of(op).len() ==> ((#[trigger] inputs_of(op)[k]) matches Some(n) ==> takes(
            op,
            v.known[node_key(n)],
        ))
    &&& op matches TapeOp::Conv1d { w_val, bias_node: Some(Some(n)), .. } ==> v.known[node_key(n)]
        == seq![w_val.dims()[0]]
}

/// Whether kernels can add to the gradients that an operation passes on: those
/// of its inputs, or that of its parameter.
pub open spec fn shorts(v: TapeView, op: TapeOp, out: Seq<usize>) -> bool {
    match op {
        TapeOp::Leaf { .. } => numel(out) <= u32::MAX,
        _ => forall|k: int|
            0 <= k < inputs_of(op).len() ==> ((#[trigger] inputs_of(op)[k]) matches Some(n)
                ==> numel(v.known[node_key(n)]) <= u32::MAX),
    }
}

} // verus!
