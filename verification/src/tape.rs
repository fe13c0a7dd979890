//! Reverse-mode autograd tape.
//!
//! Each recorded operation is an entry; its output is named by a `NodeId`.
//! Differentiation replays the entries in reverse order.

use crate::broadcast::{compatible, joint_dims};
use crate::convolve::{conv_dims, conv_spec, conv_steps, ConvSpec};
use crate::device::padded;
use crate::launch::Real;
use crate::matrix::lead;
use crate::reach::lemma_needs_kept;
use crate::rules::{differentiable, shorts};
use crate::shape::{expands_to, numel, swapped};
use crate::tensor::{CudaTensor, NodeId, ParamId, Shape};
use crate::walkable::{is_short, is_solid};
use std::collections::HashMap;
use vstd::prelude::*;

verus! {

/// What a scan leaves on the tape.
#[derive(Debug)]
pub struct SsdScanData {
    pub x: Option<NodeId>,
    pub a: Option<NodeId>,
    pub b: Option<NodeId>,
    pub c: Option<NodeId>,
    pub x_val: CudaTensor,
    pub a_val: CudaTensor,
    pub b_val: CudaTensor,
    pub c_val: CudaTensor,
    pub block_len: usize,
}

/// A recorded operation: the nodes of its inputs, and what its gradient rule
/// needs of the forward pass. An input without a node is a constant.
#[derive(Debug)]
pub enum TapeOp {
    /// A trainable parameter.
    Leaf { param_id: ParamId },
    Add { lhs: Option<NodeId>, rhs: Option<NodeId>, lhs_shape: Shape, rhs_shape: Shape },
    Sub { lhs: Option<NodeId>, rhs: Option<NodeId>, lhs_shape: Shape, rhs_shape: Shape },
    Mul { lhs: Option<NodeId>, rhs: Option<NodeId>, lhs_val: CudaTensor, rhs_val: CudaTensor },
    Neg { input: Option<NodeId> },
    Reshape { input: Option<NodeId>, orig_shape: Shape },
    MulScalar { input: Option<NodeId>, scale: Real },
    AddScalar { input: Option<NodeId> },
    Sqrt { input: Option<NodeId>, out_val: CudaTensor },
    Div { lhs: Option<NodeId>, rhs: Option<NodeId>, rhs_val: CudaTensor, out_val: CudaTensor },
    Exp { input: Option<NodeId>, out_val: CudaTensor },
    Silu { input: Option<NodeId>, input_val: CudaTensor },
    Sigmoid { input: Option<NodeId>, out_val: CudaTensor },
    Softplus { input: Option<NodeId>, input_val: CudaTensor },
    MatMul { a: Option<NodeId>, b: Option<NodeId>, a_val: CudaTensor, b_val: CudaTensor },
    Transpose { input: Option<NodeId>, dim_a: usize, dim_b: usize },
    Narrow { input: Option<NodeId>, dim: usize, start: usize, len: usize, orig_shape: Shape },
    BroadcastAs { input: Option<NodeId>, orig_shape: Shape, target_shape: Shape },
    Concat { inputs: Vec<Option<NodeId>>, dim: usize, input_shapes: Vec<Shape> },
    Embedding { table: Option<NodeId>, indices_val: CudaTensor, table_shape: Shape },
    Gather { input: Option<NodeId>, indices_val: CudaTensor, dim: usize, input_shape: Shape },
    Conv1d {
        x: Option<NodeId>,
        w: Option<NodeId>,
        bias_node: Option<Option<NodeId>>,
        x_val: CudaTensor,
        w_val: CudaTensor,
        stride: usize,
        padding: usize,
        groups: usize,
    },
    LogSoftmax { input: Option<NodeId>, dim: usize, out_val: CudaTensor },
    RmsNorm {
        x: Option<NodeId>,
        w: Option<NodeId>,
        x_val: CudaTensor,
        w_val: CudaTensor,
        eps: Real,
    },
    Cumsum { input: Option<NodeId>, dim: usize, input_shape: Shape },
    MeanAll { input: Option<NodeId>, numel: usize, input_shape: Shape },
    SumAll { input: Option<NodeId>, input_shape: Shape },
    SsdScan(Box<SsdScanData>),
}

/// The input nodes of an operation, in order.
pub open spec fn inputs_of(op: TapeOp) -> Seq<Option<NodeId>> {
    match op {
        TapeOp::Leaf { .. } => Seq::empty(),
        TapeOp::Add { lhs, rhs, .. } => seq![lhs, rhs],
        TapeOp::Sub { lhs, rhs, .. } => seq![lhs, rhs],
        TapeOp::Mul { lhs, rhs, .. } => seq![lhs, rhs],
        TapeOp::Neg { input } => seq![input],
        TapeOp::Reshape { input, .. } => seq![input],
        TapeOp::MulScalar { input, .. } => seq![input],
        TapeOp::AddScalar { input } => seq![input],
        TapeOp::Sqrt { input, .. } => seq![input],
        TapeOp::Div { lhs, rhs, .. } => seq![lhs, rhs],
        TapeOp::Exp { input, .. } => seq![input],
        TapeOp::Silu { input, .. } => seq![input],
        TapeOp::Sigmoid { input, .. } => seq![input],
        TapeOp::Softplus { input, .. } => seq![input],
        TapeOp::MatMul { a, b, .. } => seq![a, b],
        TapeOp::Transpose { input, .. } => seq![input],
        TapeOp::Narrow { input, .. } => seq![input],
        TapeOp::BroadcastAs { input, .. } => seq![input],
        TapeOp::Concat { inputs, .. } => inputs@,
        TapeOp::Embedding { table, .. } => seq![table],
        TapeOp::Gather { input, .. } => seq![input],
        TapeOp::Conv1d { x, w, bias_node, .. } => match bias_node {
            Some(b) => seq![x, w, b],
            None => seq![x, w],
        },
        TapeOp::LogSoftmax { input, .. } => seq![input],
        TapeOp::RmsNorm { x, w, .. } => seq![x, w],
        TapeOp::Cumsum { input, .. } => seq![input],
        TapeOp::MeanAll { input, .. } => seq![input],
        TapeOp::SumAll { input, .. } => seq![input],
        TapeOp::SsdScan(d) => seq![d.x, d.a, d.b, d.c],
    }
}

/// The extents of a recorded convolution whose output has shape `out`.
pub open spec fn conv_of(
    x: Seq<usize>,
    w: Seq<usize>,
    out: Seq<usize>,
    stride: usize,
    padding: usize,
    groups: usize,
) -> ConvSpec {
    conv_spec(x, w, out[2], stride, padding, groups)
}

/// The sum of the extents of several shapes along one axis, up to shape `k`.
pub open spec fn extent_sum(shapes: Seq<Shape>, dim: int, k: int) -> int
    decreases k,
{
    if k <= 0 {
        0
    } else {
        extent_sum(shapes, dim, k - 1) + shapes[k - 1]@[dim]
    }
}

/// Whether `out` is the shape of the product of stacks of shapes `a` and `b`.
pub open spec fn matmul_fits(a: Seq<usize>, b: Seq<usize>, out: Seq<usize>) -> bool {
    let r = a.len() as int;
    let pb = padded(b, (r - b.len()) as nat);
    &&& r >= 2
    &&& b.len() <= r
    &&& a[r - 1] == pb[r - 2]
    &&& compatible(lead(a), lead(pb))
    &&& out == joint_dims(lead(a), lead(pb)) + seq![a[r - 2], pb[r - 1]]
}

/// Whether the four operands of a scan fit together.
pub open spec fn scan_fits(x: Seq<usize>, a: Seq<usize>, b: Seq<usize>, c: Seq<usize>) -> bool {
    &&& x.len() == 4
    &&& a == seq![x[0], x[1], x[2]]
    &&& b.len() == 4
    &&& b[0] == x[0] && b[1] == x[1] && b[2] == x[2]
    &&& c == b
}

/// Whether the operation can have an output of shape `out`.
pub open spec fn shape_ok(op: TapeOp, out: Seq<usize>) -> bool {
    match op {
        TapeOp::Leaf { .. } => true,
        TapeOp::Add { lhs_shape, rhs_shape, .. } => compatible(lhs_shape@, rhs_shape@) && out
            == joint_dims(lhs_shape@, rhs_shape@),
        TapeOp::Sub { lhs_shape, rhs_shape, .. } => compatible(lhs_shape@, rhs_shape@) && out
            == joint_dims(lhs_shape@, rhs_shape@),
        TapeOp::Mul { lhs_val, rhs_val, .. } => compatible(lhs_val.dims(), rhs_val.dims()) && out
            == joint_dims(lhs_val.dims(), rhs_val.dims()),
        TapeOp::Neg { .. } => true,
        TapeOp::Reshape { orig_shape, .. } => numel(orig_shape@) == numel(out),
        TapeOp::MulScalar { .. } => true,
        TapeOp::AddScalar { .. } => true,
        TapeOp::Sqrt { out_val, .. } => out_val.dims() == out,
        TapeOp::Div { rhs_val, out_val, .. } => rhs_val.dims() == out && out_val.dims() == out,
        TapeOp::Exp { out_val, .. } => out_val.dims() == out,
        TapeOp::Silu { input_val, .. } => input_val.dims() == out,
        TapeOp::Sigmoid { out_val, .. } => out_val.dims() == out,
        TapeOp::Softplus { input_val, .. } => input_val.dims() == out,
        TapeOp::MatMul { a_val, b_val, .. } => matmul_fits(a_val.dims(), b_val.dims(), out),
        TapeOp::Transpose { dim_a, dim_b, .. } => dim_a < out.len() && dim_b < out.len(),
        TapeOp::Narrow { dim, start, len, orig_shape, .. } => dim < orig_shape@.len() && start + len
            <= orig_shape@[dim as int] && out == orig_shape@.update(dim as int, len),
        TapeOp::BroadcastAs { orig_shape, target_shape, .. } => out == target_shape@ && expands_to(
            orig_shape@,
            out,
        ),
        TapeOp::Concat { inputs, dim, input_shapes } => {
            &&& inputs@.len() == input_shapes@.len()
            &&& dim < out.len()
            &&& forall|k: int|
                0 <= k < input_shapes@.len() ==> (#[trigger] input_shapes@[k])@.len() == out.len()
                    && input_shapes@[k]@ == out.update(dim as int, input_shapes@[k]@[dim as int])
            &&& out[dim as int] == extent_sum(
                input_shapes@,
                dim as int,
                input_shapes@.len() as int,
            )
        },
        TapeOp::Embedding { indices_val, table_shape, .. } => table_shape@.len() == 2 && out
            == indices_val.dims().push(table_shape@[1]),
        TapeOp::Gather { indices_val, dim, input_shape, .. } => dim < input_shape@.len()
            && indices_val.dims().len() == input_shape@.len() && out == indices_val.dims(),
        TapeOp::Conv1d { x_val, w_val, stride, padding, groups, .. } => {
            &&& x_val.dims().len() == 3
            &&& w_val.dims().len() == 3
            &&& out.len() == 3
            &&& stride >= 1
            &&& w_val.dims()[2] <= x_val.dims()[2] + 2 * padding
            &&& out[2] == conv_steps(x_val.dims()[2], w_val.dims()[2], stride, padding)
            &&& conv_of(x_val.dims(), w_val.dims(), out, stride, padding, groups).grouped()
            &&& out == conv_dims(
                conv_of(x_val.dims(), w_val.dims(), out, stride, padding, groups),
            )
        },
        TapeOp::LogSoftmax { dim, out_val, .. } => dim < out.len() && out_val.dims() == out,
        TapeOp::RmsNorm { x_val, w_val, .. } => out.len() >= 1 && x_val.dims() == out && numel(
            w_val.dims(),
        ) == out.last(),
        TapeOp::Cumsum { dim, input_shape, .. } => dim < out.len() && input_shape@ == out,
        TapeOp::MeanAll { numel: n, input_shape, .. } => out == seq![1usize] && n == numel(
            input_shape@,
        ),
        TapeOp::SumAll { .. } => out == seq![1usize],
        TapeOp::SsdScan(d) => out == d.x_val.dims() && scan_fits(
            d.x_val.dims(),
            d.a_val.dims(),
            d.b_val.dims(),
            d.c_val.dims(),
        ),
    }
}

/// Whether the saved tensors are of the element types that the gradient rule
/// reads, and lie in buffers that outlive any program.
pub open spec fn saved_ok(op: TapeOp) -> bool {
    match op {
        TapeOp::Mul { lhs_val, rhs_val, .. } => saved_f32(lhs_val) && saved_f32(rhs_val),
        TapeOp::Sqrt { out_val, .. } => saved_f32(out_val),
        TapeOp::Div { rhs_val, out_val, .. } => saved_f32(rhs_val) && saved_f32(out_val),
        TapeOp::Exp { out_val, .. } => saved_f32(out_val),
        TapeOp::Silu { input_val, .. } => saved_f32(input_val),
        TapeOp::Sigmoid { out_val, .. } => saved_f32(out_val),
        TapeOp::Softplus { input_val, .. } => saved_f32(input_val),
        TapeOp::MatMul { a_val, b_val, .. } => saved_f32(a_val) && saved_f32(b_val),
        TapeOp::Embedding { indices_val, .. } => saved_i64(indices_val),
        TapeOp::Gather { indices_val, .. } => saved_i64(indices_val),
        TapeOp::Conv1d { x_val, w_val, .. } => saved_f32(x_val) && saved_f32(w_val),
        TapeOp::LogSoftmax { out_val, .. } => saved_f32(out_val),
        TapeOp::RmsNorm { x_val, w_val, .. } => saved_f32(x_val) && saved_f32(w_val),
        TapeOp::SsdScan(d) => saved_f32(d.x_val) && saved_f32(d.a_val) && saved_f32(d.b_val)
            && saved_f32(d.c_val),
        _ => true,
    }
}

/// A float tensor whose buffer outlives any program.
pub open spec fn saved_f32(t: CudaTensor) -> bool {
    t.wf() && t.storage is F32 && t.buffer() is Global
}

/// An index tensor whose buffer outlives any program.
pub open spec fn saved_i64(t: CudaTensor) -> bool {
    t.wf() && t.storage is I64 && t.buffer() is Global
}

/// The shape of the `k`-th input of an operation with an output of shape
/// `out`. A convolution's bias is not fixed by it.
pub open spec fn input_dims(op: TapeOp, k: int, out: Seq<usize>) -> Seq<usize> {
    match op {
        TapeOp::Add { lhs_shape, rhs_shape, .. } => if k == 0 {
            lhs_shape@
        } else {
            rhs_shape@
        },
        TapeOp::Sub { lhs_shape, rhs_shape, .. } => if k == 0 {
            lhs_shape@
        } else {
            rhs_shape@
        },
        TapeOp::Mul { lhs_val, rhs_val, .. } => if k == 0 {
            lhs_val.dims()
        } else {
            rhs_val.dims()
        },
        TapeOp::Reshape { orig_shape, .. } => orig_shape@,
        TapeOp::MatMul { a_val, b_val, .. } => if k == 0 {
            a_val.dims()
        } else {
            b_val.dims()
        },
        TapeOp::Transpose { dim_a, dim_b, .. } => swapped(out, dim_a as int, dim_b as int),
        TapeOp::Narrow { orig_shape, .. } => orig_shape@,
        TapeOp::BroadcastAs { orig_shape, .. } => orig_shape@,
        TapeOp::Concat { input_shapes, .. } => input_shapes@[k]@,
        TapeOp::Embedding { table_shape, .. } => table_shape@,
        TapeOp::Gather { input_shape, .. } => input_shape@,
        TapeOp::Conv1d { x_val, w_val, .. } => if k == 0 {
            x_val.dims()
        } else {
            w_val.dims()
        },
        TapeOp::RmsNorm { x_val, w_val, .. } => if k == 0 {
            x_val.dims()
        } else {
            w_val.dims()
        },
        TapeOp::MeanAll { input_shape, .. } => input_shape@,
        TapeOp::SumAll { input_shape, .. } => input_shape@,
        TapeOp::SsdScan(s) => if k == 0 {
            s.x_val.dims()
        } else if k == 1 {
            s.a_val.dims()
        } else if k == 2 {
            s.b_val.dims()
        } else {
            s.c_val.dims()
        },
        _ => out,
    }
}

/// Whether the `k`-th input of an operation with an output of shape `out` can
/// have the shape `d`.
pub open spec fn input_ok(op: TapeOp, k: int, out: Seq<usize>, d: Seq<usize>) -> bool {
    (op is Conv1d && k >= 2) || d == input_dims(op, k, out)
}

/// The name under which the rule of an operation is timed.
pub open spec fn rule_name(op: TapeOp) -> &'static str {
    match op {
        TapeOp::Leaf { .. } => "vjp:Leaf",
        TapeOp::Add { .. } => "vjp:Add",
        TapeOp::Sub { .. } => "vjp:Sub",
        TapeOp::Mul { .. } => "vjp:Mul",
        TapeOp::Neg { .. } => "vjp:Neg",
        TapeOp::Reshape { .. } => "vjp:Reshape",
        TapeOp::MulScalar { .. } => "vjp:MulScalar",
        TapeOp::AddScalar { .. } => "vjp:AddScalar",
        TapeOp::Sqrt { .. } => "vjp:Sqrt",
        TapeOp::Div { .. } => "vjp:Div",
        TapeOp::Exp { .. } => "vjp:Exp",
        TapeOp::Silu { .. } => "vjp:Silu",
        TapeOp::Sigmoid { .. } => "vjp:Sigmoid",
        TapeOp::Softplus { .. } => "vjp:Softplus",
        TapeOp::MatMul { .. } => "vjp:MatMul",
        TapeOp::Transpose { .. } => "vjp:Transpose",
        TapeOp::Narrow { .. } => "vjp:Narrow",
        TapeOp::BroadcastAs { .. } => "vjp:BroadcastAs",
        TapeOp::Concat { .. } => "vjp:Concat",
        TapeOp::Embedding { .. } => "vjp:Embedding",
        TapeOp::Gather { .. } => "vjp:Gather",
        TapeOp::Conv1d { .. } => "vjp:Conv1d",
        TapeOp::LogSoftmax { .. } => "vjp:LogSoftmax",
        TapeOp::RmsNorm { .. } => "vjp:RmsNorm",
        TapeOp::Cumsum { .. } => "vjp:Cumsum",
        TapeOp::MeanAll { .. } => "vjp:MeanAll",
        TapeOp::SumAll { .. } => "vjp:SumAll",
        TapeOp::SsdScan(_) => "vjp:SsdScan",
    }
}

pub fn backward_op_name(op: &TapeOp) -> (s: &'static str)
    ensures
        s == rule_name(*op),
{
    match op {
        TapeOp::Leaf { .. } => "vjp:Leaf",
        TapeOp::Add { .. } => "vjp:Add",
        TapeOp::Sub { .. } => "vjp:Sub",
        TapeOp::Mul { .. } => "vjp:Mul",
        TapeOp::Neg { .. } => "vjp:Neg",
        TapeOp::Reshape { .. } => "vjp:Reshape",
        TapeOp::MulScalar { .. } => "vjp:MulScalar",
        TapeOp::AddScalar { .. } => "vjp:AddScalar",
        TapeOp::Sqrt { .. } => "vjp:Sqrt",
        TapeOp::Div { .. } => "vjp:Div",
        TapeOp::Exp { .. } => "vjp:Exp",
        TapeOp::Silu { .. } => "vjp:Silu",
        TapeOp::Sigmoid { .. } => "vjp:Sigmoid",
        TapeOp::Softplus { .. } => "vjp:Softplus",
        TapeOp::MatMul { .. } => "vjp:MatMul",
        TapeOp::Transpose { .. } => "vjp:Transpose",
        TapeOp::Narrow { .. } => "vjp:Narrow",
        TapeOp::BroadcastAs { .. } => "vjp:BroadcastAs",
        TapeOp::Concat { .. } => "vjp:Concat",
        TapeOp::Embedding { .. } => "vjp:Embedding",
        TapeOp::Gather { .. } => "vjp:Gather",
        TapeOp::Conv1d { .. } => "vjp:Conv1d",
        TapeOp::LogSoftmax { .. } => "vjp:LogSoftmax",
        TapeOp::RmsNorm { .. } => "vjp:RmsNorm",
        TapeOp::Cumsum { .. } => "vjp:Cumsum",
        TapeOp::MeanAll { .. } => "vjp:MeanAll",
        TapeOp::SumAll { .. } => "vjp:SumAll",
        TapeOp::SsdScan(_) => "vjp:SsdScan",
    }
}

/// One number per node.
pub open spec fn node_key(n: NodeId) -> u64 {
    (n.generation as int * 0x1_0000_0000 + n.index as int) as u64
}

pub fn key_of(n: NodeId) -> (k: u64)
    ensures
        k == node_key(n),
{
    n.generation as u64 * 0x1_0000_0000 + n.index as u64
}

/// What the tape remembers of an entry for a backward pass.
#[derive(Clone, Copy, Debug, PartialEq, Eq, Structural)]
pub struct Mark {
    /// Whether the entry's rule can be applied.
    pub smooth: bool,
    /// Whether kernels can add to the gradients that it passes on.
    pub short: bool,
}

impl Mark {
    /// Whether the mark is that of the entry at position `i`.
    pub open spec fn fits(self, v: TapeView, i: int) -> bool {
        &&& self.smooth == differentiable(v, v.entries[i], v.out(i))
        &&& self.short == shorts(v, v.entries[i], v.out(i))
    }
}

/// Autograd tape: the recorded operations of one generation.
pub struct Tape {
    pub entries: Vec<TapeOp>,
    /// For each entry, whether a backward pass can step over it.
    pub marks: Vec<Mark>,
    /// Bumped by every clearing.
    pub generation: u32,
    /// The latest `Leaf` entry of each parameter in this generation.
    pub leaf_by_param: HashMap<u64, NodeId>,
    /// The shape of every node so far, whatever its generation.
    pub known: Ghost<Map<u64, Seq<usize>>>,
    /// The shape of every parameter so far.
    pub params: Ghost<Map<u64, Seq<usize>>>,
}

/// The tape's contents.
#[verifier::ext_equal]
pub struct TapeView {
    pub entries: Seq<TapeOp>,
    pub generation: u32,
    pub leaves: Map<u64, NodeId>,
    pub known: Map<u64, Seq<usize>>,
    pub params: Map<u64, Seq<usize>>,
}

impl View for Tape {
    type V = TapeView;

    open spec fn view(&self) -> TapeView {
        TapeView {
            entries: self.entries@,
            generation: self.generation,
            leaves: self.leaf_by_param@,
            known: self.known@,
            params: self.params@,
        }
    }
}

impl TapeView {
    /// The node of the entry at position `i`.
    pub open spec fn node(self, i: int) -> NodeId {
        NodeId { generation: self.generation, index: i as u32 }
    }

    /// The shape of the output of the entry at position `i`.
    pub open spec fn out(self, i: int) -> Seq<usize> {
        self.known[node_key(self.node(i))]
    }

    /// Whether a node of shape `d` precedes position `i` of this generation,
    /// or belongs to another one.
    pub open spec fn before(self, n: NodeId, i: int) -> bool {
        &&& self.known.contains_key(node_key(n))
        &&& n.generation == self.generation ==> n.index < i
    }

    /// Whether the operation `op` can stand at position `i` with an output of
    /// shape `out`.
    pub open spec fn entry_ok(self, op: TapeOp, i: int, out: Seq<usize>) -> bool {
        &&& shape_ok(op, out)
        &&& saved_ok(op)
        &&& forall|k: int|
            0 <= k < inputs_of(op).len() ==> ((#[trigger] inputs_of(op)[k]) matches Some(n)
                ==> self.before(n, i) && input_ok(op, k, out, self.known[node_key(n)]))
        &&& op matches TapeOp::Leaf { param_id } ==> self.params.contains_key(param_id.0)
            && self.params[param_id.0] == out
    }

    /// Whether `n` is the node of an entry of this tape for the parameter `p`.
    pub open spec fn is_leaf(self, n: NodeId, p: u64) -> bool {
        &&& n.generation == self.generation
        &&& n.index < self.entries.len()
        &&& self.entries[n.index as int] == (TapeOp::Leaf { param_id: ParamId(p) })
    }

    /// Whether every entry refers only to earlier nodes, all shapes fit
    /// together, and a parameter's latest entry is one of that parameter.
    pub open spec fn wf(self) -> bool {
        &&& self.entries.len() <= u32::MAX
        &&& forall|p: u64| #[trigger]
            self.leaves.contains_key(p) ==> self.is_leaf(self.leaves[p], p)
        &&& forall|i: int|
            0 <= i < self.entries.len() ==> self.known.contains_key(
                node_key(#[trigger] self.node(i)),
            ) && self.entry_ok(self.entries[i], i, self.out(i))
    }

    /// Whether `n` is a node of shape `d`.
    pub open spec fn live(self, n: NodeId, d: Seq<usize>) -> bool {
        self.before(n, self.entries.len() as int) && self.known[node_key(n)] == d
    }

    /// Whether the tape knows where a tensor comes from.
    pub open spec fn tracks(self, t: CudaTensor) -> bool {
        match t.origin {
            Some(p) => {
                &&& self.params.contains_key(p.0)
                &&& self.params[p.0] == t.dims()
            },
            None => t.node_id matches Some(n) ==> self.live(n, t.dims()),
        }
    }

    /// The tape with one more entry, whose output has shape `out`.
    pub open spec fn pushed(self, op: TapeOp, out: Seq<usize>) -> TapeView {
        TapeView {
            entries: self.entries.push(op),
            known: self.known.insert(node_key(self.node(self.entries.len() as int)), out),
            ..self
        }
    }

    /// The tape with a parameter of shape `d`, and an entry for it that is
    /// the latest.
    pub open spec fn with_leaf(self, p: ParamId, d: Seq<usize>) -> TapeView {
        let q = TapeView { params: self.params.insert(p.0, d), ..self }.pushed(
            TapeOp::Leaf { param_id: p },
            d,
        );
        TapeView { leaves: q.leaves.insert(p.0, self.node(self.entries.len() as int)), ..q }
    }

    /// The node of a tensor, and the tape after asking for it: a parameter's
    /// value without an entry in this generation gets one.
    pub open spec fn resolved(self, t: CudaTensor) -> (TapeView, Option<NodeId>) {
        match t.origin {
            Some(p) => if self.leaves.contains_key(p.0) {
                (self, Some(self.leaves[p.0]))
            } else {
                (self.with_leaf(p, t.dims()), Some(self.node(self.entries.len() as int)))
            },
            None => (self, t.node_id),
        }
    }

    /// The tape after asking for the nodes of several tensors in order.
    pub open spec fn resolved_all(self, ts: Seq<CudaTensor>) -> TapeView
        decreases ts.len(),
    {
        if ts.len() == 0 {
            self
        } else {
            self.resolved_all(ts.drop_last()).resolved(ts.last()).0
        }
    }

    /// The nodes that this gives.
    pub open spec fn nodes_of(self, ts: Seq<CudaTensor>) -> Seq<Option<NodeId>> {
        Seq::new(
            ts.len(),
            |i: int| self.resolved_all(ts.subrange(0, i)).resolved(ts[i]).1,
        )
    }

    /// The tape with all entries gone and a new generation begun.
    pub open spec fn cleared(self) -> TapeView {
        TapeView {
            entries: Seq::empty(),
            generation: if self.generation == u32::MAX {
                0
            } else {
                (self.generation + 1) as u32
            },
            leaves: Map::empty(),
            ..self
        }
    }

    /// The tape without the entries from position `n` on. Parameters whose
    /// latest entry goes have none.
    pub open spec fn cut(self, n: int) -> TapeView {
        TapeView {
            entries: self.entries.subrange(0, n),
            leaves: Map::new(
                |p: u64| self.leaves.contains_key(p) && self.leaves[p].index < n,
                |p: u64| self.leaves[p],
            ),
            ..self
        }
    }

    /// Whether this tape is `t` with more entries and parameters.
    pub open spec fn extends(self, t: TapeView) -> bool {
        &&& self.wf()
        &&& self.generation == t.generation
        &&& t.entries.len() <= self.entries.len()
        &&& self.entries.subrange(0, t.entries.len() as int) == t.entries
        &&& forall|n: NodeId| #[trigger]
            t.before(n, t.entries.len() as int) ==> self.known.contains_key(node_key(n))
                && self.known[node_key(n)] == t.known[node_key(n)]
        &&& forall|p: u64| #[trigger]
            t.params.contains_key(p) ==> self.params.contains_key(p) && self.params[p]
                == t.params[p]
    }
}

/// A parameter's latest entry has the parameter's shape.
pub proof fn lemma_leaf(v: TapeView, p: u64)
    requires
        v.wf(),
        v.leaves.contains_key(p),
    ensures
        v.params.contains_key(p),
        v.live(v.leaves[p], v.params[p]),
{
    let n = v.leaves[p];
    assert(v.is_leaf(n, p));
    assert(v.node(n.index as int) == n);
    assert(v.entry_ok(v.entries[n.index as int], n.index as int, v.out(n.index as int)));
}

/// Recording an operation that fits keeps the tape well-formed.
pub proof fn lemma_push(v: TapeView, op: TapeOp, out: Seq<usize>)
    requires
        v.wf(),
        v.entries.len() < u32::MAX,
        v.entry_ok(op, v.entries.len() as int, out),
    ensures
        v.pushed(op, out).extends(v),
        v.pushed(op, out).live(v.node(v.entries.len() as int), out),
{
    let w = v.pushed(op, out);
    let n = v.entries.len() as int;
    assert(w.entries.subrange(0, n) =~= v.entries);
    assert forall|p: u64| #[trigger] w.leaves.contains_key(p) implies w.is_leaf(
        w.leaves[p],
        p,
    ) by {
        assert(v.is_leaf(v.leaves[p], p));
    }
    assert forall|i: int| 0 <= i < w.entries.len() implies w.known.contains_key(
        node_key(#[trigger] w.node(i)),
    ) && w.entry_ok(w.entries[i], i, w.out(i)) by {
        assert(w.node(i) == v.node(i));
        if i < n {
            assert(v.entry_ok(v.entries[i], i, v.out(i)));
            assert(node_key(v.node(i)) != node_key(v.node(n)));
            assert(w.out(i) == v.out(i));
            let e = v.entries[i];
            assert forall|k: int| 0 <= k < inputs_of(e).len() implies ((
            #[trigger] inputs_of(e)[k]) matches Some(m) ==> w.before(m, i) && input_ok(
                e,
                k,
                w.out(i),
                w.known[node_key(m)],
            )) by {
                if let Some(m) = inputs_of(e)[k] {
                    assert(v.before(m, i));
                    assert(node_key(m) != node_key(v.node(n)));
                }
            }
        } else {
            assert forall|k: int| 0 <= k < inputs_of(op).len() implies ((
            #[trigger] inputs_of(op)[k]) matches Some(m) ==> w.before(m, i) && input_ok(
                op,
                k,
                w.out(i),
                w.known[node_key(m)],
            )) by {
                if let Some(m) = inputs_of(op)[k] {
                    assert(v.before(m, n));
                    assert(node_key(m) != node_key(v.node(n)));
                }
            }
        }
    }
    assert forall|m: NodeId| #[trigger] v.before(m, n) implies w.known.contains_key(node_key(m))
        && w.known[node_key(m)] == v.known[node_key(m)] by {
        assert(node_key(m) != node_key(v.node(n)));
    }
}

impl Tape {
    pub open spec fn wf(self) -> bool {
        &&& self@.wf()
        &&& self.marks@.len() == self@.entries.len()
        &&& forall|i: int|
            0 <= i < self.marks@.len() ==> (#[trigger] self.marks@[i]).fits(self@, i)
    }

    pub fn new() -> (t: Tape)
        ensures
            t@ == (TapeView {
                entries: Seq::empty(),
                generation: 0,
                leaves: Map::empty(),
                known: Map::empty(),
                params: Map::empty(),
            }),
            t.wf(),
    {
        broadcast use vstd::std_specs::hash::group_hash_axioms;

        let t = Tape {
            entries: Vec::new(),
            marks: Vec::new(),
            generation: 0,
            leaf_by_param: HashMap::new(),
            known: Ghost(Map::empty()),
            params: Ghost(Map::empty()),
        };
        assert(t@.entries =~= Seq::empty());
        assert(t@.leaves =~= Map::empty());
        t
    }

    /// Appends an operation and returns the node of its output, of shape
    /// `dims`. `mark` says what a backward pass has to know of it.
    pub fn push(&mut self, op: TapeOp, dims: &Shape, mark: Mark) -> (id: NodeId)
        requires
            old(self).wf(),
            old(self)@.entries.len() < u32::MAX,
            old(self)@.entry_ok(op, old(self)@.entries.len() as int, dims@),
            mark.fits(old(self)@.pushed(op, dims@), old(self)@.entries.len() as int),
        ensures
            id == old(self)@.node(old(self)@.entries.len() as int),
            final(self)@ == old(self)@.pushed(op, dims@),
            final(self).wf(),
            final(self)@.extends(old(self)@),
            final(self)@.live(id, dims@),
    {
        let ghost v = self@;
        let id = NodeId { generation: self.generation, index: self.entries.len() as u32 };
        proof {
            lemma_push(self@, op, dims@);
            self.known@ = self.known@.insert(node_key(id), dims@);
        }
        self.entries.push(op);
        self.marks.push(mark);
        proof {
            lemma_marks_kept(v, self@, old(self).marks@);
        }
        id
    }

    /// The operation of a node of this generation.
    pub fn get(&self, id: NodeId) -> (op: &TapeOp)
        requires
            id.generation == self.generation,
            id.index < self@.entries.len(),
        ensures
            *op == self@.entries[id.index as int],
    {
        &self.entries[id.index as usize]
    }

    /// Number of recorded operations.
    pub fn len(&self) -> (n: usize)
        ensures
            n == self@.entries.len(),
    {
        self.entries.len()
    }

    /// Drops all entries and begins a new generation.
    pub fn clear(&mut self)
        ensures
            final(self)@ == old(self)@.cleared(),
            final(self).wf(),
    {
        broadcast use vstd::std_specs::hash::group_hash_axioms;

        self.entries.clear();
        self.marks.clear();
        self.leaf_by_param.clear();
        self.generation = self.generation.wrapping_add(1);
        assert(self@.entries =~= Seq::empty());
        assert(self@ =~= old(self)@.cleared());
    }

    /// Records a parameter's value and returns its node.
    pub fn push_leaf(&mut self, p: ParamId, dims: &Shape) -> (id: NodeId)
        requires
            old(self).wf(),
            old(self)@.entries.len() < u32::MAX,
            old(self)@.params.contains_key(p.0) ==> old(self)@.params[p.0] == dims@,
        ensures
            id == old(self)@.node(old(self)@.entries.len() as int),
            final(self)@ == old(self)@.with_leaf(p, dims@),
            final(self).wf(),
            final(self)@.extends(old(self)@),
            final(self)@.live(id, dims@),
    {
        broadcast use vstd::std_specs::hash::group_hash_axioms;

        let ghost v = self@;
        let mark = Mark { smooth: is_solid(dims.as_slice()), short: is_short(dims.as_slice()) };
        proof {
            self.params@ = self.params@.insert(p.0, dims@);
            let w = self@;
            assert forall|q: u64| #[trigger] w.leaves.contains_key(q) implies w.is_leaf(
                w.leaves[q],
                q,
            ) by {
                assert(v.is_leaf(v.leaves[q], q));
            }
            assert forall|i: int| 0 <= i < w.entries.len() implies w.known.contains_key(
                node_key(#[trigger] w.node(i)),
            ) && w.entry_ok(w.entries[i], i, w.out(i)) by {
                assert(w.node(i) == v.node(i));
                assert(v.entry_ok(v.entries[i], i, v.out(i)));
                let e = v.entries[i];
                assert forall|k: int| 0 <= k < inputs_of(e).len() implies ((
                #[trigger] inputs_of(e)[k]) matches Some(m) ==> w.before(m, i) && input_ok(
                    e,
                    k,
                    w.out(i),
                    w.known[node_key(m)],
                )) by {
                    if let Some(m) = inputs_of(e)[k] {
                        assert(v.before(m, i));
                    }
                }
            }
        }
        let ghost w = self@;
        proof {
            lemma_marks_kept(v, w, self.marks@);
        }
        let id = self.push(TapeOp::Leaf { param_id: p }, dims, mark);
        let ghost mid = self@;
        self.leaf_by_param.insert(p.0, id);
        proof {
            let f = self@;
            assert(f =~= v.with_leaf(p, dims@));
            assert forall|q: u64| #[trigger] f.leaves.contains_key(q) implies f.is_leaf(
                f.leaves[q],
                q,
            ) by {
                if q != p.0 {
                    assert(mid.leaves.contains_key(q));
                    assert(mid.is_leaf(mid.leaves[q], q));
                }
            }
            lemma_same_entries(mid, f);
            lemma_marks_kept(mid, f, self.marks@);
            assert forall|n: NodeId| #[trigger] v.before(n, v.entries.len() as int) implies
                f.known.contains_key(node_key(n)) && f.known[node_key(n)] == v.known[node_key(
                n,
            )] by {
                assert(w.before(n, w.entries.len() as int));
            }
        }
        id
    }

    /// Drops the entries from position `n` on.
    pub fn truncate(&mut self, n: usize)
        requires
            old(self).wf(),
            n <= old(self)@.entries.len(),
        ensures
            final(self)@ == old(self)@.cut(n as int),
            final(self).wf(),
    {
        broadcast use vstd::std_specs::hash::group_hash_axioms;

        let ghost v = self@;
        let mut i: usize = n;
        while i < self.entries.len()
            invariant
                n <= i <= v.entries.len(),
                v.wf(),
                self@ == (TapeView { leaves: self@.leaves, ..v }),
                self.marks == old(self).marks,
                forall|p: u64| #[trigger]
                    self@.leaves.contains_key(p) <==> v.leaves.contains_key(p) && !(n
                        <= v.leaves[p].index < i),
                forall|p: u64| #[trigger]
                    self@.leaves.contains_key(p) ==> self@.leaves[p] == v.leaves[p],
            decreases v.entries.len() - i,
        {
            broadcast use vstd::std_specs::hash::group_hash_axioms;

            let ghost before = self@;
            if let TapeOp::Leaf { param_id } = &self.entries[i] {
                let p: u64 = param_id.0;
                let latest: bool = match self.leaf_by_param.get(&p) {
                    Some(id) => id.index as usize == i,
                    None => false,
                };
                if latest {
                    self.leaf_by_param.remove(&p);
                    assert(self@.leaves == before.leaves.remove(p));
                }
            }
            proof {
                assert forall|p: u64| v.leaves.contains_key(p) && v.leaves[p].index == i implies v.entries[i as int]
                    == (TapeOp::Leaf { param_id: ParamId(p) }) by {
                    assert(v.is_leaf(v.leaves[p], p));
                }
            }
            i = i + 1;
        }
        self.entries.truncate(n);
        self.marks.truncate(n);
        proof {
            let w = self@;
            assert forall|p: u64| #[trigger] v.leaves.contains_key(p) implies v.is_leaf(
                v.leaves[p],
                p,
            ) by {
            }
            assert(w.leaves =~= v.cut(n as int).leaves);
            assert(w =~= v.cut(n as int));
            lemma_prefix_wf(v, w);
            lemma_marks_kept(v, w, old(self).marks@.subrange(0, n as int));
        }
    }
}

/// The marks of entries fit on when the shapes of their nodes are kept.
proof fn lemma_marks_kept(v: TapeView, u: TapeView, marks: Seq<Mark>)
    requires
        v.wf(),
        u.generation == v.generation,
        marks.len() <= v.entries.len(),
        marks.len() <= u.entries.len(),
        forall|i: int| 0 <= i < marks.len() ==> (#[trigger] marks[i]).fits(v, i),
        forall|i: int| 0 <= i < marks.len() ==> #[trigger] u.entries[i] == v.entries[i],
        forall|n: NodeId| #[trigger]
            v.before(n, v.entries.len() as int) ==> u.known.contains_key(node_key(n))
                && u.known[node_key(n)] == v.known[node_key(n)],
    ensures
        forall|i: int| 0 <= i < marks.len() ==> (#[trigger] marks[i]).fits(u, i),
{
    assert forall|i: int| 0 <= i < marks.len() implies (#[trigger] marks[i]).fits(u, i) by {
        assert(u.entries[i] == v.entries[i]);
        lemma_needs_kept(v, u, i);
    }
}

/// Dropping later entries keeps the tape well-formed.
proof fn lemma_prefix_wf(v: TapeView, w: TapeView)
    requires
        v.wf(),
        w == v.cut(w.entries.len() as int),
        w.entries.len() <= v.entries.len(),
    ensures
        w.wf(),
{
    assert forall|p: u64| #[trigger] w.leaves.contains_key(p) implies w.is_leaf(
        w.leaves[p],
        p,
    ) by {
        assert(v.is_leaf(v.leaves[p], p));
    }
    assert forall|i: int| 0 <= i < w.entries.len() implies w.known.contains_key(
        node_key(#[trigger] w.node(i)),
    ) && w.entry_ok(w.entries[i], i, w.out(i)) by {
        assert(w.node(i) == v.node(i));
        let e = v.entries[i];
        assert(v.entry_ok(e, i, v.out(i)));
        assert(w.entries[i] == e);
        assert forall|k: int| 0 <= k < inputs_of(e).len() implies ((#[trigger] inputs_of(
            e,
        )[k]) matches Some(m) ==> w.before(m, i) && input_ok(
            e,
            k,
            w.out(i),
            w.known[node_key(m)],
        )) by {
            if let Some(m) = inputs_of(e)[k] {
                assert(v.before(m, i));
            }
        }
    }
}

/// Which of its entries is a parameter's latest does not matter to
/// well-formedness.
proof fn lemma_same_entries(v: TapeView, w: TapeView)
    requires
        v.wf(),
        w == (TapeView { leaves: w.leaves, ..v }),
        forall|p: u64| #[trigger] w.leaves.contains_key(p) ==> w.is_leaf(w.leaves[p], p),
    ensures
        w.wf(),
{
    assert forall|i: int| 0 <= i < w.entries.len() implies w.known.contains_key(
        node_key(#[trigger] w.node(i)),
    ) && w.entry_ok(w.entries[i], i, w.out(i)) by {
        assert(w.node(i) == v.node(i));
        let e = v.entries[i];
        assert(v.entry_ok(e, i, v.out(i)));
        assert forall|k: int| 0 <= k < inputs_of(e).len() implies ((#[trigger] inputs_of(
            e,
        )[k]) matches Some(m) ==> w.before(m, i) && input_ok(
            e,
            k,
            w.out(i),
            w.known[node_key(m)],
        )) by {
            if let Some(m) = inputs_of(e)[k] {
                assert(v.before(m, i));
            }
        }
    }
}

impl CudaTensor {
    /// Whether the tensor is part of a graph.
    pub open spec fn in_graph(self) -> bool {
        self.origin is Some || self.node_id is Some
    }

    /// The tensor's node. A parameter's value finds it through the parameter,
    /// and gets a fresh entry where this generation has none.
    pub fn node_id(&self, tape: &mut Tape) -> (n: Option<NodeId>)
        requires
            old(tape).wf(),
            old(tape)@.tracks(*self),
            old(tape)@.entries.len() < u32::MAX,
        ensures
            (final(tape)@, n) == old(tape)@.resolved(*self),
            final(tape).wf(),
            final(tape)@.extends(old(tape)@),
            n matches Some(id) ==> final(tape)@.live(id, self.dims()),
    {
        broadcast use vstd::std_specs::hash::group_hash_axioms;

        match self.origin {
            None => {
                proof {
                    assert(tape@.entries.subrange(0, tape@.entries.len() as int)
                        =~= tape@.entries);
                }
                self.node_id
            },
            Some(p) => {
                match tape.leaf_by_param.get(&p.0) {
                    Some(id) => {
                        proof {
                            lemma_leaf(tape@, p.0);
                            assert(tape@.entries.subrange(0, tape@.entries.len() as int)
                                =~= tape@.entries);
                        }
                        Some(*id)
                    },
                    None => Some(tape.push_leaf(p, &self.shape)),
                }
            },
        }
    }
}

} // verus!
