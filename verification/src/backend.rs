//! The backend's state: tape, parameter identifiers and gradient mode; and
//! how a planned operation is recorded once it has run.

use crate::launch::Buffer;
use crate::program::Program;
use crate::rules::holdable;
use crate::tape::{
    input_dims, input_ok, inputs_of, node_key, saved_f32, saved_i64, saved_ok, shape_ok, SsdScanData,
    Tape, TapeOp, TapeView,
};
use crate::tensor::{CudaStorage, CudaTensor, NodeId, ParamId, Shape};
use std::sync::Arc;
use vstd::prelude::*;

verus! {

/// The native backend: everything about it that is not device state.
pub struct CudaBackend {
    /// The autograd tape.
    pub tape: Tape,
    /// The next parameter identifier.
    pub next_param_id: u64,
    /// Whether operations are recorded.
    pub grad: bool,
}

/// An operation to be recorded. The nodes in `op` are filled in when it is.
#[derive(Debug)]
pub struct Draft {
    pub op: TapeOp,
    /// Tensors whose nodes are asked for first.
    pub early: Vec<CudaTensor>,
    /// The inputs, in the order of the operation's nodes.
    pub operands: Vec<CudaTensor>,
    /// The shape of the output.
    pub dims: Shape,
}

/// An operation that is ready to run: the program, the tensor that it makes,
/// and what to record of it.
#[derive(Debug)]
pub struct Planned {
    pub program: Program,
    pub out: CudaTensor,
    /// A step on the way that is recorded before the operation itself.
    pub before: Option<Draft>,
    pub record: Option<Draft>,
}

/// Whether an operation saves its own output.
pub open spec fn keeps_out(op: TapeOp) -> bool {
    op is Sqrt || op is Div || op is Exp || op is Sigmoid || op is LogSoftmax
}

/// Whether the saved inputs are of the element types that the gradient rule
/// reads, and lie in buffers that outlive any program.
pub open spec fn saved_inputs_ok(op: TapeOp) -> bool {
    match op {
        TapeOp::Mul { lhs_val, rhs_val, .. } => saved_f32(lhs_val) && saved_f32(rhs_val),
        TapeOp::Div { rhs_val, .. } => saved_f32(rhs_val),
        TapeOp::Silu { input_val, .. } => saved_f32(input_val),
        TapeOp::Softplus { input_val, .. } => saved_f32(input_val),
        TapeOp::MatMul { a_val, b_val, .. } => saved_f32(a_val) && saved_f32(b_val),
        TapeOp::Embedding { indices_val, .. } => saved_i64(indices_val),
        TapeOp::Gather { indices_val, .. } => saved_i64(indices_val),
        TapeOp::Conv1d { x_val, w_val, .. } => saved_f32(x_val) && saved_f32(w_val),
        TapeOp::RmsNorm { x_val, w_val, .. } => saved_f32(x_val) && saved_f32(w_val),
        TapeOp::SsdScan(d) => saved_f32(d.x_val) && saved_f32(d.a_val) && saved_f32(d.b_val)
            && saved_f32(d.c_val),
        _ => true,
    }
}

/// Whether `op` is `tpl` with the nodes `ids` and, where it saves its output,
/// the output `out`.
pub open spec fn filled(
    op: TapeOp,
    tpl: TapeOp,
    ids: Seq<Option<NodeId>>,
    out: CudaTensor,
) -> bool {
    match tpl {
        TapeOp::Leaf { .. } => op == tpl,
        TapeOp::Add { lhs_shape, rhs_shape, .. } => op == (TapeOp::Add {
            lhs: ids[0],
            rhs: ids[1],
            lhs_shape,
            rhs_shape,
        }),
        TapeOp::Sub { lhs_shape, rhs_shape, .. } => op == (TapeOp::Sub {
            lhs: ids[0],
            rhs: ids[1],
            lhs_shape,
            rhs_shape,
        }),
        TapeOp::Mul { lhs_val, rhs_val, .. } => op == (TapeOp::Mul {
            lhs: ids[0],
            rhs: ids[1],
            lhs_val,
            rhs_val,
        }),
        TapeOp::Neg { .. } => op == (TapeOp::Neg { input: ids[0] }),
        TapeOp::Reshape { orig_shape, .. } => op == (TapeOp::Reshape { input: ids[0], orig_shape }),
        TapeOp::MulScalar { scale, .. } => op == (TapeOp::MulScalar { input: ids[0], scale }),
        TapeOp::AddScalar { .. } => op == (TapeOp::AddScalar { input: ids[0] }),
        TapeOp::Sqrt { .. } => op == (TapeOp::Sqrt { input: ids[0], out_val: out }),
        TapeOp::Div { rhs_val, .. } => op == (TapeOp::Div {
            lhs: ids[0],
            rhs: ids[1],
            rhs_val,
            out_val: out,
        }),
        TapeOp::Exp { .. } => op == (TapeOp::Exp { input: ids[0], out_val: out }),
        TapeOp::Silu { input_val, .. } => op == (TapeOp::Silu { input: ids[0], input_val }),
        TapeOp::Sigmoid { .. } => op == (TapeOp::Sigmoid { input: ids[0], out_val: out }),
        TapeOp::Softplus { input_val, .. } => op == (TapeOp::Softplus { input: ids[0], input_val }),
        TapeOp::MatMul { a_val, b_val, .. } => op == (TapeOp::MatMul {
            a: ids[0],
            b: ids[1],
            a_val,
            b_val,
        }),
        TapeOp::Transpose { dim_a, dim_b, .. } => op == (TapeOp::Transpose {
            input: ids[0],
            dim_a,
            dim_b,
        }),
        TapeOp::Narrow { dim, start, len, orig_shape, .. } => op == (TapeOp::Narrow {
            input: ids[0],
            dim,
            start,
            len,
            orig_shape,
        }),
        TapeOp::BroadcastAs { orig_shape, target_shape, .. } => op == (TapeOp::BroadcastAs {
            input: ids[0],
            orig_shape,
            target_shape,
        }),
        TapeOp::Concat { dim, input_shapes, .. } => op matches TapeOp::Concat {
            inputs,
            dim: d,
            input_shapes: s,
        } && inputs@ == ids && d == dim && s == input_shapes,
        TapeOp::Embedding { indices_val, table_shape, .. } => op == (TapeOp::Embedding {
            table: ids[0],
            indices_val,
            table_shape,
        }),
        TapeOp::Gather { indices_val, dim, input_shape, .. } => op == (TapeOp::Gather {
            input: ids[0],
            indices_val,
            dim,
            input_shape,
        }),
        TapeOp::Conv1d { bias_node, x_val, w_val, stride, padding, groups, .. } => op == (
        TapeOp::Conv1d {
            x: ids[0],
            w: ids[1],
            bias_node: if bias_node is Some {
                Some(ids[2])
            } else {
                None
            },
            x_val,
            w_val,
            stride,
            padding,
            groups,
        }),
        TapeOp::LogSoftmax { dim, .. } => op == (TapeOp::LogSoftmax {
            input: ids[0],
            dim,
            out_val: out,
        }),
        TapeOp::RmsNorm { x_val, w_val, eps, .. } => op == (TapeOp::RmsNorm {
            x: ids[0],
            w: ids[1],
            x_val,
            w_val,
            eps,
        }),
        TapeOp::Cumsum { dim, input_shape, .. } => op == (TapeOp::Cumsum {
            input: ids[0],
            dim,
            input_shape,
        }),
        TapeOp::MeanAll { numel, input_shape, .. } => op == (TapeOp::MeanAll {
            input: ids[0],
            numel,
            input_shape,
        }),
        TapeOp::SumAll { input_shape, .. } => op == (TapeOp::SumAll { input: ids[0], input_shape }),
        TapeOp::SsdScan(d) => op matches TapeOp::SsdScan(e) && *e == (SsdScanData {
            x: ids[0],
            a: ids[1],
            b: ids[2],
            c: ids[3],
            ..*d
        }),
    }
}

/// Fills in the nodes of an operation and, where it saves one, its output.
pub fn fill(tpl: TapeOp, ids: Vec<Option<NodeId>>, out: &CudaTensor) -> (op: TapeOp)
    requires
        ids@.len() == inputs_of(tpl).len(),
    ensures
        filled(op, tpl, ids@, *out),
{
    match tpl {
        TapeOp::Leaf { param_id } => TapeOp::Leaf { param_id },
        TapeOp::Add { lhs_shape, rhs_shape, .. } => TapeOp::Add {
            lhs: ids[0],
            rhs: ids[1],
            lhs_shape,
            rhs_shape,
        },
        TapeOp::Sub { lhs_shape, rhs_shape, .. } => TapeOp::Sub {
            lhs: ids[0],
            rhs: ids[1],
            lhs_shape,
            rhs_shape,
        },
        TapeOp::Mul { lhs_val, rhs_val, .. } => TapeOp::Mul {
            lhs: ids[0],
            rhs: ids[1],
            lhs_val,
            rhs_val,
        },
        TapeOp::Neg { .. } => TapeOp::Neg { input: ids[0] },
        TapeOp::Reshape { orig_shape, .. } => TapeOp::Reshape { input: ids[0], orig_shape },
        TapeOp::MulScalar { scale, .. } => TapeOp::MulScalar { input: ids[0], scale },
        TapeOp::AddScalar { .. } => TapeOp::AddScalar { input: ids[0] },
        TapeOp::Sqrt { .. } => TapeOp::Sqrt { input: ids[0], out_val: out.clone() },
        TapeOp::Div { rhs_val, .. } => TapeOp::Div {
            lhs: ids[0],
            rhs: ids[1],
            rhs_val,
            out_val: out.clone(),
        },
        TapeOp::Exp { .. } => TapeOp::Exp { input: ids[0], out_val: out.clone() },
        TapeOp::Silu { input_val, .. } => TapeOp::Silu { input: ids[0], input_val },
        TapeOp::Sigmoid { .. } => TapeOp::Sigmoid { input: ids[0], out_val: out.clone() },
        TapeOp::Softplus { input_val, .. } => TapeOp::Softplus { input: ids[0], input_val },
        TapeOp::MatMul { a_val, b_val, .. } => TapeOp::MatMul {
            a: ids[0],
            b: ids[1],
            a_val,
            b_val,
        },
        TapeOp::Transpose { dim_a, dim_b, .. } => TapeOp::Transpose { input: ids[0], dim_a, dim_b },
        TapeOp::Narrow { dim, start, len, orig_shape, .. } => TapeOp::Narrow {
            input: ids[0],
            dim,
            start,
            len,
            orig_shape,
        },
        TapeOp::BroadcastAs { orig_shape, target_shape, .. } => TapeOp::BroadcastAs {
            input: ids[0],
            orig_shape,
            target_shape,
        },
        TapeOp::Concat { dim, input_shapes, .. } => TapeOp::Concat {
            inputs: ids,
            dim,
            input_shapes,
        },
        TapeOp::Embedding { indices_val, table_shape, .. } => TapeOp::Embedding {
            table: ids[0],
            indices_val,
            table_shape,
        },
        TapeOp::Gather { indices_val, dim, input_shape, .. } => TapeOp::Gather {
            input: ids[0],
            indices_val,
            dim,
            input_shape,
        },
        TapeOp::Conv1d { bias_node, x_val, w_val, stride, padding, groups, .. } => {
            let bias: Option<Option<NodeId>> = match bias_node {
                Some(_) => Some(ids[2]),
                None => None,
            };
            TapeOp::Conv1d {
                x: ids[0],
                w: ids[1],
                bias_node: bias,
                x_val,
                w_val,
                stride,
                padding,
                groups,
            }
        },
        TapeOp::LogSoftmax { dim, .. } => TapeOp::LogSoftmax {
            input: ids[0],
            dim,
            out_val: out.clone(),
        },
        TapeOp::RmsNorm { x_val, w_val, eps, .. } => TapeOp::RmsNorm {
            x: ids[0],
            w: ids[1],
            x_val,
            w_val,
            eps,
        },
        TapeOp::Cumsum { dim, input_shape, .. } => TapeOp::Cumsum { input: ids[0], dim, input_shape },
        TapeOp::MeanAll { numel, input_shape, .. } => TapeOp::MeanAll {
            input: ids[0],
            numel,
            input_shape,
        },
        TapeOp::SumAll { input_shape, .. } => TapeOp::SumAll { input: ids[0], input_shape },
        TapeOp::SsdScan(d) => {
            let d: SsdScanData = *d;
            TapeOp::SsdScan(
                Box::new(
                    SsdScanData {
                        x: ids[0],
                        a: ids[1],
                        b: ids[2],
                        c: ids[3],
                        x_val: d.x_val,
                        a_val: d.a_val,
                        b_val: d.b_val,
                        c_val: d.c_val,
                        block_len: d.block_len,
                    },
                ),
            )
        },
    }
}

/// Filling in keeps what the template said of shapes and saved tensors.
proof fn lemma_filled(
    op: TapeOp,
    tpl: TapeOp,
    ids: Seq<Option<NodeId>>,
    out: CudaTensor,
    dims: Seq<usize>,
)
    requires
        filled(op, tpl, ids, out),
        ids.len() == inputs_of(tpl).len(),
        shape_ok(tpl, dims),
        saved_inputs_ok(tpl),
        keeps_out(tpl) ==> saved_f32(out) && out.dims() == dims,
    ensures
        inputs_of(op) == ids,
        shape_ok(op, dims),
        saved_ok(op),
        op is Leaf == tpl is Leaf,
        op is Conv1d == tpl is Conv1d,
        forall|k: int| #[trigger] input_dims(op, k, dims) == input_dims(tpl, k, dims),
        holdable(op, dims) == holdable(tpl, dims),
{
    assert(inputs_of(op) =~= ids);
}

impl Draft {
    /// Whether the draft's shapes fit together.
    pub open spec fn ok(self) -> bool {
        &&& self.op !is Leaf
        &&& self.operands@.len() == inputs_of(self.op).len()
        &&& shape_ok(self.op, self.dims@)
        &&& saved_inputs_ok(self.op)
        &&& forall|k: int|
            0 <= k < self.operands@.len() ==> input_ok(
                self.op,
                k,
                self.dims@,
                (#[trigger] self.operands@[k]).dims(),
            )
    }

    /// Whether any input is part of a graph.
    pub open spec fn any_in_graph(self) -> bool {
        exists|k: int| 0 <= k < self.operands@.len() && (#[trigger] self.operands@[k]).in_graph()
    }

    /// Whether the tape knows where all of its tensors come from.
    pub open spec fn tracked_by(self, v: TapeView) -> bool {
        &&& forall|k: int| 0 <= k < self.early@.len() ==> v.tracks(#[trigger] self.early@[k])
        &&& forall|k: int| 0 <= k < self.operands@.len() ==> v.tracks(#[trigger] self.operands@[k])
    }

    /// How many entries recording it can take.
    pub open spec fn room(self) -> int {
        (self.early@.len() + self.operands@.len() + 1) as int
    }

    /// Whether recording the draft of an operation with the output `out`
    /// takes the tape from `v` to `w` and gives the output the node `id`.
    pub open spec fn records(
        self,
        v: TapeView,
        w: TapeView,
        grad: bool,
        out: CudaTensor,
        id: Option<NodeId>,
    ) -> bool {
        if grad && self.any_in_graph() {
            let v1 = v.resolved_all(self.early@);
            let v2 = v1.resolved_all(self.operands@);
            &&& w == v2.pushed(w.entries.last(), self.dims@)
            &&& filled(w.entries.last(), self.op, v1.nodes_of(self.operands@), out)
            &&& id == Some(v2.node(v2.entries.len() as int))
        } else {
            w == v && id is None
        }
    }
}

/// Asking for one tensor's node does not lose track of another.
proof fn lemma_tracks_kept(v: TapeView, t: CudaTensor, u: CudaTensor)
    requires
        v.wf(),
        v.entries.len() < u32::MAX,
        v.tracks(t),
        v.tracks(u),
    ensures
        v.resolved(t).0.tracks(u),
{
    let w = v.resolved(t).0;
    let n = v.entries.len() as int;
    if let Some(p) = t.origin {
        if !v.leaves.contains_key(p.0) {
            assert(w.known.contains_key(node_key(v.node(n))));
            if u.origin is None {
                if let Some(m) = u.node_id {
                    assert(v.live(m, u.dims()));
                    assert(node_key(m) != node_key(v.node(n)));
                }
            }
        }
    }
}

/// Recording an operation does not lose track of a tensor.
proof fn lemma_tracks_pushed(v: TapeView, op: TapeOp, d: Seq<usize>, u: CudaTensor)
    requires
        v.wf(),
        v.entries.len() < u32::MAX,
        v.tracks(u),
    ensures
        v.pushed(op, d).tracks(u),
{
    let n = v.entries.len() as int;
    if u.origin is None {
        if let Some(m) = u.node_id {
            assert(v.live(m, u.dims()));
            assert(node_key(m) != node_key(v.node(n)));
        }
    }
}

/// Extension is transitive.
pub proof fn lemma_tape_extends(a: TapeView, b: TapeView, c: TapeView)
    requires
        b.extends(a),
        c.extends(b),
    ensures
        c.extends(a),
{
    assert(c.entries.subrange(0, a.entries.len() as int) =~= c.entries.subrange(
        0,
        b.entries.len() as int,
    ).subrange(0, a.entries.len() as int));
    assert forall|n: NodeId| #[trigger] a.before(n, a.entries.len() as int) implies
        c.known.contains_key(node_key(n)) && c.known[node_key(n)] == a.known[node_key(n)] by {
        assert(b.before(n, b.entries.len() as int));
    }
}

/// Asks for the nodes of several tensors, in order.
pub fn resolve_all(tape: &mut Tape, ts: &Vec<CudaTensor>) -> (ids: Vec<Option<NodeId>>)
    requires
        old(tape).wf(),
        forall|k: int| 0 <= k < ts@.len() ==> old(tape)@.tracks(#[trigger] ts@[k]),
        old(tape)@.entries.len() + ts@.len() < u32::MAX,
    ensures
        final(tape)@ == old(tape)@.resolved_all(ts@),
        ids@ == old(tape)@.nodes_of(ts@),
        final(tape)@.extends(old(tape)@),
        final(tape)@.entries.len() <= old(tape)@.entries.len() + ts@.len(),
        forall|u: CudaTensor| #[trigger] old(tape)@.tracks(u) ==> final(tape)@.tracks(u),
        final(tape).wf(),
        forall|k: int|
            0 <= k < ts@.len() ==> (#[trigger] ids@[k] matches Some(n) ==> final(tape)@.live(
                n,
                ts@[k].dims(),
            )),
{
    let ghost v = tape@;
    let mut ids: Vec<Option<NodeId>> = Vec::new();
    let mut i: usize = 0;
    proof {
        assert(v.entries.subrange(0, v.entries.len() as int) =~= v.entries);
        assert(ts@.subrange(0, 0) =~= Seq::<CudaTensor>::empty());
    }
    while i < ts.len()
        invariant
            i <= ts@.len(),
            v == old(tape)@,
            tape.wf(),
            tape@.extends(v),
            tape@ == v.resolved_all(ts@.subrange(0, i as int)),
            ids@ == v.nodes_of(ts@).subrange(0, i as int),
            ids@.len() == i,
            tape@.entries.len() <= v.entries.len() + i,
            v.entries.len() + ts@.len() < u32::MAX,
            forall|k: int| 0 <= k < ts@.len() ==> v.tracks(#[trigger] ts@[k]),
            forall|u: CudaTensor| #[trigger] v.tracks(u) ==> tape@.tracks(u),
            forall|k: int|
                0 <= k < i ==> (#[trigger] ids@[k] matches Some(n) ==> tape@.live(
                    n,
                    ts@[k].dims(),
                )),
        decreases ts@.len() - i,
    {
        let ghost w = tape@;
        proof {
            assert(v.tracks(ts@[i as int]));
            let part = ts@.subrange(0, i + 1);
            assert(part.drop_last() =~= ts@.subrange(0, i as int));
            assert(part.last() == ts@[i as int]);
            assert forall|u: CudaTensor| #[trigger] v.tracks(u) implies w.resolved(
                ts@[i as int],
            ).0.tracks(u) by {
                lemma_tracks_kept(w, ts@[i as int], u);
            }
        }
        let id = ts[i].node_id(tape);
        ids.push(id);
        proof {
            lemma_tape_extends(v, w, tape@);
            assert(ids@ =~= v.nodes_of(ts@).subrange(0, i + 1));
            assert forall|k: int| 0 <= k < i + 1 implies (#[trigger] ids@[k] matches Some(n)
                ==> tape@.live(n, ts@[k].dims())) by {
                if k < i {
                    if let Some(n) = ids@[k] {
                        assert(w.live(n, ts@[k].dims()));
                        assert(w.before(n, w.entries.len() as int));
                    }
                }
            }
        }
        i = i + 1;
    }
    proof {
        assert(ts@.subrange(0, i as int) =~= ts@);
        assert(ids@ =~= v.nodes_of(ts@));
    }
    ids
}

/// Whether any of the tensors is part of a graph.
pub fn any_in_graph(ts: &Vec<CudaTensor>) -> (r: bool)
    ensures
        r == exists|k: int| 0 <= k < ts@.len() && (#[trigger] ts@[k]).in_graph(),
{
    let mut i: usize = 0;
    while i < ts.len()
        invariant
            i <= ts@.len(),
            forall|k: int| 0 <= k < i ==> !(#[trigger] ts@[k]).in_graph(),
        decreases ts@.len() - i,
    {
        if ts[i].origin.is_some() || ts[i].node_id.is_some() {
            assert(ts@[i as int].in_graph());
            return true;
        }
        i = i + 1;
    }
    false
}

/// The buffer that a buffer of a program has become.
pub open spec fn bound_buffer(b: Buffer, handles: Seq<Arc<Buffer>>) -> Buffer {
    match b {
        Buffer::Global(_) => b,
        Buffer::Local(i) => *handles[i as int],
    }
}

/// Whether a program's buffer has a handle to a lasting buffer.
pub open spec fn can_bind(b: Buffer, handles: Seq<Arc<Buffer>>) -> bool {
    b matches Buffer::Local(i) ==> i < handles.len() && *handles[i as int] is Global
}

/// Whether `u` is `t` with its buffer made lasting.
pub open spec fn bound(t: CudaTensor, u: CudaTensor, handles: Seq<Arc<Buffer>>) -> bool {
    &&& u.buffer() == bound_buffer(t.buffer(), handles)
    &&& u.storage is F32 == t.storage is F32
    &&& u.shape == t.shape
    &&& u.node_id == t.node_id
    &&& u.origin == t.origin
}

/// The tensor with its buffer made lasting.
pub fn bind(t: &CudaTensor, handles: &Vec<Arc<Buffer>>) -> (u: CudaTensor)
    requires
        can_bind(t.buffer(), handles@),
    ensures
        bound(*t, u, handles@),
        u.buffer() is Global,
{
    let storage = match &t.storage {
        CudaStorage::F32(b) => match **b {
            Buffer::Global(_) => CudaStorage::F32(b.clone()),
            Buffer::Local(i) => CudaStorage::F32(handles[i].clone()),
        },
        CudaStorage::I64(b) => match **b {
            Buffer::Global(_) => CudaStorage::I64(b.clone()),
            Buffer::Local(i) => CudaStorage::I64(handles[i].clone()),
        },
    };
    CudaTensor { storage, shape: t.shape.clone(), node_id: t.node_id, origin: t.origin }
}

impl Planned {
    /// Whether what is recorded fits the tensor that is made.
    pub open spec fn ok(self) -> bool {
        &&& self.out.wf()
        &&& self.record is Some ==> self.out.storage is F32
        &&& self.out.node_id is None
        &&& self.out.origin is None
        &&& self.before matches Some(d) ==> d.ok() && !keeps_out(d.op)
        &&& self.record matches Some(d) ==> d.ok() && d.dims@ == self.out.dims()
    }

    /// Whether the tape knows where all recorded tensors come from.
    pub open spec fn tracked_by(self, v: TapeView) -> bool {
        &&& self.before matches Some(d) ==> d.tracked_by(v)
        &&& self.record matches Some(d) ==> d.tracked_by(v)
    }

    /// How many entries recording can take.
    pub open spec fn room(self) -> int {
        (match self.before {
            Some(d) => d.room(),
            None => 0,
        }) + (match self.record {
            Some(d) => d.room(),
            None => 0,
        })
    }

    /// Whether recording takes the tape from `v` to `w` and gives the output
    /// the node `id`.
    pub open spec fn records(
        self,
        v: TapeView,
        m: TapeView,
        w: TapeView,
        grad: bool,
        out: CudaTensor,
        id: Option<NodeId>,
    ) -> bool {
        &&& match self.before {
            Some(d) => exists|first: Option<NodeId>| d.records(v, m, grad, out, first),
            None => m == v,
        }
        &&& match self.record {
            Some(d) => d.records(m, w, grad, out, id),
            None => w == m && id is None,
        }
    }
}

impl CudaBackend {
    /// The tape is well-formed and every parameter on it has been handed out.
    pub open spec fn wf(self) -> bool {
        &&& self.tape.wf()
        &&& forall|p: u64| #[trigger]
            self.tape@.params.contains_key(p) ==> p < self.next_param_id
    }

    pub fn new() -> (b: CudaBackend)
        ensures
            b.wf(),
            b.tape@.entries.len() == 0,
            b.tape@.generation == 0,
            b.next_param_id == 1,
            b.grad,
    {
        CudaBackend { tape: Tape::new(), next_param_id: 1, grad: true }
    }

    /// The next unused parameter identifier.
    pub fn alloc_param_id(&mut self) -> (id: ParamId)
        requires
            old(self).wf(),
            old(self).next_param_id < u64::MAX,
        ensures
            id.0 == old(self).next_param_id,
            *final(self) == (CudaBackend {
                next_param_id: (old(self).next_param_id + 1) as u64,
                ..*old(self)
            }),
            final(self).wf(),
            !final(self).tape@.params.contains_key(id.0),
    {
        let id: u64 = self.next_param_id;
        self.next_param_id = id + 1;
        ParamId(id)
    }

    /// Number of recorded operations.
    pub fn tape_len(&self) -> (n: usize)
        ensures
            n == self.tape@.entries.len(),
    {
        self.tape.len()
    }

    /// Discards everything recorded so far.
    pub fn reset_tape(&mut self)
        requires
            old(self).wf(),
        ensures
            final(self).tape@ == old(self).tape@.cleared(),
            final(self).next_param_id == old(self).next_param_id,
            final(self).grad == old(self).grad,
            final(self).wf(),
    {
        self.tape.clear();
    }

    /// Whether operations are recorded.
    pub fn grad_enabled(&self) -> (g: bool)
        ensures
            g == self.grad,
    {
        self.grad
    }

    /// Switches recording on or off, and returns whether it was on.
    pub fn set_grad(&mut self, on: bool) -> (before: bool)
        ensures
            before == old(self).grad,
            *final(self) == (CudaBackend { grad: on, ..*old(self) }),
    {
        let before: bool = self.grad;
        self.grad = on;
        before
    }

    /// Records one draft.
    fn record(&mut self, d: Draft, out: &CudaTensor) -> (id: Option<NodeId>)
        requires
            old(self).wf(),
            d.ok(),
            d.tracked_by(old(self).tape@),
            old(self).tape@.entries.len() + d.room() < u32::MAX,
            keeps_out(d.op) ==> saved_f32(*out) && out.dims() == d.dims@,
        ensures
            d.records(old(self).tape@, final(self).tape@, old(self).grad, *out, id),
            final(self).wf(),
            final(self).tape@.extends(old(self).tape@),
            final(self).tape@.entries.len() <= old(self).tape@.entries.len() + d.room(),
            final(self).next_param_id == old(self).next_param_id,
            final(self).grad == old(self).grad,
            id matches Some(n) ==> final(self).tape@.live(n, d.dims@),
            forall|u: CudaTensor| #[trigger]
                old(self).tape@.tracks(u) ==> final(self).tape@.tracks(u),
    {
        let ghost v = self.tape@;
        proof {
            assert(v.entries.subrange(0, v.entries.len() as int) =~= v.entries);
        }
        if !self.grad || !any_in_graph(&d.operands) {
            return None;
        }
        let _ = resolve_all(&mut self.tape, &d.early);
        let ghost v1 = self.tape@;
        proof {
            lemma_params_kept(v, d.early@);
        }
        let ids = resolve_all(&mut self.tape, &d.operands);
        let ghost v2 = self.tape@;
        proof {
            lemma_params_kept(v1, d.operands@);
            lemma_tape_extends(v, v1, v2);
        }
        let ghost idv = ids@;
        let mark = d.mark(&ids);
        let Draft { op: tpl, early: _, operands, dims } = d;
        let op = fill(tpl, ids, out);
        proof {
            lemma_filled(op, tpl, idv, *out, dims@);
            let n = v2.entries.len() as int;
            assert forall|k: int| 0 <= k < inputs_of(op).len() implies ((
            #[trigger] inputs_of(op)[k]) matches Some(m) ==> v2.before(m, n) && input_ok(
                op,
                k,
                dims@,
                v2.known[node_key(m)],
            )) by {
                assert(idv[k] == inputs_of(op)[k]);
                if let Some(m) = idv[k] {
                    assert(v2.live(m, operands@[k].dims()));
                    assert(input_ok(tpl, k, dims@, operands@[k].dims()));
                    assert(input_dims(op, k, dims@) == input_dims(tpl, k, dims@));
                }
            }
            assert(v2.entry_ok(op, n, dims@));
            let w = v2.pushed(op, dims@);
            assert(w.node(n) == v2.node(n));
            assert forall|k: int| 0 <= k < inputs_of(op).len() implies ((
            #[trigger] inputs_of(op)[k]) matches Some(m) ==> w.known[node_key(m)]
                == operands@[k].dims()) by {
                assert(idv[k] == inputs_of(op)[k]);
                if let Some(m) = idv[k] {
                    assert(v2.live(m, operands@[k].dims()));
                    assert(v2.before(m, n));
                }
            }
            if let TapeOp::Conv1d { bias_node: Some(Some(m)), .. } = op {
                assert(inputs_of(op)[2] == Some(m));
            }
            assert(mark.fits(w, n));
        }
        let id = self.tape.push(op, &dims, mark);
        proof {
            lemma_tape_extends(v, v2, self.tape@);
            assert(self.tape@.entries.last() == op);
            assert forall|u: CudaTensor| #[trigger] v.tracks(u) implies self.tape@.tracks(u) by {
                assert(v1.tracks(u));
                assert(v2.tracks(u));
                lemma_tracks_pushed(v2, op, dims@, u);
            }
        }
        Some(id)
    }

    /// Takes over the result of a planned operation that has run, and records
    /// the operation. `handles` names the lasting buffer of each command.
    pub fn commit(&mut self, p: Planned, handles: &Vec<Arc<Buffer>>) -> (t: CudaTensor)
        requires
            old(self).wf(),
            p.ok(),
            p.tracked_by(old(self).tape@),
            can_bind(p.out.buffer(), handles@),
            old(self).tape@.entries.len() + p.room() < u32::MAX,
        ensures
            exists|m: TapeView, u: CudaTensor| #[trigger]
                p.records(old(self).tape@, m, final(self).tape@, old(self).grad, u, t.node_id)
                    && bound(p.out, u, handles@) && t == (CudaTensor { node_id: t.node_id, ..u }),
            final(self).wf(),
            final(self).tape@.extends(old(self).tape@),
            final(self).next_param_id == old(self).next_param_id,
            final(self).grad == old(self).grad,
            p.out.storage is F32 ==> saved_f32(t),
            p.out.storage is I64 ==> saved_i64(t),
            t.dims() == p.out.dims(),
            t.origin is None,
            final(self).tape@.tracks(t),
            forall|u: CudaTensor| #[trigger]
                old(self).tape@.tracks(u) ==> final(self).tape@.tracks(u),
    {
        let ghost v = self.tape@;
        let u = bind(&p.out, handles);
        let ghost whole = p;
        let Planned { program: _, out: _, before, record } = p;
        let mut first: Option<NodeId> = None;
        match before {
            Some(d) => {
                first = self.record(d, &u);
            },
            None => {
                proof {
                    assert(v.entries.subrange(0, v.entries.len() as int) =~= v.entries);
                }
            },
        }
        let ghost m = self.tape@;
        proof {
            if let Some(d) = whole.before {
                assert(d.records(v, m, old(self).grad, u, first));
            }
            if let Some(d) = whole.record {
                assert(d.tracked_by(m)) by {
                    assert forall|k: int| 0 <= k < d.early@.len() implies m.tracks(
                        #[trigger] d.early@[k],
                    ) by {
                        assert(v.tracks(d.early@[k]));
                    }
                    assert forall|k: int| 0 <= k < d.operands@.len() implies m.tracks(
                        #[trigger] d.operands@[k],
                    ) by {
                        assert(v.tracks(d.operands@[k]));
                    }
                }
            }
        }
        let id: Option<NodeId> = match record {
            Some(d) => self.record(d, &u),
            None => {
                proof {
                    assert(m.entries.subrange(0, m.entries.len() as int) =~= m.entries);
                }
                None
            },
        };
        proof {
            lemma_tape_extends(v, m, self.tape@);
            assert(whole.records(v, m, self.tape@, old(self).grad, u, id));
            assert forall|x: CudaTensor| #[trigger] v.tracks(x) implies self.tape@.tracks(x) by {
                assert(m.tracks(x));
            }
        }
        match id {
            Some(n) => u.with_node_id(n),
            None => u,
        }
    }
}

/// Asking for nodes adds no parameter that the tape did not know.
proof fn lemma_params_kept(v: TapeView, ts: Seq<CudaTensor>)
    requires
        forall|k: int| 0 <= k < ts.len() ==> v.tracks(#[trigger] ts[k]),
    ensures
        v.resolved_all(ts).params == v.params,
    decreases ts.len(),
{
    if ts.len() > 0 {
        let head = ts.drop_last();
        assert forall|k: int| 0 <= k < head.len() implies v.tracks(#[trigger] head[k]) by {
            assert(v.tracks(ts[k]));
        }
        lemma_params_kept(v, head);
        let t = ts.last();
        assert(v.tracks(ts[ts.len() - 1]));
        if let Some(p) = t.origin {
            assert(v.params.insert(p.0, t.dims()) =~= v.params);
        }
    }
}

} // verus!
