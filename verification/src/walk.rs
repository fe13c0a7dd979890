//! The reverse walk over the tape.

use crate::conv::ConvDims;
use crate::convolve::ConvSpec;
use crate::error::CudaError;
use crate::grad::{accumulate, accumulated, grad_ok, grads_ok, lemma_grads_kept, vals, GradMap};
use crate::parts::{input_at, input_count};
use crate::program::{Program, Val};
use crate::reach::{again, fed, steppable};
use crate::rules::{conv_grad, differentiable, give, part, parts, saved, takes, vjp, GradView};
use crate::shape::{numel, regular, solid};
use crate::tape::{conv_of, input_ok, inputs_of, key_of, node_key, Tape, TapeOp, TapeView};
use crate::tensor::{CudaTensor, NodeId};
use crate::vjp::lemma_regular;
use vstd::prelude::*;

verus! {

/// A walk under way: the program so far, and the gradients that it has made.
#[derive(Debug)]
pub struct Walk {
    pub program: Program,
    pub nodes: GradMap,
    pub params: GradMap,
}

/// Whether `k` is the number of a node of the tape, or of an earlier one.
pub open spec fn placed(v: TapeView, k: u64) -> bool {
    exists|n: NodeId| #[trigger] v.before(n, v.entries.len() as int) && node_key(n) == k
}

/// Whether `n`, where there is one, is a node of the regular shape `d`.
pub open spec fn slot(v: TapeView, n: Option<NodeId>, d: Seq<usize>) -> bool {
    n matches Some(id) ==> v.before(id, v.entries.len() as int) && v.known[node_key(id)] == d
        && regular(d)
}

/// Whether a gradient of shape `d` can be added at the node `n`.
pub open spec fn seat(v: TapeView, n: NodeId, d: Seq<usize>) -> bool {
    &&& v.before(n, v.entries.len() as int)
    &&& v.known[node_key(n)] == d
    &&& solid(d)
}

impl Walk {
    /// The gradients, as they are when the program has run.
    pub open spec fn state(self) -> GradView {
        GradView {
            nodes: vals(self.program, self.nodes@),
            params: vals(self.program, self.params@),
        }
    }

    /// Whether every gradient has the shape of the node or parameter it
    /// belongs to.
    pub open spec fn sound(self, v: TapeView) -> bool {
        &&& self.program.wf()
        &&& grads_ok(self.program, self.nodes@, v.known)
        &&& grads_ok(self.program, self.params@, v.params)
        &&& forall|k: u64| #[trigger] self.nodes@.contains_key(k) ==> placed(v, k)
    }

    /// Whether the rule of entry `i` can be applied to the gradient `g`.
    pub open spec fn can_step(self, v: TapeView, i: int, g: CudaTensor) -> bool {
        &&& v.wf()
        &&& 0 <= i < v.entries.len()
        &&& steppable(v, i, self.nodes@.dom(), self.params@.dom())
        &&& self.sound(v)
        &&& grad_ok(self.program, g)
        &&& g.dims() == v.out(i)
    }

    /// Whether `f` and `r` are what the rule of `op` makes of this walk.
    pub open spec fn stepped(
        self,
        f: Walk,
        v: TapeView,
        op: TapeOp,
        g: CudaTensor,
        r: Result<(), CudaError>,
    ) -> bool {
        self.becomes(f, v, vjp(op, self.program.val(g), self.state()), r)
    }

    /// Whether `f` and `r` are what `s` says becomes of this walk.
    pub open spec fn becomes(
        self,
        f: Walk,
        v: TapeView,
        s: Result<GradView, CudaError>,
        r: Result<(), CudaError>,
    ) -> bool {
        match s {
            Err(e) => r == Err::<(), CudaError>(e),
            Ok(st) => {
                &&& r is Ok
                &&& f.sound(v)
                &&& f.program.extends(self.program)
                &&& f.state() == st
            },
        }
    }

    /// Adds a contribution to the gradient of a node.
    pub(crate) fn give(&mut self, tape: &Tape, n: NodeId, part: CudaTensor)
        requires
            old(self).sound(tape@),
            grad_ok(old(self).program, part),
            seat(tape@, n, part.dims()),
            old(self).nodes@.contains_key(node_key(n)) ==> numel(part.dims()) <= u32::MAX,
        ensures
            final(self).sound(tape@),
            final(self).program.extends(old(self).program),
            final(self).state() == (GradView {
                nodes: accumulated(
                    old(self).state().nodes,
                    node_key(n),
                    old(self).program.val(part),
                ),
                ..old(self).state()
            }),
    {
        let ghost w0 = *self;
        let ghost v = tape@;
        accumulate(&mut self.program, &mut self.nodes, key_of(n), part, Ghost(v.known));
        proof {
            lemma_grads_kept(w0.program, self.program, w0.params@, v.params);
            assert forall|j: u64| #[trigger] self.nodes@.contains_key(j) implies placed(v, j) by {
                let a = vals(self.program, self.nodes@);
                let b = accumulated(vals(w0.program, w0.nodes@), node_key(n), w0.program.val(part));
                assert(a.contains_key(j));
                assert(b.contains_key(j));
                if j != node_key(n) {
                    assert(vals(w0.program, w0.nodes@).contains_key(j));
                    assert(w0.nodes@.contains_key(j));
                }
            }
        }
    }
}

/// Going on with the program changes nothing about a walk.
pub proof fn lemma_walk_kept(w: Walk, f: Walk, v: TapeView)
    requires
        w.sound(v),
        f.nodes@ == w.nodes@,
        f.params@ == w.params@,
        f.program.extends(w.program),
    ensures
        f.sound(v),
        f.state() == w.state(),
{
    lemma_grads_kept(w.program, f.program, w.nodes@, v.known);
    lemma_grads_kept(w.program, f.program, w.params@, v.params);
}

/// A contribution adds no other node than its own.
proof fn lemma_given(w: Walk, f: Walk, n: NodeId, val: Val)
    requires
        f.state().nodes == accumulated(w.state().nodes, node_key(n), val),
    ensures
        f.nodes@.dom() == w.nodes@.dom().insert(node_key(n)),
{
    assert(f.state().nodes.dom() =~= f.nodes@.dom());
    assert(w.state().nodes.dom() =~= w.nodes@.dom());
    assert(f.nodes@.dom() =~= w.nodes@.dom().insert(node_key(n)));
}

/// The entry at a position fits, and refers to earlier nodes.
pub proof fn lemma_entry(v: TapeView, i: int)
    requires
        v.wf(),
        0 <= i < v.entries.len(),
    ensures
        v.known.contains_key(node_key(v.node(i))),
        v.entry_ok(v.entries[i], i, v.out(i)),
{
    assert(v.known.contains_key(node_key(v.node(i))));
}

/// What the tape says of the `k`-th input of entry `i`.
pub(crate) proof fn lemma_operand(v: TapeView, i: int, k: int)
    requires
        v.wf(),
        0 <= i < v.entries.len(),
        differentiable(v, v.entries[i], v.out(i)),
        0 <= k < inputs_of(v.entries[i]).len(),
        inputs_of(v.entries[i])[k] is Some,
    ensures
        ({
            let n = inputs_of(v.entries[i])[k]->0;
            &&& v.before(n, i)
            &&& input_ok(v.entries[i], k, v.out(i), v.known[node_key(n)])
            &&& takes(v.entries[i], v.known[node_key(n)])
        }),
{
    lemma_entry(v, i);
}

impl Walk {
    /// The contributions of an operation whose rule goes input by input.
    fn vjp_parts(&mut self, tape: &Tape, i: usize, g: &CudaTensor) -> (r: Result<(), CudaError>)
        requires
            old(self).can_step(tape@, i as int, *g),
            tape@.entries[i as int] !is Leaf,
            tape@.entries[i as int] !is Conv1d,
            tape@.entries[i as int] !is SsdScan,
        ensures
            old(self).stepped(*final(self), tape@, tape@.entries[i as int], *g, r),
    {
        let ghost w0 = *self;
        let ghost v = tape@;
        let ghost op = v.entries[i as int];
        let ghost gv = self.program.val(*g);
        let count: usize = input_count(&tape.entries[i]);
        let mut k: usize = 0;
        while k < count
            invariant
                k <= count,
                count == inputs_of(op).len(),
                i < v.entries.len(),
                v == tape@,
                v.wf(),
                op == v.entries[i as int],
                w0 == *old(self),
                op !is Leaf,
                op !is Conv1d,
                op !is SsdScan,
                steppable(v, i as int, w0.nodes@.dom(), w0.params@.dom()),
                self.nodes@.dom().subset_of(fed(op, w0.nodes@.dom(), k as int)),
                self.sound(v),
                self.program.extends(w0.program),
                grad_ok(self.program, *g),
                self.program.val(*g) == gv,
                w0.program.val(*g) == gv,
                g.dims() == v.out(i as int),
                vjp(op, gv, w0.state()) == parts(op, gv, k as int, Ok(self.state())),
            decreases count - k,
        {
            match input_at(&tape.entries[i], k) {
                None => {},
                Some(n) => {
                    let ghost w1 = *self;
                    proof {
                        lemma_entry(v, i as int);
                        lemma_operand(v, i as int, k as int);
                    }
                    match self.program.part_of(&tape.entries[i], k, g) {
                        Err(e) => {
                            proof {
                                lemma_parts_err(op, gv, k + 1, e);
                            }
                            return Err(e);
                        },
                        Ok(t) => {
                            proof {
                                lemma_walk_kept(w1, *self, v);
                                if self.nodes@.contains_key(node_key(n)) {
                                    assert(self.nodes@.dom().contains(node_key(n)));
                                    assert(inputs_of(op)[k as int] == Some(n));
                                    assert(again(op, w0.nodes@.dom(), w0.params@.dom()));
                                }
                            }
                            let ghost w2 = *self;
                            self.give(tape, n, t);
                            proof {
                                lemma_given(w2, *self, n, w2.program.val(t));
                            }
                        },
                    }
                },
            }
            k = k + 1;
        }
        Ok(())
    }

    /// The contributions of a convolution.
    fn conv1d_backward(&mut self, tape: &Tape, i: usize, g: &CudaTensor) -> (r: Result<
        (),
        CudaError,
    >)
        requires
            old(self).can_step(tape@, i as int, *g),
            tape@.entries[i as int] is Conv1d,
        ensures
            old(self).stepped(*final(self), tape@, tape@.entries[i as int], *g, r),
    {
        let ghost v = tape@;
        proof {
            lemma_entry(v, i as int);
        }
        match &tape.entries[i] {
            TapeOp::Conv1d { x, w, bias_node, x_val, w_val, stride, padding, groups } => {
                let bias: Option<NodeId> = match bias_node {
                    Some(b) => *b,
                    None => None,
                };
                proof {
                    if x is Some {
                        lemma_operand(v, i as int, 0);
                    }
                    if w is Some {
                        lemma_operand(v, i as int, 1);
                    }
                    if bias is Some {
                        lemma_operand(v, i as int, 2);
                    }
                }
                let s = ConvSpec {
                    dims: ConvDims {
                        batch: x_val.shape[0],
                        c_in: x_val.shape[1],
                        t_in: x_val.shape[2],
                        t_out: g.shape[2],
                        k_size: w_val.shape[2],
                        stride: *stride,
                        padding: *padding,
                    },
                    c_out: w_val.shape[0],
                    per_group: w_val.shape[1],
                    groups: *groups,
                };
                proof {
                    assert(s == conv_of(
                        x_val.dims(),
                        w_val.dims(),
                        g.dims(),
                        *stride,
                        *padding,
                        *groups,
                    ));
                    assert(x_val.dims() =~= seq![s.dims.batch, s.dims.c_in, s.dims.t_in]);
                    assert(w_val.dims() =~= seq![s.c_out, s.per_group, s.dims.k_size]);
                    assert(g.dims() =~= seq![s.dims.batch, s.c_out, s.dims.t_out]);
                }
                if s.is_depthwise() {
                    self.conv1d_backward_depthwise_gpu(tape, g, *x, *w, bias, x_val, w_val, s)
                } else {
                    self.conv1d_backward_general(tape, g, *x, *w, bias, x_val, w_val, s)
                }
            },
            _ => Ok(()),
        }
    }

    /// What both paths need of a convolution's operands.
    pub open spec fn conv_ready(
        self,
        v: TapeView,
        g: CudaTensor,
        x: Option<NodeId>,
        w: Option<NodeId>,
        bias: Option<NodeId>,
        xv: CudaTensor,
        wv: CudaTensor,
        s: ConvSpec,
    ) -> bool {
        &&& self.sound(v)
        &&& grad_ok(self.program, g)
        &&& self.program.holds_f32(xv)
        &&& self.program.holds_f32(wv)
        &&& xv.buffer() is Global
        &&& wv.buffer() is Global
        &&& regular(xv.dims())
        &&& regular(wv.dims())
        &&& xv.dims() == seq![s.dims.batch, s.dims.c_in, s.dims.t_in]
        &&& wv.dims() == seq![s.c_out, s.per_group, s.dims.k_size]
        &&& g.dims() == seq![s.dims.batch, s.c_out, s.dims.t_out]
        &&& slot(v, x, xv.dims())
        &&& slot(v, w, wv.dims())
        &&& slot(v, bias, seq![s.c_out])
    }

    /// The contributions of a convolution on the general path.
    fn conv1d_backward_general(
        &mut self,
        tape: &Tape,
        g: &CudaTensor,
        x: Option<NodeId>,
        w: Option<NodeId>,
        bias: Option<NodeId>,
        x_val: &CudaTensor,
        w_val: &CudaTensor,
        s: ConvSpec,
    ) -> (r: Result<(), CudaError>)
        requires
            old(self).conv_ready(tape@, *g, x, w, bias, *x_val, *w_val, s),
            !s.depthwise(),
            s.fits(),
        ensures
            old(self).becomes(
                *final(self),
                tape@,
                conv_grad(
                    old(self).program.val(*g),
                    x,
                    w,
                    bias,
                    saved(*x_val),
                    saved(*w_val),
                    s,
                    old(self).state(),
                ),
                r,
            ),
    {
        let ghost w0 = *self;
        let ghost v = tape@;
        proof {
            lemma_regular(x_val.dims());
            lemma_regular(w_val.dims());
        }
        if let Some(n) = bias {
            let t = self.program.conv_bias_grad(g, s);
            proof {
                lemma_walk_kept(w0, *self, v);
            }
            self.give(tape, n, t);
        }
        let ghost w1 = *self;
        let col = self.program.conv_columns(x_val, s.dims)?;
        proof {
            lemma_walk_kept(w1, *self, v);
        }
        let ghost w2 = *self;
        if let Some(n) = w {
            let t = self.program.conv_weight_grad(g, &col, s, &w_val.shape);
            proof {
                lemma_walk_kept(w2, *self, v);
            }
            self.give(tape, n, t);
        }
        let ghost w3 = *self;
        if let Some(n) = x {
            let t = self.program.conv_input_grad(g, w_val, s, &x_val.shape);
            proof {
                lemma_walk_kept(w3, *self, v);
            }
            self.give(tape, n, t);
        }
        Ok(())
    }

    /// The contributions of a convolution on the depthwise path.
    fn conv1d_backward_depthwise_gpu(
        &mut self,
        tape: &Tape,
        g: &CudaTensor,
        x: Option<NodeId>,
        w: Option<NodeId>,
        bias: Option<NodeId>,
        x_val: &CudaTensor,
        w_val: &CudaTensor,
        s: ConvSpec,
    ) -> (r: Result<(), CudaError>)
        requires
            old(self).conv_ready(tape@, *g, x, w, bias, *x_val, *w_val, s),
            s.depthwise(),
        ensures
            old(self).becomes(
                *final(self),
                tape@,
                conv_grad(
                    old(self).program.val(*g),
                    x,
                    w,
                    bias,
                    saved(*x_val),
                    saved(*w_val),
                    s,
                    old(self).state(),
                ),
                r,
            ),
    {
        let ghost w0 = *self;
        let ghost v = tape@;
        proof {
            lemma_regular(x_val.dims());
            lemma_regular(w_val.dims());
            lemma_depthwise(x_val.dims(), w_val.dims(), s);
        }
        if let Some(n) = bias {
            let t = self.program.depthwise_bias_grad(g, s.dims.c_in)?;
            proof {
                lemma_walk_kept(w0, *self, v);
            }
            self.give(tape, n, t);
        }
        let ghost w1 = *self;
        if let Some(n) = x {
            let t = self.program.depthwise_input_grad(g, w_val, s.dims)?;
            proof {
                lemma_walk_kept(w1, *self, v);
            }
            self.give(tape, n, t);
        }
        let ghost w2 = *self;
        if let Some(n) = w {
            let t = self.program.depthwise_weight_grad(g, x_val, s.dims, &w_val.shape)?;
            proof {
                lemma_walk_kept(w2, *self, v);
            }
            self.give(tape, n, t);
        }
        Ok(())
    }

    /// The gradient of a parameter's node goes to the parameter.
    fn vjp_leaf(&mut self, tape: &Tape, i: usize, g: &CudaTensor) -> (r: Result<(), CudaError>)
        requires
            old(self).can_step(tape@, i as int, *g),
            tape@.entries[i as int] is Leaf,
        ensures
            old(self).stepped(*final(self), tape@, tape@.entries[i as int], *g, r),
    {
        let ghost w0 = *self;
        let ghost v = tape@;
        proof {
            lemma_entry(v, i as int);
        }
        if let TapeOp::Leaf { param_id } = &tape.entries[i] {
            accumulate(
                &mut self.program,
                &mut self.params,
                param_id.0,
                g.clone(),
                Ghost(v.params),
            );
            proof {
                lemma_grads_kept(w0.program, self.program, w0.nodes@, v.known);
            }
        }
        Ok(())
    }

    /// Applies the rule of entry `i` to the gradient `g` of its output.
    pub fn apply_vjp(&mut self, tape: &Tape, i: usize, g: &CudaTensor) -> (r: Result<
        (),
        CudaError,
    >)
        requires
            old(self).can_step(tape@, i as int, *g),
            tape@.entries[i as int] !is SsdScan,
        ensures
            old(self).stepped(*final(self), tape@, tape@.entries[i as int], *g, r),
    {
        match &tape.entries[i] {
            TapeOp::Leaf { .. } => self.vjp_leaf(tape, i, g),
            TapeOp::Conv1d { .. } => self.conv1d_backward(tape, i, g),
            _ => self.vjp_parts(tape, i, g),
        }
    }
}

pub(crate) proof fn lemma_parts_err(op: TapeOp, g: Val, k: int, e: CudaError)
    requires
        0 <= k,
    ensures
        parts(op, g, k, Err(e)) == Err::<GradView, CudaError>(e),
    decreases inputs_of(op).len() - k,
{
    if k < inputs_of(op).len() {
        lemma_parts_err(op, g, k + 1, e);
    }
}

/// The counts that the depthwise kernels take are bounded by those of the
/// operands.
proof fn lemma_depthwise(x: Seq<usize>, w: Seq<usize>, s: ConvSpec)
    requires
        regular(x),
        regular(w),
        x.len() == 3,
        w.len() == 3,
        s.dims.batch == x[0],
        s.dims.c_in == x[1],
        s.dims.t_in == x[2],
        s.c_out == w[0],
        s.per_group == w[1],
        s.dims.k_size == w[2],
        s.depthwise(),
    ensures
        s.dims.batch * s.dims.c_in <= usize::MAX,
        s.dims.c_in * s.dims.k_size <= usize::MAX,
        x == seq![s.dims.batch, s.dims.c_in, s.dims.t_in],
{
    crate::shape::lemma_low_rank(x);
    crate::shape::lemma_low_rank(w);
    let a = x[0] as int;
    let b = x[1] as int;
    let c = x[2] as int;
    let d = w[2] as int;
    assert(x[2] >= 1);
    assert(a * b <= a * (b * c)) by (nonlinear_arith)
        requires
            a >= 0,
            b >= 0,
            c >= 1,
    ;
    assert(b * d == b * (1 * d)) by (nonlinear_arith);
    assert(x =~= seq![s.dims.batch, s.dims.c_in, s.dims.t_in]);
}

} // verus!
