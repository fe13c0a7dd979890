//! What a convolution's gradient rule hands the input, the weights and the
//! bias, read as integers: weighting the output by its gradient is weighting
//! each of them by its own.

use crate::adjoint::{
    adds, law_depthwise_gradients_are_adjoint, law_depthwise_weight_gradients_are_adjoint,
    lemma_sum_same, multiplies, sum,
};
use crate::conv::{depthwise_lens, ConvDims};
use crate::convolution::{answers, lemma_applied, lemma_depthwise_read, lemma_grad_dims};
use crate::convolve::{
    columns_val, conv_bias_grad_val, conv_dims, conv_input_grad_val, conv_weight_grad_val,
    depthwise_bias_grad_val, depthwise_input_grad_val, depthwise_weight_grad_val, ConvSpec,
};
use crate::device::reduced_val;
use crate::error::CudaError;
use crate::grad::accumulated;
use crate::grouped::{
    columns_of, contributed, convolved, law_bias_gradients_are_adjoint,
    law_grouped_gradients_are_adjoint, law_grouped_weight_gradients_are_adjoint, products, sums,
    tapped, weight,
};
use crate::host::{at2, at3, lemma_at2, lemma_at3};
use crate::hostconv::{
    channel, column, dotted, gives, hits, input_grad_of, reached, summed, tap_of, taps,
    weight_grad_of, GradDims,
};
use crate::hosttask::grad_dims;
use crate::index::{
    axis_parts, column_from, lemma_at2_parts, lemma_axis_parts, lemma_parts_at2,
    lemma_parts_of_at3, lemma_row_bound,
};
use crate::lanes::{ap, depthwise_back_sum, depthwise_sum, halves_down, tap_sums, tree};
use crate::launch::first_long;
use crate::meaning::{conv_words, Datum, Machine, World};
use crate::places::lemma_low_positions;
use crate::program::{HostTaskView, Term, Val};
use crate::rules::{conv_grad, saved, vjp, GradView};
use crate::shape::{in_range, lemma_low_rank, numel, span};
use crate::tape::{conv_of, node_key, TapeOp};
use crate::tensor::NodeId;
use vstd::prelude::*;

verus! {

proof fn lemma_some_dotted<T, A: Fn(T, T) -> T, M: Fn(T, T) -> T>(
    plus: A,
    times: M,
    zero: T,
    xs: Seq<T>,
    ys: Seq<T>,
)
    requires
        answers(plus),
        answers(times),
    ensures
        exists|r: T| #[trigger] dotted(plus, times, zero, xs, ys, r),
    decreases xs.len(),
{
    if xs.len() == 0 {
        assert(dotted(plus, times, zero, xs, ys, zero));
    } else {
        let (a, b) = (xs.drop_last(), ys.drop_last());
        lemma_some_dotted(plus, times, zero, a, b);
        let m = choose|m: T| #[trigger] dotted(plus, times, zero, a, b, m);
        let p = ap(times, xs.last(), ys.last());
        let r = ap(plus, m, p);
        assert(gives(times, xs.last(), ys.last(), p));
        assert(gives(plus, m, p, r));
        assert(dotted(plus, times, zero, xs, ys, r));
    }
}

proof fn lemma_some_summed<T, A: Fn(T, T) -> T>(plus: A, zero: T, xs: Seq<T>)
    requires
        answers(plus),
    ensures
        exists|r: T| #[trigger] summed(plus, zero, xs, r),
    decreases xs.len(),
{
    if xs.len() == 0 {
        assert(summed(plus, zero, xs, zero));
    } else {
        let a = xs.drop_last();
        lemma_some_summed(plus, zero, a);
        let m = choose|m: T| #[trigger] summed(plus, zero, a, m);
        let r = ap(plus, m, xs.last());
        assert(gives(plus, m, xs.last(), r));
        assert(summed(plus, zero, xs, r));
    }
}

proof fn lemma_some_input_grad<T, A: Fn(T, T) -> T, M: Fn(T, T) -> T>(
    plus: A,
    times: M,
    zero: T,
    go: Seq<T>,
    w: Seq<T>,
    d: GradDims,
    b: int,
    c: int,
    i: int,
    n: int,
)
    requires
        answers(plus),
        answers(times),
    ensures
        exists|r: T| #[trigger] input_grad_of(plus, times, zero, go, w, d, b, c, i, n, r),
    decreases n,
{
    if n <= 0 {
        assert(input_grad_of(plus, times, zero, go, w, d, b, c, i, n, zero));
    } else {
        lemma_some_input_grad(plus, times, zero, go, w, d, b, c, i, n - 1);
        let m = choose|m: T| #[trigger]
            input_grad_of(plus, times, zero, go, w, d, b, c, i, n - 1, m);
        if hits(d, i, n - 1) {
            let xs = taps(w, d, c, tap_of(d, i, n - 1));
            let ys = reached(go, d, b, c, n - 1);
            lemma_some_dotted(plus, times, zero, xs, ys);
            let p = choose|p: T| #[trigger] dotted(plus, times, zero, xs, ys, p);
            let r = ap(plus, m, p);
            assert(gives(plus, m, p, r));
            assert(input_grad_of(plus, times, zero, go, w, d, b, c, i, n, r));
        } else {
            assert(input_grad_of(plus, times, zero, go, w, d, b, c, i, n, m));
        }
    }
}

proof fn lemma_some_weight_grad<T, A: Fn(T, T) -> T, M: Fn(T, T) -> T>(
    plus: A,
    times: M,
    zero: T,
    go: Seq<T>,
    col: Seq<T>,
    d: GradDims,
    co: int,
    j: int,
)
    requires
        answers(plus),
        answers(times),
    ensures
        exists|r: T| #[trigger] weight_grad_of(plus, times, zero, go, col, d, co, j, r),
{
    let g = co / d.out_per_group as int;
    let xs = channel(go, d.dims.batch as int, d.c_out(), d.dims.t_out as int, co);
    let ys = column(col, d.rows(), d.dims.c_in * d.dims.k_size, g * d.width() + j);
    lemma_some_dotted(plus, times, zero, xs, ys);
    let s = choose|s: T| #[trigger] dotted(plus, times, zero, xs, ys, s);
    let r = ap(plus, zero, s);
    assert(plus.ensures((zero, s), r));
    assert(weight_grad_of(plus, times, zero, go, col, d, co, j, r));
}

/// What the gradient rule of a convolution hands its input.
pub open spec fn input_part(g: Val, w: Val, s: ConvSpec, dims: Seq<usize>) -> Result<
    Val,
    CudaError,
> {
    if s.depthwise() {
        depthwise_input_grad_val(g, w, s.dims)
    } else {
        Ok(conv_input_grad_val(g, w, s, dims))
    }
}

/// What it hands the weights.
pub open spec fn weight_part(g: Val, x: Val, s: ConvSpec, dims: Seq<usize>) -> Result<
    Val,
    CudaError,
> {
    if s.depthwise() {
        depthwise_weight_grad_val(g, x, s.dims, dims)
    } else {
        match columns_val(x, s.dims) {
            Err(e) => Err(e),
            Ok(col) => Ok(conv_weight_grad_val(g, col, s, dims)),
        }
    }
}

/// What it hands the bias.
pub open spec fn bias_part(g: Val, s: ConvSpec) -> Result<Val, CudaError> {
    if s.depthwise() {
        depthwise_bias_grad_val(g, s.dims.c_in)
    } else {
        Ok(conv_bias_grad_val(g, s))
    }
}

/// The gradient rule of a convolution adds to the gradients of its input, its
/// weights and its bias what it hands each, and changes no other gradient.
proof fn lemma_hands(
    g: Val,
    x: Option<NodeId>,
    w: Option<NodeId>,
    bias: Option<NodeId>,
    xv: Val,
    wv: Val,
    s: ConvSpec,
    st: GradView,
    q: u64,
)
    requires
        conv_grad(g, x, w, bias, xv, wv, s, st) is Ok,
    ensures
        ({
            let e = conv_grad(g, x, w, bias, xv, wv, s, st)->Ok_0;
            let is_x = x is Some && node_key(x->0) == q;
            let is_w = w is Some && node_key(w->0) == q;
            let is_b = bias is Some && node_key(bias->0) == q;
            &&& e.params == st.params
            &&& !is_x && !is_w && !is_b ==> e.nodes.contains_key(q) == st.nodes.contains_key(q) && (
            st.nodes.contains_key(q) ==> e.nodes[q] == st.nodes[q])
            &&& is_x && !is_w && !is_b ==> input_part(g, wv, s, xv.dims) is Ok && e.nodes[q]
                == accumulated(st.nodes, q, input_part(g, wv, s, xv.dims)->Ok_0)[q]
            &&& is_w && !is_x && !is_b ==> weight_part(g, xv, s, wv.dims) is Ok && e.nodes[q]
                == accumulated(st.nodes, q, weight_part(g, xv, s, wv.dims)->Ok_0)[q]
            &&& is_b && !is_x && !is_w ==> bias_part(g, s) is Ok && e.nodes[q] == accumulated(
                st.nodes,
                q,
                bias_part(g, s)->Ok_0,
            )[q]
        }),
{
}

impl<
    T: Copy,
    A: Fn(T, T) -> T,
    M: Fn(T, T) -> T,
    S: Fn(T, T) -> T,
    E: Fn(T) -> T,
    N: Fn(T) -> T,
    I: Fn(T) -> T,
    L: Fn(T) -> T,
    G: Fn(T, T) -> bool,
    P: Fn(T, T) -> T,
    R: Fn(T) -> T,
    D: Fn(T) -> T,
> Machine<T, A, M, S, E, N, I, L, G, P, R, D> {
    /// What the input is handed on the general path.
    proof fn lemma_input_back(self, world: World<T>, g: Val, w: Val, s: ConvSpec, dims: Seq<usize>)
        requires
            answers(self.arith.plus),
            answers(self.arith.times),
        ensures
            ({
                let y = conv_input_grad_val(g, w, s, dims);
                let d = grad_dims(s.dims, s.c_out, s.groups);
                let gx = self.nums(world, y);
                &&& self.data(world, y.term) is Numbers
                &&& gx.len() == s.dims.batch * s.dims.c_in * s.dims.t_in
                &&& forall|b: int, c: int, i: int|
                    0 <= b < s.dims.batch && 0 <= c < s.dims.c_in && 0 <= i < s.dims.t_in
                        ==> input_grad_of(
                        self.arith.plus,
                        self.arith.times,
                        self.arith.zero,
                        self.nums(world, g),
                        self.nums(world, w),
                        d,
                        b,
                        c,
                        i,
                        s.dims.t_out as int,
                        gx[#[trigger] at3(b, s.dims.c_in as int, c, s.dims.t_in as int, i)],
                    )
            }),
    {
        let y = conv_input_grad_val(g, w, s, dims);
        let d = grad_dims(s.dims, s.c_out, s.groups);
        let task = HostTaskView::ConvInputGrad { dims: s.dims, c_out: s.c_out, groups: s.groups };
        let terms = seq![g.term, w.term];
        let ins = self.all_data(world, terms);
        self.lemma_all_data(world, terms);
        let ys = Seq::new(ins.len(), |k: int| ins[k].numbers());
        let (go, ws) = (self.nums(world, g), self.nums(world, w));
        assert(ys[0] == go && ys[1] == ws);
        let (plus, times, zero) = (self.arith.plus, self.arith.times, self.arith.zero);
        let (bn, cn, tn) = (s.dims.batch as int, s.dims.c_in as int, s.dims.t_in as int);
        let steps = s.dims.t_out as int;
        assert(bn * cn * tn >= 0) by (nonlinear_arith)
            requires
                bn >= 0,
                cn >= 0,
                tn >= 0,
        ;
        let one = |b: int, c: int, i: int|
            choose|r: T| #[trigger]
                input_grad_of(plus, times, zero, go, ws, d, b, c, i, steps, r);
        let made = Seq::new(
            (bn * cn * tn) as nat,
            |x: int|
                {
                    let (b, c, i) = axis_parts(x, cn, tn);
                    one(b, c, i)
                },
        );
        assert(task.gives(ys, zero, plus, self.arith.minus, times, made)) by {
            assert forall|b: int, c: int, i: int|
                0 <= b < s.dims.batch && 0 <= c < s.dims.c_in && 0 <= i
                    < s.dims.t_in implies input_grad_of(
                plus,
                times,
                zero,
                ys[0],
                ys[1],
                d,
                b,
                c,
                i,
                s.dims.t_out as int,
                made[#[trigger] at3(b, cn, c, tn, i)],
            ) by {
                lemma_at3(b, cn, c, tn, i, bn);
                lemma_parts_of_at3(b, cn, c, tn, i);
                lemma_some_input_grad(plus, times, zero, go, ws, d, b, c, i, steps);
                assert(made[at3(b, cn, c, tn, i)] == one(b, c, i));
            }
        }
        let got = self.computed(task, ys);
        assert(self.data(world, y.term) == Datum::Numbers(got));
    }

    /// What the weights are handed on the general path.
    proof fn lemma_weights_back(self, world: World<T>, g: Val, col: Val, s: ConvSpec, dims: Seq<usize>)
        requires
            answers(self.arith.plus),
            answers(self.arith.times),
            s.grouped(),
        ensures
            ({
                let y = conv_weight_grad_val(g, col, s, dims);
                let d = grad_dims(s.dims, s.c_out, s.groups);
                let gw = self.nums(world, y);
                &&& self.data(world, y.term) is Numbers
                &&& gw.len() == s.c_out * d.width()
                &&& forall|co: int, j: int|
                    0 <= co < s.c_out && 0 <= j < d.width() ==> weight_grad_of(
                        self.arith.plus,
                        self.arith.times,
                        self.arith.zero,
                        self.nums(world, g),
                        self.nums(world, col),
                        d,
                        co,
                        j,
                        gw[#[trigger] at2(co, d.width(), j)],
                    )
            }),
    {
        let y = conv_weight_grad_val(g, col, s, dims);
        let d = grad_dims(s.dims, s.c_out, s.groups);
        lemma_grad_dims(s);
        let task = HostTaskView::ConvWeightGrad { dims: s.dims, c_out: s.c_out, groups: s.groups };
        let terms = seq![g.term, col.term];
        let ins = self.all_data(world, terms);
        self.lemma_all_data(world, terms);
        let ys = Seq::new(ins.len(), |k: int| ins[k].numbers());
        let (go, cs) = (self.nums(world, g), self.nums(world, col));
        assert(ys[0] == go && ys[1] == cs);
        let (plus, times, zero) = (self.arith.plus, self.arith.times, self.arith.zero);
        let wide = d.width();
        let n = s.c_out as int;
        assert(wide >= 0) by (nonlinear_arith)
            requires
                wide == d.per_group * d.dims.k_size,
        ;
        assert(n * wide >= 0) by (nonlinear_arith)
            requires
                n >= 0,
                wide >= 0,
        ;
        let one = |co: int, j: int|
            choose|r: T| #[trigger] weight_grad_of(plus, times, zero, go, cs, d, co, j, r);
        let made = Seq::new((n * wide) as nat, |x: int| one(x / wide, x % wide));
        assert(task.gives(ys, zero, plus, self.arith.minus, times, made)) by {
            assert forall|co: int, j: int|
                0 <= co < s.c_out && 0 <= j < d.width() implies weight_grad_of(
                plus,
                times,
                zero,
                ys[0],
                ys[1],
                d,
                co,
                j,
                made[#[trigger] at2(co, d.width(), j)],
            ) by {
                lemma_at2(co, wide, j, n);
                lemma_at2_parts(co, wide, j);
                assert(0 <= co * wide) by (nonlinear_arith)
                    requires
                        co >= 0,
                        wide >= 0,
                ;
                lemma_some_weight_grad(plus, times, zero, go, cs, d, co, j);
                assert(made[at2(co, wide, j)] == one(co, j));
            }
        }
        let got = self.computed(task, ys);
        assert(self.data(world, y.term) == Datum::Numbers(got));
    }

    /// What the bias is handed on the general path.
    proof fn lemma_bias_back(self, val: spec_fn(T) -> int, world: World<T>, g: Val, s: ConvSpec, c: int)
        requires
            self.reads_as(val),
            0 <= c < s.c_out,
        ensures
            ({
                let y = conv_bias_grad_val(g, s);
                &&& self.data(world, y.term) is Numbers
                &&& self.nums(world, y).len() == s.c_out
                &&& val(self.nums(world, y)[c]) == self.channel_sum(val, world, g, s, c)
            }),
    {
        let y = conv_bias_grad_val(g, s);
        let task = HostTaskView::ConvBiasGrad {
            batch: s.dims.batch,
            c_out: s.c_out,
            t_out: s.dims.t_out,
        };
        let terms = seq![g.term];
        let ins = self.all_data(world, terms);
        self.lemma_all_data(world, terms);
        let ys = Seq::new(ins.len(), |k: int| ins[k].numbers());
        let go = self.nums(world, g);
        assert(ys[0] == go);
        let (plus, zero) = (self.arith.plus, self.arith.zero);
        let (bn, cn, tn) = (s.dims.batch as int, s.c_out as int, s.dims.t_out as int);
        let one = |k: int| choose|r: T| #[trigger]
            summed(plus, zero, channel(go, bn, cn, tn, k), r);
        let made = Seq::new(s.c_out as nat, one);
        assert(task.gives(ys, zero, plus, self.arith.minus, self.arith.times, made)) by {
            assert forall|k: int| 0 <= k < s.c_out implies summed(
                plus,
                zero,
                channel(ys[0], s.dims.batch as int, s.c_out as int, s.dims.t_out as int, k),
                #[trigger] made[k],
            ) by {
                lemma_some_summed(plus, zero, channel(go, bn, cn, tn, k));
                assert(made[k] == one(k));
            }
        }
        let got = self.computed(task, ys);
        assert(self.data(world, y.term) == Datum::Numbers(got));
        assert(summed(plus, zero, channel(go, bn, cn, tn, c), got[c]));
        law_bias_gradients_are_adjoint(plus, val, zero, go, bn, cn, tn, c, 1, got[c]);
        self.lemma_channel_sum(val, world, g, s, c);
    }

    /// The sum of the gradients of one output channel over batch and steps.
    pub open spec fn channel_sum(
        self,
        val: spec_fn(T) -> int,
        world: World<T>,
        g: Val,
        s: ConvSpec,
        c: int,
    ) -> int {
        sum(
            s.dims.batch as int,
            |b: int|
                sum(
                    s.dims.t_out as int,
                    |t: int|
                        val(self.nums(world, g)[at3(b, s.c_out as int, c, s.dims.t_out as int, t)]),
                ),
        )
    }

    proof fn lemma_channel_sum(
        self,
        val: spec_fn(T) -> int,
        world: World<T>,
        g: Val,
        s: ConvSpec,
        c: int,
    )
        ensures
            self.channel_sum(val, world, g, s, c) == sum(
                s.dims.batch as int,
                |b: int|
                    sum(
                        s.dims.t_out as int,
                        |t: int|
                            val(
                                self.nums(world, g)[at3(
                                    b,
                                    s.c_out as int,
                                    c,
                                    s.dims.t_out as int,
                                    t,
                                )],
                            ) * 1,
                    ),
            ),
    {
        let go = self.nums(world, g);
        let (cn, tn) = (s.c_out as int, s.dims.t_out as int);
        let p = |b: int| sum(tn, |t: int| val(go[at3(b, cn, c, tn, t)]));
        let q = |b: int| sum(tn, |t: int| val(go[at3(b, cn, c, tn, t)]) * 1);
        assert forall|b: int| 0 <= b < s.dims.batch implies #[trigger] p(b) == q(b) by {
            lemma_sum_same(
                tn,
                |t: int| val(go[at3(b, cn, c, tn, t)]),
                |t: int| val(go[at3(b, cn, c, tn, t)]) * 1,
            );
        }
        lemma_sum_same(s.dims.batch as int, p, q);
    }

    /// A sum is read as the sum of what its terms are read as.
    proof fn lemma_tally_read(self, val: spec_fn(T) -> int, n: int, f: spec_fn(int) -> T)
        requires
            self.reads_as(val),
        ensures
            val(self.arith.tally(n, f)) == sum(n, |i: int| val(f(i))),
        decreases n,
    {
        lemma_applied(self.arith.plus, self.arith.times, val);
        if n > 0 {
            self.lemma_tally_read(val, n - 1, f);
        }
    }

    /// What the bias is handed by the depthwise kernels.
    proof fn lemma_depthwise_bias_back(
        self,
        val: spec_fn(T) -> int,
        world: World<T>,
        g: Val,
        s: ConvSpec,
        c: int,
    )
        requires
            self.reads_as(val),
            s.depthwise(),
            self.filled(world, g),
            g.dims == seq![s.dims.batch, s.c_out, s.dims.t_out],
            span(g.dims) <= usize::MAX,
            0 <= c < s.c_out,
            depthwise_bias_grad_val(g, s.dims.c_in) is Ok,
        ensures
            ({
                let y = depthwise_bias_grad_val(g, s.dims.c_in)->Ok_0;
                &&& y.dims == seq![s.c_out]
                &&& self.filled(world, y)
                &&& val(self.nums(world, y)[c]) == self.channel_sum(val, world, g, s, c)
            }),
    {
        let y = depthwise_bias_grad_val(g, s.dims.c_in)->Ok_0;
        let t = reduced_val(g, 2)->Ok_0;
        let e = reduced_val(t, 0)->Ok_0;
        let (bn, cn, tn) = (s.dims.batch as int, s.c_out as int, s.dims.t_out as int);
        self.lemma_reduced(world, g, 2);
        crate::device::lemma_reduced_dims(g.dims, 2);
        self.lemma_reduced(world, t, 0);
        lemma_low_rank(e.dims);
        lemma_low_rank(y.dims);
        assert(e.dims =~= seq![1usize, s.c_out, 1usize]);
        let go = self.nums(world, g);
        let at = seq![0nat, c as nat, 0nat];
        assert(in_range(e.dims, at));
        lemma_low_positions(e.dims, at);
        assert((0 * cn + c) * 1 + 0 == c);
        assert(self.at(world, e, at) == self.nums(world, y)[c]);
        let outer = |a: int| self.at(world, t, at.update(0, a as nat));
        self.lemma_tally_read(val, bn, outer);
        assert(self.at(world, e, at) == self.arith.tally(bn, outer));
        let want = |b: int| sum(tn, |q: int| val(go[at3(b, cn, c, tn, q)]));
        assert forall|b: int| 0 <= b < bn implies val(#[trigger] outer(b)) == want(b) by {
            let u = at.update(0, b as nat);
            assert(in_range(t.dims, u));
            let inner = |a: int| self.at(world, g, u.update(2, a as nat));
            self.lemma_tally_read(val, tn, inner);
            assert(self.at(world, t, u) == self.arith.tally(tn, inner));
            let f = |q: int| val(inner(q));
            let h = |q: int| val(go[at3(b, cn, c, tn, q)]);
            assert forall|q: int| 0 <= q < tn implies #[trigger] f(q) == h(q) by {
                assert(u.update(2, q as nat) =~= seq![b as nat, c as nat, q as nat]);
                lemma_low_positions(g.dims, seq![b as nat, c as nat, q as nat]);
            }
            lemma_sum_same(tn, f, h);
        }
        let stated = |b: int|
            sum(
                s.dims.t_out as int,
                |t: int|
                    val(self.nums(world, g)[at3(b, s.c_out as int, c, s.dims.t_out as int, t)]),
            );
        assert forall|b: int| 0 <= b < bn implies #[trigger] want(b) == stated(b) by {
            lemma_sum_same(
                tn,
                |q: int| val(go[at3(b, cn, c, tn, q)]),
                |t: int|
                    val(self.nums(world, g)[at3(b, s.c_out as int, c, s.dims.t_out as int, t)]),
            );
        }
        lemma_sum_same(bn, want, stated);
        assert(numel(e.dims) == s.c_out) by {
            assert(1 * (cn * 1) == cn);
        }
        assert(numel(y.dims) == s.c_out);
        assert(y.term == e.term);
        assert(self.filled(world, y));
        let values = |i: int| val(outer(i));
        assert(val(self.arith.tally(bn, outer)) == sum(bn, values));
        lemma_sum_same(bn, values, want);
        assert(sum(bn, stated) == self.channel_sum(val, world, g, s, c));
        assert(y.dims =~= seq![s.c_out]);
    }

    /// What the input is handed by the depthwise kernel.
    proof fn lemma_depthwise_input_back(self, world: World<T>, g: Val, w: Val, d: ConvDims)
        requires
            depthwise_input_grad_val(g, w, d) is Ok,
        ensures
            ({
                let y = depthwise_input_grad_val(g, w, d)->Ok_0;
                &&& y.dims == seq![d.batch, d.c_in, d.t_in]
                &&& self.filled(world, y)
                &&& forall|b: int, c: int, i: int|
                    0 <= b < d.batch && 0 <= c < d.c_in && 0 <= i < d.t_in ==> self.nums(
                        world,
                        y,
                    )[#[trigger] at3(b, d.c_in as int, c, d.t_in as int, i)]
                        == depthwise_back_sum(
                        self.arith.plus,
                        self.arith.times,
                        self.arith.zero,
                        self.nums(world, g),
                        self.nums(world, w),
                        d,
                        b,
                        c,
                        i,
                        d.k_size as int,
                    )
            }),
    {
        let y = depthwise_input_grad_val(g, w, d)->Ok_0;
        let n = numel(y.dims);
        lemma_low_rank(y.dims);
        let (bn, cn, tn) = (d.batch as int, d.c_in as int, d.t_in as int);
        assert(bn * (cn * tn) == bn * cn * tn) by (nonlinear_arith);
        reveal_with_fuel(first_long, 9);
        let lens = depthwise_lens(d);
        assert(first_long(lens, 0) is None);
        assert(lens[1] <= u32::MAX && lens[2] <= u32::MAX && lens[3] <= u32::MAX && lens[4]
            <= u32::MAX && lens[5] <= u32::MAX && lens[6] <= u32::MAX && lens[7] <= u32::MAX);
        if let Term::Run { kernel, config, args } = y.term {
            self.lemma_arguments(world, args);
            let a = self.arguments(world, args);
            assert(a[0] == self.data(world, g.term));
            assert(a[1] == self.data(world, w.term));
            assert(a[2] == self.data(world, Term::Zeros(n)));
            assert(a[3].word() == d.batch && a[4].word() == d.c_in && a[5].word() == d.t_in
                && a[6].word() == d.t_out && a[7].word() == d.k_size && a[8].word() == d.stride
                && a[9].word() == d.padding);
            assert(conv_words(a, 3) == d);
            assert(self.nums(world, y).len() == n);
            assert forall|b: int, c: int, i: int|
                0 <= b < d.batch && 0 <= c < d.c_in && 0 <= i < d.t_in implies self.nums(
                world,
                y,
            )[#[trigger] at3(b, cn, c, tn, i)] == depthwise_back_sum(
                self.arith.plus,
                self.arith.times,
                self.arith.zero,
                self.nums(world, g),
                self.nums(world, w),
                d,
                b,
                c,
                i,
                d.k_size as int,
            ) by {
                lemma_at3(b, cn, c, tn, i, bn);
                lemma_parts_of_at3(b, cn, c, tn, i);
            }
        }
    }

    /// What the weights are handed by the depthwise kernel.
    proof fn lemma_depthwise_weights_back(
        self,
        world: World<T>,
        g: Val,
        x: Val,
        d: ConvDims,
        dims: Seq<usize>,
    )
        requires
            depthwise_weight_grad_val(g, x, d, dims) is Ok,
            numel(dims) == d.c_in * d.k_size,
        ensures
            ({
                let y = depthwise_weight_grad_val(g, x, d, dims)->Ok_0;
                &&& y.dims == dims
                &&& self.filled(world, y)
                &&& forall|c: int, k: int|
                    0 <= c < d.c_in && 0 <= k < d.k_size ==> self.nums(world, y)[#[trigger] at2(
                        c,
                        d.k_size as int,
                        k,
                    )] == tree(
                        self.arith.plus,
                        Seq::new(
                            128,
                            |tid: int|
                                tap_sums(
                                    self.arith.plus,
                                    self.arith.times,
                                    self.arith.zero,
                                    self.nums(world, g),
                                    self.nums(world, x),
                                    d,
                                    d.batch as int,
                                    c,
                                    k,
                                    tid,
                                    128,
                                ),
                        ),
                    )
            }),
    {
        let y = depthwise_weight_grad_val(g, x, d, dims)->Ok_0;
        let (cn, kn) = (d.c_in as int, d.k_size as int);
        reveal_with_fuel(first_long, 8);
        let lens = seq![d.c_in, d.k_size, d.batch, d.t_in, d.t_out, d.stride, d.padding];
        assert(first_long(lens, 0) is None);
        assert(lens[0] <= u32::MAX && lens[1] <= u32::MAX && lens[2] <= u32::MAX && lens[3]
            <= u32::MAX && lens[4] <= u32::MAX && lens[5] <= u32::MAX && lens[6] <= u32::MAX);
        let n = (d.c_in * d.k_size) as nat;
        if let Term::Run { kernel, config, args } = y.term {
            self.lemma_arguments(world, args);
            let a = self.arguments(world, args);
            assert(a[0] == self.data(world, g.term));
            assert(a[1] == self.data(world, x.term));
            assert(a[2] == self.data(world, Term::Zeros(n)));
            assert(a[3].word() == d.batch && a[4].word() == d.c_in && a[5].word() == d.t_in
                && a[6].word() == d.t_out && a[7].word() == d.k_size && a[8].word() == d.stride
                && a[9].word() == d.padding);
            assert(conv_words(a, 3) == d);
            assert(config.block_dim.0 == 128);
            assert(self.nums(world, y).len() == n);
            assert forall|c: int, k: int| 0 <= c < d.c_in && 0 <= k < d.k_size implies self.nums(
                world,
                y,
            )[#[trigger] at2(c, kn, k)] == tree(
                self.arith.plus,
                Seq::new(
                    128,
                    |tid: int|
                        tap_sums(
                            self.arith.plus,
                            self.arith.times,
                            self.arith.zero,
                            self.nums(world, g),
                            self.nums(world, x),
                            d,
                            d.batch as int,
                            c,
                            k,
                            tid,
                            128,
                        ),
                ),
            ) by {
                lemma_at2(c, kn, k, cn);
                lemma_at2_parts(c, kn, k);
                assert(0 <= c * kn) by (nonlinear_arith)
                    requires
                        c >= 0,
                        kn >= 0,
                ;
            }
        }
    }

    /// A channel with a filter of its own, read as integers.
    proof fn lemma_own_filter(
        self,
        val: spec_fn(T) -> int,
        xs: Seq<T>,
        ws: Seq<T>,
        d: GradDims,
        b: int,
        c: int,
        t: int,
    )
        requires
            self.reads_as(val),
            d.per_group == 1,
            d.out_per_group == 1,
        ensures
            val(
                depthwise_sum(
                    self.arith.plus,
                    self.arith.times,
                    self.arith.zero,
                    xs,
                    ws,
                    d.dims,
                    b,
                    c,
                    t,
                    d.dims.k_size as int,
                ),
            ) == convolved(val, xs, ws, d, b, c, t),
    {
        lemma_depthwise_read(
            self.arith.plus,
            self.arith.times,
            val,
            self.arith.zero,
            xs,
            ws,
            d,
            b,
            c,
            t,
            d.dims.k_size as int,
        );
        let f = |i: int| contributed(val, xs, ws, d, b, c, i, t);
        assert(sum(1, f) == sum(0, f) + f(0));
        assert(c / 1 == c);
        assert(at2(c, 1, 0) == c);
    }

    /// A channel with weights of its own.
    proof fn lemma_own_weights(
        self,
        val: spec_fn(T) -> int,
        go: Seq<T>,
        gw: Seq<T>,
        x: Seq<T>,
        w: Seq<T>,
        d: ConvDims,
        e: GradDims,
        c: int,
        threads: nat,
    )
        requires
            self.reads_as(val),
            e.dims == d,
            e.per_group == 1,
            e.out_per_group == 1,
            e.c_out() == d.c_in,
            e.width() == d.k_size,
            halves_down(threads),
            0 <= c < d.c_in,
            forall|k: int|
                0 <= k < d.k_size ==> #[trigger] gw[at2(c, d.k_size as int, k)] == tree(
                    self.arith.plus,
                    Seq::new(
                        threads,
                        |tid: int|
                            tap_sums(
                                self.arith.plus,
                                self.arith.times,
                                self.arith.zero,
                                go,
                                x,
                                d,
                                d.batch as int,
                                c,
                                k,
                                tid,
                                threads as int,
                            ),
                    ),
                ),
        ensures
            self.weight_balance(val, go, gw, x, w, e, c),
    {
        let (plus, times, zero) = (self.arith.plus, self.arith.times, self.arith.zero);
        let n = d.k_size as int;
        lemma_applied(plus, times, val);
        law_depthwise_weight_gradients_are_adjoint(
            plus,
            times,
            val,
            zero,
            x,
            w,
            go,
            d,
            c,
            threads,
            n,
        );
        let lb = |b: int|
            sum(
                d.t_out as int,
                |t: int|
                    val(go[at3(b, d.c_in as int, c, d.t_out as int, t)]) * val(
                        depthwise_sum(plus, times, zero, x, w, d, b, c, t, n),
                    ),
            );
        let to = e.dims.t_out as int;
        let mb = |b: int|
            sum(
                to,
                |t: int|
                    val(go[at3(b, e.c_out(), c, to, t)]) * convolved(val, x, w, e, b, c, t),
            );
        assert forall|b: int| 0 <= b < d.batch implies #[trigger] lb(b) == mb(b) by {
            let f = |t: int|
                val(go[at3(b, d.c_in as int, c, d.t_out as int, t)]) * val(
                    depthwise_sum(plus, times, zero, x, w, d, b, c, t, n),
                );
            let h = |t: int|
                val(go[at3(b, e.c_out(), c, to, t)]) * convolved(val, x, w, e, b, c, t);
            assert forall|t: int| 0 <= t < to implies #[trigger] f(t) == h(t) by {
                self.lemma_own_filter(val, x, w, e, b, c, t);
            }
            lemma_sum_same(to, f, h);
        }
        lemma_sum_same(d.batch as int, lb, mb);
        let f = |k: int|
            val(
                tree(
                    plus,
                    Seq::new(
                        threads,
                        |tid: int|
                            tap_sums(
                                plus,
                                times,
                                zero,
                                go,
                                x,
                                d,
                                d.batch as int,
                                c,
                                k,
                                tid,
                                threads as int,
                            ),
                    ),
                ),
            ) * val(w[at2(c, d.k_size as int, k)]);
        let h = |j: int| val(gw[at2(c, e.width(), j)]) * val(w[at2(c, e.width(), j)]);
        assert forall|k: int| 0 <= k < n implies #[trigger] f(k) == h(k) by {
            let t = gw[at2(c, d.k_size as int, k)];
            assert(e.width() == d.k_size as int);
        }
        lemma_sum_same(n, f, h);
        assert(sum(d.batch as int, lb) == sum(n, f));
    }

    /// Whether weighting the output of a convolution of `xs` by its gradient
    /// gives, for a batch entry and group, what weighting `xs` by `gx` gives.
    pub open spec fn input_balance(
        self,
        val: spec_fn(T) -> int,
        go: Seq<T>,
        gx: Seq<T>,
        xs: Seq<T>,
        ws: Seq<T>,
        d: GradDims,
        b: int,
        grp: int,
    ) -> bool {
        let (m, n) = (d.out_per_group as int, d.per_group as int);
        let (cn, ti, to) = (d.dims.c_in as int, d.dims.t_in as int, d.dims.t_out as int);
        sum(
            m,
            |o: int|
                sum(
                    to,
                    |t: int|
                        val(go[at3(b, d.c_out(), at2(grp, m, o), to, t)]) * convolved(
                            val,
                            xs,
                            ws,
                            d,
                            b,
                            at2(grp, m, o),
                            t,
                        ),
                ),
        ) == sum(
            n,
            |i: int|
                sum(
                    ti,
                    |p: int|
                        val(gx[at3(b, cn, at2(grp, n, i), ti, p)]) * val(
                            xs[at3(b, cn, at2(grp, n, i), ti, p)],
                        ),
                ),
        )
    }

    /// Whether weighting the output of a convolution with `ws` by its gradient
    /// gives, for an output channel, what weighting its weights by `gw` gives.
    pub open spec fn weight_balance(
        self,
        val: spec_fn(T) -> int,
        go: Seq<T>,
        gw: Seq<T>,
        xs: Seq<T>,
        ws: Seq<T>,
        d: GradDims,
        co: int,
    ) -> bool {
        let to = d.dims.t_out as int;
        sum(
            d.dims.batch as int,
            |b: int|
                sum(
                    to,
                    |t: int|
                        val(go[at3(b, d.c_out(), co, to, t)]) * convolved(
                            val,
                            xs,
                            ws,
                            d,
                            b,
                            co,
                            t,
                        ),
                ),
        ) == sum(d.width(), |j: int| val(gw[at2(co, d.width(), j)]) * val(ws[at2(co, d.width(), j)]))
    }

    /// The input's part balances, whichever path is taken.
    proof fn lemma_input_part(
        self,
        val: spec_fn(T) -> int,
        world: World<T>,
        g: Val,
        w: Val,
        s: ConvSpec,
        dims: Seq<usize>,
        xs: Seq<T>,
        b: int,
        grp: int,
    )
        requires
            self.reads_as(val),
            s.grouped(),
            s.dims.stride > 0,
            dims == seq![s.dims.batch, s.dims.c_in, s.dims.t_in],
            input_part(g, w, s, dims) is Ok,
            0 <= b < s.dims.batch,
            0 <= grp < s.groups,
        ensures
            ({
                let y = input_part(g, w, s, dims)->Ok_0;
                &&& y.dims == dims
                &&& self.filled(world, y)
                &&& self.input_balance(
                    val,
                    self.nums(world, g),
                    self.nums(world, y),
                    xs,
                    self.nums(world, w),
                    grad_dims(s.dims, s.c_out, s.groups),
                    b,
                    grp,
                )
            }),
    {
        let y = input_part(g, w, s, dims)->Ok_0;
        let d = grad_dims(s.dims, s.c_out, s.groups);
        lemma_grad_dims(s);
        lemma_low_rank(dims);
        let (go, gx, ws) = (self.nums(world, g), self.nums(world, y), self.nums(world, w));
        let (plus, times, zero) = (self.arith.plus, self.arith.times, self.arith.zero);
        let (pn, gn) = (s.per_group as int, s.groups as int);
        assert(pn * gn == gn * pn) by (nonlinear_arith);
        if s.depthwise() {
            self.lemma_depthwise_input_back(world, g, w, s.dims);
            lemma_applied(plus, times, val);
            let kn = s.dims.k_size as int;
            let (cn, ti, to) = (s.dims.c_in as int, s.dims.t_in as int, s.dims.t_out as int);
            vstd::arithmetic::div_mod::lemma_div_by_self(gn);
            assert(d.out_per_group == 1 && d.per_group == 1);
            assert(d.c_out() == cn);
            let c = grp;
            law_depthwise_gradients_are_adjoint(plus, times, val, zero, xs, ws, go, s.dims, b, c, kn);
            let l = |t: int|
                val(go[at3(b, cn, c, to, t)]) * val(
                    depthwise_sum(plus, times, zero, xs, ws, s.dims, b, c, t, kn),
                );
            let r = |i: int|
                val(depthwise_back_sum(plus, times, zero, go, ws, s.dims, b, c, i, kn)) * val(
                    xs[at3(b, cn, c, ti, i)],
                );
            let (m, n) = (d.out_per_group as int, d.per_group as int);
            let lo = |o: int|
                sum(
                    to,
                    |t: int|
                        val(go[at3(b, d.c_out(), at2(grp, m, o), to, t)]) * convolved(
                            val,
                            xs,
                            ws,
                            d,
                            b,
                            at2(grp, m, o),
                            t,
                        ),
                );
            let ro = |i: int|
                sum(
                    ti,
                    |p: int|
                        val(gx[at3(b, cn, at2(grp, n, i), ti, p)]) * val(
                            xs[at3(b, cn, at2(grp, n, i), ti, p)],
                        ),
                );
            assert(at2(grp, 1, 0) == c);
            assert(lo(0) == sum(to, l)) by {
                let f = |t: int|
                    val(go[at3(b, d.c_out(), at2(grp, m, 0), to, t)]) * convolved(
                        val,
                        xs,
                        ws,
                        d,
                        b,
                        at2(grp, m, 0),
                        t,
                    );
                assert forall|t: int| 0 <= t < to implies #[trigger] f(t) == l(t) by {
                    self.lemma_own_filter(val, xs, ws, d, b, c, t);
                }
                lemma_sum_same(to, f, l);
            }
            assert(ro(0) == sum(ti, r)) by {
                let f = |p: int|
                    val(gx[at3(b, cn, at2(grp, n, 0), ti, p)]) * val(
                        xs[at3(b, cn, at2(grp, n, 0), ti, p)],
                    );
                assert forall|p: int| 0 <= p < ti implies #[trigger] f(p) == r(p) by {
                    assert(gx[at3(b, cn, c, ti, p)] == depthwise_back_sum(
                        plus,
                        times,
                        zero,
                        go,
                        ws,
                        s.dims,
                        b,
                        c,
                        p,
                        kn,
                    ));
                }
                lemma_sum_same(ti, f, r);
            }
            assert(sum(1, lo) == sum(0, lo) + lo(0));
            assert(sum(1, ro) == sum(0, ro) + ro(0));
        } else {
            self.lemma_input_back(world, g, w, s, dims);
            let (bn, cn, tn) = (s.dims.batch as int, s.dims.c_in as int, s.dims.t_in as int);
            assert(bn * (cn * tn) == bn * cn * tn) by (nonlinear_arith);
            law_grouped_gradients_are_adjoint(plus, times, val, zero, xs, ws, go, gx, d, b, grp);
        }
    }

    /// The weights' part balances, whichever path is taken.
    proof fn lemma_weight_part(
        self,
        val: spec_fn(T) -> int,
        world: World<T>,
        g: Val,
        x: Val,
        s: ConvSpec,
        dims: Seq<usize>,
        ws: Seq<T>,
        co: int,
    )
        requires
            self.reads_as(val),
            s.grouped(),
            !s.depthwise() ==> s.fits(),
            dims == seq![s.c_out, s.per_group, s.dims.k_size],
            weight_part(g, x, s, dims) is Ok,
            0 <= co < s.c_out,
        ensures
            ({
                let y = weight_part(g, x, s, dims)->Ok_0;
                &&& y.dims == dims
                &&& self.filled(world, y)
                &&& self.weight_balance(
                    val,
                    self.nums(world, g),
                    self.nums(world, y),
                    self.nums(world, x),
                    ws,
                    grad_dims(s.dims, s.c_out, s.groups),
                    co,
                )
            }),
    {
        let y = weight_part(g, x, s, dims)->Ok_0;
        let d = grad_dims(s.dims, s.c_out, s.groups);
        lemma_grad_dims(s);
        lemma_low_rank(dims);
        let (go, gw, xs) = (self.nums(world, g), self.nums(world, y), self.nums(world, x));
        let (plus, times, zero) = (self.arith.plus, self.arith.times, self.arith.zero);
        let (pn, gn) = (s.per_group as int, s.groups as int);
        assert(pn * gn == gn * pn) by (nonlinear_arith);
        if s.depthwise() {
            let kn = s.dims.k_size as int;
            let (cn, to) = (s.dims.c_in as int, s.dims.t_out as int);
            assert(cn * (1 * kn) == cn * kn) by (nonlinear_arith);
            self.lemma_depthwise_weights_back(world, g, x, s.dims, dims);
            lemma_applied(plus, times, val);
            vstd::arithmetic::div_mod::lemma_div_by_self(gn);
            assert(d.out_per_group == 1 && d.per_group == 1);
            assert(d.c_out() == cn);
            assert(d.width() == kn);
            assert(halves_down(128)) by {
                reveal_with_fuel(halves_down, 9);
            }
            assert forall|k: int| 0 <= k < kn implies #[trigger] gw[at2(co, kn, k)] == tree(
                plus,
                Seq::new(
                    128,
                    |tid: int|
                        tap_sums(
                            plus,
                            times,
                            zero,
                            go,
                            xs,
                            s.dims,
                            s.dims.batch as int,
                            co,
                            k,
                            tid,
                            128,
                        ),
                ),
            ) by {}
            self.lemma_own_weights(val, go, gw, xs, ws, s.dims, d, co, 128);
        } else {
            let col = columns_val(x, s.dims)->Ok_0;
            self.lemma_weights_back(world, g, col, s, dims);
            self.lemma_columns_data(world, x, s);
            let (cn, kn) = (s.c_out as int, s.dims.k_size as int);
            assert(cn * (pn * kn) == cn * d.width());
            let cv = self.nums(world, col);
            assert(columns_of(zero, xs, d, cv)) by {
                assert forall|i: int| 0 <= i < d.rows() * (d.dims.c_in * d.dims.k_size) implies
                    #[trigger] cv[i] == (match column_from(d.dims, i) {
                    Some(p) => xs[p],
                    None => zero,
                }) by {}
            }
            law_grouped_weight_gradients_are_adjoint(
                plus,
                times,
                val,
                zero,
                xs,
                ws,
                go,
                cv,
                gw,
                d,
                co,
            );
        }
    }

    /// What the rule hands a node that had no gradient.
    #[verifier::rlimit(60)]
    #[verifier::spinoff_prover]
    proof fn lemma_conv_balance(
        self,
        val: spec_fn(T) -> int,
        world: World<T>,
        g: Val,
        xn: Option<NodeId>,
        wn: Option<NodeId>,
        bn: Option<NodeId>,
        x: Val,
        w: Val,
        s: ConvSpec,
        st: GradView,
        q: u64,
        other: Seq<T>,
        b: int,
        grp: int,
        co: int,
    )
        requires
            self.reads_as(val),
            self.filled(world, g),
            x.dims == seq![s.dims.batch, s.dims.c_in, s.dims.t_in],
            w.dims == seq![s.c_out, s.per_group, s.dims.k_size],
            s.dims.stride >= 1,
            !st.nodes.contains_key(q),
            conv_grad(g, xn, wn, bn, x, w, s, st) is Ok,
            s.grouped(),
            !s.depthwise() ==> s.fits(),
            g.dims == seq![s.dims.batch, s.c_out, s.dims.t_out],
            span(g.dims) <= usize::MAX,
            0 <= b < s.dims.batch,
            0 <= grp < s.groups,
            0 <= co < s.c_out,
        ensures
            ({
                let d = grad_dims(s.dims, s.c_out, s.groups);
                let e = conv_grad(g, xn, wn, bn, x, w, s, st)->Ok_0;
                let is_x = xn is Some && node_key(xn->0) == q;
                let is_w = wn is Some && node_key(wn->0) == q;
                let is_b = bn is Some && node_key(bn->0) == q;
                let y = e.nodes[q];
                &&& e.params == st.params
                &&& !is_x && !is_w && !is_b ==> !e.nodes.contains_key(q)
                &&& is_x && !is_w && !is_b ==> y.dims == x.dims && self.filled(world, y)
                    && self.input_balance(
                    val,
                    self.nums(world, g),
                    self.nums(world, y),
                    other,
                    self.nums(world, w),
                    d,
                    b,
                    grp,
                )
                &&& is_w && !is_x && !is_b ==> y.dims == w.dims && self.filled(world, y)
                    && self.weight_balance(
                    val,
                    self.nums(world, g),
                    self.nums(world, y),
                    self.nums(world, x),
                    other,
                    d,
                    co,
                )
                &&& is_b && !is_x && !is_w ==> y.dims == seq![s.c_out] && self.filled(world, y)
                    && val(self.nums(world, y)[co]) == self.channel_sum(val, world, g, s, co)
            }),
    {
        lemma_hands(g, xn, wn, bn, x, w, s, st, q);
        let is_x = xn is Some && node_key(xn->0) == q;
        let is_w = wn is Some && node_key(wn->0) == q;
        let is_b = bn is Some && node_key(bn->0) == q;
        if is_x && !is_w && !is_b {
            self.lemma_input_part(val, world, g, w, s, x.dims, other, b, grp);
        } else if is_w && !is_x && !is_b {
            self.lemma_weight_part(val, world, g, x, s, w.dims, other, co);
        } else if is_b && !is_x && !is_w {
            if s.depthwise() {
                self.lemma_depthwise_bias_back(val, world, g, s, co);
            } else {
                self.lemma_bias_back(val, world, g, s, co);
                lemma_low_rank(seq![s.c_out]);
            }
        }
    }

    /// The gradients of a convolution, read as integers, where its input, its
    /// weights and its bias are nodes of their own that have no gradient yet.
    /// Each is handed a gradient of its shape. Whatever input `xs` is put in
    /// the input's place, weighting the output by its gradient gives what
    /// weighting `xs` by the input's gradient gives, batch entry by batch entry
    /// and group by group; the same holds of the weights, output channel by
    /// output channel; and the bias is handed the sum of its channel's
    /// gradients.
    #[verifier::rlimit(60)]
    #[verifier::spinoff_prover]
    pub proof fn law_conv1d_gradients_balance(
        self,
        val: spec_fn(T) -> int,
        world: World<T>,
        op: TapeOp,
        g: Val,
        st: GradView,
        q: u64,
        other: Seq<T>,
        b: int,
        grp: int,
        co: int,
    )
        requires
            self.reads_as(val),
            op is Conv1d,
            self.filled(world, g),
            op->Conv1d_x_val.dims().len() == 3,
            op->Conv1d_w_val.dims().len() == 3,
            op->Conv1d_stride >= 1,
            !st.nodes.contains_key(q),
            vjp(op, g, st) is Ok,
            ({
                let s = conv_of(
                    op->Conv1d_x_val.dims(),
                    op->Conv1d_w_val.dims(),
                    g.dims,
                    op->Conv1d_stride,
                    op->Conv1d_padding,
                    op->Conv1d_groups,
                );
                &&& s.grouped()
                &&& !s.depthwise() ==> s.fits()
                &&& g.dims == seq![s.dims.batch, s.c_out, s.dims.t_out]
                &&& span(g.dims) <= usize::MAX
                &&& 0 <= b < s.dims.batch
                &&& 0 <= grp < s.groups
                &&& 0 <= co < s.c_out
            }),
        ensures
            ({
                let (x, w) = (saved(op->Conv1d_x_val), saved(op->Conv1d_w_val));
                let s = conv_of(
                    x.dims,
                    w.dims,
                    g.dims,
                    op->Conv1d_stride,
                    op->Conv1d_padding,
                    op->Conv1d_groups,
                );
                let d = grad_dims(s.dims, s.c_out, s.groups);
                let e = vjp(op, g, st)->Ok_0;
                let bias = match op->Conv1d_bias_node {
                    Some(n) => n,
                    None => None,
                };
                let is_x = op->Conv1d_x matches Some(n) && node_key(n) == q;
                let is_w = op->Conv1d_w matches Some(n) && node_key(n) == q;
                let is_b = bias matches Some(n) && node_key(n) == q;
                let y = e.nodes[q];
                &&& e.params == st.params
                &&& !is_x && !is_w && !is_b ==> !e.nodes.contains_key(q)
                &&& is_x && !is_w && !is_b ==> y.dims == x.dims && self.filled(world, y)
                    && self.input_balance(
                    val,
                    self.nums(world, g),
                    self.nums(world, y),
                    other,
                    self.nums(world, w),
                    d,
                    b,
                    grp,
                )
                &&& is_w && !is_x && !is_b ==> y.dims == w.dims && self.filled(world, y)
                    && self.weight_balance(
                    val,
                    self.nums(world, g),
                    self.nums(world, y),
                    self.nums(world, x),
                    other,
                    d,
                    co,
                )
                &&& is_b && !is_x && !is_w ==> y.dims == seq![s.c_out] && self.filled(world, y)
                    && val(self.nums(world, y)[co]) == self.channel_sum(val, world, g, s, co)
            }),
    {
        let (x, w) = (saved(op->Conv1d_x_val), saved(op->Conv1d_w_val));
        let s = conv_of(
            x.dims,
            w.dims,
            g.dims,
            op->Conv1d_stride,
            op->Conv1d_padding,
            op->Conv1d_groups,
        );
        let bias = match op->Conv1d_bias_node {
            Some(n) => n,
            None => None,
        };
        assert(x.dims =~= seq![s.dims.batch, s.dims.c_in, s.dims.t_in]);
        assert(w.dims =~= seq![s.c_out, s.per_group, s.dims.k_size]);
        self.lemma_conv_balance(
            val,
            world,
            g,
            op->Conv1d_x,
            op->Conv1d_w,
            bias,
            x,
            w,
            s,
            st,
            q,
            other,
            b,
            grp,
            co,
        );
    }
}

} // verus!
