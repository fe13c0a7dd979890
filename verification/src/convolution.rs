//! What a convolution's tensor holds, read as integers through `val`: the sums
//! of products of weights and input steps, whichever path computes them.

use crate::adjoint::{lemma_sum_same, sum};
use crate::convolve::{
    columns_val, conv_dims, conv_val, group_config, group_term, group_terms, grouped_val, ConvSpec,
};
use crate::gemm::GemmConfig;
use crate::grouped::{
    columns_of, contributed, convolved, lemma_row, products, sums, tapped, weight,
};
use crate::host::{at2, at3, lemma_at2, lemma_at3};
use crate::hostconv::{gives, GradDims};
use crate::hosttask::grad_dims;
use crate::index::{
    column_from, lemma_at2_parts, lemma_parts_at2, lemma_parts_of_at3, lemma_row_bound,
};
use crate::lanes::{ap, depthwise_sum, reads};
use crate::meaning::{Datum, Machine, World};
use crate::program::{HostTaskView, Term, Val};
use crate::shape::{lemma_low_rank, span};
use vstd::prelude::*;

verus! {

/// Whether an operation has a value for every two operands.
pub open spec fn answers<T, F: Fn(T, T) -> T>(f: F) -> bool {
    forall|x: T, y: T| f.ensures((x, y), #[trigger] ap(f, x, y))
}

/// What applying an addition or a multiplication gives, read as integers.
pub(crate) proof fn lemma_applied<T, A: Fn(T, T) -> T, M: Fn(T, T) -> T>(
    plus: A,
    times: M,
    val: spec_fn(T) -> int,
)
    requires
        sums(plus, val),
        products(times, val),
        answers(plus),
        answers(times),
    ensures
        forall|x: T, y: T| val(#[trigger] ap(plus, x, y)) == val(x) + val(y),
        forall|x: T, y: T| val(#[trigger] ap(times, x, y)) == val(x) * val(y),
{
    assert forall|x: T, y: T| val(#[trigger] ap(plus, x, y)) == val(x) + val(y) by {
        assert(gives(plus, x, y, ap(plus, x, y)));
    }
    assert forall|x: T, y: T| val(#[trigger] ap(times, x, y)) == val(x) * val(y) by {
        assert(gives(times, x, y, ap(times, x, y)));
    }
}

/// The gradient's extents of a convolution are its own.
pub(crate) proof fn lemma_grad_dims(s: ConvSpec)
    requires
        s.grouped(),
    ensures
        ({
            let d = grad_dims(s.dims, s.c_out, s.groups);
            &&& d.per_group == s.per_group
            &&& d.out_per_group == s.out_per_group()
            &&& d.dims.c_in == d.groups * d.per_group
            &&& d.c_out() == s.c_out
            &&& d.width() == s.group_cols()
            &&& d.rows() == s.rows()
        }),
{
    let (n, g) = (s.per_group as int, s.groups as int);
    assert(n * g == g * n) by (nonlinear_arith);
    vstd::arithmetic::div_mod::lemma_div_multiples_vanish(n, g);
    vstd::arithmetic::div_mod::lemma_fundamental_div_mod(s.c_out as int, g);
    let m = s.out_per_group();
    assert(0 <= m <= s.c_out) by (nonlinear_arith)
        requires
            s.c_out == g * m,
            s.c_out >= 0,
            g >= 1,
    ;
}

/// A depthwise output step is the convolution of its channel.
pub(crate) proof fn lemma_depthwise_read<T, A: Fn(T, T) -> T, M: Fn(T, T) -> T>(
    plus: A,
    times: M,
    val: spec_fn(T) -> int,
    zero: T,
    x: Seq<T>,
    w: Seq<T>,
    d: GradDims,
    b: int,
    c: int,
    t: int,
    n: int,
)
    requires
        sums(plus, val),
        products(times, val),
        answers(plus),
        answers(times),
        val(zero) == 0,
        d.per_group == 1,
    ensures
        val(depthwise_sum(plus, times, zero, x, w, d.dims, b, c, t, n)) == sum(
            n,
            |k: int| weight(val, w, d, c, 0, k) * tapped(val, x, d, b, c, t, k),
        ),
    decreases n,
{
    if n > 0 {
        lemma_applied(plus, times, val);
        lemma_depthwise_read(plus, times, val, zero, x, w, d, b, c, t, n - 1);
        let k = d.dims.k_size as int;
        assert(c * (1 * k) + (0 * k + (n - 1)) == c * k + (n - 1)) by (nonlinear_arith);
        let wk = val(w[at2(c, k, n - 1)]);
        assert(weight(val, w, d, c, 0, n - 1) == wk);
        match reads(d.dims, t, n - 1) {
            Some(pos) => {
                let xv = val(x[at3(b, d.dims.c_in as int, c, d.dims.t_in as int, pos)]);
                assert(xv * wk == wk * xv) by (nonlinear_arith);
            },
            None => {
                assert(wk * 0 == 0);
            },
        }
    }
}

impl<
    T: Copy,
    A: Fn(T, T) -> T,
    M: Fn(T, T) -> T,
    S: Fn(T, T) -> T,
    E: Fn(T) -> T,
    N: Fn(T) -> T,
    I: Fn(T) -> T,
    L: Fn(T) -> T,
    G: Fn(T, T) -> bool,
    P: Fn(T, T) -> T,
    R: Fn(T) -> T,
    D: Fn(T) -> T,
> Machine<T, A, M, S, E, N, I, L, G, P, R, D> {
    /// Whether the device's sums and products are read as those of integers.
    pub open spec fn reads_as(self, val: spec_fn(T) -> int) -> bool {
        &&& sums(self.arith.plus, val)
        &&& products(self.arith.times, val)
        &&& answers(self.arith.plus)
        &&& answers(self.arith.times)
        &&& val(self.arith.zero) == 0
    }

    /// An element of a product of matrices is read as a sum of products.
    proof fn lemma_dot_read(
        self,
        val: spec_fn(T) -> int,
        g: GemmConfig,
        a: Seq<T>,
        b: Seq<T>,
        i: int,
        j: int,
        n: int,
    )
        requires
            self.reads_as(val),
        ensures
            val(self.dot(g, a, b, 0, 0, i, j, n)) == sum(
                n,
                |l: int| val(b[g.right_at(l, j)]) * val(a[g.left_at(i, l)]),
            ),
        decreases n,
    {
        lemma_applied(self.arith.plus, self.arith.times, val);
        if n > 0 {
            self.lemma_dot_read(val, g, a, b, i, j, n - 1);
            let (p, q) = (val(a[g.left_at(i, n - 1)]), val(b[g.right_at(n - 1, j)]));
            assert(p * q == q * p) by (nonlinear_arith);
        }
    }

    /// What one group gives for its channel `o` and row `r` of the columns.
    proof fn lemma_group_read(
        self,
        val: spec_fn(T) -> int,
        world: World<T>,
        col: Term,
        w: Term,
        s: ConvSpec,
        g: int,
        o: int,
        r: int,
    )
        requires
            self.reads_as(val),
            s.grouped(),
            s.fits(),
            s.rows() <= i32::MAX,
            s.group_cols() <= i32::MAX,
            s.out_per_group() <= i32::MAX,
            0 <= g < s.groups,
            0 <= o < s.out_per_group(),
            0 <= r < s.rows(),
            self.data(world, col) is Numbers,
            self.data(world, w) is Numbers,
            self.data(world, w).numbers().len() == s.c_out * s.group_cols(),
        ensures
            ({
                let y = self.data(world, group_term(col, w, s, g));
                &&& y is Numbers
                &&& val(y.numbers()[at2(o, s.rows(), r)]) == sum(
                    s.group_cols(),
                    |j: int|
                        val(
                            self.data(world, w).numbers()[at2(
                                at2(g, s.out_per_group(), o),
                                s.group_cols(),
                                j,
                            )],
                        ) * val(
                            self.data(world, col).numbers()[at2(
                                r,
                                s.cols(),
                                g * s.group_cols() + j,
                            )],
                        ),
                )
            }),
    {
        let cv = self.data(world, col).numbers();
        let wv = self.data(world, w).numbers();
        let (m, k, rows) = (s.out_per_group(), s.group_cols(), s.rows());
        lemma_grad_dims(s);
        let gs = s.groups as int;
        assert(k >= 0 && rows >= 0) by (nonlinear_arith)
            requires
                k == s.per_group * s.dims.k_size,
                rows == s.dims.batch * s.dims.t_out,
        ;
        assert(s.cols() == gs * k) by (nonlinear_arith)
            requires
                s.cols() == s.dims.c_in * s.dims.k_size,
                s.dims.c_in == s.per_group * s.groups,
                k == s.per_group * s.dims.k_size,
                gs == s.groups,
        ;
        assert(0 <= g * k && g * k + k <= gs * k) by (nonlinear_arith)
            requires
                0 <= g < gs,
                k >= 0,
        ;
        assert(0 <= g * m * k && g * m * k + m * k <= s.c_out * k && 0 <= m * k)
            by (nonlinear_arith)
            requires
                0 <= g < gs,
                s.c_out == gs * m,
                m >= 0,
                k >= 0,
        ;
        assert(0 <= m * rows <= s.c_out * rows) by (nonlinear_arith)
            requires
                s.c_out == gs * m,
                gs >= 1,
                m >= 0,
                rows >= 0,
        ;
        let cols_task = HostTaskView::TakeColumns {
            rows: rows as usize,
            cols: s.cols() as usize,
            from: (g * k) as usize,
            width: k as usize,
        };
        let range_task = HostTaskView::TakeRange {
            from: (g * m * k) as usize,
            len: (m * k) as usize,
        };
        let a = self.computed(cols_task, seq![cv]);
        let b = self.computed(range_task, seq![wv]);
        self.lemma_columns_taken(
            cv,
            rows as usize,
            s.cols() as usize,
            (g * k) as usize,
            k as usize,
        );
        self.lemma_range_taken(wv, (g * m * k) as usize, (m * k) as usize);
        self.lemma_one_input(world, cols_task, col);
        self.lemma_one_input(world, range_task, w);
        let onto = Term::Zeros((m * rows) as nat);
        let t = group_term(col, w, s, g);
        let config = group_config(m as usize, rows as usize, k as usize);
        assert(t == (Term::Product {
            gemm: config,
            batching: None,
            a: Box::new(Term::Host { task: cols_task, inputs: seq![col] }),
            b: Box::new(Term::Host { task: range_task, inputs: seq![w] }),
            onto: Box::new(onto),
        }));
        let zeros = self.data(world, onto).numbers();
        let y = self.product(config, None, a, b, zeros);
        assert(self.data(world, t) == Datum::Numbers(y));
        let at = at2(o, rows, r);
        lemma_at2(o, rows, r, m);
        lemma_at2_parts(o, rows, r);
        assert(y[at] == self.dot(config, a, b, 0, 0, r, o, k));
        self.lemma_dot_read(val, config, a, b, r, o, k);
        let found = |l: int| val(b[config.right_at(l, o)]) * val(a[config.left_at(r, l)]);
        let stated = |j: int|
            val(wv[at2(at2(g, m, o), k, j)]) * val(cv[at2(r, s.cols(), g * k + j)]);
        assert forall|l: int| 0 <= l < k implies #[trigger] found(l) == stated(l) by {
            assert(config.left_at(r, l) == at2(r, k, l));
            assert(config.right_at(l, o) == at2(o, k, l));
            lemma_at2(o, k, l, m);
            assert(g * m * k + (o * k + l) == (g * m + o) * k + l) by (nonlinear_arith);
            assert(a[at2(r, k, l)] == cv[at2(r, s.cols(), g * k + l)]);
        }
        lemma_sum_same(k, found, stated);
    }

    /// What the convolution group by group gives, without a bias.
    proof fn lemma_grouped_read(
        self,
        val: spec_fn(T) -> int,
        world: World<T>,
        x: Val,
        w: Val,
        s: ConvSpec,
        b: int,
        co: int,
        t: int,
    )
        requires
            self.reads_as(val),
            s.grouped(),
            s.fits(),
            s.rows() <= i32::MAX,
            s.group_cols() <= i32::MAX,
            s.out_per_group() <= i32::MAX,
            w.dims == seq![s.c_out, s.per_group, s.dims.k_size],
            self.data(world, x.term) is Numbers,
            self.filled(world, w),
            grouped_val(x, w, None, s) is Ok,
            0 <= b < s.dims.batch,
            0 <= co < s.c_out,
            0 <= t < s.dims.t_out,
        ensures
            ({
                let y = self.data(world, grouped_val(x, w, None, s)->Ok_0.term);
                &&& y is Numbers
                &&& y.numbers().len() == s.dims.batch * s.c_out * s.dims.t_out
                &&& val(y.numbers()[at3(b, s.c_out as int, co, s.dims.t_out as int, t)])
                    == convolved(
                    val,
                    self.data(world, x.term).numbers(),
                    self.data(world, w.term).numbers(),
                    grad_dims(s.dims, s.c_out, s.groups),
                    b,
                    co,
                    t,
                )
            }),
    {
        let d = grad_dims(s.dims, s.c_out, s.groups);
        lemma_grad_dims(s);
        let (bn, tn, cn) = (s.dims.batch as int, s.dims.t_out as int, s.c_out as int);
        let (m, rows) = (s.out_per_group(), s.rows());
        lemma_row_bound(co, s.groups as int, m);
        let xv = self.data(world, x.term).numbers();
        let wv = self.data(world, w.term).numbers();
        lemma_low_rank(w.dims);
        let z = grouped_val(x, w, None, s)->Ok_0;
        let col = columns_val(x, s.dims)->Ok_0;
        self.lemma_columns_data(world, x, s);
        let cv = self.data(world, col.term).numbers();
        assert(columns_of(self.arith.zero, xv, d, cv)) by {
            assert forall|i: int| 0 <= i < d.rows() * (d.dims.c_in * d.dims.k_size) implies
                #[trigger] cv[i] == (match column_from(d.dims, i) {
                Some(p) => xv[p],
                None => self.arith.zero,
            }) by {}
        }
        let terms = group_terms(col.term, w.term, s);
        let ins = self.all_data(world, terms);
        self.lemma_all_data(world, terms);
        let outs = Seq::new(ins.len(), |g: int| ins[g].numbers());
        let task = HostTaskView::AssembleGroups {
            batch: s.dims.batch,
            per_group: m as usize,
            t_out: s.dims.t_out,
        };
        let r = self.computed(task, outs);
        self.lemma_assembled(outs, s.dims.batch, m as usize, s.dims.t_out);
        assert(self.data(world, z.term) == Datum::Numbers(r));
        assert(outs.len() * (m as usize) == cn);
        let g = co / m;
        let o = co % m;
        lemma_parts_at2(co, m);
        let row = at2(b, tn, t);
        lemma_at2(b, tn, t, bn);
        lemma_at3(b, cn, co, tn, t, bn);
        assert(r[at3(b, cn, co, tn, t)] == outs[g][at3(o, bn, b, tn, t)]);
        assert(at3(o, bn, b, tn, t) == at2(o, rows, row)) by (nonlinear_arith)
            requires
                at3(o, bn, b, tn, t) == (o * bn + b) * tn + t,
                at2(o, rows, row) == o * rows + row,
                row == b * tn + t,
                rows == bn * tn,
        ;
        assert(terms[g] == group_term(col.term, w.term, s, g));
        self.lemma_group_read(val, world, col.term, w.term, s, g, o, row);
        lemma_row(val, self.arith.zero, xv, wv, cv, d, co, b, t);
        let k = s.group_cols();
        lemma_sum_same(
            k,
            |j: int| val(wv[at2(at2(g, m, o), k, j)]) * val(cv[at2(row, s.cols(), g * k + j)]),
            |j: int|
                val(wv[at2(co, d.width(), j)]) * val(
                    cv[at2(
                        row,
                        d.dims.c_in * d.dims.k_size,
                        co / d.out_per_group as int * d.width() + j,
                    )],
                ),
        );
    }

    /// What adding a bias on the host gives.
    proof fn lemma_bias_read(
        self,
        val: spec_fn(T) -> int,
        y: Seq<T>,
        bias: Seq<T>,
        batch: usize,
        c_out: usize,
        t_out: usize,
        b: int,
        co: int,
        t: int,
    )
        requires
            self.reads_as(val),
            y.len() == batch * c_out * t_out,
            bias.len() == c_out,
            0 <= b < batch,
            0 <= co < c_out,
            0 <= t < t_out,
        ensures
            ({
                let task = HostTaskView::AddBias { batch, c_out, t_out };
                let at = at3(b, c_out as int, co, t_out as int, t);
                val(self.computed(task, seq![y, bias])[at]) == val(y[at]) + val(bias[co])
            }),
    {
        let task = HostTaskView::AddBias { batch, c_out, t_out };
        let tn = t_out as int;
        let (ins, plus) = (seq![y, bias], self.arith.plus);
        let made = Seq::new(
            y.len(),
            |i: int| ap(plus, y[i], bias[(i / tn) % bias.len() as int]),
        );
        assert(task.gives(
            ins,
            self.arith.zero,
            plus,
            self.arith.minus,
            self.arith.times,
            made,
        ));
        let r = self.computed(task, ins);
        let at = at3(b, c_out as int, co, tn, t);
        lemma_at3(b, c_out as int, co, tn, t, batch as int);
        lemma_parts_of_at3(b, c_out as int, co, tn, t);
        assert(plus.ensures((y[at], bias[co]), r[at]));
        assert(gives(plus, y[at], bias[co], r[at]));
    }

    /// A convolution's tensor holds, for every batch entry, output channel and
    /// step, the sum over the channels of the group and the taps of weight
    /// times input, plus the channel's bias if there is one.
    pub proof fn law_convolution_tensor_holds_the_convolution(
        self,
        val: spec_fn(T) -> int,
        world: World<T>,
        x: Val,
        w: Val,
        bias: Option<Val>,
        s: ConvSpec,
        b: int,
        co: int,
        t: int,
    )
        requires
            self.reads_as(val),
            s.grouped(),
            s.depthwise() ==> span(conv_dims(s)) <= usize::MAX,
            !s.depthwise() ==> s.fits() && s.rows() <= i32::MAX && s.group_cols() <= i32::MAX
                && s.out_per_group() <= i32::MAX,
            w.dims == seq![s.c_out, s.per_group, s.dims.k_size],
            self.data(world, x.term) is Numbers,
            self.filled(world, w),
            bias matches Some(v) ==> self.filled(world, v),
            conv_val(x, w, bias, s) is Ok,
            0 <= b < s.dims.batch,
            0 <= co < s.c_out,
            0 <= t < s.dims.t_out,
        ensures
            ({
                let y = self.data(world, conv_val(x, w, bias, s)->Ok_0.term);
                &&& y is Numbers
                &&& val(y.numbers()[at3(b, s.c_out as int, co, s.dims.t_out as int, t)])
                    == convolved(
                    val,
                    self.data(world, x.term).numbers(),
                    self.data(world, w.term).numbers(),
                    grad_dims(s.dims, s.c_out, s.groups),
                    b,
                    co,
                    t,
                ) + (match bias {
                    Some(v) => val(self.data(world, v.term).numbers()[co]),
                    None => 0,
                })
            }),
    {
        let d = grad_dims(s.dims, s.c_out, s.groups);
        lemma_grad_dims(s);
        let (bn, tn, cn) = (s.dims.batch as int, s.dims.t_out as int, s.c_out as int);
        let xv = self.data(world, x.term).numbers();
        let wv = self.data(world, w.term).numbers();
        let at = at3(b, cn, co, tn, t);
        lemma_at3(b, cn, co, tn, t, bn);
        lemma_parts_of_at3(b, cn, co, tn, t);
        if s.depthwise() {
            lemma_low_rank(conv_dims(s));
            assert(bn * (cn * tn) == bn * cn * tn) by (nonlinear_arith);
            self.lemma_depthwise_data(world, x, w, bias, s, at);
            let (plus, times, zero) = (self.arith.plus, self.arith.times, self.arith.zero);
            let kn = d.dims.k_size as int;
            lemma_applied(plus, times, val);
            lemma_depthwise_read(plus, times, val, zero, xv, wv, d, b, co, t, kn);
            vstd::arithmetic::div_mod::lemma_div_by_self(cn);
            assert(co / 1 == co && at2(co, 1, 0) == co);
            let one = |i: int| contributed(val, xv, wv, d, b, co, i, t);
            assert(sum(1, one) == sum(0, one) + one(0));
        } else {
            self.lemma_grouped_read(val, world, x, w, s, b, co, t);
            if let Some(v) = bias {
                let y = grouped_val(x, w, None, s)->Ok_0.term;
                let yv = self.data(world, y).numbers();
                let bv = self.data(world, v.term).numbers();
                self.lemma_bias_read(val, yv, bv, s.dims.batch, s.c_out, s.dims.t_out, b, co, t);
                let ts = seq![y, v.term];
                let ins = self.all_data(world, ts);
                self.lemma_all_data(world, ts);
                assert(Seq::new(ins.len(), |k: int| ins[k].numbers()) =~= seq![yv, bv]);
            }
        }
    }
}

} // verus!
