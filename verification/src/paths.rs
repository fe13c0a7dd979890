//! The two ways to convolve, by the depthwise kernel and group by group, give
//! the same numbers where both apply.

use crate::conv::depthwise_lens;
use crate::convolve::{
    columns_val, conv_dims, depthwise_val, group_config, group_term, group_terms, grouped_val,
    ConvSpec,
};
use crate::host::{at2, at3, lemma_at2, lemma_at3};
use crate::index::{
    column_from, law_columns_hold_what_the_taps_read, lemma_at2_parts, lemma_axis_parts,
    lemma_parts_of_at3,
};
use crate::lanes::{depthwise_sum, reads};
use crate::launch::lemma_first_long;
use crate::meaning::{conv_words, Datum, Machine, World};
use crate::program::{HostTaskView, Term, Val};
use crate::shape::{lemma_low_rank, numel, span};
use vstd::prelude::*;

verus! {

impl<
    T: Copy,
    A: Fn(T, T) -> T,
    M: Fn(T, T) -> T,
    S: Fn(T, T) -> T,
    E: Fn(T) -> T,
    N: Fn(T) -> T,
    I: Fn(T) -> T,
    L: Fn(T) -> T,
    G: Fn(T, T) -> bool,
    P: Fn(T, T) -> T,
    R: Fn(T) -> T,
    D: Fn(T) -> T,
> Machine<T, A, M, S, E, N, I, L, G, P, R, D> {
    /// Whether `r` is what a step on the host makes of `ins`.
    pub open spec fn made_of(self, task: HostTaskView, ins: Seq<Seq<T>>, r: Seq<T>) -> bool {
        task.gives(
            ins,
            self.arith.zero,
            self.arith.plus,
            self.arith.minus,
            self.arith.times,
            r,
        )
    }

    pub(crate) proof fn lemma_columns_taken(
        self,
        x: Seq<T>,
        rows: usize,
        cols: usize,
        from: usize,
        width: usize,
    )
        ensures
            self.made_of(
                HostTaskView::TakeColumns { rows, cols, from, width },
                seq![x],
                self.computed(HostTaskView::TakeColumns { rows, cols, from, width }, seq![x]),
            ),
    {
        let task = HostTaskView::TakeColumns { rows, cols, from, width };
        let w = width as int;
        let r = Seq::new(
            (rows * width) as nat,
            |i: int| x[at2(i / w, cols as int, from + i % w)],
        );
        assert(rows * width >= 0) by (nonlinear_arith);
        assert(self.made_of(task, seq![x], r)) by {
            assert forall|i: int, j: int| 0 <= i < rows && 0 <= j < width implies r[
            #[trigger] at2(i, w, j)] == x[at2(i, cols as int, from + j)] by {
                lemma_at2_parts(i, w, j);
                lemma_at2(i, w, j, rows as int);
                assert(0 <= i * w) by (nonlinear_arith)
                    requires
                        i >= 0,
                        w >= 0,
                ;
            }
        }
        assert(task.gives(
            seq![x],
            self.arith.zero,
            self.arith.plus,
            self.arith.minus,
            self.arith.times,
            r,
        ));
    }

    pub(crate) proof fn lemma_range_taken(self, x: Seq<T>, from: usize, len: usize)
        ensures
            self.computed(HostTaskView::TakeRange { from, len }, seq![x]) == x.subrange(
                from as int,
                from + len,
            ),
    {
        let task = HostTaskView::TakeRange { from, len };
        let r = x.subrange(from as int, from + len);
        assert(task.gives(
            seq![x],
            self.arith.zero,
            self.arith.plus,
            self.arith.minus,
            self.arith.times,
            r,
        ));
    }

    pub(crate) proof fn lemma_assembled(self, ins: Seq<Seq<T>>, batch: usize, per_group: usize, t_out: usize)
        requires
            per_group > 0,
        ensures
            self.made_of(
                HostTaskView::AssembleGroups { batch, per_group, t_out },
                ins,
                self.computed(HostTaskView::AssembleGroups { batch, per_group, t_out }, ins),
            ),
    {
        let task = HostTaskView::AssembleGroups { batch, per_group, t_out };
        let m = per_group as int;
        let n = ins.len() * per_group;
        let w = t_out as int;
        let r = Seq::new(
            (batch * n * t_out) as nat,
            |i: int|
                {
                    let c = (i / w) % n;
                    ins[c / m][at3(c % m, batch as int, (i / w) / n, w, i % w)]
                },
        );
        assert(n >= 0) by (nonlinear_arith)
            requires
                n == ins.len() * per_group,
        ;
        assert(batch * n * t_out >= 0) by (nonlinear_arith)
            requires
                n >= 0,
        ;
        assert(self.made_of(task, ins, r)) by {
            assert forall|b: int, c: int, t: int|
                0 <= b < batch && 0 <= c < n && 0 <= t < t_out implies r[#[trigger] at3(
                b,
                n,
                c,
                w,
                t,
            )] == ins[c / m][at3(c % m, batch as int, b, w, t)] by {
                lemma_parts_of_at3(b, n, c, w, t);
                lemma_at3(b, n, c, w, t, batch as int);
            }
        }
        assert(task.gives(
            ins,
            self.arith.zero,
            self.arith.plus,
            self.arith.minus,
            self.arith.times,
            r,
        ));
    }

    /// The sum over the first `n` taps of channel `g`: row `x` of the columns
    /// times the channel's weights.
    spec fn tap_dot(self, cols: Seq<T>, w: Seq<T>, s: ConvSpec, g: int, x: int, n: int) -> T
        decreases n,
    {
        if n <= 0 {
            self.arith.zero
        } else {
            self.arith.sum(
                self.tap_dot(cols, w, s, g, x, n - 1),
                self.arith.prod(
                    cols[at2(x, s.cols(), at2(g, s.dims.k_size as int, n - 1))],
                    w[at2(g, s.dims.k_size as int, n - 1)],
                ),
            )
        }
    }

    /// The product of one group reads the group's columns and weights.
    proof fn lemma_group_dot(
        self,
        cols: Seq<T>,
        w: Seq<T>,
        a: Seq<T>,
        b: Seq<T>,
        s: ConvSpec,
        g: int,
        x: int,
        n: int,
    )
        requires
            0 <= x < s.rows(),
            0 <= g,
            n <= s.dims.k_size <= i32::MAX,
            s.rows() <= i32::MAX,
            forall|i: int, l: int|
                0 <= i < s.rows() && 0 <= l < s.dims.k_size ==> a[#[trigger] at2(
                    i,
                    s.dims.k_size as int,
                    l,
                )] == cols[at2(i, s.cols(), g * s.dims.k_size + l)],
            forall|l: int|
                0 <= l < s.dims.k_size ==> #[trigger] b[l] == w[at2(g, s.dims.k_size as int, l)],
        ensures
            self.dot(group_config(1, s.rows() as usize, s.dims.k_size), a, b, 0, 0, x, 0, n)
                == self.tap_dot(cols, w, s, g, x, n),
        decreases n,
    {
        if n > 0 {
            self.lemma_group_dot(cols, w, a, b, s, g, x, n - 1);
            let c = group_config(1, s.rows() as usize, s.dims.k_size);
            let k = s.dims.k_size as int;
            assert(c.left_at(x, n - 1) == at2(x, k, n - 1));
            assert(c.right_at(n - 1, 0) == n - 1) by (nonlinear_arith)
                requires
                    c.right_at(n - 1, 0) == 0 * k + (n - 1),
            ;
            assert(b[n - 1] == w[at2(g, k, n - 1)]);
        }
    }

    /// What one group of a depthwise convolution gives.
    proof fn lemma_group_data(self, world: World<T>, col: Term, w: Term, s: ConvSpec, g: int)
        requires
            s.depthwise(),
            s.grouped(),
            s.fits(),
            s.rows() <= i32::MAX,
            0 <= g < s.groups,
            self.data(world, col) is Numbers,
            self.data(world, w) is Numbers,
            self.data(world, w).numbers().len() == s.cols(),
        ensures
            self.data(world, group_term(col, w, s, g)) == Datum::Numbers(
                Seq::new(
                    s.rows() as nat,
                    |x: int|
                        self.tap_dot(
                            self.data(world, col).numbers(),
                            self.data(world, w).numbers(),
                            s,
                            g,
                            x,
                            s.dims.k_size as int,
                        ),
                ),
            ),
    {
        let cv = self.data(world, col).numbers();
        let wv = self.data(world, w).numbers();
        let k = s.dims.k_size as int;
        let rows = s.rows();
        let c = s.dims.c_in as int;
        vstd::arithmetic::div_mod::lemma_div_by_self(c);
        assert(s.out_per_group() == 1);
        assert(s.group_cols() == k && rows >= 0 && 1 * k == k && 1 * rows == rows) by (nonlinear_arith)
            requires
                s.group_cols() == 1 * k,
                rows == s.dims.batch * s.dims.t_out,
        ;
        assert(0 <= g * k && g * k + k <= c * k && g * 1 * k == g * k && rows <= 1 * rows)
            by (nonlinear_arith)
            requires
                0 <= g < c,
                k >= 0,
        ;
        assert(rows <= s.c_out * rows) by (nonlinear_arith)
            requires
                s.c_out >= 1,
                rows >= 0,
        ;
        let cols_task = HostTaskView::TakeColumns {
            rows: rows as usize,
            cols: s.cols() as usize,
            from: (g * k) as usize,
            width: s.dims.k_size,
        };
        let range_task = HostTaskView::TakeRange { from: (g * k) as usize, len: s.dims.k_size };
        let a = self.computed(cols_task, seq![cv]);
        let b = self.computed(range_task, seq![wv]);
        self.lemma_columns_taken(
            cv,
            rows as usize,
            s.cols() as usize,
            (g * k) as usize,
            s.dims.k_size,
        );
        self.lemma_range_taken(wv, (g * k) as usize, s.dims.k_size);
        self.lemma_one_input(world, cols_task, col);
        self.lemma_one_input(world, range_task, w);
        let onto = Term::Zeros((s.out_per_group() * rows) as nat);
        let t = group_term(col, w, s, g);
        let config = group_config(1, rows as usize, s.dims.k_size);
        assert(t == (Term::Product {
            gemm: config,
            batching: None,
            a: Box::new(Term::Host { task: cols_task, inputs: seq![col] }),
            b: Box::new(Term::Host { task: range_task, inputs: seq![w] }),
            onto: Box::new(onto),
        }));
        let zeros = self.data(world, onto).numbers();
        assert(zeros.len() == rows);
        let r = self.product(config, None, a, b, zeros);
        assert(self.data(world, t) == Datum::Numbers(r));
        assert(r =~= Seq::new(rows as nat, |x: int| self.tap_dot(cv, wv, s, g, x, k))) by {
            assert forall|x: int| 0 <= x < rows implies r[x] == self.tap_dot(
                cv,
                wv,
                s,
                g,
                x,
                k,
            ) by {
                vstd::arithmetic::div_mod::lemma_small_mod(x as nat, rows as nat);
                vstd::arithmetic::div_mod::lemma_basic_div(x, rows);
                self.lemma_group_dot(cv, wv, a, b, s, g, x, k);
            }
        }
    }

    /// What a step on the host gives that has one input.
    pub(crate) proof fn lemma_one_input(self, world: World<T>, task: HostTaskView, t: Term)
        requires
            task !is SwapIndexAxes,
        ensures
            self.data(world, Term::Host { task, inputs: seq![t] }) == Datum::Numbers(
                self.computed(task, seq![self.data(world, t).numbers()]),
            ),
    {
        let ins = self.all_data(world, seq![t]);
        self.lemma_all_data(world, seq![t]);
        assert(Seq::new(ins.len(), |k: int| ins[k].numbers()) =~= seq![
            self.data(world, t).numbers(),
        ]);
    }

    /// The columns times the weights are the taps times the weights: what lies
    /// in the padding adds nothing.
    proof fn lemma_taps(
        self,
        x: Seq<T>,
        w: Seq<T>,
        cols: Seq<T>,
        s: ConvSpec,
        b: int,
        c: int,
        t: int,
        n: int,
    )
        requires
            self.arith.exact(),
            0 <= b < s.dims.batch,
            0 <= c < s.dims.c_in,
            0 <= t < s.dims.t_out,
            n <= s.dims.k_size,
            cols == self.looked_up(
                (s.rows() * s.cols()) as nat,
                x,
                |i: int| column_from(s.dims, i),
            ),
        ensures
            self.tap_dot(cols, w, s, c, at2(b, s.dims.t_out as int, t), n) == depthwise_sum(
                self.arith.plus,
                self.arith.times,
                self.arith.zero,
                x,
                w,
                s.dims,
                b,
                c,
                t,
                n,
            ),
        decreases n,
    {
        if n > 0 {
            self.lemma_taps(x, w, cols, s, b, c, t, n - 1);
            let d = s.dims;
            let k = d.k_size as int;
            let row = at2(b, d.t_out as int, t);
            let e = at2(c, k, n - 1);
            let at = at2(row, s.cols(), e);
            law_columns_hold_what_the_taps_read(d, b, t, c, n - 1);
            lemma_at2(b, d.t_out as int, t, d.batch as int);
            lemma_at2(c, k, n - 1, d.c_in as int);
            lemma_at2(row, s.cols(), e, s.rows());
            assert(0 <= row && 0 <= e && 0 <= at) by (nonlinear_arith)
                requires
                    row == b * d.t_out + t,
                    e == c * k + (n - 1),
                    at == row * s.cols() + e,
                    s.cols() == d.c_in * k,
                    b >= 0,
                    t >= 0,
                    c >= 0,
                    n >= 1,
                    k >= 0,
            ;
            let weight = w[e];
            if reads(d, t, n - 1) is None {
                assert(cols[at] == self.arith.zero);
                self.arith.lemma_nothing(weight);
                self.arith.lemma_neutral(self.tap_dot(cols, w, s, c, row, n - 1));
            } else {
                assert(cols[at] == x[at3(
                    b,
                    d.c_in as int,
                    c,
                    d.t_in as int,
                    t * d.stride + (n - 1) - d.padding,
                )]);
            }
        }
    }

    /// What the depthwise kernel leaves.
    pub(crate) proof fn lemma_depthwise_data(
        self,
        world: World<T>,
        x: Val,
        w: Val,
        bias: Option<Val>,
        s: ConvSpec,
        i: int,
    )
        requires
            span(conv_dims(s)) <= usize::MAX,
            depthwise_val(x, w, bias, s) is Ok,
            0 <= i < numel(conv_dims(s)),
        ensures
            ({
                let y = depthwise_val(x, w, bias, s)->Ok_0;
                let d = s.dims;
                let r = self.data(world, y.term);
                let c = (i / d.t_out as int) % d.c_in as int;
                let sum = depthwise_sum(
                    self.arith.plus,
                    self.arith.times,
                    self.arith.zero,
                    self.data(world, x.term).numbers(),
                    self.data(world, w.term).numbers(),
                    d,
                    (i / d.t_out as int) / d.c_in as int,
                    c,
                    i % d.t_out as int,
                    d.k_size as int,
                );
                &&& r is Numbers
                &&& r.numbers().len() == numel(conv_dims(s))
                &&& r.numbers()[i] == (match bias {
                    Some(v) => self.arith.sum(sum, self.data(world, v.term).numbers()[c]),
                    None => sum,
                })
            }),
    {
        let y = depthwise_val(x, w, bias, s)->Ok_0;
        let d = s.dims;
        lemma_first_long(depthwise_lens(d), 0);
        let lens = depthwise_lens(d);
        assert(lens[1] <= u32::MAX && lens[2] <= u32::MAX && lens[3] <= u32::MAX && lens[4]
            <= u32::MAX && lens[5] <= u32::MAX && lens[6] <= u32::MAX && lens[7] <= u32::MAX);
        if let Term::Run { kernel, config, args } = y.term {
            self.lemma_arguments(world, args);
            let a = self.arguments(world, args);
            assert(a[0] == self.data(world, x.term));
            assert(a[1] == self.data(world, w.term));
            assert(a[3] == self.data(world, Term::Zeros(numel(conv_dims(s)))));
            assert(a[4].word() == d.batch && a[5].word() == d.c_in && a[6].word() == d.t_in
                && a[7].word() == d.t_out && a[8].word() == d.k_size && a[9].word() == d.stride
                && a[10].word() == d.padding);
            assert(a[11].word() == 1 <==> bias is Some);
            if let Some(v) = bias {
                assert(a[2] == self.data(world, v.term));
            }
            assert(conv_words(a, 4) == d);
        }
    }

    /// What the unfolded input holds.
    pub(crate) proof fn lemma_columns_data(self, world: World<T>, x: Val, s: ConvSpec)
        requires
            s.fits(),
            columns_val(x, s.dims) is Ok,
        ensures
            self.data(world, columns_val(x, s.dims)->Ok_0.term) == Datum::Numbers(
                self.looked_up(
                    (s.rows() * s.cols()) as nat,
                    self.data(world, x.term).numbers(),
                    |i: int| column_from(s.dims, i),
                ),
            ),
    {
        let d = s.dims;
        let y = columns_val(x, d)->Ok_0;
        let n = d.columns();
        let k = d.k_size as int;
        assert(n == s.rows() * s.cols() && n >= 0) by (nonlinear_arith)
            requires
                n == d.batch * d.t_out * d.c_in * k,
                s.rows() == d.batch * d.t_out,
                s.cols() == d.c_in * k,
                k >= 0,
        ;
        lemma_first_long(d.lens(), 0);
        let lens = d.lens();
        assert(lens[1] <= u32::MAX && lens[2] <= u32::MAX && lens[3] <= u32::MAX && lens[4]
            <= u32::MAX && lens[5] <= u32::MAX && lens[6] <= u32::MAX && lens[7] <= u32::MAX);
        if let Term::Run { kernel, config, args } = y.term {
            self.lemma_arguments(world, args);
            let a = self.arguments(world, args);
            assert(a[0] == self.data(world, x.term));
            assert(a[1] == self.data(world, Term::Zeros(n as nat)));
            assert(a[2].word() == d.batch && a[3].word() == d.c_in && a[4].word() == d.t_in
                && a[5].word() == d.t_out && a[6].word() == d.k_size && a[7].word() == d.stride
                && a[8].word() == d.padding);
            assert(conv_words(a, 2) == d);
            assert(self.left_by(kernel, config, a) =~= self.looked_up(
                n as nat,
                self.data(world, x.term).numbers(),
                |i: int| column_from(d, i),
            ));
        }
    }

    /// Where the depthwise kernel applies, it computes the grouped convolution,
    /// in exact arithmetic.
    pub proof fn law_depthwise_kernel_computes_the_grouped_convolution(
        self,
        world: World<T>,
        x: Val,
        w: Val,
        s: ConvSpec,
    )
        requires
            self.arith.exact(),
            s.depthwise(),
            s.grouped(),
            s.fits(),
            s.rows() <= i32::MAX,
            span(conv_dims(s)) <= usize::MAX,
            w.dims == seq![s.c_out, s.per_group, s.dims.k_size],
            self.data(world, x.term) is Numbers,
            self.filled(world, w),
            depthwise_val(x, w, None, s) is Ok,
            grouped_val(x, w, None, s) is Ok,
        ensures
            ({
                let y = depthwise_val(x, w, None, s)->Ok_0;
                let z = grouped_val(x, w, None, s)->Ok_0;
                &&& y.dims == z.dims
                &&& self.data(world, y.term) == self.data(world, z.term)
            }),
    {
        let d = s.dims;
        let y = depthwise_val(x, w, None, s)->Ok_0;
        let z = grouped_val(x, w, None, s)->Ok_0;
        let xv = self.data(world, x.term).numbers();
        let wv = self.data(world, w.term).numbers();
        let c = d.c_in as int;
        let k = d.k_size as int;
        let steps = d.t_out as int;
        lemma_low_rank(w.dims);
        assert(wv.len() == s.cols()) by (nonlinear_arith)
            requires
                wv.len() == c * (1 * k),
                s.cols() == c * k,
        ;
        let col = columns_val(x, d)->Ok_0;
        self.lemma_columns_data(world, x, s);
        let cv = self.data(world, col.term).numbers();
        vstd::arithmetic::div_mod::lemma_div_by_self(c);
        let terms = group_terms(col.term, w.term, s);
        let ins = self.all_data(world, terms);
        self.lemma_all_data(world, terms);
        let outs = Seq::new(ins.len(), |g: int| ins[g].numbers());
        assert forall|g: int| 0 <= g < outs.len() implies #[trigger] outs[g] == Seq::new(
            s.rows() as nat,
            |r: int| self.tap_dot(cv, wv, s, g, r, k),
        ) by {
            assert(terms[g] == group_term(col.term, w.term, s, g));
            self.lemma_group_data(world, col.term, w.term, s, g);
        }
        let task = HostTaskView::AssembleGroups { batch: d.batch, per_group: 1, t_out: d.t_out };
        let r = self.computed(task, outs);
        self.lemma_assembled(outs, d.batch, 1, d.t_out);
        assert(self.data(world, z.term) == Datum::Numbers(r));
        lemma_low_rank(conv_dims(s));
        let n = numel(conv_dims(s)) as int;
        assert(outs.len() * 1 == c);
        assert(r.len() == d.batch * c * steps);
        assert(n == d.batch * c * steps) by (nonlinear_arith)
            requires
                n == d.batch * (c * steps),
        ;
        if n == 0 {
            self.lemma_depthwise_len(world, x, w, s);
        } else {
            self.lemma_depthwise_data(world, x, w, None, s, 0);
        }
        let q = self.data(world, y.term).numbers();
        assert(q =~= r) by {
            assert forall|i: int| 0 <= i < n implies q[i] == r[i] by {
                self.lemma_depthwise_data(world, x, w, None, s, i);
                lemma_axis_parts(i, d.batch as int, c, steps);
                let b = (i / steps) / c;
                let e = (i / steps) % c;
                let t = i % steps;
                assert(i == at3(b, c, e, steps, t));
                assert(r[at3(b, outs.len() * 1usize, e, steps, t)] == outs[e / 1][at3(
                    e % 1,
                    d.batch as int,
                    b,
                    steps,
                    t,
                )]);
                assert(at3(0, d.batch as int, b, steps, t) == at2(b, steps, t)) by (nonlinear_arith)
                    requires
                        at3(0, d.batch as int, b, steps, t) == (0 * d.batch + b) * steps + t,
                        at2(b, steps, t) == b * steps + t,
                ;
                lemma_at2(b, steps, t, d.batch as int);
                assert(0 <= b * steps) by (nonlinear_arith)
                    requires
                        b >= 0,
                        steps >= 0,
                ;
                self.lemma_taps(xv, wv, cv, s, b, e, t, k);
            }
        }
    }

    proof fn lemma_depthwise_len(self, world: World<T>, x: Val, w: Val, s: ConvSpec)
        requires
            depthwise_val(x, w, None, s) is Ok,
        ensures
            ({
                let r = self.data(world, depthwise_val(x, w, None, s)->Ok_0.term);
                r is Numbers && r.numbers().len() == numel(conv_dims(s))
            }),
    {
        let y = depthwise_val(x, w, None, s)->Ok_0;
        if let Term::Run { kernel, config, args } = y.term {
            self.lemma_arguments(world, args);
            let a = self.arguments(world, args);
            assert(a[3] == self.data(world, Term::Zeros(numel(conv_dims(s)))));
        }
    }
}

} // verus!
