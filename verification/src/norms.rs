//! What the gradients of rows scaled to unit mean square hold, and what the
//! largest of several numbers is.

use crate::host::{at2, at3};
use crate::index::{lemma_at2_parts, lemma_parts_at2};
use crate::kernels::MAX_RANK;
use crate::lanes::{ap, fiber, fold, halves_down, tree};
use crate::launch::{first_long, Kernel, Real};
use crate::meaning::{Machine, World};
use crate::norm::{block_dot, fold_dot, largest, matrix_row, strided_dot, weight_rows};
use crate::places::before;
use crate::program::{Term, TermArg, Val};
use crate::reduce::{row_chunks, ROWS_PER_CHUNK};
use crate::reductions::lemma_remainder;
use crate::rows::{rmsnorm_grad_w_val, rmsnorm_grad_x_val};
use crate::rules::{part, saved};
use crate::scan::{ap1, Arith};
use crate::shape::{
    in_range, lemma_numel_axis, lemma_position_bound, lemma_positive, numel, position, regular,
    tail,
};
use crate::sweeps::lemma_in_row;
use crate::tape::TapeOp;
use vstd::prelude::*;

verus! {

/// The largest of several numbers is one of them, and none of them is above it,
/// where `above` orders them: it is never both ways, and carries over.
pub proof fn law_nothing_is_above_the_largest<T, G: Fn(T, T) -> bool>(
    above: G,
    order: spec_fn(T, T) -> bool,
    m: T,
    xs: Seq<T>,
    i: int,
)
    requires
        forall|x: T, y: T| (choose|b: bool| above.ensures((x, y), b)) == #[trigger] order(x, y),
        forall|x: T, y: T| #[trigger] order(x, y) ==> !order(y, x),
        forall|x: T, y: T, z: T|
            #[trigger] order(x, y) && !(#[trigger] order(z, y)) ==> !order(z, x),
        0 <= i < xs.len(),
    ensures
        largest(above, m, xs) == m || xs.contains(largest(above, m, xs)),
        !order(m, largest(above, m, xs)),
        !order(xs[i], largest(above, m, xs)),
    decreases xs.len(),
{
    let ys = xs.drop_last();
    let r = largest(above, m, ys);
    let last = xs.last();
    assert(order(last, r) == (choose|b: bool| above.ensures((last, r), b)));
    if ys.len() > 0 {
        let j = if i < ys.len() {
            i
        } else {
            0
        };
        law_nothing_is_above_the_largest(above, order, m, ys, j);
        assert(ys[j] == xs[j]);
        if ys.contains(r) {
            let q = choose|q: int| 0 <= q < ys.len() && ys[q] == r;
            assert(xs[q] == r);
        }
        assert(order(xs[j], r) == order(xs[j], r));
    } else {
        assert(r == m);
    }
    assert(order(m, r) == order(m, r));
    assert(order(last, last) ==> !order(last, last));
    assert(order(m, m) ==> !order(m, m));
    assert(xs[xs.len() - 1] == last);
}

impl<T: Copy, A: Fn(T, T) -> T, M: Fn(T, T) -> T, S: Fn(T, T) -> T, E: Fn(T) -> T> Arith<
    T,
    A,
    M,
    S,
    E,
> {
    /// Summing by halves is summing.
    pub(crate) proof fn lemma_tree_tally(self, xs: Seq<T>)
        requires
            self.exact(),
            halves_down(xs.len()),
        ensures
            tree(self.plus, xs) == self.tally(xs.len() as int, |i: int| xs[i]),
        decreases xs.len(),
    {
        let n = xs.len() as int;
        let f = |i: int| xs[i];
        if n <= 1 {
            assert(self.tally(1, f) == self.sum(self.tally(0, f), f(0)));
            self.lemma_neutral(xs[0]);
        } else {
            let h = (xs.len() / 2) as nat;
            let ys = Seq::new(h, |i: int| ap(self.plus, xs[i], xs[i + h]));
            self.lemma_tree_tally(ys);
            let upper = |i: int| f(h + i);
            self.lemma_tally_add(h as int, f, upper);
            self.lemma_tally_same(
                h as int,
                |i: int| ys[i],
                |i: int| self.sum(f(i), upper(i)),
            );
            self.lemma_tally_split(h as int, h as int, f);
            self.lemma_tally_same(h as int, upper, |i: int| f(h + i));
        }
    }

    /// One term of a weighted sum of products.
    pub(crate) open spec fn term(self, xs: Seq<T>, ys: Seq<T>, ws: Option<Seq<T>>, i: int) -> T {
        match ws {
            Some(w) => self.prod(self.prod(xs[i], ys[i]), w[i]),
            None => self.prod(xs[i], ys[i]),
        }
    }

    proof fn lemma_strided_tally(
        self,
        acc: T,
        xs: Seq<T>,
        ys: Seq<T>,
        ws: Option<Seq<T>>,
        from: int,
        n: int,
    )
        requires
            self.exact(),
            0 < n,
            0 <= from,
        ensures
            strided_dot(self.plus, self.times, acc, xs, ys, ws, from, n) == self.sum(
                acc,
                self.tally(
                    xs.len() as int,
                    |i: int|
                        if i >= from && (i - from) % n == 0 {
                            self.term(xs, ys, ws, i)
                        } else {
                            self.zero
                        },
                ),
            ),
        decreases (if from < xs.len() {
                xs.len() - from
            } else {
                0
            }),
    {
        let len = xs.len() as int;
        let f = |i: int|
            if i >= from && (i - from) % n == 0 {
                self.term(xs, ys, ws, i)
            } else {
                self.zero
            };
        if from >= len {
            self.lemma_tally_nothing(len, f);
            self.lemma_neutral(acc);
        } else {
            let next = from + n;
            let one = self.term(xs, ys, ws, from);
            self.lemma_strided_tally(self.sum(acc, one), xs, ys, ws, next, n);
            let g = |i: int|
                if i >= next && (i - next) % n == 0 {
                    self.term(xs, ys, ws, i)
                } else {
                    self.zero
                };
            let h = |i: int|
                if i == from {
                    self.term(xs, ys, ws, i)
                } else {
                    self.zero
                };
            self.lemma_tally_one(len, h, from);
            self.lemma_tally_add(len, h, g);
            assert forall|i: int| 0 <= i < len implies #[trigger] f(i) == self.sum(h(i), g(i)) by {
                self.lemma_neutral(self.term(xs, ys, ws, i));
                self.lemma_neutral(self.zero);
                let e = i - from;
                vstd::arithmetic::div_mod::lemma_mod_sub_multiples_vanish(e, n);
                assert((i - next) % n == e % n);
                if 0 < e < n {
                    vstd::arithmetic::div_mod::lemma_small_mod(e as nat, n as nat);
                } else if e == 0 {
                    vstd::arithmetic::div_mod::lemma_small_mod(0, n as nat);
                }
            }
            self.lemma_tally_same(len, f, |i: int| self.sum(h(i), g(i)));
            self.lemma_regroup(acc, one, self.tally(len, g));
        }
    }

    /// The sum of products that a block of threads makes together.
    pub(crate) proof fn lemma_block_tally(
        self,
        xs: Seq<T>,
        ys: Seq<T>,
        ws: Option<Seq<T>>,
        n: nat,
    )
        requires
            self.exact(),
            halves_down(n),
        ensures
            block_dot(self.plus, self.times, self.zero, xs, ys, ws, n) == self.tally(
                xs.len() as int,
                |i: int| self.term(xs, ys, ws, i),
            ),
    {
        let len = xs.len() as int;
        let step = n as int;
        let lanes = Seq::new(
            n,
            |t: int| strided_dot(self.plus, self.times, self.zero, xs, ys, ws, t, n as int),
        );
        self.lemma_tree_tally(lanes);
        let f = |i: int| self.term(xs, ys, ws, i);
        let to = |i: int| i % step;
        let held = |t: int| self.tally(len, |i: int| if to(i) == t { f(i) } else { self.zero });
        assert forall|t: int| 0 <= t < step implies #[trigger] lanes[t] == held(t) by {
            self.lemma_strided_tally(self.zero, xs, ys, ws, t, step);
            let p = |i: int|
                if i >= t && (i - t) % step == 0 {
                    self.term(xs, ys, ws, i)
                } else {
                    self.zero
                };
            let q = |i: int|
                if to(i) == t {
                    f(i)
                } else {
                    self.zero
                };
            assert forall|i: int| 0 <= i < len implies #[trigger] p(i) == q(i) by {
                lemma_remainder(i, t, step);
            }
            self.lemma_tally_same(len, p, q);
            self.lemma_neutral(self.tally(len, p));
        }
        self.lemma_tally_same(step, |t: int| lanes[t], held);
        assert forall|i: int| 0 <= i < len implies 0 <= #[trigger] to(i) < step by {
            vstd::arithmetic::div_mod::lemma_mod_bound(i, step);
        }
        self.lemma_tally_sort(len, step, f, to);
    }
}

impl<
    T: Copy,
    A: Fn(T, T) -> T,
    M: Fn(T, T) -> T,
    S: Fn(T, T) -> T,
    E: Fn(T) -> T,
    N: Fn(T) -> T,
    I: Fn(T) -> T,
    L: Fn(T) -> T,
    G: Fn(T, T) -> bool,
    P: Fn(T, T) -> T,
    R: Fn(T) -> T,
    D: Fn(T) -> T,
> Machine<T, A, M, S, E, N, I, L, G, P, R, D> {
    /// The scale that the sum of the squares of a row gives.
    pub open spec fn row_scale(self, eps: Real, row: Seq<T>) -> T {
        ap1(
            (self.scale)(row.len() as u32, eps),
            self.arith.tally(row.len() as int, |a: int| self.arith.prod(row[a], row[a])),
        )
    }

    #[verifier::rlimit(60)]
    #[verifier::spinoff_prover]
    proof fn lemma_norm_back(self, world: World<T>, g: Val, x: Val, w: Val, eps: Real)
        requires
            self.arith.exact(),
            self.filled(world, x),
            self.filled(world, g),
            g.dims == x.dims,
            x.dims.len() >= 1,
            x.count() <= usize::MAX,
            w.count() == x.dims.last(),
            self.filled(world, w),
        ensures
            rmsnorm_grad_x_val(g, x, w, eps) matches Ok(y) ==> {
                let k = x.dims.len() - 1;
                let d = x.dims[k];
                &&& y.dims == x.dims
                &&& self.filled(world, y)
                &&& forall|c: Seq<nat>|
                    in_range(y.dims, c) ==> #[trigger] self.at(world, y, c) == {
                        let row = self.along(world, x, c, k);
                        let grads = self.along(world, g, c, k);
                        let ws = self.nums(world, w);
                        let inv = self.row_scale(eps, row);
                        let dot = self.arith.tally(
                            d as int,
                            |a: int|
                                self.arith.prod(self.arith.prod(grads[a], row[a]), ws[a]),
                        );
                        let cube = self.arith.prod(
                            self.arith.prod(self.arith.prod(dot, inv), inv),
                            inv,
                        );
                        self.diff(
                            self.arith.prod(
                                self.arith.prod(ws[c[k] as int], inv),
                                self.at(world, g, c),
                            ),
                            self.arith.prod(
                                self.at(world, x, c),
                                ap1((self.spread)(d as u32), cube),
                            ),
                        )
                    }
            },
    {
        if let Ok(y) = rmsnorm_grad_x_val(g, x, w, eps) {
            let k = x.dims.len() - 1;
            let n = x.count();
            let d = x.dims[k];
            let width = d as int;
            let rows = (n as usize / d) as usize;
            reveal_with_fuel(first_long, 3);
            let lens = seq![rows, d];
            assert(first_long(lens, 0) is None);
            assert(lens[0] <= u32::MAX && lens[1] <= u32::MAX);
            let (xs, gs, ws) = (self.nums(world, x), self.nums(world, g), self.nums(world, w));
            assert(halves_down(256)) by {
                reveal_with_fuel(halves_down, 10);
            }
            if let Term::Run { kernel, config, args } = y.term {
                self.lemma_arguments(world, args);
                let a = self.arguments(world, args);
                assert(a[1] == self.data(world, g.term));
                assert(a[2] == self.data(world, x.term));
                assert(a[3] == self.data(world, w.term));
                assert(a[5].word() == d);
                assert(a[6].scalar() == eps);
                assert(config.block_dim.0 == 256);
                let out = self.nums(world, y);
                assert(out == self.left_by(kernel, config, a));
                assert(out.len() == n);
                assert forall|c: Seq<nat>| in_range(y.dims, c) implies #[trigger] self.at(
                    world,
                    y,
                    c,
                ) == {
                    let row = self.along(world, x, c, k);
                    let grads = self.along(world, g, c, k);
                    let ws = self.nums(world, w);
                    let inv = self.row_scale(eps, row);
                    let dot = self.arith.tally(
                        d as int,
                        |a: int| self.arith.prod(self.arith.prod(grads[a], row[a]), ws[a]),
                    );
                    let cube = self.arith.prod(
                        self.arith.prod(self.arith.prod(dot, inv), inv),
                        inv,
                    );
                    self.diff(
                        self.arith.prod(
                            self.arith.prod(ws[c[k] as int], inv),
                            self.at(world, g, c),
                        ),
                        self.arith.prod(
                            self.at(world, x, c),
                            ap1((self.spread)(d as u32), cube),
                        ),
                    )
                } by {
                    lemma_in_row(x.dims, c);
                    let i = position(x.dims, c) as int;
                    let p = i / width;
                    let row = self.along(world, x, c, k);
                    let grads = self.along(world, g, c, k);
                    let m = numel(x.dims.subrange(0, k)) as int;
                    assert(0 <= p * width && p * width + width <= n) by (nonlinear_arith)
                        requires
                            0 <= p < m,
                            n == m * width,
                            width >= 0,
                    ;
                    assert forall|q: int| 0 <= q < width implies #[trigger] row[q] == xs[p * width
                        + q] && grads[q] == gs[p * width + q] by {
                        assert(position(x.dims, c.update(k, q as nat)) == at2(p, width, q));
                    }
                    let xr = matrix_row(xs, p, width);
                    let gr = matrix_row(gs, p, width);
                    assert(xr =~= row);
                    assert(gr =~= grads) by {
                        assert forall|q: int| 0 <= q < width implies gr[q] == grads[q] by {
                            assert(row[q] == xs[p * width + q]);
                        }
                    }
                    self.arith.lemma_block_tally(row, row, None, 256);
                    self.arith.lemma_block_tally(grads, row, Some(ws), 256);
                    self.arith.lemma_tally_same(
                        width,
                        |a: int| self.arith.term(row, row, None, a),
                        |a: int| self.arith.prod(row[a], row[a]),
                    );
                    self.arith.lemma_tally_same(
                        width,
                        |a: int| self.arith.term(grads, row, Some(ws), a),
                        |a: int| self.arith.prod(self.arith.prod(grads[a], row[a]), ws[a]),
                    );
                }
            }
        }
    }

    /// The gradient of the scaled rows: with `s` the scale of the row and `n` its
    /// width, at every place the weight times `s` times the gradient, less the
    /// element times `s` cubed times the sum over the row of gradient times
    /// element times weight, over `n`.
    pub proof fn law_rms_norm_gradients_correct_for_the_scale(
        self,
        world: World<T>,
        op: TapeOp,
        g: Val,
    )
        requires
            self.arith.exact(),
            op is RmsNorm,
            self.filled(world, g),
            self.filled(world, saved(op->RmsNorm_x_val)),
            self.filled(world, saved(op->RmsNorm_w_val)),
            g.dims == op->RmsNorm_x_val.dims(),
            g.dims.len() >= 1,
            g.count() <= usize::MAX,
            numel(op->RmsNorm_w_val.dims()) == g.dims.last(),
        ensures
            part(op, 0, g) matches Ok(y) ==> {
                let (x, w) = (saved(op->RmsNorm_x_val), saved(op->RmsNorm_w_val));
                let k = x.dims.len() - 1;
                let d = x.dims[k];
                &&& y.dims == x.dims
                &&& self.filled(world, y)
                &&& forall|c: Seq<nat>|
                    in_range(y.dims, c) ==> #[trigger] self.at(world, y, c) == {
                        let row = self.along(world, x, c, k);
                        let grads = self.along(world, g, c, k);
                        let ws = self.nums(world, w);
                        let inv = self.row_scale(op->RmsNorm_eps, row);
                        let dot = self.arith.tally(
                            d as int,
                            |a: int|
                                self.arith.prod(self.arith.prod(grads[a], row[a]), ws[a]),
                        );
                        let cube = self.arith.prod(
                            self.arith.prod(self.arith.prod(dot, inv), inv),
                            inv,
                        );
                        self.diff(
                            self.arith.prod(
                                self.arith.prod(ws[c[k] as int], inv),
                                self.at(world, g, c),
                            ),
                            self.arith.prod(
                                self.at(world, x, c),
                                ap1((self.spread)(d as u32), cube),
                            ),
                        )
                    }
            },
    {
        self.lemma_norm_back(
            world,
            g,
            saved(op->RmsNorm_x_val),
            saved(op->RmsNorm_w_val),
            op->RmsNorm_eps,
        );
    }

    /// What row `r` contributes to the gradient of the weight of column `j`.
    pub open spec fn weight_share(
        self,
        world: World<T>,
        g: Val,
        x: Val,
        eps: Real,
        j: int,
        r: int,
    ) -> T {
        let d = x.dims.last() as int;
        self.arith.prod(
            self.arith.prod(
                self.nums(world, g)[r * d + j],
                self.nums(world, x)[r * d + j],
            ),
            self.row_scale(eps, matrix_row(self.nums(world, x), r, d)),
        )
    }

    /// What a chunk of rows contributes.
    proof fn lemma_chunk(
        self,
        world: World<T>,
        g: Val,
        x: Val,
        eps: Real,
        j: int,
        from: int,
        to: int,
        rows: int,
    )
        requires
            self.filled(world, x),
            x.dims.len() >= 1,
            x.count() == rows * x.dims.last(),
            0 <= from <= to <= rows,
        ensures
            weight_rows(
                self.arith.plus,
                self.arith.times,
                (self.scale)(x.dims.last() as u32, eps),
                self.arith.zero,
                self.nums(world, g),
                self.nums(world, x),
                x.dims.last() as int,
                j,
                from,
                to,
            ) == self.arith.tally(
                to - from,
                |r: int| self.weight_share(world, g, x, eps, j, from + r),
            ),
        decreases to - from,
    {
        if from < to {
            self.lemma_chunk(world, g, x, eps, j, from, to - 1, rows);
            let d = x.dims.last() as int;
            let xs = self.nums(world, x);
            let row = matrix_row(xs, to - 1, d);
            assert(0 <= (to - 1) * d && (to - 1) * d + d <= rows * d) by (nonlinear_arith)
                requires
                    0 <= to - 1 < rows,
                    d >= 0,
            ;
            assert(row.len() == d);
            self.lemma_squares_tally(row);
            assert(from + (to - from - 1) == to - 1);
        }
    }

    /// The chunks of rows together contribute what the rows do.
    proof fn lemma_chunks(
        self,
        world: World<T>,
        g: Val,
        x: Val,
        eps: Real,
        j: int,
        per: int,
        rows: int,
        n: int,
    )
        requires
            self.arith.exact(),
            0 < per,
            0 <= rows,
            0 <= n,
        ensures
            self.arith.tally(
                n,
                |a: int|
                    self.arith.tally(
                        until(a + 1, per, rows) - until(a, per, rows),
                        |r: int|
                            self.weight_share(world, g, x, eps, j, until(a, per, rows) + r),
                    ),
            ) == self.arith.tally(
                until(n, per, rows),
                |r: int| self.weight_share(world, g, x, eps, j, r),
            ),
        decreases n,
    {
        let f = |r: int| self.weight_share(world, g, x, eps, j, r);
        if n == 0 {
            assert(0 * per == 0);
        } else {
            self.lemma_chunks(world, g, x, eps, j, per, rows, n - 1);
            let (p, q) = (until(n - 1, per, rows), until(n, per, rows));
            assert(0 <= (n - 1) * per <= n * per) by (nonlinear_arith)
                requires
                    n >= 1,
                    per > 0,
            ;
            assert(0 <= p <= q);
            self.arith.lemma_tally_split(p, q - p, f);
            self.arith.lemma_tally_same(
                q - p,
                |i: int| f(p + i),
                |r: int| self.weight_share(world, g, x, eps, j, p + r),
            );
        }
    }

    #[verifier::rlimit(60)]
    #[verifier::spinoff_prover]
    proof fn lemma_weight_back(
        self,
        world: World<T>,
        g: Val,
        x: Val,
        dims: Seq<usize>,
        eps: Real,
        j: int,
    )
        requires
            self.arith.exact(),
            self.filled(world, x),
            x.dims.len() >= 1,
            regular(x.dims),
            numel(dims) == x.dims.last(),
            0 <= j < x.dims.last(),
        ensures
            rmsnorm_grad_w_val(g, x, dims, eps) matches Ok(y) ==> {
                &&& y.dims == dims
                &&& self.filled(world, y)
                &&& self.nums(world, y)[j] == self.arith.tally(
                    x.count() as int / x.dims.last() as int,
                    |r: int| self.weight_share(world, g, x, eps, j, r),
                )
            },
    {
        if let Ok(y) = rmsnorm_grad_w_val(g, x, dims, eps) {
            let k = x.dims.len() - 1;
            let n = x.count();
            let d = x.dims[k];
            let width = d as int;
            assert(x.dims[k] >= 1);
            lemma_numel_axis(x.dims, k);
            crate::shape::lemma_low_rank(tail(x.dims, k + 1));
            let m = numel(x.dims.subrange(0, k)) as int;
            assert(n == m * width) by {
                assert((d as nat) * 1 == d as nat);
            }
            vstd::arithmetic::div_mod::lemma_div_multiples_vanish(m, width);
            assert(m * width == width * m) by (nonlinear_arith);
            let rows = (n as usize / d) as usize;
            assert(rows == m);
            let per = ROWS_PER_CHUNK as int;
            let chunks = row_chunks(rows as nat) as usize;
            reveal_with_fuel(first_long, 5);
            let lens = seq![rows, d, ROWS_PER_CHUNK, chunks];
            assert(first_long(lens, 0) is None);
            assert(lens[0] <= u32::MAX && lens[1] <= u32::MAX && lens[2] <= u32::MAX && lens[3]
                <= u32::MAX);
            let (xs, gs) = (self.nums(world, x), self.nums(world, g));
            let scale = (self.scale)(d as u32, eps);
            let (plus, times, zero) = (self.arith.plus, self.arith.times, self.arith.zero);
            let cn = chunks as int;
            assert(0 <= cn * width) by (nonlinear_arith)
                requires
                    cn >= 0,
                    width >= 0,
            ;
            if let Term::Run { kernel, config, args } = y.term {
                self.lemma_arguments(world, args);
                let a = self.arguments(world, args);
                assert(args[0] is Value);
                if let TermArg::Value(partial) = args[0] {
                    if let Term::Run { kernel: k1, config: f1, args: a1 } = partial {
                        self.lemma_arguments(world, a1);
                        let e = self.arguments(world, a1);
                        assert(e[0] == self.data(world, Term::Zeros((chunks * d) as nat)));
                        assert(e[1] == self.data(world, g.term));
                        assert(e[2] == self.data(world, x.term));
                        assert(e[3].word() == rows && e[4].word() == d && e[5].word()
                            == ROWS_PER_CHUNK);
                        assert(e[7].scalar() == eps);
                    }
                    let parts = self.data(world, partial).numbers();
                    assert(a[0] == self.data(world, partial));
                    assert(a[1] == self.data(world, Term::Zeros(d as nat)));
                    assert(a[3].word() == chunks && a[4].word() == d);
                    assert(parts.len() == cn * width);
                    assert(j / width == 0 && j % width == j) by {
                        vstd::arithmetic::div_mod::lemma_basic_div(j, width);
                        vstd::arithmetic::div_mod::lemma_small_mod(j as nat, width as nat);
                    }
                    let row = fiber(parts, j / width, cn, width, j % width);
                    assert(self.nums(world, y)[j] == fold(plus, zero, row));
                    self.arith.lemma_fold_tally(row);
                    let held = |c: int|
                        self.arith.tally(
                            until(c + 1, per, m) - until(c, per, m),
                            |r: int| self.weight_share(world, g, x, eps, j, until(c, per, m) + r),
                        );
                    assert forall|c: int| 0 <= c < cn implies #[trigger] row[c] == held(c) by {
                        let i = c * width + j;
                        assert((0 * cn + c) * width + j == i);
                        lemma_at2_parts(c, width, j);
                        crate::host::lemma_at2(c, width, j, cn);
                        assert(0 <= c * width) by (nonlinear_arith)
                            requires
                                c >= 0,
                                width >= 0,
                        ;
                        assert(row[c] == parts[i]);
                        assert(0 <= c * per <= (c + 1) * per) by (nonlinear_arith)
                            requires
                                c >= 0,
                                per > 0,
                        ;
                        lemma_chunk_begins(c, m);
                        let to = if (c + 1) * per < m {
                            (c + 1) * per
                        } else {
                            m
                        };
                        assert(parts[i] == weight_rows(
                            plus,
                            times,
                            scale,
                            zero,
                            gs,
                            xs,
                            width,
                            j,
                            c * per,
                            to,
                        ));
                        self.lemma_chunk(world, g, x, eps, j, c * per, to, m);
                    }
                    self.arith.lemma_tally_same(cn, |c: int| row[c], held);
                    self.lemma_chunks(world, g, x, eps, j, per, m, cn);
                    lemma_chunk_ends(m);
                }
            }
        }
    }

    /// The gradient of the weights: for every column the sum over all rows of
    /// gradient times element times the scale of the row.
    pub proof fn law_weight_gradients_sum_over_rows(
        self,
        world: World<T>,
        op: TapeOp,
        g: Val,
        j: int,
    )
        requires
            self.arith.exact(),
            op is RmsNorm,
            self.filled(world, saved(op->RmsNorm_x_val)),
            op->RmsNorm_x_val.dims().len() >= 1,
            regular(op->RmsNorm_x_val.dims()),
            numel(op->RmsNorm_w_val.dims()) == op->RmsNorm_x_val.dims().last(),
            0 <= j < op->RmsNorm_x_val.dims().last(),
        ensures
            part(op, 1, g) matches Ok(y) ==> {
                let x = saved(op->RmsNorm_x_val);
                &&& y.dims == op->RmsNorm_w_val.dims()
                &&& self.filled(world, y)
                &&& self.nums(world, y)[j] == self.arith.tally(
                    x.count() as int / x.dims.last() as int,
                    |r: int| self.weight_share(world, g, x, op->RmsNorm_eps, j, r),
                )
            },
    {
        self.lemma_weight_back(
            world,
            g,
            saved(op->RmsNorm_x_val),
            op->RmsNorm_w_val.dims(),
            op->RmsNorm_eps,
            j,
        );
    }
}

/// How many rows the first `n` chunks hold.
pub open spec fn until(n: int, per: int, rows: int) -> int {
    if n * per < rows {
        n * per
    } else {
        rows
    }
}

/// Every chunk begins at a row.
proof fn lemma_chunk_begins(c: int, rows: int)
    requires
        0 <= c < row_chunks(rows as nat),
        rows >= 0,
    ensures
        c * ROWS_PER_CHUNK <= rows,
{
}

/// The chunks hold all rows.
proof fn lemma_chunk_ends(rows: int)
    requires
        rows >= 0,
    ensures
        until(row_chunks(rows as nat) as int, ROWS_PER_CHUNK as int, rows) == rows,
{
}

} // verus!
