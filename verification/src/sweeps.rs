//! What the operations along one axis leave: running sums, the logarithm of
//! the softmax, and rows scaled to unit mean square.

use crate::device::transposed_val;
use crate::host::at2;
use crate::index::lemma_at2_parts;
use crate::lanes::{ap, fold, row_of};
use crate::launch::{first_long, Kernel, Real};
use crate::meaning::{Machine, World};
use crate::moves::lemma_swapped_range;
use crate::norm::{fold_dot, fold_parts, largest, matrix_row};
use crate::ops::axis_val;
use crate::places::{before, lemma_axis, lemma_axis_update, lemma_low_positions};
use crate::program::{Term, Val};
use crate::rows::{along_val, rmsnorm_val, row_val};
use crate::scan::ap1;
use crate::shape::{
    in_range, lemma_low_rank, lemma_numel_axis, lemma_position_bound, numel, position, swapped,
    tail,
};
use vstd::prelude::*;

verus! {

/// The row of an element, and where in it the element stands.
pub(crate) proof fn lemma_in_row(s: Seq<usize>, c: Seq<nat>)
    requires
        s.len() >= 1,
        in_range(s, c),
    ensures
        ({
            let k = s.len() - 1;
            let p = before(s, c, k);
            let n = s[k] as int;
            let i = position(s, c) as int;
            &&& i < numel(s)
            &&& i == at2(p, n, c[k] as int)
            &&& i / n == p
            &&& i % n == c[k]
            &&& numel(s) == numel(s.subrange(0, k)) * n
            &&& 0 <= p < numel(s.subrange(0, k))
            &&& forall|a: nat|
                a < s[k] ==> #[trigger] position(s, c.update(k, a)) == at2(p, n, a as int)
                    && position(s, c.update(k, a)) < numel(s)
        }),
{
    let k = s.len() - 1;
    let p = before(s, c, k);
    let n = s[k] as int;
    let t = tail(s, k + 1);
    lemma_axis(s, c, k);
    lemma_position_bound(s, c);
    lemma_low_rank(t);
    lemma_low_positions(t, c.subrange(k + 1, c.len() as int));
    assert(c[k] < s[k]);
    lemma_at2_parts(p, n, c[k] as int);
    lemma_numel_axis(s, k);
    assert(numel(t) == 1);
    assert(numel(s) == numel(s.subrange(0, k)) * n) by {
        assert((s[k] as nat) * 1 == s[k] as nat);
    }
    assert(position(s, c) == at2(p, n, c[k] as int)) by {
        assert((p * n + c[k]) * 1 + 0 == p * n + c[k]);
    }
    assert forall|a: nat| a < s[k] implies #[trigger] position(s, c.update(k, a)) == at2(
        p,
        n,
        a as int,
    ) && position(s, c.update(k, a)) < numel(s) by {
        lemma_axis_update(s, c, k, s[k], a);
        assert(s.update(k, s[k]) =~= s);
        lemma_position_bound(s, c.update(k, a));
        assert((p * n + a) * 1 + 0 == p * n + a);
    }
}

impl<
    T: Copy,
    A: Fn(T, T) -> T,
    M: Fn(T, T) -> T,
    S: Fn(T, T) -> T,
    E: Fn(T) -> T,
    N: Fn(T) -> T,
    I: Fn(T) -> T,
    L: Fn(T) -> T,
    G: Fn(T, T) -> bool,
    P: Fn(T, T) -> T,
    R: Fn(T) -> T,
    D: Fn(T) -> T,
> Machine<T, A, M, S, E, N, I, L, G, P, R, D> {
    /// The elements of a tensor along axis `k` through the one at `c`.
    pub open spec fn along(self, world: World<T>, v: Val, c: Seq<nat>, k: int) -> Seq<T> {
        Seq::new(v.dims[k] as nat, |a: int| self.at(world, v, c.update(k, a as nat)))
    }

    /// The logarithm of the softmax of `xs` at place `j`: the element less the
    /// largest, less the logarithm of the sum of how every element less the
    /// largest grows.
    pub open spec fn log_part(self, xs: Seq<T>, j: int) -> T {
        let m = largest(self.curve.above, xs[0], xs.drop_first());
        self.diff(
            self.diff(xs[j], m),
            ap1(
                self.curve.log,
                self.arith.tally(xs.len() as int, |a: int| ap(self.part, xs[a], m)),
            ),
        )
    }

    /// What a kernel that works along rows leaves at place `j` of a row.
    spec fn swept(self, kernel: Kernel, xs: Seq<T>, j: int) -> T {
        match kernel {
            Kernel::CumsumLastdim => self.arith.tally(j + 1, |a: int| xs[a]),
            Kernel::ReverseCumsumLastdim => self.arith.tally(
                xs.len() - j,
                |a: int| xs[xs.len() - 1 - a],
            ),
            _ => self.log_part(xs, j),
        }
    }

    proof fn lemma_parts_tally(self, m: T, xs: Seq<T>)
        ensures
            fold_parts(self.arith.plus, self.part, self.arith.zero, m, xs) == self.arith.tally(
                xs.len() as int,
                |a: int| ap(self.part, xs[a], m),
            ),
        decreases xs.len(),
    {
        if xs.len() > 0 {
            let ys = xs.drop_last();
            self.lemma_parts_tally(m, ys);
            self.arith.lemma_tally_same(
                ys.len() as int,
                |a: int| ap(self.part, ys[a], m),
                |a: int| ap(self.part, xs[a], m),
            );
        }
    }

    /// What a kernel that works along the last axis leaves.
    proof fn lemma_rows(self, world: World<T>, kernel: Kernel, v: Val)
        requires
            self.filled(world, v),
            kernel == Kernel::CumsumLastdim || kernel == Kernel::ReverseCumsumLastdim || kernel
                == Kernel::LogSoftmaxLastdim,
            v.dims.len() >= 1,
            v.count() <= usize::MAX,
            row_val(kernel, v) is Ok,
        ensures
            ({
                let y = row_val(kernel, v)->Ok_0;
                let k = v.dims.len() - 1;
                &&& y.dims == v.dims
                &&& self.filled(world, y)
                &&& forall|c: Seq<nat>|
                    in_range(y.dims, c) ==> #[trigger] self.at(world, y, c) == self.swept(
                        kernel,
                        self.along(world, v, c, k),
                        c[k] as int,
                    )
            }),
    {
        let y = row_val(kernel, v)->Ok_0;
        let k = v.dims.len() - 1;
        let n = v.count();
        let w = v.dims[k];
        let width = w as int;
        let rows = (n as usize / w) as usize;
        reveal_with_fuel(first_long, 3);
        let lens = seq![rows, w];
        assert(first_long(lens, 0) is None);
        assert(lens[0] <= u32::MAX && lens[1] <= u32::MAX);
        let xs = self.nums(world, v);
        let plus = self.arith.plus;
        let zero = self.arith.zero;
        if let Term::Run { kernel: k1, config, args } = y.term {
            self.lemma_arguments(world, args);
            let d = self.arguments(world, args);
            assert(d[0] == self.data(world, v.term));
            assert(d[1] == self.data(world, Term::Zeros(n)));
            assert(d[1].numbers().len() == n);
            assert(d[3].word() == w);
            let out = self.nums(world, y);
            assert(out == self.left_by(kernel, config, d));
            assert(out.len() == n);
            assert forall|c: Seq<nat>| in_range(y.dims, c) implies #[trigger] self.at(world, y, c)
                == self.swept(kernel, self.along(world, v, c, k), c[k] as int) by {
                lemma_in_row(v.dims, c);
                let i = position(v.dims, c) as int;
                let j = c[k] as int;
                assert(c[k] < v.dims[k]);
                let p = i / width;
                let row = self.along(world, v, c, k);
                assert(row.len() == width);
                assert forall|a: int| 0 <= a < width implies #[trigger] row[a] == xs[at2(
                    p,
                    width,
                    a,
                )] by {
                    assert(position(v.dims, c.update(k, a as nat)) == at2(p, width, a));
                }
                if kernel == Kernel::CumsumLastdim {
                    assert(row_of(xs, p, width) =~= row);
                    let part = row.take(j + 1);
                    assert(out[i] == fold(plus, zero, part));
                    self.arith.lemma_fold_tally(part);
                    self.arith.lemma_tally_same(j + 1, |a: int| part[a], |a: int| row[a]);
                } else if kernel == Kernel::ReverseCumsumLastdim {
                    assert(row_of(xs, p, width) =~= row);
                    let part = row.reverse().take(width - j);
                    assert(out[i] == fold(plus, zero, part));
                    self.arith.lemma_fold_tally(part);
                    self.arith.lemma_tally_same(
                        width - j,
                        |a: int| part[a],
                        |a: int| row[row.len() - 1 - a],
                    );
                } else {
                    let m = numel(v.dims.subrange(0, k)) as int;
                    assert(0 <= p * width && p * width + width <= n) by (nonlinear_arith)
                        requires
                            0 <= p < m,
                            n == m * width,
                            width >= 0,
                    ;
                    assert(matrix_row(xs, p, width) =~= row);
                    assert(row[j] == xs[i]);
                    let m = largest(self.curve.above, row[0], row.drop_first());
                    self.lemma_parts_tally(m, row);
                }
            }
        }
    }

    /// What such a kernel leaves along any axis.
    proof fn lemma_along(
        self,
        world: World<T>,
        op: &'static str,
        kernel: Kernel,
        v: Val,
        dim: usize,
    )
        requires
            self.filled(world, v),
            kernel == Kernel::CumsumLastdim || kernel == Kernel::ReverseCumsumLastdim || kernel
                == Kernel::LogSoftmaxLastdim,
            1 <= v.dims.len() <= usize::MAX,
            v.count() <= usize::MAX,
            along_val(op, kernel, v, dim) is Ok,
        ensures
            ({
                let y = along_val(op, kernel, v, dim)->Ok_0;
                let k = dim as int;
                &&& dim < v.dims.len()
                &&& y.dims == v.dims
                &&& self.filled(world, y)
                &&& forall|c: Seq<nat>|
                    in_range(y.dims, c) ==> #[trigger] self.at(world, y, c) == self.swept(
                        kernel,
                        self.along(world, v, c, k),
                        c[k] as int,
                    )
            }),
    {
        let y = along_val(op, kernel, v, dim)->Ok_0;
        let last = (v.dims.len() - 1) as usize;
        let (k, l) = (dim as int, last as int);
        if dim == last {
            self.lemma_rows(world, kernel, v);
        } else {
            let t = transposed_val(op, v, dim, last)->Ok_0;
            let s = row_val(kernel, t)->Ok_0;
            self.lemma_transposed(world, op, v, dim, last);
            self.lemma_rows(world, kernel, t);
            self.lemma_transposed(world, op, s, dim, last);
            assert(swapped(t.dims, k, l) =~= v.dims);
            assert forall|c: Seq<nat>| in_range(y.dims, c) implies #[trigger] self.at(world, y, c)
                == self.swept(kernel, self.along(world, v, c, k), c[k] as int) by {
                let w = swapped(c, k, l);
                lemma_swapped_range(t.dims, c, k, l);
                assert(self.at(world, y, c) == self.at(world, s, w));
                let row = self.along(world, v, c, k);
                let turned = self.along(world, t, w, l);
                assert forall|a: int| 0 <= a < row.len() implies turned[a] == row[a] by {
                    let u = w.update(l, a as nat);
                    assert(in_range(t.dims, u)) by {
                        assert forall|i: int| 0 <= i < u.len() implies u[i] < #[trigger] t.dims[i] by {
                            assert(w[i] < t.dims[i]);
                        }
                    }
                    assert(swapped(u, k, l) =~= c.update(k, a as nat));
                }
                assert(turned =~= row);
            }
        }
    }

    /// Running sums along an axis keep the shape and hold at every place the sum
    /// of the elements along the axis up to that one.
    pub proof fn law_running_sums_add_what_came_before(
        self,
        world: World<T>,
        op: &'static str,
        x: Val,
        dim: usize,
    )
        requires
            self.filled(world, x),
            x.dims.len() <= usize::MAX,
            x.count() <= usize::MAX,
        ensures
            axis_val(op, Kernel::CumsumLastdim, x, dim) matches Ok(y) ==> {
                let k = dim as int;
                &&& dim < x.dims.len()
                &&& y.dims == x.dims
                &&& self.filled(world, y)
                &&& forall|c: Seq<nat>|
                    in_range(y.dims, c) ==> #[trigger] self.at(world, y, c) == self.arith.tally(
                        (c[k] + 1) as int,
                        |a: int| self.at(world, x, c.update(k, a as nat)),
                    )
            },
    {
        if let Ok(y) = axis_val(op, Kernel::CumsumLastdim, x, dim) {
            let k = dim as int;
            self.lemma_along(world, "transpose", Kernel::CumsumLastdim, x, dim);
            assert forall|c: Seq<nat>| in_range(y.dims, c) implies #[trigger] self.at(world, y, c)
                == self.arith.tally(
                (c[k] + 1) as int,
                |a: int| self.at(world, x, c.update(k, a as nat)),
            ) by {
                let row = self.along(world, x, c, k);
                assert(c[k] < x.dims[k]);
                self.arith.lemma_tally_same(
                    (c[k] + 1) as int,
                    |a: int| row[a],
                    |a: int| self.at(world, x, c.update(k, a as nat)),
                );
            }
        }
    }

    /// The logarithm of the softmax along an axis keeps the shape and holds at
    /// every place that of the elements along the axis.
    pub proof fn law_log_softmax_normalises_along_the_axis(
        self,
        world: World<T>,
        op: &'static str,
        x: Val,
        dim: usize,
    )
        requires
            self.filled(world, x),
            x.dims.len() <= usize::MAX,
            x.count() <= usize::MAX,
        ensures
            axis_val(op, Kernel::LogSoftmaxLastdim, x, dim) matches Ok(y) ==> {
                let k = dim as int;
                &&& dim < x.dims.len()
                &&& y.dims == x.dims
                &&& self.filled(world, y)
                &&& forall|c: Seq<nat>|
                    in_range(y.dims, c) ==> #[trigger] self.at(world, y, c) == self.log_part(
                        self.along(world, x, c, k),
                        c[k] as int,
                    )
            },
    {
        if axis_val(op, Kernel::LogSoftmaxLastdim, x, dim) is Ok {
            self.lemma_along(world, "transpose", Kernel::LogSoftmaxLastdim, x, dim);
        }
    }

    /// The gradient of running sums along an axis holds at every place the sum
    /// of the gradients along the axis from that one on, the last one first.
    pub(crate) proof fn lemma_back_sums(
        self,
        world: World<T>,
        op: &'static str,
        g: Val,
        dim: usize,
    )
        requires
            self.filled(world, g),
            1 <= g.dims.len() <= usize::MAX,
            g.count() <= usize::MAX,
        ensures
            along_val(op, Kernel::ReverseCumsumLastdim, g, dim) matches Ok(y) ==> {
                let k = dim as int;
                &&& dim < g.dims.len()
                &&& y.dims == g.dims
                &&& self.filled(world, y)
                &&& forall|c: Seq<nat>|
                    in_range(y.dims, c) ==> #[trigger] self.at(world, y, c) == self.arith.tally(
                        g.dims[k] - c[k],
                        |a: int| self.at(world, g, c.update(k, (g.dims[k] - 1 - a) as nat)),
                    )
            },
    {
        if let Ok(y) = along_val(op, Kernel::ReverseCumsumLastdim, g, dim) {
            let k = dim as int;
            self.lemma_along(world, op, Kernel::ReverseCumsumLastdim, g, dim);
            assert forall|c: Seq<nat>| in_range(y.dims, c) implies #[trigger] self.at(world, y, c)
                == self.arith.tally(
                g.dims[k] - c[k],
                |a: int| self.at(world, g, c.update(k, (g.dims[k] - 1 - a) as nat)),
            ) by {
                let row = self.along(world, g, c, k);
                assert(c[k] < g.dims[k]);
                self.arith.lemma_tally_same(
                    g.dims[k] - c[k],
                    |a: int| row[row.len() - 1 - a],
                    |a: int| self.at(world, g, c.update(k, (g.dims[k] - 1 - a) as nat)),
                );
            }
        }
    }

    pub(crate) proof fn lemma_squares_tally(self, xs: Seq<T>)
        ensures
            fold_dot(self.arith.plus, self.arith.times, self.arith.zero, xs, xs)
                == self.arith.tally(xs.len() as int, |a: int| self.arith.prod(xs[a], xs[a])),
        decreases xs.len(),
    {
        if xs.len() > 0 {
            let ys = xs.drop_last();
            self.lemma_squares_tally(ys);
            self.arith.lemma_tally_same(
                ys.len() as int,
                |a: int| self.arith.prod(ys[a], ys[a]),
                |a: int| self.arith.prod(xs[a], xs[a]),
            );
        }
    }

    /// Scaling rows to unit mean square: it takes a tensor with a last axis and
    /// as many weights as that is long, keeps the shape, and holds at every
    /// place the element times the weight of its column times the scale that
    /// the sum of the squares of its row gives.
    pub proof fn law_rms_norm_scales_rows(self, world: World<T>, x: Val, w: Val, eps: Real)
        requires
            self.filled(world, x),
            x.count() <= usize::MAX,
        ensures
            rmsnorm_val(x, w, eps) is Ok ==> x.dims.len() >= 1 && w.count() == x.dims.last(),
            rmsnorm_val(x, w, eps) matches Ok(y) ==> {
                let k = x.dims.len() - 1;
                let d = x.dims[k];
                &&& y.dims == x.dims
                &&& self.filled(world, y)
                &&& forall|c: Seq<nat>|
                    in_range(y.dims, c) ==> #[trigger] self.at(world, y, c) == {
                        let row = self.along(world, x, c, k);
                        self.arith.prod(
                            self.arith.prod(
                                self.at(world, x, c),
                                self.nums(world, w)[c[k] as int],
                            ),
                            ap1(
                                (self.scale)(d as u32, eps),
                                self.arith.tally(
                                    d as int,
                                    |a: int| self.arith.prod(row[a], row[a]),
                                ),
                            ),
                        )
                    }
            },
    {
        if let Ok(y) = rmsnorm_val(x, w, eps) {
            let k = x.dims.len() - 1;
            let n = x.count();
            let d = x.dims[k];
            let width = d as int;
            let rows = (n as usize / d) as usize;
            reveal_with_fuel(first_long, 3);
            let lens = seq![rows, d];
            assert(first_long(lens, 0) is None);
            assert(lens[0] <= u32::MAX && lens[1] <= u32::MAX);
            let xs = self.nums(world, x);
            if let Term::Run { kernel, config, args } = y.term {
                self.lemma_arguments(world, args);
                let a = self.arguments(world, args);
                assert(a[0] == self.data(world, x.term));
                assert(a[1] == self.data(world, w.term));
                assert(a[4].word() == d);
                assert(a[5].scalar() == eps);
                let out = self.nums(world, y);
                assert(out == self.left_by(kernel, config, a));
                assert(out.len() == n);
                assert forall|c: Seq<nat>| in_range(y.dims, c) implies #[trigger] self.at(
                    world,
                    y,
                    c,
                ) == {
                    let row = self.along(world, x, c, k);
                    self.arith.prod(
                        self.arith.prod(self.at(world, x, c), self.nums(world, w)[c[k] as int]),
                        ap1(
                            (self.scale)(d as u32, eps),
                            self.arith.tally(d as int, |a: int| self.arith.prod(row[a], row[a])),
                        ),
                    )
                } by {
                    lemma_in_row(x.dims, c);
                    let i = position(x.dims, c) as int;
                    let p = i / width;
                    let row = self.along(world, x, c, k);
                    let m = numel(x.dims.subrange(0, k)) as int;
                    assert(0 <= p * width && p * width + width <= n) by (nonlinear_arith)
                        requires
                            0 <= p < m,
                            n == m * width,
                            width >= 0,
                    ;
                    assert forall|q: int| 0 <= q < width implies #[trigger] row[q] == xs[p * width
                        + q] by {
                        assert(position(x.dims, c.update(k, q as nat)) == at2(p, width, q));
                    }
                    assert(matrix_row(xs, p, width) =~= row);
                    self.lemma_squares_tally(row);
                }
            }
        }
    }
}

} // verus!
