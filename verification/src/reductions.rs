//! What the operations that sum leave: the total and the mean of a tensor, and
//! sums along axes.

use crate::device::{
    folded_val, lemma_padded, lemma_reduced_dims, padded, reduced_val, scalar_val, summed_rank_val,
    summed_val,
};
use crate::host::{at2, at3};
use crate::index::lemma_at2_parts;
use crate::kernels::{inner, outer};
use crate::lanes::{every, fiber, fold};
use crate::launch::{first_long, Kernel, Real};
use crate::laws::law_broadcast_sums_back;
use crate::meaning::{Datum, Machine, World};
use crate::ops::total_val;
use crate::places::{
    after, before, facing, lemma_axis, lemma_axis_update, lemma_padded_position, under,
};
use crate::program::{Term, TermArg, Val};
use crate::reduce::is_ceil_sqrt;
use crate::rows::{chunk_count, sum_all_val};
use crate::shape::{
    coords, expands_to, in_range, lemma_coords_of_position, lemma_numel_le_span, lemma_position_bound,
    lemma_position_of_coords, lemma_positive, numel, position, regular, span, tail,
};
use vstd::prelude::*;

verus! {

/// Every count has a rounded-up square root, no larger than itself.
pub(crate) proof fn lemma_ceil_sqrt(n: nat)
    requires
        n >= 1,
    ensures
        is_ceil_sqrt(n, chunk_count(n)),
        1 <= chunk_count(n) <= n,
{
    lemma_some_ceil_sqrt(n);
    let c = chunk_count(n);
    assert(c <= n) by (nonlinear_arith)
        requires
            (c - 1) * (c - 1) < n,
            c >= 1,
            n >= 1,
    ;
}

proof fn lemma_some_ceil_sqrt(n: nat)
    requires
        n >= 1,
    ensures
        exists|c: nat| is_ceil_sqrt(n, c),
    decreases n,
{
    if n == 1 {
        assert(is_ceil_sqrt(1, 1));
    } else {
        let m = (n - 1) as nat;
        lemma_some_ceil_sqrt(m);
        let c = choose|c: nat| is_ceil_sqrt(m, c);
        if n <= c * c {
            assert(is_ceil_sqrt(n, c));
        } else {
            assert((c + 1) * (c + 1) >= c * c + 1) by (nonlinear_arith);
            assert(is_ceil_sqrt(n, c + 1));
        }
    }
}

impl<
    T: Copy,
    A: Fn(T, T) -> T,
    M: Fn(T, T) -> T,
    S: Fn(T, T) -> T,
    E: Fn(T) -> T,
    N: Fn(T) -> T,
    I: Fn(T) -> T,
    L: Fn(T) -> T,
    G: Fn(T, T) -> bool,
    P: Fn(T, T) -> T,
    R: Fn(T) -> T,
    D: Fn(T) -> T,
> Machine<T, A, M, S, E, N, I, L, G, P, R, D> {
    /// The sum of all numbers of a tensor.
    pub open spec fn sum_of(self, world: World<T>, x: Val) -> T {
        self.arith.tally(x.count() as int, |i: int| self.nums(world, x)[i])
    }

    /// What the two kernels of a total leave.
    proof fn lemma_sum_all(self, world: World<T>, x: Val)
        requires
            self.arith.exact(),
            self.filled(world, x),
            1 <= x.count() <= u32::MAX,
        ensures
            sum_all_val(x) matches Ok(y) && y.dims == seq![1usize] && self.data(world, y.term)
                == Datum::Numbers(seq![self.sum_of(world, x)]),
    {
        let y = sum_all_val(x)->Ok_0;
        let n = x.count();
        let c = chunk_count(n);
        lemma_ceil_sqrt(n);
        let step = c as int;
        let xs = self.nums(world, x);
        if let Term::Run { kernel, config, args } = y.term {
            self.lemma_arguments(world, args);
            let d = self.arguments(world, args);
            assert(args[0] is Value);
            if let TermArg::Value(partial) = args[0] {
                if let Term::Run { kernel: k1, config: f1, args: a1 } = partial {
                    self.lemma_arguments(world, a1);
                    let e = self.arguments(world, a1);
                    assert(e[0] == self.data(world, x.term));
                    assert(e[1] == self.data(world, Term::Zeros(c)));
                    assert(e[3].word() == c);
                    assert(self.data(world, partial).numbers() =~= Seq::new(
                        c,
                        |j: int| fold(self.arith.plus, self.arith.zero, every(xs, j, step)),
                    ));
                }
                assert(d[0] == self.data(world, partial));
                assert(d[1] == self.data(world, Term::Zeros(1)));
                assert(d[3].word() == c);
                assert(d[4].word() == 1);
                let parts = self.data(world, partial).numbers();
                let out = self.left_by(kernel, config, d);
                assert(out.len() == 1);
                let row = fiber(parts, 0int / 1, step, 1, 0int % 1);
                assert(out[0] == fold(self.arith.plus, self.arith.zero, row));
                self.arith.lemma_fold_tally(row);
                let to = |i: int| i % step;
                let f = |i: int| xs[i];
                let held = |j: int|
                    self.arith.tally(
                        n as int,
                        |i: int|
                            if to(i) == j {
                                f(i)
                            } else {
                                self.arith.zero
                            },
                    );
                assert forall|j: int| 0 <= j < step implies #[trigger] row[j] == held(j) by {
                    assert(row[j] == parts[j]);
                    self.arith.lemma_every_tally(xs, j, step);
                    let p = |i: int|
                        if i >= j && (i - j) % step == 0 {
                            xs[i]
                        } else {
                            self.arith.zero
                        };
                    let q = |i: int|
                        if to(i) == j {
                            f(i)
                        } else {
                            self.arith.zero
                        };
                    assert forall|i: int| 0 <= i < n implies #[trigger] p(i) == q(i) by {
                        lemma_remainder(i, j, step);
                    }
                    self.arith.lemma_tally_same(n as int, p, q);
                }
                self.arith.lemma_tally_same(step, |j: int| row[j], held);
                assert forall|i: int| 0 <= i < n implies 0 <= #[trigger] to(i) < step by {
                    vstd::arithmetic::div_mod::lemma_mod_bound(i, step);
                }
                self.arith.lemma_tally_sort(n as int, step, f, to);
                assert(out =~= seq![self.sum_of(world, x)]);
            }
        }
    }

    /// The total of a tensor exists where it has elements and a kernel can index
    /// them, and nowhere else. It is one number, the sum of all elements; and
    /// the mean is that sum times one over their count, so that multiplying it
    /// by what undoes that factor gives the sum again.
    pub proof fn law_totals_sum_every_element(self, world: World<T>, x: Val, mean: bool, m: T)
        requires
            self.arith.exact(),
            self.filled(world, x),
        ensures
            total_val(mean, x) is Ok <==> 1 <= x.count() <= u32::MAX,
            total_val(mean, x) matches Ok(y) ==> {
                let s = self.sum_of(world, x);
                let part = (self.number)(Real::OneOver(x.count() as usize));
                &&& y.dims == seq![1usize]
                &&& self.filled(world, y)
                &&& !mean ==> self.nums(world, y)[0] == s
                &&& mean ==> self.nums(world, y)[0] == self.arith.prod(s, part)
                &&& mean && self.arith.prod(self.arith.prod(s, part), m) == s ==> self.arith.prod(
                    self.nums(world, y)[0],
                    m,
                ) == s
            },
    {
        if 1 <= x.count() <= u32::MAX {
            self.lemma_sum_all(world, x);
            let s = sum_all_val(x)->Ok_0;
            crate::shape::lemma_low_rank(s.dims);
            self.lemma_scaled(world, Kernel::MulScalar, s, Real::OneOver(x.count() as usize));
        }
    }

    /// What summing along an axis leaves: the axis shrinks to extent one, and
    /// holds the sums.
    pub(crate) proof fn lemma_reduced(self, world: World<T>, v: Val, k: int)
        requires
            self.filled(world, v),
            0 <= k < v.dims.len(),
            span(v.dims) <= usize::MAX,
            reduced_val(v, k) is Ok,
        ensures
            ({
                let y = reduced_val(v, k)->Ok_0;
                &&& y.dims == v.dims.update(k, 1)
                &&& self.filled(world, y)
                &&& forall|c: Seq<nat>|
                    in_range(y.dims, c) ==> #[trigger] self.at(world, y, c) == self.arith.tally(
                        v.dims[k] as int,
                        |a: int| self.at(world, v, c.update(k, a as nat)),
                    )
            }),
    {
        let y = reduced_val(v, k)->Ok_0;
        let e = v.dims[k];
        lemma_reduced_dims(v.dims, k);
        let o = outer(v.dims, k);
        let r = inner(v.dims, k);
        let n = (o * r) as nat;
        let xs = self.nums(world, v);
        reveal_with_fuel(first_long, 5);
        let lens = seq![n as usize, o as usize, e, r as usize];
        assert(lens[0] <= u32::MAX && lens[1] <= u32::MAX && lens[2] <= u32::MAX && lens[3]
            <= u32::MAX);
        if let Term::Run { kernel, config, args } = y.term {
            self.lemma_arguments(world, args);
            let d = self.arguments(world, args);
            assert(d[0] == self.data(world, v.term));
            assert(d[1] == self.data(world, Term::Zeros(n)));
            assert(d[3].word() == e);
            assert(d[4].word() == r);
            let out = self.nums(world, y);
            assert(out =~= Seq::new(
                n,
                |i: int|
                    fold(
                        self.arith.plus,
                        self.arith.zero,
                        fiber(xs, i / r as int, e as int, r as int, i % r as int),
                    ),
            ));
            assert forall|c: Seq<nat>| in_range(y.dims, c) implies #[trigger] self.at(world, y, c)
                == self.arith.tally(
                e as int,
                |a: int| self.at(world, v, c.update(k, a as nat)),
            ) by {
                lemma_axis(y.dims, c, k);
                lemma_position_bound(y.dims, c);
                assert(tail(y.dims, k + 1) =~= tail(v.dims, k + 1));
                let p = before(y.dims, c, k);
                let q = after(y.dims, c, k);
                let i = position(y.dims, c) as int;
                assert(c[k] < y.dims[k]);
                assert((p * 1 + 0) * (r as int) + q == p * r + q) by (nonlinear_arith);
                assert(i == at2(p, r as int, q));
                lemma_at2_parts(p, r as int, q);
                let row = fiber(xs, p, e as int, r as int, q);
                self.arith.lemma_fold_tally(row);
                let f = |a: int| self.at(world, v, c.update(k, a as nat));
                assert forall|a: int| 0 <= a < e implies #[trigger] row[a] == f(a) by {
                    lemma_axis_update(y.dims, c, k, e, a as nat);
                    assert(y.dims.update(k, e) =~= v.dims);
                }
                self.arith.lemma_tally_same(e as int, |a: int| row[a], f);
            }
        }
    }

    /// The sum of the elements of a tensor that broadcasting a shape `t` to the
    /// tensor's shape reads at `c`.
    pub open spec fn gathered(self, world: World<T>, g: Val, t: Seq<usize>, c: Seq<nat>) -> T {
        self.arith.tally(
            g.count() as int,
            |i: int|
                if under(t, coords(g.dims, i as nat)) == c {
                    self.nums(world, g)[i]
                } else {
                    self.arith.zero
                },
        )
    }

    /// What has been summed once the axes before `k` are folded.
    spec fn partly(
        self,
        world: World<T>,
        g: Val,
        t: Seq<usize>,
        k: int,
        c: Seq<nat>,
    ) -> T {
        self.arith.tally(
            g.count() as int,
            |i: int|
                if flat_before(t, k, coords(g.dims, i as nat)) == c {
                    self.nums(world, g)[i]
                } else {
                    self.arith.zero
                },
        )
    }

    /// Folding one axis more.
    proof fn lemma_fold_axis(
        self,
        world: World<T>,
        g: Val,
        t: Seq<usize>,
        k: int,
        c: Seq<nat>,
    )
        requires
            self.arith.exact(),
            t.len() == g.dims.len(),
            0 <= k < t.len(),
            t[k] == 1,
            c.len() == t.len(),
            c[k] == 0,
        ensures
            self.partly(world, g, t, k + 1, c) == self.arith.tally(
                g.dims[k] as int,
                |a: int| self.partly(world, g, t, k, c.update(k, a as nat)),
            ),
    {
        let n = g.count() as int;
        let e = g.dims[k] as int;
        let xs = self.nums(world, g);
        let at = |i: int| coords(g.dims, i as nat);
        let f = |a: int, i: int|
            if flat_before(t, k, at(i)) == c.update(k, a as nat) {
                xs[i]
            } else {
                self.arith.zero
            };
        self.arith.lemma_tally_swap(e, n, f);
        let rows = |a: int| self.arith.tally(n, |i: int| f(a, i));
        let held = |a: int| self.partly(world, g, t, k, c.update(k, a as nat));
        assert forall|a: int| 0 <= a < e implies #[trigger] held(a) == rows(a) by {
            self.arith.lemma_tally_same(
                n,
                |i: int|
                    if flat_before(t, k, coords(g.dims, i as nat)) == c.update(k, a as nat) {
                        self.nums(world, g)[i]
                    } else {
                        self.arith.zero
                    },
                |i: int| f(a, i),
            );
        }
        self.arith.lemma_tally_same(e, held, rows);
        let cols = |i: int| self.arith.tally(e, |a: int| f(a, i));
        let want = |i: int|
            if flat_before(t, k + 1, coords(g.dims, i as nat)) == c {
                self.nums(world, g)[i]
            } else {
                self.arith.zero
            };
        assert forall|i: int| 0 <= i < n implies #[trigger] cols(i) == want(i) by {
            let w = at(i);
            lemma_position_of_coords(g.dims, i as nat);
            let p = flat_before(t, k, w);
            let q = flat_before(t, k + 1, w);
            assert(q =~= p.update(k, 0));
            assert(p[k] == w[k]);
            assert(w[k] < g.dims[k]);
            let one = |a: int| f(a, i);
            if q == c {
                assert(p =~= c.update(k, w[k]));
                assert forall|a: int| 0 <= a < e && a != w[k] implies #[trigger] one(a)
                    == self.arith.zero by {
                    assert(c.update(k, a as nat)[k] == a);
                }
                self.arith.lemma_tally_one(e, one, w[k] as int);
            } else {
                assert forall|a: int| 0 <= a < e implies #[trigger] one(a) == self.arith.zero by {
                    if p == c.update(k, a as nat) {
                        assert(q =~= c);
                    }
                }
                self.arith.lemma_tally_nothing(e, one);
            }
        }
        self.arith.lemma_tally_same(n, cols, want);
    }

    /// Folding the axes from `k` on.
    proof fn lemma_folded(
        self,
        world: World<T>,
        g: Val,
        t: Seq<usize>,
        k: int,
        v: Val,
    )
        requires
            self.arith.exact(),
            expands_to(t, g.dims),
            regular(g.dims),
            0 <= k <= t.len(),
            v.dims == Seq::new(t.len(), |j: int| if j < k { t[j] } else { g.dims[j] }),
            self.filled(world, v),
            forall|c: Seq<nat>|
                in_range(v.dims, c) ==> #[trigger] self.at(world, v, c) == self.partly(
                    world,
                    g,
                    t,
                    k,
                    c,
                ),
            folded_val(v, t, k) is Ok,
        ensures
            ({
                let y = folded_val(v, t, k)->Ok_0;
                &&& y.dims == t
                &&& self.filled(world, y)
                &&& forall|c: Seq<nat>|
                    in_range(t, c) ==> #[trigger] self.at(world, y, c) == self.partly(
                        world,
                        g,
                        t,
                        t.len() as int,
                        c,
                    )
            }),
        decreases t.len() - k,
    {
        if k == t.len() {
            assert(v.dims =~= t);
        } else {
            let next = Seq::new(t.len(), |j: int| if j < k + 1 { t[j] } else { g.dims[j] });
            assert(t[k] == g.dims[k] || t[k] == 1);
            assert(v.dims[k] == g.dims[k]);
            if t[k] == 1 && v.dims[k] > 1 {
                let w = reduced_val(v, k)->Ok_0;
                assert(expands_to(v.dims, g.dims)) by {
                    assert forall|j: int| 0 <= j < v.dims.len() implies #[trigger] v.dims[j]
                        == g.dims[j] || v.dims[j] == 1 by {
                        assert(t[j] == g.dims[j] || t[j] == 1);
                    }
                }
                crate::broadcast::lemma_span_expand(v.dims, g.dims);
                lemma_positive(g.dims);
                self.lemma_reduced(world, v, k);
                assert(w.dims =~= next);
                assert forall|c: Seq<nat>| in_range(w.dims, c) implies #[trigger] self.at(
                    world,
                    w,
                    c,
                ) == self.partly(world, g, t, k + 1, c) by {
                    assert(c[k] < w.dims[k]);
                    self.lemma_fold_axis(world, g, t, k, c);
                    let e = g.dims[k] as int;
                    let f = |a: int| self.at(world, v, c.update(k, a as nat));
                    let h = |a: int| self.partly(world, g, t, k, c.update(k, a as nat));
                    assert forall|a: int| 0 <= a < e implies #[trigger] f(a) == h(a) by {
                        let u = c.update(k, a as nat);
                        assert(in_range(v.dims, u)) by {
                            assert forall|j: int| 0 <= j < u.len() implies u[j] < #[trigger] v.dims[j] by {
                                assert(c[j] < w.dims[j]);
                            }
                        }
                    }
                    self.arith.lemma_tally_same(e, f, h);
                }
                self.lemma_folded(world, g, t, k + 1, w);
            } else {
                assert(g.dims[k] >= 1);
                assert(v.dims =~= next);
                assert forall|c: Seq<nat>| in_range(v.dims, c) implies #[trigger] self.at(
                    world,
                    v,
                    c,
                ) == self.partly(world, g, t, k + 1, c) by {
                    let n = g.count() as int;
                    let f = |i: int|
                        if flat_before(t, k, coords(g.dims, i as nat)) == c {
                            self.nums(world, g)[i]
                        } else {
                            self.arith.zero
                        };
                    let h = |i: int|
                        if flat_before(t, k + 1, coords(g.dims, i as nat)) == c {
                            self.nums(world, g)[i]
                        } else {
                            self.arith.zero
                        };
                    assert forall|i: int| 0 <= i < n implies #[trigger] f(i) == h(i) by {
                        let w = coords(g.dims, i as nat);
                        lemma_position_of_coords(g.dims, i as nat);
                        assert(w[k] < g.dims[k]);
                        assert(flat_before(t, k, w) =~= flat_before(t, k + 1, w));
                    }
                    self.arith.lemma_tally_same(n, f, h);
                }
                self.lemma_folded(world, g, t, k + 1, v);
            }
        }
    }

    /// What summing a tensor back to a shape of its rank leaves.
    proof fn lemma_summed(self, world: World<T>, g: Val, t: Seq<usize>)
        requires
            self.arith.exact(),
            self.filled(world, g),
            expands_to(t, g.dims),
            regular(g.dims),
        ensures
            summed_val(g, t) matches Ok(y) && y.dims == t && self.filled(world, y) && forall|
                c: Seq<nat>,
            |
                in_range(t, c) ==> #[trigger] self.at(world, y, c) == self.gathered(world, g, t, c),
    {
        law_broadcast_sums_back(g, t);
        let y = summed_val(g, t)->Ok_0;
        let n = g.count() as int;
        assert(g.dims =~= Seq::new(t.len(), |j: int| if j < 0 { t[j] } else { g.dims[j] }));
        assert forall|c: Seq<nat>| in_range(g.dims, c) implies #[trigger] self.at(world, g, c)
            == self.partly(world, g, t, 0, c) by {
            let p = position(g.dims, c) as int;
            lemma_position_bound(g.dims, c);
            lemma_coords_of_position(g.dims, c);
            let f = |i: int|
                if flat_before(t, 0, coords(g.dims, i as nat)) == c {
                    self.nums(world, g)[i]
                } else {
                    self.arith.zero
                };
            assert forall|i: int| 0 <= i < n && i != p implies #[trigger] f(i)
                == self.arith.zero by {
                lemma_position_of_coords(g.dims, i as nat);
                let w = coords(g.dims, i as nat);
                assert(flat_before(t, 0, w) =~= w);
            }
            assert(flat_before(t, 0, c) =~= c);
            self.arith.lemma_tally_one(n, f, p);
        }
        if g.dims == t {
            assert forall|c: Seq<nat>| in_range(t, c) implies #[trigger] self.at(world, y, c)
                == self.gathered(world, g, t, c) by {
                self.lemma_all_folded(world, g, t, 0, c);
            }
        } else {
            self.lemma_folded(world, g, t, 0, g);
            assert forall|c: Seq<nat>| in_range(t, c) implies #[trigger] self.at(world, y, c)
                == self.gathered(world, g, t, c) by {
                self.lemma_all_folded(world, g, t, t.len() as int, c);
            }
        }
    }

    /// Once every axis that is to be summed is folded, what is read is what
    /// broadcasting reads.
    proof fn lemma_all_folded(
        self,
        world: World<T>,
        g: Val,
        t: Seq<usize>,
        k: int,
        c: Seq<nat>,
    )
        requires
            expands_to(t, g.dims),
            k == t.len() || (k == 0 && t == g.dims),
        ensures
            self.partly(world, g, t, k, c) == self.gathered(world, g, t, c),
    {
        let n = g.count() as int;
        let f = |i: int|
            if flat_before(t, k, coords(g.dims, i as nat)) == c {
                self.nums(world, g)[i]
            } else {
                self.arith.zero
            };
        let h = |i: int|
            if under(t, coords(g.dims, i as nat)) == c {
                self.nums(world, g)[i]
            } else {
                self.arith.zero
            };
        assert forall|i: int| 0 <= i < n implies #[trigger] f(i) == h(i) by {
            let w = coords(g.dims, i as nat);
            lemma_position_of_coords(g.dims, i as nat);
            assert forall|j: int| 0 <= j < t.len() implies flat_before(t, k, w)[j] == under(
                t,
                w,
            )[j] by {
                assert(w[j] < g.dims[j]);
            }
            assert(flat_before(t, k, w) =~= under(t, w));
        }
        self.arith.lemma_tally_same(n, f, h);
    }

    /// Summing a tensor back to a shape that was broadcast to the tensor's shape
    /// always succeeds, gives that shape, and holds at every place the sum of
    /// all elements that broadcasting reads there.
    pub proof fn law_summing_back_gathers_what_was_repeated(
        self,
        world: World<T>,
        g: Val,
        t: Seq<usize>,
    )
        requires
            self.arith.exact(),
            self.filled(world, g),
            t.len() <= g.dims.len(),
            regular(g.dims),
            forall|k: int|
                0 <= k < t.len() ==> #[trigger] facing(t, k) == facing(g.dims, k) || facing(t, k)
                    == 1,
        ensures
            summed_rank_val(g, t) matches Ok(y) && y.dims == t && self.filled(world, y) && forall|
                c: Seq<nat>,
            |
                in_range(t, c) ==> #[trigger] self.at(world, y, c) == self.gathered(world, g, t, c),
            t.len() == g.dims.len() ==> summed_val(g, t) == summed_rank_val(g, t),
    {
        let pad = (g.dims.len() - t.len()) as nat;
        let p = padded(t, pad);
        lemma_padded(t, pad);
        assert forall|i: int| 0 <= i < p.len() implies #[trigger] p[i] == g.dims[i] || p[i]
            == 1 by {
            if i >= pad {
                let k = p.len() - 1 - i;
                assert(facing(t, k) == p[i]);
                assert(facing(g.dims, k) == g.dims[i]);
            }
        }
        self.lemma_summed(world, g, p);
        if pad == 0 {
            assert(p =~= t);
        } else {
            let w = summed_val(g, p)->Ok_0;
            let y = summed_rank_val(g, t)->Ok_0;
            assert forall|c: Seq<nat>| in_range(t, c) implies #[trigger] self.at(world, y, c)
                == self.gathered(world, g, t, c) by {
                let u = Seq::new(pad, |i: int| 0nat) + c;
                assert(in_range(p, u)) by {
                    assert forall|i: int| 0 <= i < p.len() implies u[i] < #[trigger] p[i] by {
                        if i >= pad {
                            assert(c[i - pad] < t[i - pad]);
                        }
                    }
                }
                lemma_padded_position(t, pad, u);
                assert(u.subrange(pad as int, u.len() as int) =~= c);
                assert(self.at(world, w, u) == self.gathered(world, g, p, u));
                let n = g.count() as int;
                let f = |i: int|
                    if under(p, coords(g.dims, i as nat)) == u {
                        self.nums(world, g)[i]
                    } else {
                        self.arith.zero
                    };
                let h = |i: int|
                    if under(t, coords(g.dims, i as nat)) == c {
                        self.nums(world, g)[i]
                    } else {
                        self.arith.zero
                    };
                assert forall|i: int| 0 <= i < n implies #[trigger] f(i) == h(i) by {
                    let x = coords(g.dims, i as nat);
                    lemma_position_of_coords(g.dims, i as nat);
                    let (a, b) = (under(p, x), under(t, x));
                    assert(a =~= Seq::new(pad, |j: int| 0nat) + b) by {
                        assert forall|j: int| 0 <= j < a.len() implies a[j] == (Seq::new(
                            pad,
                            |q: int| 0nat,
                        ) + b)[j] by {
                            if j >= pad {
                                assert(p[j] == t[j - pad]);
                            }
                        }
                    }
                    if a == u {
                        assert(b =~= a.subrange(pad as int, a.len() as int));
                    }
                }
                self.arith.lemma_tally_same(n, f, h);
            }
        }
    }
}

/// Coordinates with those of the axes before `k` that are summed set to zero.
spec fn flat_before(t: Seq<usize>, k: int, c: Seq<nat>) -> Seq<nat> {
    Seq::new(
        c.len(),
        |j: int|
            if j < k && t[j] == 1 {
                0nat
            } else {
                c[j]
            },
    )
}

/// Two ways to say which elements every `step`-th one from `j` on are.
pub(crate) proof fn lemma_remainder(i: int, j: int, step: int)
    requires
        0 <= i,
        0 <= j < step,
    ensures
        i % step == j <==> i >= j && (i - j) % step == 0,
{
    vstd::arithmetic::div_mod::lemma_fundamental_div_mod(i, step);
    vstd::arithmetic::div_mod::lemma_mod_bound(i, step);
    if i % step == j {
        let q = i / step;
        assert(i - j == q * step) by (nonlinear_arith)
            requires
                i == step * q + j,
        ;
        vstd::arithmetic::div_mod::lemma_mod_multiples_basic(q, step);
        assert(i >= j) by (nonlinear_arith)
            requires
                i - j == q * step,
                i >= 0,
                0 <= j < step,
        ;
    } else if i >= j && (i - j) % step == 0 {
        let e = i - j;
        vstd::arithmetic::div_mod::lemma_fundamental_div_mod(e, step);
        let q = e / step;
        assert(i == q * step + j) by (nonlinear_arith)
            requires
                e == i - j,
                e == step * q + 0,
        ;
        vstd::arithmetic::div_mod::lemma_fundamental_div_mod_converse(i, step, q, j);
    }
}

} // verus!
