//! The gradients of a grouped convolution are its adjoints. Numbers are read
//! as integers through `val`.

use crate::adjoint::{
    at_or_zero, lemma_sum_add, lemma_sum_nothing, lemma_sum_one, lemma_sum_same, lemma_sum_scale,
    lemma_sum_split, lemma_sum_swap, sum,
};
use crate::host::{at2, at3, lemma_at2};
use crate::hostconv::{
    channel, column, dotted, gives, hits, input_grad_of, reached, summed, tap_of, taps,
    weight_grad_of, GradDims,
};
use crate::index::{
    column_from, law_columns_hold_what_the_taps_read, lemma_at2_parts, lemma_row_bound,
};
use crate::lanes::reads;
use vstd::prelude::*;

verus! {

/// Whether whatever an addition can give is read as the sum.
pub open spec fn sums<T, F: Fn(T, T) -> T>(plus: F, val: spec_fn(T) -> int) -> bool {
    forall|x: T, y: T, r: T| #[trigger] gives(plus, x, y, r) ==> val(r) == val(x) + val(y)
}

/// Whether whatever a multiplication can give is read as the product.
pub open spec fn products<T, F: Fn(T, T) -> T>(times: F, val: spec_fn(T) -> int) -> bool {
    forall|x: T, y: T, r: T| #[trigger] gives(times, x, y, r) ==> val(r) == val(x) * val(y)
}

/// What tap `k` reads of input channel `c` for output step `t`, or the padding.
pub open spec fn tapped<T>(
    val: spec_fn(T) -> int,
    x: Seq<T>,
    d: GradDims,
    b: int,
    c: int,
    t: int,
    k: int,
) -> int {
    at_or_zero(
        |p: int| val(x[at3(b, d.dims.c_in as int, c, d.dims.t_in as int, p)]),
        reads(d.dims, t, k),
    )
}

/// The weight of output channel `co` for tap `k` of the `i`-th channel of its
/// group.
pub open spec fn weight<T>(
    val: spec_fn(T) -> int,
    w: Seq<T>,
    d: GradDims,
    co: int,
    i: int,
    k: int,
) -> int {
    val(w[at2(co, d.width(), at2(i, d.dims.k_size as int, k))])
}

/// What the `i`-th channel of its group contributes to output channel `co` at
/// step `t`.
pub open spec fn contributed<T>(
    val: spec_fn(T) -> int,
    x: Seq<T>,
    w: Seq<T>,
    d: GradDims,
    b: int,
    co: int,
    i: int,
    t: int,
) -> int {
    let c = at2(co / d.out_per_group as int, d.per_group as int, i);
    sum(
        d.dims.k_size as int,
        |k: int| weight(val, w, d, co, i, k) * tapped(val, x, d, b, c, t, k),
    )
}

/// Output channel `co` of a grouped convolution at step `t`.
pub open spec fn convolved<T>(
    val: spec_fn(T) -> int,
    x: Seq<T>,
    w: Seq<T>,
    d: GradDims,
    b: int,
    co: int,
    t: int,
) -> int {
    sum(d.per_group as int, |i: int| contributed(val, x, w, d, b, co, i, t))
}

/// A chain of products is read as a sum of products.
proof fn lemma_dotted<T, A: Fn(T, T) -> T, M: Fn(T, T) -> T>(
    plus: A,
    times: M,
    val: spec_fn(T) -> int,
    zero: T,
    xs: Seq<T>,
    ys: Seq<T>,
    r: T,
)
    requires
        sums(plus, val),
        products(times, val),
        val(zero) == 0,
        xs.len() == ys.len(),
        dotted(plus, times, zero, xs, ys, r),
    ensures
        val(r) == sum(xs.len() as int, |i: int| val(xs[i]) * val(ys[i])),
    decreases xs.len(),
{
    let f = |i: int| val(xs[i]) * val(ys[i]);
    if xs.len() > 0 {
        let (m, p) = choose|m: T, p: T|
            dotted(plus, times, zero, xs.drop_last(), ys.drop_last(), m) && gives(
                times,
                xs.last(),
                ys.last(),
                p,
            ) && #[trigger] gives(plus, m, p, r);
        let (a, b) = (xs.drop_last(), ys.drop_last());
        lemma_dotted(plus, times, val, zero, a, b, m);
        lemma_sum_same(a.len() as int, |i: int| val(a[i]) * val(b[i]), f);
    }
}

/// What all output channels of the group of `c` make of tap `k` at step `t`,
/// weighted by their gradients.
spec fn pulled<T>(
    val: spec_fn(T) -> int,
    go: Seq<T>,
    w: Seq<T>,
    d: GradDims,
    b: int,
    c: int,
    t: int,
    k: int,
) -> int {
    let m = d.out_per_group as int;
    let g = c / d.per_group as int;
    sum(
        m,
        |o: int|
            weight(val, w, d, at2(g, m, o), c % d.per_group as int, k) * val(
                go[at3(b, d.c_out(), at2(g, m, o), d.dims.t_out as int, t)],
            ),
    )
}

/// What output step `t` gives back to input step `i`.
spec fn given_back<T>(
    val: spec_fn(T) -> int,
    go: Seq<T>,
    w: Seq<T>,
    d: GradDims,
    b: int,
    c: int,
    i: int,
    t: int,
) -> int {
    if hits(d, i, t) {
        pulled(val, go, w, d, b, c, t, tap_of(d, i, t))
    } else {
        0
    }
}

/// The gradient of an input step is read as the sum of what the output steps
/// give back.
proof fn lemma_input_grad<T, A: Fn(T, T) -> T, M: Fn(T, T) -> T>(
    plus: A,
    times: M,
    val: spec_fn(T) -> int,
    zero: T,
    go: Seq<T>,
    w: Seq<T>,
    d: GradDims,
    b: int,
    c: int,
    i: int,
    n: int,
    r: T,
)
    requires
        sums(plus, val),
        products(times, val),
        val(zero) == 0,
        input_grad_of(plus, times, zero, go, w, d, b, c, i, n, r),
    ensures
        val(r) == sum(n, |t: int| given_back(val, go, w, d, b, c, i, t)),
    decreases n,
{
    if n > 0 {
        if hits(d, i, n - 1) {
            let k = tap_of(d, i, n - 1);
            let xs = taps(w, d, c, k);
            let ys = reached(go, d, b, c, n - 1);
            let (m, p) = choose|m: T, p: T|
                input_grad_of(plus, times, zero, go, w, d, b, c, i, n - 1, m) && dotted(
                    plus,
                    times,
                    zero,
                    xs,
                    ys,
                    p,
                ) && #[trigger] gives(plus, m, p, r);
            lemma_input_grad(plus, times, val, zero, go, w, d, b, c, i, n - 1, m);
            lemma_dotted(plus, times, val, zero, xs, ys, p);
            let g = c / d.per_group as int;
            let o_n = d.out_per_group as int;
            lemma_sum_same(
                o_n,
                |o: int| val(xs[o]) * val(ys[o]),
                |o: int|
                    weight(val, w, d, at2(g, o_n, o), c % d.per_group as int, k) * val(
                        go[at3(b, d.c_out(), at2(g, o_n, o), d.dims.t_out as int, n - 1)],
                    ),
            );
        } else {
            lemma_input_grad(plus, times, val, zero, go, w, d, b, c, i, n - 1, r);
        }
    }
}

/// Sliding a window along the input: weighting the input steps by their taps
/// is weighting the taps by the input steps.
proof fn lemma_window(d: GradDims, t: int, h: spec_fn(int) -> int, x: spec_fn(int) -> int)
    ensures
        sum(
            d.dims.t_in as int,
            |i: int|
                (if hits(d, i, t) {
                    h(tap_of(d, i, t))
                } else {
                    0
                }) * x(i),
        ) == sum(d.dims.k_size as int, |k: int| h(k) * at_or_zero(x, reads(d.dims, t, k))),
{
    let (n, m) = (d.dims.t_in as int, d.dims.k_size as int);
    let both = |i: int, k: int|
        if reads(d.dims, t, k) == Some(i) {
            h(k) * x(i)
        } else {
            0
        };
    let steps = |i: int|
        (if hits(d, i, t) {
            h(tap_of(d, i, t))
        } else {
            0
        }) * x(i);
    let tapsum = |k: int| h(k) * at_or_zero(x, reads(d.dims, t, k));
    let by_step = |i: int| sum(m, |k: int| both(i, k));
    let by_tap = |k: int| sum(n, |i: int| both(i, k));
    lemma_sum_swap(n, m, both);
    assert forall|i: int| 0 <= i < n implies #[trigger] steps(i) == by_step(i) by {
        let p = tap_of(d, i, t);
        let v = h(p) * x(i);
        lemma_sum_one(m, p, v);
        lemma_sum_same(
            m,
            |k: int| both(i, k),
            |k: int|
                if k == p {
                    v
                } else {
                    0
                },
        );
        assert(0 * x(i) == 0);
    }
    lemma_sum_same(n, steps, by_step);
    assert forall|k: int| 0 <= k < m implies #[trigger] tapsum(k) == by_tap(k) by {
        let p = match reads(d.dims, t, k) {
            Some(i) => i,
            None => -1,
        };
        let v = h(k) * x(p);
        lemma_sum_one(n, p, v);
        lemma_sum_same(
            n,
            |i: int| both(i, k),
            |i: int|
                if i == p {
                    v
                } else {
                    0
                },
        );
        assert(h(k) * 0 == 0);
    }
    lemma_sum_same(m, tapsum, by_tap);
}

/// Weighting by what every output makes of a tap, or adding up every output:
/// the same products, in two orders.
proof fn lemma_two_orders(
    steps: int,
    outs: int,
    taps_n: int,
    go: spec_fn(int, int) -> int,
    w: spec_fn(int, int) -> int,
    x: spec_fn(int, int) -> int,
)
    ensures
        sum(steps, |t: int| sum(taps_n, |k: int| sum(outs, |o: int| w(o, k) * go(o, t)) * x(t, k)))
            == sum(
            outs,
            |o: int| sum(steps, |t: int| go(o, t) * sum(taps_n, |k: int| w(o, k) * x(t, k))),
        ),
{
    let part = |o: int, t: int| go(o, t) * sum(taps_n, |k: int| w(o, k) * x(t, k));
    let by_step = |t: int|
        sum(taps_n, |k: int| sum(outs, |o: int| w(o, k) * go(o, t)) * x(t, k));
    let by_part = |t: int| sum(outs, |o: int| part(o, t));
    lemma_sum_swap(outs, steps, part);
    assert forall|t: int| #[trigger] by_step(t) == by_part(t) by {
        let term = |k: int, o: int| w(o, k) * go(o, t) * x(t, k);
        let left = |k: int| sum(outs, |o: int| w(o, k) * go(o, t)) * x(t, k);
        let left_terms = |k: int| sum(outs, |o: int| term(k, o));
        assert forall|k: int| #[trigger] left(k) == left_terms(k) by {
            lemma_sum_scale(outs, |o: int| w(o, k) * go(o, t), x(t, k));
            lemma_sum_same(
                outs,
                |o: int| (|o: int| w(o, k) * go(o, t))(o) * x(t, k),
                |o: int| term(k, o),
            );
        }
        lemma_sum_same(taps_n, left, left_terms);
        lemma_sum_swap(taps_n, outs, term);
        let right = |o: int| part(o, t);
        let right_terms = |o: int| sum(taps_n, |k: int| term(k, o));
        assert forall|o: int| #[trigger] right(o) == right_terms(o) by {
            let dot = |k: int| w(o, k) * x(t, k);
            let scaled = |k: int| dot(k) * go(o, t);
            let terms = |k: int| term(k, o);
            lemma_sum_scale(taps_n, dot, go(o, t));
            assert forall|k: int| #[trigger] scaled(k) == terms(k) by {
                let (p, q, r) = (w(o, k), x(t, k), go(o, t));
                assert((p * q) * r == (p * r) * q) by (nonlinear_arith);
            }
            lemma_sum_same(taps_n, scaled, terms);
            let (p, q) = (sum(taps_n, dot), go(o, t));
            assert(p * q == q * p) by (nonlinear_arith);
        }
        lemma_sum_same(outs, right, right_terms);
    }
    lemma_sum_same(steps, by_step, by_part);
    let ours = |o: int| sum(steps, |t: int| part(o, t));
    let theirs = |o: int|
        sum(steps, |t: int| go(o, t) * sum(taps_n, |k: int| w(o, k) * x(t, k)));
    assert forall|o: int| #[trigger] ours(o) == theirs(o) by {
        lemma_sum_same(
            steps,
            |t: int| part(o, t),
            |t: int| go(o, t) * sum(taps_n, |k: int| w(o, k) * x(t, k)),
        );
    }
    lemma_sum_same(outs, ours, theirs);
}

/// Weighted sums of parts add up to the weighted sums of what the parts make.
proof fn lemma_parts(
    parts: int,
    outs: int,
    steps: int,
    go: spec_fn(int, int) -> int,
    p: spec_fn(int, int, int) -> int,
)
    ensures
        sum(parts, |i: int| sum(outs, |o: int| sum(steps, |t: int| go(o, t) * p(i, o, t)))) == sum(
            outs,
            |o: int| sum(steps, |t: int| go(o, t) * sum(parts, |i: int| p(i, o, t))),
        ),
    decreases parts,
{
    if parts <= 0 {
        let all = |o: int| sum(steps, |t: int| go(o, t) * sum(parts, |i: int| p(i, o, t)));
        assert forall|o: int| #[trigger] all(o) == 0 by {
            let row = |t: int| go(o, t) * sum(parts, |i: int| p(i, o, t));
            assert forall|t: int| #[trigger] row(t) == 0 by {
                assert(go(o, t) * 0 == 0);
            }
            lemma_sum_nothing(steps, row);
        }
        lemma_sum_nothing(outs, all);
    } else {
        let n = parts - 1;
        lemma_parts(n, outs, steps, go, p);
        let all = |o: int| sum(steps, |t: int| go(o, t) * sum(parts, |i: int| p(i, o, t)));
        let less = |o: int| sum(steps, |t: int| go(o, t) * sum(n, |i: int| p(i, o, t)));
        let last = |o: int| sum(steps, |t: int| go(o, t) * p(n, o, t));
        assert forall|o: int| #[trigger] all(o) == less(o) + last(o) by {
            let whole = |t: int| go(o, t) * sum(parts, |i: int| p(i, o, t));
            let a = |t: int| go(o, t) * sum(n, |i: int| p(i, o, t));
            let b = |t: int| go(o, t) * p(n, o, t);
            assert forall|t: int| #[trigger] whole(t) == a(t) + b(t) by {
                let (x, y, z) = (go(o, t), sum(n, |i: int| p(i, o, t)), p(n, o, t));
                assert(sum(parts, |i: int| p(i, o, t)) == y + z);
                assert(x * (y + z) == x * y + x * z) by (nonlinear_arith);
            }
            lemma_sum_same(steps, whole, |t: int| a(t) + b(t));
            lemma_sum_add(steps, a, b);
        }
        lemma_sum_same(outs, all, |o: int| less(o) + last(o));
        lemma_sum_add(outs, less, last);
    }
}

/// Going through a matrix row by row.
proof fn lemma_rows(rows: int, n: int, f: spec_fn(int) -> int)
    requires
        rows >= 0,
        n >= 0,
    ensures
        sum(rows * n, f) == sum(rows, |i: int| sum(n, |j: int| f(at2(i, n, j)))),
    decreases rows,
{
    if rows == 0 {
        assert(0 * n == 0);
    } else {
        let r = rows - 1;
        lemma_rows(r, n, f);
        assert(rows * n == r * n + n && r * n >= 0) by (nonlinear_arith)
            requires
                rows == r + 1,
                r >= 0,
                n >= 0,
        ;
        lemma_sum_split(r * n, n, f);
        lemma_sum_same(n, |j: int| f(r * n + j), |j: int| f(at2(r, n, j)));
    }
}

/// What channel `i` of group `g` gets back is what it contributed.
proof fn lemma_channel<T, A: Fn(T, T) -> T, M: Fn(T, T) -> T>(
    plus: A,
    times: M,
    val: spec_fn(T) -> int,
    zero: T,
    x: Seq<T>,
    w: Seq<T>,
    go: Seq<T>,
    gx: Seq<T>,
    d: GradDims,
    b: int,
    g: int,
    i: int,
)
    requires
        sums(plus, val),
        products(times, val),
        val(zero) == 0,
        0 <= i < d.per_group,
        forall|p: int|
            0 <= p < d.dims.t_in ==> input_grad_of(
                plus,
                times,
                zero,
                go,
                w,
                d,
                b,
                at2(g, d.per_group as int, i),
                p,
                d.dims.t_out as int,
                gx[#[trigger] at3(
                    b,
                    d.dims.c_in as int,
                    at2(g, d.per_group as int, i),
                    d.dims.t_in as int,
                    p,
                )],
            ),
    ensures
        sum(
            d.dims.t_in as int,
            |p: int|
                val(
                    gx[at3(
                        b,
                        d.dims.c_in as int,
                        at2(g, d.per_group as int, i),
                        d.dims.t_in as int,
                        p,
                    )],
                ) * val(
                    x[at3(
                        b,
                        d.dims.c_in as int,
                        at2(g, d.per_group as int, i),
                        d.dims.t_in as int,
                        p,
                    )],
                ),
        ) == sum(
            d.out_per_group as int,
            |o: int|
                sum(
                    d.dims.t_out as int,
                    |t: int|
                        val(
                            go[at3(
                                b,
                                d.c_out(),
                                at2(g, d.out_per_group as int, o),
                                d.dims.t_out as int,
                                t,
                            )],
                        ) * contributed(val, x, w, d, b, at2(g, d.out_per_group as int, o), i, t),
                ),
        ),
{
    let c = at2(g, d.per_group as int, i);
    let (tn, ti) = (d.dims.t_out as int, d.dims.t_in as int);
    let (m, kn) = (d.out_per_group as int, d.dims.k_size as int);
    lemma_at2_parts(g, d.per_group as int, i);
    let xs = |p: int| val(x[at3(b, d.dims.c_in as int, c, ti, p)]);
    let back = |p: int, t: int| given_back(val, go, w, d, b, c, p, t) * xs(p);
    let gained = |p: int|
        val(gx[at3(b, d.dims.c_in as int, c, ti, p)]) * val(
            x[at3(b, d.dims.c_in as int, c, ti, p)],
        );
    let gained_by = |p: int| sum(tn, |t: int| back(p, t));
    assert forall|p: int| 0 <= p < ti implies #[trigger] gained(p) == gained_by(p) by {
        let r = gx[at3(b, d.dims.c_in as int, c, ti, p)];
        lemma_input_grad(plus, times, val, zero, go, w, d, b, c, p, tn, r);
        let h = |t: int| given_back(val, go, w, d, b, c, p, t);
        lemma_sum_scale(tn, h, xs(p));
        lemma_sum_same(tn, |t: int| h(t) * xs(p), |t: int| back(p, t));
    }
    lemma_sum_same(ti, gained, gained_by);
    lemma_sum_swap(ti, tn, back);
    let gos = |o: int, t: int| val(go[at3(b, d.c_out(), at2(g, m, o), tn, t)]);
    let ws = |o: int, k: int| weight(val, w, d, at2(g, m, o), i, k);
    let reading = |t: int, k: int| tapped(val, x, d, b, c, t, k);
    let windows = |t: int| sum(ti, |p: int| back(p, t));
    let pulls = |t: int| sum(kn, |k: int| sum(m, |o: int| ws(o, k) * gos(o, t)) * reading(t, k));
    assert forall|t: int| #[trigger] windows(t) == pulls(t) by {
        let h = |k: int| pulled(val, go, w, d, b, c, t, k);
        let one = |p: int|
            (if hits(d, p, t) {
                h(tap_of(d, p, t))
            } else {
                0
            }) * xs(p);
        lemma_window(d, t, h, xs);
        lemma_sum_same(ti, |p: int| back(p, t), one);
        let before = |k: int| h(k) * at_or_zero(xs, reads(d.dims, t, k));
        let after = |k: int| sum(m, |o: int| ws(o, k) * gos(o, t)) * reading(t, k);
        assert forall|k: int| #[trigger] before(k) == after(k) by {
            lemma_sum_same(
                m,
                |o: int|
                    weight(val, w, d, at2(g, m, o), c % d.per_group as int, k) * val(
                        go[at3(b, d.c_out(), at2(g, m, o), tn, t)],
                    ),
                |o: int| ws(o, k) * gos(o, t),
            );
        }
        lemma_sum_same(kn, before, after);
    }
    lemma_sum_same(tn, windows, pulls);
    lemma_two_orders(tn, m, kn, gos, ws, reading);
    let found = |o: int|
        sum(tn, |t: int| gos(o, t) * sum(kn, |k: int| ws(o, k) * reading(t, k)));
    let stated = |o: int|
        sum(
            tn,
            |t: int|
                val(go[at3(b, d.c_out(), at2(g, m, o), tn, t)]) * contributed(
                    val,
                    x,
                    w,
                    d,
                    b,
                    at2(g, m, o),
                    i,
                    t,
                ),
        );
    assert forall|o: int| 0 <= o < m implies #[trigger] found(o) == stated(o) by {
        lemma_at2_parts(g, m, o);
        let f = |t: int| gos(o, t) * sum(kn, |k: int| ws(o, k) * reading(t, k));
        let h = |t: int|
            val(go[at3(b, d.c_out(), at2(g, m, o), tn, t)]) * contributed(
                val,
                x,
                w,
                d,
                b,
                at2(g, m, o),
                i,
                t,
            );
        assert forall|t: int| #[trigger] f(t) == h(t) by {
            lemma_sum_same(
                kn,
                |k: int| ws(o, k) * reading(t, k),
                |k: int| weight(val, w, d, at2(g, m, o), i, k) * tapped(val, x, d, b, c, t, k),
            );
        }
        lemma_sum_same(tn, f, h);
    }
    lemma_sum_same(m, found, stated);
}

/// The input's gradient of a grouped convolution is its adjoint: for every
/// batch entry and group, weighting the output by its gradient gives what
/// weighting the input by its gradient gives.
pub proof fn law_grouped_gradients_are_adjoint<T, A: Fn(T, T) -> T, M: Fn(T, T) -> T>(
    plus: A,
    times: M,
    val: spec_fn(T) -> int,
    zero: T,
    x: Seq<T>,
    w: Seq<T>,
    go: Seq<T>,
    gx: Seq<T>,
    d: GradDims,
    b: int,
    g: int,
)
    requires
        sums(plus, val),
        products(times, val),
        val(zero) == 0,
        d.dims.c_in == d.groups * d.per_group,
        0 <= b < d.dims.batch,
        0 <= g < d.groups,
        forall|p: int, c: int, i: int|
            0 <= p < d.dims.batch && 0 <= c < d.dims.c_in && 0 <= i < d.dims.t_in ==> input_grad_of(
                plus,
                times,
                zero,
                go,
                w,
                d,
                p,
                c,
                i,
                d.dims.t_out as int,
                gx[#[trigger] at3(p, d.dims.c_in as int, c, d.dims.t_in as int, i)],
            ),
    ensures
        sum(
            d.out_per_group as int,
            |o: int|
                sum(
                    d.dims.t_out as int,
                    |t: int|
                        val(
                            go[at3(
                                b,
                                d.c_out(),
                                at2(g, d.out_per_group as int, o),
                                d.dims.t_out as int,
                                t,
                            )],
                        ) * convolved(val, x, w, d, b, at2(g, d.out_per_group as int, o), t),
                ),
        ) == sum(
            d.per_group as int,
            |i: int|
                sum(
                    d.dims.t_in as int,
                    |p: int|
                        val(
                            gx[at3(
                                b,
                                d.dims.c_in as int,
                                at2(g, d.per_group as int, i),
                                d.dims.t_in as int,
                                p,
                            )],
                        ) * val(
                            x[at3(
                                b,
                                d.dims.c_in as int,
                                at2(g, d.per_group as int, i),
                                d.dims.t_in as int,
                                p,
                            )],
                        ),
                ),
        ),
{
    let (tn, ti) = (d.dims.t_out as int, d.dims.t_in as int);
    let (m, n) = (d.out_per_group as int, d.per_group as int);
    let cn = d.dims.c_in as int;
    let gos = |o: int, t: int| val(go[at3(b, d.c_out(), at2(g, m, o), tn, t)]);
    let parts = |i: int, o: int, t: int| contributed(val, x, w, d, b, at2(g, m, o), i, t);
    let gained = |i: int|
        sum(
            ti,
            |p: int|
                val(gx[at3(b, cn, at2(g, n, i), ti, p)]) * val(x[at3(b, cn, at2(g, n, i), ti, p)]),
        );
    let given = |i: int| sum(m, |o: int| sum(tn, |t: int| gos(o, t) * parts(i, o, t)));
    assert forall|i: int| 0 <= i < n implies #[trigger] gained(i) == given(i) by {
        lemma_at2(g, n, i, d.groups as int);
        lemma_channel(plus, times, val, zero, x, w, go, gx, d, b, g, i);
        let stated = |o: int|
            sum(
                tn,
                |t: int|
                    val(go[at3(b, d.c_out(), at2(g, m, o), tn, t)]) * contributed(
                        val,
                        x,
                        w,
                        d,
                        b,
                        at2(g, m, o),
                        i,
                        t,
                    ),
            );
        let here = |o: int| sum(tn, |t: int| gos(o, t) * parts(i, o, t));
        assert forall|o: int| #[trigger] stated(o) == here(o) by {
            lemma_sum_same(
                tn,
                |t: int|
                    val(go[at3(b, d.c_out(), at2(g, m, o), tn, t)]) * contributed(
                        val,
                        x,
                        w,
                        d,
                        b,
                        at2(g, m, o),
                        i,
                        t,
                    ),
                |t: int| gos(o, t) * parts(i, o, t),
            );
        }
        lemma_sum_same(m, stated, here);
    }
    lemma_sum_same(n, gained, given);
    lemma_parts(n, m, tn, gos, parts);
    let found = |o: int| sum(tn, |t: int| gos(o, t) * sum(n, |i: int| parts(i, o, t)));
    let stated = |o: int|
        sum(
            tn,
            |t: int|
                val(go[at3(b, d.c_out(), at2(g, m, o), tn, t)]) * convolved(
                    val,
                    x,
                    w,
                    d,
                    b,
                    at2(g, m, o),
                    t,
                ),
        );
    assert forall|o: int| #[trigger] found(o) == stated(o) by {
        let f = |t: int| gos(o, t) * sum(n, |i: int| parts(i, o, t));
        let h = |t: int|
            val(go[at3(b, d.c_out(), at2(g, m, o), tn, t)]) * convolved(
                val,
                x,
                w,
                d,
                b,
                at2(g, m, o),
                t,
            );
        assert forall|t: int| #[trigger] f(t) == h(t) by {
            lemma_sum_same(
                n,
                |i: int| parts(i, o, t),
                |i: int| contributed(val, x, w, d, b, at2(g, m, o), i, t),
            );
        }
        lemma_sum_same(tn, f, h);
    }
    lemma_sum_same(m, found, stated);
}

/// Whether `col` holds the columns of the input `x`.
pub open spec fn columns_of<T>(zero: T, x: Seq<T>, d: GradDims, col: Seq<T>) -> bool {
    forall|i: int|
        0 <= i < d.rows() * (d.dims.c_in * d.dims.k_size) ==> #[trigger] col[i] == (
        match column_from(d.dims, i) {
            Some(p) => x[p],
            None => zero,
        })
}

/// One row of the columns of a group against the weights of output channel
/// `co` is the output.
pub(crate) proof fn lemma_row<T>(
    val: spec_fn(T) -> int,
    zero: T,
    x: Seq<T>,
    w: Seq<T>,
    col: Seq<T>,
    d: GradDims,
    co: int,
    b: int,
    t: int,
)
    requires
        val(zero) == 0,
        d.dims.c_in == d.groups * d.per_group,
        columns_of(zero, x, d, col),
        0 <= co < d.c_out(),
        0 <= b < d.dims.batch,
        0 <= t < d.dims.t_out,
    ensures
        sum(
            d.width(),
            |j: int|
                val(w[at2(co, d.width(), j)]) * val(
                    col[at2(
                        at2(b, d.dims.t_out as int, t),
                        d.dims.c_in * d.dims.k_size,
                        co / d.out_per_group as int * d.width() + j,
                    )],
                ),
        ) == convolved(val, x, w, d, b, co, t),
{
    let (n, kn, tn) = (d.per_group as int, d.dims.k_size as int, d.dims.t_out as int);
    let g = co / d.out_per_group as int;
    let cols = d.dims.c_in * d.dims.k_size;
    let row = at2(b, tn, t);
    lemma_row_bound(co, d.groups as int, d.out_per_group as int);
    let f = |j: int|
        val(w[at2(co, d.width(), j)]) * val(col[at2(row, cols, g * d.width() + j)]);
    lemma_rows(n, kn, f);
    let found = |i: int| sum(kn, |k: int| f(at2(i, kn, k)));
    let stated = |i: int| contributed(val, x, w, d, b, co, i, t);
    assert forall|i: int| 0 <= i < n implies #[trigger] found(i) == stated(i) by {
        let c = at2(g, n, i);
        lemma_at2(g, n, i, d.groups as int);
        let h = |k: int| weight(val, w, d, co, i, k) * tapped(val, x, d, b, c, t, k);
        let e = |k: int| f(at2(i, kn, k));
        assert forall|k: int| 0 <= k < kn implies #[trigger] e(k) == h(k) by {
            assert(g * (n * kn) + (i * kn + k) == (g * n + i) * kn + k) by (nonlinear_arith);
            lemma_at2(c, kn, k, d.dims.c_in as int);
            lemma_at2(b, tn, t, d.dims.batch as int);
            lemma_at2(row, cols, at2(c, kn, k), d.rows());
            law_columns_hold_what_the_taps_read(d.dims, b, t, c, k);
            assert(val(col[at2(row, cols, at2(c, kn, k))]) == tapped(val, x, d, b, c, t, k));
        }
        lemma_sum_same(kn, e, h);
    }
    lemma_sum_same(n, found, stated);
}

/// The weight's gradient of a grouped convolution is its adjoint: for every
/// output channel, weighting the output by its gradient gives what weighting
/// the weights by their gradient gives.
pub proof fn law_grouped_weight_gradients_are_adjoint<T, A: Fn(T, T) -> T, M: Fn(T, T) -> T>(
    plus: A,
    times: M,
    val: spec_fn(T) -> int,
    zero: T,
    x: Seq<T>,
    w: Seq<T>,
    go: Seq<T>,
    col: Seq<T>,
    gw: Seq<T>,
    d: GradDims,
    co: int,
)
    requires
        sums(plus, val),
        products(times, val),
        val(zero) == 0,
        d.dims.c_in == d.groups * d.per_group,
        columns_of(zero, x, d, col),
        0 <= co < d.c_out(),
        forall|c: int, j: int|
            0 <= c < d.c_out() && 0 <= j < d.width() ==> weight_grad_of(
                plus,
                times,
                zero,
                go,
                col,
                d,
                c,
                j,
                gw[#[trigger] at2(c, d.width(), j)],
            ),
    ensures
        sum(
            d.dims.batch as int,
            |b: int|
                sum(
                    d.dims.t_out as int,
                    |t: int|
                        val(go[at3(b, d.c_out(), co, d.dims.t_out as int, t)]) * convolved(
                            val,
                            x,
                            w,
                            d,
                            b,
                            co,
                            t,
                        ),
                ),
        ) == sum(
            d.width(),
            |j: int| val(gw[at2(co, d.width(), j)]) * val(w[at2(co, d.width(), j)]),
        ),
{
    let (bn, tn, n) = (d.dims.batch as int, d.dims.t_out as int, d.width());
    let g = co / d.out_per_group as int;
    let cols = d.dims.c_in * d.dims.k_size;
    let rows = d.rows();
    let gos = channel(go, bn, d.c_out(), tn, co);
    let ws = |j: int| val(w[at2(co, n, j)]);
    let entry = |j: int, r: int| val(gos[r]) * val(col[at2(r, cols, g * n + j)]) * ws(j);
    assert(rows >= 0) by (nonlinear_arith)
        requires
            rows == bn * tn,
            bn >= 0,
            tn >= 0,
    ;
    let gained = |j: int| val(gw[at2(co, n, j)]) * val(w[at2(co, n, j)]);
    let gained_by = |j: int| sum(rows, |r: int| entry(j, r));
    assert forall|j: int| 0 <= j < n implies #[trigger] gained(j) == gained_by(j) by {
        let ys = column(col, rows, cols, g * n + j);
        let r = gw[at2(co, n, j)];
        assert(weight_grad_of(plus, times, zero, go, col, d, co, j, r));
        let s = choose|s: T| #[trigger]
            dotted(plus, times, zero, gos, ys, s) && plus.ensures((zero, s), r);
        assert(gives(plus, zero, s, r));
        lemma_dotted(plus, times, val, zero, gos, ys, s);
        let f = |i: int| val(gos[i]) * val(ys[i]);
        lemma_sum_scale(rows, f, ws(j));
        lemma_sum_same(rows, |i: int| f(i) * ws(j), |i: int| entry(j, i));
    }
    lemma_sum_same(n, gained, gained_by);
    lemma_sum_swap(n, rows, entry);
    let by_row = |r: int| sum(n, |j: int| entry(j, r));
    lemma_rows(bn, tn, by_row);
    let found = |b: int| sum(tn, |t: int| by_row(at2(b, tn, t)));
    let stated = |b: int|
        sum(
            tn,
            |t: int| val(go[at3(b, d.c_out(), co, tn, t)]) * convolved(val, x, w, d, b, co, t),
        );
    assert forall|b: int| 0 <= b < bn implies #[trigger] found(b) == stated(b) by {
        let e = |t: int| by_row(at2(b, tn, t));
        let h = |t: int|
            val(go[at3(b, d.c_out(), co, tn, t)]) * convolved(val, x, w, d, b, co, t);
        assert forall|t: int| 0 <= t < tn implies #[trigger] e(t) == h(t) by {
            let r = at2(b, tn, t);
            lemma_at2(b, tn, t, bn);
            lemma_at2_parts(b, tn, t);
            lemma_row(val, zero, x, w, col, d, co, b, t);
            let a = val(gos[r]);
            let dot = |j: int| val(w[at2(co, n, j)]) * val(col[at2(r, cols, g * n + j)]);
            let scaled = |j: int| dot(j) * a;
            let terms = |j: int| entry(j, r);
            lemma_sum_scale(n, dot, a);
            assert forall|j: int| #[trigger] scaled(j) == terms(j) by {
                let (p, q) = (ws(j), val(col[at2(r, cols, g * n + j)]));
                assert((p * q) * a == (a * q) * p) by (nonlinear_arith);
            }
            lemma_sum_same(n, scaled, terms);
            let s = sum(n, dot);
            assert(s * a == a * s) by (nonlinear_arith);
        }
        lemma_sum_same(tn, e, h);
    }
    lemma_sum_same(bn, found, stated);
}

/// A chain of additions is read as a sum.
proof fn lemma_summed<T, A: Fn(T, T) -> T>(
    plus: A,
    val: spec_fn(T) -> int,
    zero: T,
    xs: Seq<T>,
    r: T,
)
    requires
        sums(plus, val),
        val(zero) == 0,
        summed(plus, zero, xs, r),
    ensures
        val(r) == sum(xs.len() as int, |i: int| val(xs[i])),
    decreases xs.len(),
{
    if xs.len() > 0 {
        let a = xs.drop_last();
        let m = choose|m: T| summed(plus, zero, a, m) && #[trigger] gives(plus, m, xs.last(), r);
        lemma_summed(plus, val, zero, a, m);
        lemma_sum_same(a.len() as int, |i: int| val(a[i]), |i: int| val(xs[i]));
    }
}

/// The bias's gradient of a convolution is its adjoint: weighting the bias at
/// every step by the output's gradient is weighting it once by its own.
pub proof fn law_bias_gradients_are_adjoint<T, A: Fn(T, T) -> T>(
    plus: A,
    val: spec_fn(T) -> int,
    zero: T,
    go: Seq<T>,
    batch: int,
    channels: int,
    steps: int,
    c: int,
    bias: int,
    r: T,
)
    requires
        sums(plus, val),
        val(zero) == 0,
        batch >= 0,
        steps >= 0,
        summed(plus, zero, channel(go, batch, channels, steps, c), r),
    ensures
        sum(batch, |b: int| sum(steps, |t: int| val(go[at3(b, channels, c, steps, t)]) * bias))
            == val(r) * bias,
{
    let xs = channel(go, batch, channels, steps, c);
    let f = |i: int| val(xs[i]);
    assert(batch * steps >= 0) by (nonlinear_arith)
        requires
            batch >= 0,
            steps >= 0,
    ;
    lemma_summed(plus, val, zero, xs, r);
    lemma_rows(batch, steps, f);
    let found = |b: int| sum(steps, |t: int| f(at2(b, steps, t)));
    let stated = |b: int| sum(steps, |t: int| val(go[at3(b, channels, c, steps, t)]) * bias);
    let scaled = |b: int| found(b) * bias;
    assert forall|b: int| 0 <= b < batch implies #[trigger] scaled(b) == stated(b) by {
        let row = |t: int| f(at2(b, steps, t));
        let left = |t: int| row(t) * bias;
        let right = |t: int| val(go[at3(b, channels, c, steps, t)]) * bias;
        lemma_sum_scale(steps, row, bias);
        assert forall|t: int| 0 <= t < steps implies #[trigger] left(t) == right(t) by {
            lemma_at2(b, steps, t, batch);
            lemma_at2_parts(b, steps, t);
        }
        lemma_sum_same(steps, left, right);
    }
    lemma_sum_scale(batch, found, bias);
    lemma_sum_same(batch, scaled, stated);
}

} // verus!
