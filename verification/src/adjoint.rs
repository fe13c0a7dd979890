//! Gradients are adjoints: weighting an operation's output by the gradient
//! that comes in is weighting its input by the gradient that goes out. Numbers
//! are read as integers through `val`, under which the kernels' operations
//! are sums and products.

use crate::conv::ConvDims;
use crate::gemm::{
    law_exchanged_factors_make_the_row_major_product, row_major_config, GemmConfig,
};
use crate::host::{at2, at3};
use crate::index::{lemma_at2_parts, transposed_from};
use crate::lanes::{
    ap, depthwise_back_sum, depthwise_sum, fold, halves_down, law_gradient_follows_the_taps,
    read_by, reads, tap_sum, tap_sums, tree,
};
use crate::scatter::collected;
use vstd::prelude::*;

verus! {

/// The sum of `s`.
pub open spec fn total(s: Seq<int>) -> int
    decreases s.len(),
{
    if s.len() == 0 {
        0
    } else {
        total(s.drop_last()) + s.last()
    }
}

/// The sum of the products of `a` and `b`, element by element.
pub open spec fn dot(a: Seq<int>, b: Seq<int>) -> int
    decreases a.len(),
{
    if a.len() == 0 {
        0
    } else {
        dot(a.drop_last(), b.drop_last()) + a.last() * b.last()
    }
}

/// What the elements of `s` are read as.
pub open spec fn vals<T>(s: Seq<T>, val: spec_fn(T) -> int) -> Seq<int> {
    Seq::new(s.len(), |i: int| val(s[i]))
}

/// Whether an operation is read as addition.
pub open spec fn adds<T, F: Fn(T, T) -> T>(plus: F, val: spec_fn(T) -> int) -> bool {
    forall|x: T, y: T| val(#[trigger] ap(plus, x, y)) == val(x) + val(y)
}

/// A chain of additions is read as a sum.
pub proof fn lemma_fold_adds<T, F: Fn(T, T) -> T>(
    plus: F,
    val: spec_fn(T) -> int,
    acc: T,
    xs: Seq<T>,
)
    requires
        adds(plus, val),
    ensures
        val(fold(plus, acc, xs)) == val(acc) + total(vals(xs, val)),
    decreases xs.len(),
{
    if xs.len() > 0 {
        lemma_fold_adds(plus, val, acc, xs.drop_last());
        assert(vals(xs, val).drop_last() =~= vals(xs.drop_last(), val));
    }
}

/// Adding `g` to one weight.
proof fn lemma_dot_update(a: Seq<int>, b: Seq<int>, p: int, g: int)
    requires
        a.len() == b.len(),
        0 <= p < a.len(),
    ensures
        dot(a.update(p, a[p] + g), b) == dot(a, b) + g * b[p],
    decreases a.len(),
{
    let u = a.update(p, a[p] + g);
    let n = a.len() - 1;
    if p == n {
        assert(u.drop_last() =~= a.drop_last());
        assert((a[p] + g) * b[p] == a[p] * b[p] + g * b[p]) by (nonlinear_arith);
    } else {
        assert(u.drop_last() =~= a.drop_last().update(p, a[p] + g));
        lemma_dot_update(a.drop_last(), b.drop_last(), p, g);
    }
}

/// Adding `g` to every weight.
proof fn lemma_dot_shift(a: Seq<int>, b: Seq<int>, g: int)
    requires
        a.len() == b.len(),
    ensures
        dot(Seq::new(a.len(), |i: int| a[i] + g), b) == dot(a, b) + g * total(b),
    decreases a.len(),
{
    let u = Seq::new(a.len(), |i: int| a[i] + g);
    if a.len() > 0 {
        let (x, y, t) = (a.last(), b.last(), total(b.drop_last()));
        lemma_dot_shift(a.drop_last(), b.drop_last(), g);
        assert(u.drop_last() =~= Seq::new(
            a.drop_last().len(),
            |i: int| a.drop_last()[i] + g,
        ));
        assert((x + g) * y == x * y + g * y) by (nonlinear_arith);
        assert(g * (t + y) == g * t + g * y) by (nonlinear_arith);
    } else {
        assert(g * 0 == 0);
    }
}

/// Weights of zero.
proof fn lemma_dot_zeros(a: Seq<int>, b: Seq<int>)
    requires
        a.len() == b.len(),
        forall|i: int| 0 <= i < a.len() ==> #[trigger] a[i] == 0,
    ensures
        dot(a, b) == 0,
    decreases a.len(),
{
    if a.len() > 0 {
        lemma_dot_zeros(a.drop_last(), b.drop_last());
        assert(a.last() == a[a.len() - 1]);
        assert(0 * b.last() == 0);
    }
}

/// What the outputs of a lookup read.
pub open spec fn read<T>(src: Seq<T>, sources: Seq<Option<usize>>, zero: T) -> Seq<T> {
    Seq::new(
        sources.len(),
        |i: int|
            match sources[i] {
                Some(p) => src[p as int],
                None => zero,
            },
    )
}

/// What adding every output's gradient to what it read makes of zeros.
pub open spec fn spread<T, F: Fn(T, T) -> T>(
    plus: F,
    zero: T,
    n: nat,
    sources: Seq<Option<usize>>,
    go: Seq<T>,
) -> Seq<T> {
    Seq::new(n, |p: int| fold(plus, zero, collected(go, sources, p)))
}

/// The gradient of a lookup is its adjoint.
pub proof fn law_lookup_gradients_are_adjoint<T, F: Fn(T, T) -> T>(
    plus: F,
    val: spec_fn(T) -> int,
    zero: T,
    src: Seq<T>,
    sources: Seq<Option<usize>>,
    go: Seq<T>,
)
    requires
        adds(plus, val),
        val(zero) == 0,
        sources.len() == go.len(),
        forall|i: int|
            0 <= i < sources.len() ==> (#[trigger] sources[i] matches Some(p) ==> p < src.len()),
    ensures
        dot(vals(go, val), vals(read(src, sources, zero), val)) == dot(
            vals(spread(plus, zero, src.len(), sources, go), val),
            vals(src, val),
        ),
    decreases sources.len(),
{
    let g = vals(go, val);
    let r = vals(read(src, sources, zero), val);
    let s = vals(src, val);
    let w = vals(spread(plus, zero, src.len(), sources, go), val);
    if sources.len() == 0 {
        assert forall|p: int| 0 <= p < w.len() implies #[trigger] w[p] == 0 by {
            assert(collected(go, sources, p) =~= Seq::<T>::empty());
        }
        lemma_dot_zeros(w, s);
    } else {
        let n = sources.len() - 1;
        let rest = sources.drop_last();
        let less = go.drop_last();
        assert forall|i: int| 0 <= i < rest.len() implies (#[trigger] rest[i] matches Some(p)
            ==> p < src.len()) by {
            assert(rest[i] == sources[i]);
        }
        law_lookup_gradients_are_adjoint(plus, val, zero, src, rest, less);
        let w0 = vals(spread(plus, zero, src.len(), rest, less), val);
        assert(g.drop_last() =~= vals(less, val));
        assert(r.drop_last() =~= vals(read(src, rest, zero), val));
        assert forall|p: int| 0 <= p < src.len() implies #[trigger] collected(go, rest, p)
            == collected(less, rest, p) by {
            lemma_collected_prefix(go, less, rest, p);
        }
        match sources[n] {
            None => {
                assert(w =~= w0) by {
                    assert forall|p: int| 0 <= p < src.len() implies #[trigger] w[p] == w0[p] by {
                        assert(collected(go, sources, p) == collected(go, rest, p));
                    }
                }
                assert(g.last() * 0 == 0);
            },
            Some(q) => {
                let k = q as int;
                assert forall|p: int| 0 <= p < src.len() implies #[trigger] w[p] == w0.update(
                    k,
                    w0[k] + g[n],
                )[p] by {
                    let c = collected(go, rest, p);
                    assert(collected(go, rest, p) == collected(less, rest, p));
                    assert(w0[p] == val(fold(plus, zero, c)));
                    if p == k {
                        assert(collected(go, sources, p) == c.push(go[n]));
                        assert(c.push(go[n]).drop_last() =~= c);
                    } else {
                        assert(collected(go, sources, p) == c);
                    }
                }
                assert(w =~= w0.update(k, w0[k] + g[n]));
                lemma_dot_update(w0, s, k, g[n]);
            },
        }
    }
}

/// Later gradients do not matter to what earlier outputs read.
proof fn lemma_collected_prefix<T>(go: Seq<T>, less: Seq<T>, sources: Seq<Option<usize>>, p: int)
    requires
        sources.len() <= less.len(),
        sources.len() <= go.len(),
        forall|i: int| 0 <= i < sources.len() ==> #[trigger] go[i] == less[i],
    ensures
        collected(go, sources, p) == collected(less, sources, p),
    decreases sources.len(),
{
    if sources.len() > 0 {
        assert(go[sources.len() - 1] == less[sources.len() - 1]);
        lemma_collected_prefix(go, less, sources.drop_last(), p);
    }
}

/// The running sums of a row.
pub open spec fn running<T, F: Fn(T, T) -> T>(plus: F, zero: T, xs: Seq<T>) -> Seq<T> {
    Seq::new(xs.len(), |j: int| fold(plus, zero, xs.take(j + 1)))
}

/// The running sums of a row, from the end.
pub open spec fn running_back<T, F: Fn(T, T) -> T>(plus: F, zero: T, xs: Seq<T>) -> Seq<T> {
    Seq::new(xs.len(), |j: int| fold(plus, zero, xs.reverse().take(xs.len() - j)))
}

proof fn lemma_total_first(s: Seq<int>)
    requires
        s.len() > 0,
    ensures
        total(s) == s[0] + total(s.drop_first()),
    decreases s.len(),
{
    if s.len() > 1 {
        lemma_total_first(s.drop_last());
        assert(s.drop_last().drop_first() =~= s.drop_first().drop_last());
    } else {
        assert(s.drop_last() =~= Seq::<int>::empty());
        assert(s.drop_first() =~= Seq::<int>::empty());
    }
}

/// A sum does not depend on the direction.
proof fn lemma_total_reverse(s: Seq<int>)
    ensures
        total(s.reverse()) == total(s),
    decreases s.len(),
{
    if s.len() > 0 {
        let r = s.reverse();
        lemma_total_first(s);
        assert(r.drop_last() =~= s.drop_first().reverse());
        lemma_total_reverse(s.drop_first());
    }
}

/// Weighting running sums is weighting by the running sums from the end.
proof fn lemma_running(g: Seq<int>, x: Seq<int>)
    requires
        g.len() == x.len(),
    ensures
        dot(g, Seq::new(x.len(), |j: int| total(x.take(j + 1)))) == dot(
            Seq::new(g.len(), |j: int| total(g.skip(j))),
            x,
        ),
    decreases g.len(),
{
    let up = Seq::new(x.len(), |j: int| total(x.take(j + 1)));
    let down = Seq::new(g.len(), |j: int| total(g.skip(j)));
    if g.len() > 0 {
        let (g0, x0) = (g.drop_last(), x.drop_last());
        let n = g.len() - 1;
        lemma_running(g0, x0);
        let up0 = Seq::new(x0.len(), |j: int| total(x0.take(j + 1)));
        let down0 = Seq::new(g0.len(), |j: int| total(g0.skip(j)));
        assert forall|j: int| 0 <= j < n implies #[trigger] up[j] == up0[j] by {
            assert(x.take(j + 1) =~= x0.take(j + 1));
        }
        assert(up.drop_last() =~= up0);
        assert(x.take(n + 1) =~= x);
        let wide = down0.push(0);
        let shifted = Seq::new(wide.len(), |i: int| wide[i] + g[n]);
        assert forall|j: int| 0 <= j <= n implies #[trigger] down[j] == shifted[j] by {
            assert(g.skip(j).drop_last() =~= g0.skip(j));
            assert(g.skip(j).last() == g[n]);
            assert(total(g.skip(j)) == total(g0.skip(j)) + g[n]);
            if j == n {
                assert(g0.skip(j) =~= Seq::<int>::empty());
                assert(wide[j] == 0);
            } else {
                assert(wide[j] == down0[j]);
            }
        }
        assert(down =~= shifted);
        lemma_dot_shift(wide, x, g[n]);
        assert(wide.drop_last() =~= down0);
        assert(0 * x.last() == 0);
    }
}

/// The running sums from the end are the adjoint of running sums.
pub proof fn law_running_sum_gradients_are_adjoint<T, F: Fn(T, T) -> T>(
    plus: F,
    val: spec_fn(T) -> int,
    zero: T,
    xs: Seq<T>,
    go: Seq<T>,
)
    requires
        adds(plus, val),
        val(zero) == 0,
        xs.len() == go.len(),
    ensures
        dot(vals(go, val), vals(running(plus, zero, xs), val)) == dot(
            vals(running_back(plus, zero, go), val),
            vals(xs, val),
        ),
{
    let g = vals(go, val);
    let x = vals(xs, val);
    let n = xs.len() as int;
    assert(vals(running(plus, zero, xs), val) =~= Seq::new(
        x.len(),
        |j: int| total(x.take(j + 1)),
    )) by {
        assert forall|j: int| 0 <= j < n implies val(
            #[trigger] fold(plus, zero, xs.take(j + 1)),
        ) == total(x.take(j + 1)) by {
            lemma_fold_adds(plus, val, zero, xs.take(j + 1));
            assert(vals(xs.take(j + 1), val) =~= x.take(j + 1));
        }
    }
    assert(vals(running_back(plus, zero, go), val) =~= Seq::new(
        g.len(),
        |j: int| total(g.skip(j)),
    )) by {
        assert forall|j: int| 0 <= j < n implies val(
            #[trigger] fold(plus, zero, go.reverse().take(n - j)),
        ) == total(g.skip(j)) by {
            lemma_fold_adds(plus, val, zero, go.reverse().take(n - j));
            assert(vals(go.reverse().take(n - j), val) =~= g.skip(j).reverse());
            lemma_total_reverse(g.skip(j));
        }
    }
    lemma_running(g, x);
}

/// Repeating the gradient is the adjoint of summing.
pub proof fn law_sum_gradients_are_adjoint<T, F: Fn(T, T) -> T>(
    plus: F,
    val: spec_fn(T) -> int,
    zero: T,
    xs: Seq<T>,
    g: T,
)
    requires
        adds(plus, val),
        val(zero) == 0,
    ensures
        val(g) * val(fold(plus, zero, xs)) == dot(
            vals(Seq::new(xs.len(), |i: int| g), val),
            vals(xs, val),
        ),
{
    let x = vals(xs, val);
    let none = Seq::new(x.len(), |i: int| 0int);
    lemma_fold_adds(plus, val, zero, xs);
    lemma_dot_shift(none, x, val(g));
    lemma_dot_zeros(none, x);
    assert(vals(Seq::new(xs.len(), |i: int| g), val) =~= Seq::new(
        none.len(),
        |i: int| none[i] + val(g),
    ));
}

/// The sum of `f` over the first `n` numbers.
pub open spec fn sum(n: int, f: spec_fn(int) -> int) -> int
    decreases n,
{
    if n <= 0 {
        0
    } else {
        sum(n - 1, f) + f(n - 1)
    }
}

pub(crate) proof fn lemma_sum_same(n: int, f: spec_fn(int) -> int, g: spec_fn(int) -> int)
    requires
        forall|i: int| 0 <= i < n ==> #[trigger] f(i) == g(i),
    ensures
        sum(n, f) == sum(n, g),
    decreases n,
{
    if n > 0 {
        lemma_sum_same(n - 1, f, g);
        assert(f(n - 1) == g(n - 1));
    }
}

pub(crate) proof fn lemma_sum_add(n: int, f: spec_fn(int) -> int, g: spec_fn(int) -> int)
    ensures
        sum(n, |i: int| f(i) + g(i)) == sum(n, f) + sum(n, g),
    decreases n,
{
    if n > 0 {
        lemma_sum_add(n - 1, f, g);
    }
}

pub(crate) proof fn lemma_sum_scale(n: int, f: spec_fn(int) -> int, c: int)
    ensures
        sum(n, |i: int| f(i) * c) == sum(n, f) * c,
    decreases n,
{
    if n > 0 {
        let (r, x) = (sum(n - 1, f), f(n - 1));
        lemma_sum_scale(n - 1, f, c);
        assert((r + x) * c == r * c + x * c) by (nonlinear_arith);
    } else {
        assert(0 * c == 0);
    }
}

/// A sum with one element that is not zero.
pub(crate) proof fn lemma_sum_one(n: int, p: int, v: int)
    ensures
        sum(
            n,
            |i: int|
                if i == p {
                    v
                } else {
                    0
                },
        ) == (if 0 <= p < n {
            v
        } else {
            0
        }),
    decreases n,
{
    if n > 0 {
        lemma_sum_one(n - 1, p, v);
    }
}

pub(crate) proof fn lemma_sum_swap(n: int, m: int, f: spec_fn(int, int) -> int)
    ensures
        sum(n, |i: int| sum(m, |j: int| f(i, j))) == sum(m, |j: int| sum(n, |i: int| f(i, j))),
    decreases n,
{
    let rows = |i: int| sum(m, |j: int| f(i, j));
    let cols = |j: int| sum(n, |i: int| f(i, j));
    if n <= 0 {
        lemma_sum_nothing(m, cols);
    } else {
        lemma_sum_swap(n - 1, m, f);
        let less = |j: int| sum(n - 1, |i: int| f(i, j));
        let last = |j: int| f(n - 1, j);
        lemma_sum_add(m, less, last);
        lemma_sum_same(m, cols, |j: int| less(j) + last(j));
        assert(rows(n - 1) == sum(m, last));
    }
}

/// Whether an operation is read as multiplication.
pub open spec fn multiplies<T, F: Fn(T, T) -> T>(times: F, val: spec_fn(T) -> int) -> bool {
    forall|x: T, y: T| val(#[trigger] ap(times, x, y)) == val(x) * val(y)
}

/// An element where there is one, and zero where there is none.
pub open spec fn at_or_zero(f: spec_fn(int) -> int, p: Option<int>) -> int {
    match p {
        Some(i) => f(i),
        None => 0,
    }
}

/// Through one tap, weighting what the outputs read by their gradients is
/// weighting the inputs by the gradients of the outputs that read them.
proof fn lemma_tap(d: ConvDims, k: int, g: spec_fn(int) -> int, x: spec_fn(int) -> int)
    requires
        d.stride > 0,
    ensures
        sum(d.t_out as int, |t: int| g(t) * at_or_zero(x, reads(d, t, k))) == sum(
            d.t_in as int,
            |i: int| at_or_zero(g, read_by(d, i, k)) * x(i),
        ),
{
    let (n, m) = (d.t_out as int, d.t_in as int);
    let both = |t: int, i: int|
        if reads(d, t, k) == Some(i) {
            g(t) * x(i)
        } else {
            0
        };
    let out = |t: int| g(t) * at_or_zero(x, reads(d, t, k));
    let back = |i: int| at_or_zero(g, read_by(d, i, k)) * x(i);
    let by_out = |t: int| sum(m, |i: int| both(t, i));
    let by_in = |i: int| sum(n, |t: int| both(t, i));
    lemma_sum_swap(n, m, both);
    assert forall|t: int| 0 <= t < n implies #[trigger] out(t) == by_out(t) by {
        let p = match reads(d, t, k) {
            Some(i) => i,
            None => -1,
        };
        let v = g(t) * x(p);
        lemma_sum_one(m, p, v);
        lemma_sum_same(
            m,
            |i: int| both(t, i),
            |i: int|
                if i == p {
                    v
                } else {
                    0
                },
        );
        assert(g(t) * 0 == 0);
    }
    lemma_sum_same(n, out, by_out);
    assert forall|i: int| 0 <= i < m implies #[trigger] back(i) == by_in(i) by {
        let p = match read_by(d, i, k) {
            Some(t) => t,
            None => -1,
        };
        let v = g(p) * x(i);
        lemma_sum_one(n, p, v);
        assert forall|t: int| 0 <= t < n implies #[trigger] both(t, i) == (if t == p {
            v
        } else {
            0
        }) by {
            law_gradient_follows_the_taps(d, t, i, k);
        }
        lemma_sum_same(
            n,
            |t: int| both(t, i),
            |t: int|
                if t == p {
                    v
                } else {
                    0
                },
        );
        if read_by(d, i, k) is Some {
            let num = i + d.padding - k;
            assert(0 <= num / d.stride as int) by (nonlinear_arith)
                requires
                    num >= 0,
                    d.stride > 0,
            ;
        }
        assert(0 * x(i) == 0);
    }
    lemma_sum_same(m, back, by_in);
}

/// The gradient of a depthwise convolution's input is its adjoint, whatever
/// the number of taps, channel by channel.
pub proof fn law_depthwise_gradients_are_adjoint<T, A: Fn(T, T) -> T, M: Fn(T, T) -> T>(
    plus: A,
    times: M,
    val: spec_fn(T) -> int,
    zero: T,
    x: Seq<T>,
    w: Seq<T>,
    go: Seq<T>,
    d: ConvDims,
    b: int,
    c: int,
    n: int,
)
    requires
        adds(plus, val),
        multiplies(times, val),
        val(zero) == 0,
        d.stride > 0,
    ensures
        sum(
            d.t_out as int,
            |t: int|
                val(go[at3(b, d.c_in as int, c, d.t_out as int, t)]) * val(
                    depthwise_sum(plus, times, zero, x, w, d, b, c, t, n),
                ),
        ) == sum(
            d.t_in as int,
            |i: int|
                val(depthwise_back_sum(plus, times, zero, go, w, d, b, c, i, n)) * val(
                    x[at3(b, d.c_in as int, c, d.t_in as int, i)],
                ),
        ),
    decreases n,
{
    let (tn, ti) = (d.t_out as int, d.t_in as int);
    let g = |t: int| val(go[at3(b, d.c_in as int, c, d.t_out as int, t)]);
    let v = |i: int| val(x[at3(b, d.c_in as int, c, d.t_in as int, i)]);
    let out = |t: int|
        val(go[at3(b, d.c_in as int, c, d.t_out as int, t)]) * val(
            depthwise_sum(plus, times, zero, x, w, d, b, c, t, n),
        );
    let back = |i: int|
        val(depthwise_back_sum(plus, times, zero, go, w, d, b, c, i, n)) * val(
            x[at3(b, d.c_in as int, c, d.t_in as int, i)],
        );
    if n <= 0 {
        assert forall|t: int| #[trigger] out(t) == 0 by {
            assert(g(t) * 0 == 0);
        }
        assert forall|i: int| #[trigger] back(i) == 0 by {
            assert(0 * v(i) == 0);
        }
        lemma_sum_nothing(tn, out);
        lemma_sum_nothing(ti, back);
    } else {
        let k = n - 1;
        let wk = val(w[at2(c, d.k_size as int, k)]);
        law_depthwise_gradients_are_adjoint(plus, times, val, zero, x, w, go, d, b, c, k);
        let out0 = |t: int|
            val(go[at3(b, d.c_in as int, c, d.t_out as int, t)]) * val(
                depthwise_sum(plus, times, zero, x, w, d, b, c, t, k),
            );
        let back0 = |i: int|
            val(depthwise_back_sum(plus, times, zero, go, w, d, b, c, i, k)) * val(
                x[at3(b, d.c_in as int, c, d.t_in as int, i)],
            );
        let tap = |t: int| g(t) * at_or_zero(v, reads(d, t, k));
        let pat = |i: int| at_or_zero(g, read_by(d, i, k)) * v(i);
        lemma_tap(d, k, g, v);
        lemma_sum_scale(tn, tap, wk);
        lemma_sum_scale(ti, pat, wk);
        let tap_w = |t: int| tap(t) * wk;
        let pat_w = |i: int| pat(i) * wk;
        lemma_sum_add(tn, out0, tap_w);
        lemma_sum_add(ti, back0, pat_w);
        assert forall|t: int| #[trigger] out(t) == out0(t) + tap_w(t) by {
            let r = val(depthwise_sum(plus, times, zero, x, w, d, b, c, t, k));
            let q = at_or_zero(v, reads(d, t, k));
            let gt = g(t);
            assert(gt * (r + q * wk) == gt * r + (gt * q) * wk) by (nonlinear_arith);
            assert(0 * wk == 0);
        }
        assert forall|i: int| #[trigger] back(i) == back0(i) + pat_w(i) by {
            let r = val(depthwise_back_sum(plus, times, zero, go, w, d, b, c, i, k));
            let q = at_or_zero(g, read_by(d, i, k));
            let xi = v(i);
            assert((r + q * wk) * xi == r * xi + (q * xi) * wk) by (nonlinear_arith);
            assert(0 * wk == 0);
        }
        lemma_sum_same(tn, out, |t: int| out0(t) + tap_w(t));
        lemma_sum_same(ti, back, |i: int| back0(i) + pat_w(i));
    }
}

pub(crate) proof fn lemma_sum_nothing(n: int, f: spec_fn(int) -> int)
    requires
        forall|i: int| #[trigger] f(i) == 0,
    ensures
        sum(n, f) == 0,
    decreases n,
{
    if n > 0 {
        lemma_sum_nothing(n - 1, f);
    }
}

pub(crate) proof fn lemma_sum_split(n: int, m: int, f: spec_fn(int) -> int)
    requires
        n >= 0,
        m >= 0,
    ensures
        sum(n + m, f) == sum(n, f) + sum(m, |i: int| f(n + i)),
    decreases m,
{
    if m > 0 {
        lemma_sum_split(n, m - 1, f);
    }
}

/// A sum by halves is read as a sum.
proof fn lemma_tree_adds<T, F: Fn(T, T) -> T>(plus: F, val: spec_fn(T) -> int, xs: Seq<T>)
    requires
        adds(plus, val),
        halves_down(xs.len()),
    ensures
        val(tree(plus, xs)) == sum(xs.len() as int, |i: int| val(xs[i])),
    decreases xs.len(),
{
    let f = |i: int| val(xs[i]);
    if xs.len() <= 1 {
        assert(sum(0, f) == 0);
        assert(sum(1, f) == f(0));
    } else {
        let h = xs.len() / 2;
        let half = Seq::new(h, |i: int| ap(plus, xs[i], xs[i + h]));
        lemma_tree_adds(plus, val, half);
        lemma_sum_split(h as int, h as int, f);
        let second = |i: int| f(h + i);
        lemma_sum_add(h as int, f, second);
        lemma_sum_same(h as int, |i: int| val(half[i]), |i: int| f(i) + second(i));
    }
}

/// What the terms from `t` on, every `n`-th of them, make up.
proof fn lemma_tap_sum_adds<T, A: Fn(T, T) -> T, M: Fn(T, T) -> T>(
    plus: A,
    times: M,
    val: spec_fn(T) -> int,
    acc: T,
    go: Seq<T>,
    x: Seq<T>,
    d: ConvDims,
    b: int,
    c: int,
    k: int,
    t: int,
    n: int,
    f: spec_fn(int) -> int,
)
    requires
        adds(plus, val),
        multiplies(times, val),
        n > 0,
        t >= 0,
        forall|u: int| #[trigger]
            f(u) == val(go[at3(b, d.c_in as int, c, d.t_out as int, u)]) * at_or_zero(
                |i: int| val(x[at3(b, d.c_in as int, c, d.t_in as int, i)]),
                reads(d, u, k),
            ),
    ensures
        val(tap_sum(plus, times, acc, go, x, d, b, c, k, t, n)) == val(acc) + sum(
            d.t_out as int,
            |u: int|
                if u >= t && u % n == t % n {
                    f(u)
                } else {
                    0
                },
        ),
    decreases
            (if t < d.t_out {
                d.t_out - t
            } else {
                0
            }),
{
    let m = d.t_out as int;
    let from_t = |u: int|
        if u >= t && u % n == t % n {
            f(u)
        } else {
            0
        };
    if t >= m {
        lemma_sum_same(m, from_t, |u: int| 0int);
        lemma_sum_nothing(m, |u: int| 0int);
    } else {
        let next = t + n;
        let from_next = |u: int|
            if u >= next && u % n == next % n {
                f(u)
            } else {
                0
            };
        let only = |u: int|
            if u == t {
                f(t)
            } else {
                0
            };
        let term = match reads(d, t, k) {
            Some(pos) => ap(
                plus,
                acc,
                ap(
                    times,
                    go[at3(b, d.c_in as int, c, d.t_out as int, t)],
                    x[at3(b, d.c_in as int, c, d.t_in as int, pos)],
                ),
            ),
            None => acc,
        };
        lemma_tap_sum_adds(plus, times, val, term, go, x, d, b, c, k, next, n, f);
        assert(val(term) == val(acc) + f(t)) by {
            let gt = val(go[at3(b, d.c_in as int, c, d.t_out as int, t)]);
            assert(gt * 0 == 0);
        }
        lemma_sum_one(m, t, f(t));
        lemma_sum_add(m, from_next, only);
        vstd::arithmetic::div_mod::lemma_mod_add_multiples_vanish(t, n);
        assert(next % n == t % n);
        assert forall|u: int| 0 <= u < m implies #[trigger] from_t(u) == from_next(u) + only(
            u,
        ) by {
            if t < u < next && u % n == t % n {
                vstd::arithmetic::div_mod::lemma_fundamental_div_mod(u, n);
                vstd::arithmetic::div_mod::lemma_fundamental_div_mod(t, n);
                let (p, q) = (u / n, t / n);
                assert(u - t == n * (p - q)) by (nonlinear_arith)
                    requires
                        u == n * p + u % n,
                        t == n * q + t % n,
                        u % n == t % n,
                ;
                assert(false) by (nonlinear_arith)
                    requires
                        u - t == n * (p - q),
                        0 < u - t < n,
                ;
            }
        }
        lemma_sum_same(m, from_t, |u: int| from_next(u) + only(u));
    }
}

/// What an output step and tap contribute to the gradient of the tap's weight.
pub open spec fn tap_product<T>(
    val: spec_fn(T) -> int,
    go: Seq<T>,
    x: Seq<T>,
    d: ConvDims,
    b: int,
    c: int,
    k: int,
    t: int,
) -> int {
    val(go[at3(b, d.c_in as int, c, d.t_out as int, t)]) * at_or_zero(
        |i: int| val(x[at3(b, d.c_in as int, c, d.t_in as int, i)]),
        reads(d, t, k),
    )
}

/// The threads of a block sum every term once.
proof fn lemma_tap_sums_add<T, A: Fn(T, T) -> T, M: Fn(T, T) -> T>(
    plus: A,
    times: M,
    val: spec_fn(T) -> int,
    zero: T,
    go: Seq<T>,
    x: Seq<T>,
    d: ConvDims,
    b: int,
    c: int,
    k: int,
    n: int,
)
    requires
        adds(plus, val),
        multiplies(times, val),
        val(zero) == 0,
        n > 0,
    ensures
        sum(n, |tid: int| val(tap_sums(plus, times, zero, go, x, d, b, c, k, tid, n))) == sum(
            b,
            |e: int| sum(d.t_out as int, |t: int| tap_product(val, go, x, d, e, c, k, t)),
        ),
    decreases b,
{
    let m = d.t_out as int;
    let all = |tid: int| val(tap_sums(plus, times, zero, go, x, d, b, c, k, tid, n));
    if b <= 0 {
        assert forall|tid: int| #[trigger] all(tid) == 0 by {}
        lemma_sum_nothing(n, all);
    } else {
        let e = b - 1;
        lemma_tap_sums_add(plus, times, val, zero, go, x, d, e, c, k, n);
        let less = |tid: int| val(tap_sums(plus, times, zero, go, x, d, e, c, k, tid, n));
        let f = |t: int| tap_product(val, go, x, d, e, c, k, t);
        let own = |tid: int, u: int|
            if u % n == tid {
                f(u)
            } else {
                0
            };
        let part = |tid: int| sum(m, |u: int| own(tid, u));
        assert forall|tid: int| 0 <= tid < n implies #[trigger] all(tid) == less(tid) + part(
            tid,
        ) by {
            let acc = tap_sums(plus, times, zero, go, x, d, e, c, k, tid, n);
            lemma_tap_sum_adds(plus, times, val, acc, go, x, d, e, c, k, tid, n, f);
            vstd::arithmetic::div_mod::lemma_small_mod(tid as nat, n as nat);
            let from = |u: int|
                if u >= tid && u % n == tid % n {
                    f(u)
                } else {
                    0
                };
            assert forall|u: int| 0 <= u < m implies #[trigger] from(u) == own(tid, u) by {
                if u < tid {
                    vstd::arithmetic::div_mod::lemma_small_mod(u as nat, n as nat);
                }
            }
            lemma_sum_same(m, from, |u: int| own(tid, u));
        }
        lemma_sum_same(n, all, |tid: int| less(tid) + part(tid));
        lemma_sum_add(n, less, part);
        lemma_sum_swap(n, m, own);
        let by_term = |u: int| sum(n, |tid: int| own(tid, u));
        assert forall|u: int| 0 <= u < m implies #[trigger] by_term(u) == f(u) by {
            vstd::arithmetic::div_mod::lemma_mod_bound(u, n);
            let one = |i: int|
                if i == u % n {
                    f(u)
                } else {
                    0
                };
            lemma_sum_one(n, u % n, f(u));
            lemma_sum_same(n, |tid: int| own(tid, u), one);
        }
        lemma_sum_same(m, by_term, f);
    }
}

/// The gradient of a depthwise convolution's weight is its adjoint: summed
/// over batch and steps, weighting a channel's output is weighting its taps,
/// whatever the number `n` of taps that count.
pub proof fn law_depthwise_weight_gradients_are_adjoint<T, A: Fn(T, T) -> T, M: Fn(T, T) -> T>(
    plus: A,
    times: M,
    val: spec_fn(T) -> int,
    zero: T,
    x: Seq<T>,
    w: Seq<T>,
    go: Seq<T>,
    d: ConvDims,
    c: int,
    threads: nat,
    n: int,
)
    requires
        adds(plus, val),
        multiplies(times, val),
        val(zero) == 0,
        halves_down(threads),
    ensures
        sum(
            d.batch as int,
            |b: int|
                sum(
                    d.t_out as int,
                    |t: int|
                        val(go[at3(b, d.c_in as int, c, d.t_out as int, t)]) * val(
                            depthwise_sum(plus, times, zero, x, w, d, b, c, t, n),
                        ),
                ),
        ) == sum(
            n,
            |k: int|
                val(
                    tree(
                        plus,
                        Seq::new(
                            threads,
                            |tid: int|
                                tap_sums(
                                    plus,
                                    times,
                                    zero,
                                    go,
                                    x,
                                    d,
                                    d.batch as int,
                                    c,
                                    k,
                                    tid,
                                    threads as int,
                                ),
                        ),
                    ),
                ) * val(w[at2(c, d.k_size as int, k)]),
        ),
    decreases n,
{
    let (bn, m) = (d.batch as int, d.t_out as int);
    let row = |b: int|
        sum(
            d.t_out as int,
            |t: int|
                val(go[at3(b, d.c_in as int, c, d.t_out as int, t)]) * val(
                    depthwise_sum(plus, times, zero, x, w, d, b, c, t, n),
                ),
        );
    if n <= 0 {
        assert forall|b: int| #[trigger] row(b) == 0 by {
            let inner = |t: int|
                val(go[at3(b, d.c_in as int, c, d.t_out as int, t)]) * val(
                    depthwise_sum(plus, times, zero, x, w, d, b, c, t, n),
                );
            assert forall|t: int| #[trigger] inner(t) == 0 by {
                let gt = val(go[at3(b, d.c_in as int, c, d.t_out as int, t)]);
                assert(gt * 0 == 0);
            }
            lemma_sum_nothing(m, inner);
        }
        lemma_sum_nothing(bn, row);
    } else {
        let k = n - 1;
        let wk = val(w[at2(c, d.k_size as int, k)]);
        law_depthwise_weight_gradients_are_adjoint(
            plus,
            times,
            val,
            zero,
            x,
            w,
            go,
            d,
            c,
            threads,
            k,
        );
        let row0 = |b: int|
            sum(
                d.t_out as int,
                |t: int|
                    val(go[at3(b, d.c_in as int, c, d.t_out as int, t)]) * val(
                        depthwise_sum(plus, times, zero, x, w, d, b, c, t, k),
                    ),
            );
        let tap = |b: int| sum(d.t_out as int, |t: int| tap_product(val, go, x, d, b, c, k, t));
        let tap_w = |b: int| tap(b) * wk;
        assert forall|b: int| #[trigger] row(b) == row0(b) + tap_w(b) by {
            let out = |t: int|
                val(go[at3(b, d.c_in as int, c, d.t_out as int, t)]) * val(
                    depthwise_sum(plus, times, zero, x, w, d, b, c, t, n),
                );
            let out0 = |t: int|
                val(go[at3(b, d.c_in as int, c, d.t_out as int, t)]) * val(
                    depthwise_sum(plus, times, zero, x, w, d, b, c, t, k),
                );
            let one = |t: int| tap_product(val, go, x, d, b, c, k, t);
            let one_w = |t: int| one(t) * wk;
            lemma_sum_scale(m, one, wk);
            lemma_sum_add(m, out0, one_w);
            assert forall|t: int| #[trigger] out(t) == out0(t) + one_w(t) by {
                let r = val(depthwise_sum(plus, times, zero, x, w, d, b, c, t, k));
                let q = at_or_zero(
                    |i: int| val(x[at3(b, d.c_in as int, c, d.t_in as int, i)]),
                    reads(d, t, k),
                );
                let gt = val(go[at3(b, d.c_in as int, c, d.t_out as int, t)]);
                assert(gt * (r + q * wk) == gt * r + (gt * q) * wk) by (nonlinear_arith);
                assert(0 * wk == 0);
            }
            lemma_sum_same(m, out, |t: int| out0(t) + one_w(t));
        }
        lemma_sum_same(bn, row, |b: int| row0(b) + tap_w(b));
        lemma_sum_add(bn, row0, tap_w);
        lemma_sum_scale(bn, tap, wk);
        let parts = Seq::new(
            threads,
            |tid: int|
                tap_sums(
                    plus,
                    times,
                    zero,
                    go,
                    x,
                    d,
                    d.batch as int,
                    c,
                    k,
                    tid,
                    threads as int,
                ),
        );
        lemma_tree_adds(plus, val, parts);
        lemma_tap_sums_add(plus, times, val, zero, go, x, d, bn, c, k, threads as int);
        lemma_sum_same(
            threads as int,
            |i: int| val(parts[i]),
            |tid: int|
                val(tap_sums(plus, times, zero, go, x, d, bn, c, k, tid, threads as int)),
        );
    }
}

/// Element `(i, j)` of a product.
pub open spec fn entry(c: GemmConfig, left: Seq<int>, right: Seq<int>, i: int, j: int) -> int {
    sum(c.k as int, |l: int| left[c.left_at(i, l)] * right[c.right_at(l, j)])
}

/// The transpose of a matrix of `rows` by `cols`.
pub open spec fn flipped(a: Seq<int>, rows: int, cols: int) -> Seq<int> {
    Seq::new((rows * cols) as nat, |x: int| a[transposed_from(x, rows, cols)])
}

proof fn lemma_flipped(a: Seq<int>, rows: int, cols: int, i: int, j: int)
    requires
        0 <= i < rows,
        0 <= j < cols,
    ensures
        flipped(a, rows, cols)[at2(j, rows, i)] == a[at2(i, cols, j)],
{
    crate::host::lemma_at2(j, rows, i, cols);
    lemma_at2_parts(j, rows, i);
    assert(cols * rows == rows * cols) by (nonlinear_arith);
}

/// An element of the call that multiplies row-major matrices.
proof fn lemma_entry(m: usize, k: usize, n: usize, a: Seq<int>, b: Seq<int>, i: int, j: int)
    requires
        m <= i32::MAX,
        k <= i32::MAX,
        n <= i32::MAX,
        0 <= i < m,
        0 <= j < n,
    ensures
        entry(row_major_config(m, k, n), b, a, j, i) == sum(
            k as int,
            |l: int| b[at2(l, n as int, j)] * a[at2(i, k as int, l)],
        ),
{
    let c = row_major_config(m, k, n);
    let f = |l: int| b[c.left_at(j, l)] * a[c.right_at(l, i)];
    let g = |l: int| b[at2(l, n as int, j)] * a[at2(i, k as int, l)];
    assert forall|l: int| 0 <= l < k implies #[trigger] f(l) == g(l) by {
        law_exchanged_factors_make_the_row_major_product(m, k, n, i, j, l);
    }
    lemma_sum_same(k as int, f, g);
}

/// Summing over the second and third index in either order.
proof fn lemma_swap_last(n: int, m: int, f: spec_fn(int, int, int) -> int, i: int)
    ensures
        sum(n, |j: int| sum(m, |l: int| f(i, j, l))) == sum(
            m,
            |l: int| sum(n, |j: int| f(i, j, l)),
        ),
{
    let one = |j: int, l: int| f(i, j, l);
    lemma_sum_swap(n, m, one);
    let (a, b) = (|j: int| sum(m, |l: int| one(j, l)), |j: int| sum(m, |l: int| f(i, j, l)));
    assert forall|j: int| 0 <= j < n implies #[trigger] a(j) == b(j) by {
        lemma_sum_same(m, |l: int| one(j, l), |l: int| f(i, j, l));
    }
    lemma_sum_same(n, a, b);
    let (c, d) = (|l: int| sum(n, |j: int| one(j, l)), |l: int| sum(n, |j: int| f(i, j, l)));
    assert forall|l: int| 0 <= l < m implies #[trigger] c(l) == d(l) by {
        lemma_sum_same(n, |j: int| one(j, l), |j: int| f(i, j, l));
    }
    lemma_sum_same(m, c, d);
}

/// Summing over the first and second index in either order.
proof fn lemma_swap_first(n: int, m: int, f: spec_fn(int, int, int) -> int, l: int)
    ensures
        sum(n, |i: int| sum(m, |j: int| f(i, j, l))) == sum(
            m,
            |j: int| sum(n, |i: int| f(i, j, l)),
        ),
{
    let one = |i: int, j: int| f(i, j, l);
    lemma_sum_swap(n, m, one);
    let (a, b) = (|i: int| sum(m, |j: int| one(i, j)), |i: int| sum(m, |j: int| f(i, j, l)));
    assert forall|i: int| 0 <= i < n implies #[trigger] a(i) == b(i) by {
        lemma_sum_same(m, |j: int| one(i, j), |j: int| f(i, j, l));
    }
    lemma_sum_same(n, a, b);
    let (c, d) = (|j: int| sum(n, |i: int| one(i, j)), |j: int| sum(n, |i: int| f(i, j, l)));
    assert forall|j: int| 0 <= j < m implies #[trigger] c(j) == d(j) by {
        lemma_sum_same(n, |i: int| one(i, j), |i: int| f(i, j, l));
    }
    lemma_sum_same(m, c, d);
}

/// Summing over the first and third index in either order, with sums over the
/// second inside.
proof fn lemma_swap_around(n: int, m: int, k: int, f: spec_fn(int, int, int) -> int)
    ensures
        sum(n, |i: int| sum(m, |l: int| sum(k, |j: int| f(i, j, l)))) == sum(
            m,
            |l: int| sum(n, |i: int| sum(k, |j: int| f(i, j, l))),
        ),
{
    let one = |i: int, l: int| sum(k, |j: int| f(i, j, l));
    lemma_sum_swap(n, m, one);
    let a = |i: int| sum(m, |l: int| one(i, l));
    let b = |i: int| sum(m, |l: int| sum(k, |j: int| f(i, j, l)));
    assert forall|i: int| 0 <= i < n implies #[trigger] a(i) == b(i) by {
        lemma_sum_same(m, |l: int| one(i, l), |l: int| sum(k, |j: int| f(i, j, l)));
    }
    lemma_sum_same(n, a, b);
    let c = |l: int| sum(n, |i: int| one(i, l));
    let d = |l: int| sum(n, |i: int| sum(k, |j: int| f(i, j, l)));
    assert forall|l: int| 0 <= l < m implies #[trigger] c(l) == d(l) by {
        lemma_sum_same(n, |i: int| one(i, l), |i: int| sum(k, |j: int| f(i, j, l)));
    }
    lemma_sum_same(m, c, d);
}

/// The gradients of a matrix product are its adjoints: the incoming gradient
/// times the transposed right factor goes to the left one, and the transposed
/// left factor times the incoming gradient to the right one.
pub proof fn law_matmul_gradients_are_adjoint(
    m: usize,
    k: usize,
    n: usize,
    a: Seq<int>,
    b: Seq<int>,
    g: Seq<int>,
)
    requires
        m <= i32::MAX,
        k <= i32::MAX,
        n <= i32::MAX,
    ensures
        ({
            let (r, s, t) = (m as int, k as int, n as int);
            let out = sum(
                r,
                |i: int|
                    sum(t, |j: int| g[at2(i, t, j)] * entry(row_major_config(m, k, n), b, a, j, i)),
            );
            &&& out == sum(
                r,
                |i: int|
                    sum(
                        s,
                        |l: int|
                            entry(row_major_config(m, n, k), flipped(b, s, t), g, l, i) * a[at2(
                                i,
                                s,
                                l,
                            )],
                    ),
            )
            &&& out == sum(
                s,
                |l: int|
                    sum(
                        t,
                        |j: int|
                            entry(row_major_config(k, m, n), g, flipped(a, r, s), j, l) * b[at2(
                                l,
                                t,
                                j,
                            )],
                    ),
            )
        }),
{
    let (r, s, t) = (m as int, k as int, n as int);
    let bt = flipped(b, s, t);
    let at = flipped(a, r, s);
    let term = |i: int, j: int, l: int| g[at2(i, t, j)] * (b[at2(l, t, j)] * a[at2(i, s, l)]);
    // The terms of the left side, with the products spread out.
    let row = |i: int|
        sum(t, |j: int| g[at2(i, t, j)] * entry(row_major_config(m, k, n), b, a, j, i));
    let spread_row = |i: int| sum(t, |j: int| sum(s, |l: int| term(i, j, l)));
    assert forall|i: int| 0 <= i < r implies #[trigger] row(i) == spread_row(i) by {
        let f = |j: int| g[at2(i, t, j)] * entry(row_major_config(m, k, n), b, a, j, i);
        let h = |j: int| sum(s, |l: int| term(i, j, l));
        assert forall|j: int| 0 <= j < t implies #[trigger] f(j) == h(j) by {
            lemma_entry(m, k, n, a, b, i, j);
            let gij = g[at2(i, t, j)];
            let p = |l: int| b[at2(l, t, j)] * a[at2(i, s, l)];
            lemma_sum_scale(s, p, gij);
            let pg = |l: int| p(l) * gij;
            assert forall|l: int| 0 <= l < s implies #[trigger] pg(l) == term(i, j, l) by {
                let y = p(l);
                assert(y * gij == gij * y) by (nonlinear_arith);
            }
            lemma_sum_same(s, pg, |l: int| term(i, j, l));
            let y = sum(s, p);
            assert(y * gij == gij * y) by (nonlinear_arith);
        }
        lemma_sum_same(t, f, h);
    }
    lemma_sum_same(r, row, spread_row);
    // The left factor's gradient.
    let left = |i: int|
        sum(
            s,
            |l: int|
                entry(row_major_config(m, n, k), flipped(b, s, t), g, l, i) * a[at2(i, s, l)],
        );
    assert forall|i: int| 0 <= i < r implies #[trigger] left(i) == spread_row(i) by {
        lemma_swap_last(t, s, term, i);
        let f = |l: int|
            entry(row_major_config(m, n, k), flipped(b, s, t), g, l, i) * a[at2(i, s, l)];
        let h = |l: int| sum(t, |j: int| term(i, j, l));
        assert forall|l: int| 0 <= l < s implies #[trigger] f(l) == h(l) by {
            lemma_entry(m, n, k, g, bt, i, l);
            let x = a[at2(i, s, l)];
            let p = |j: int| bt[at2(j, s, l)] * g[at2(i, t, j)];
            lemma_sum_scale(t, p, x);
            let px = |j: int| p(j) * x;
            assert forall|j: int| 0 <= j < t implies #[trigger] px(j) == term(i, j, l) by {
                lemma_flipped(b, s, t, l, j);
                let (y, z) = (b[at2(l, t, j)], g[at2(i, t, j)]);
                assert((y * z) * x == z * (y * x)) by (nonlinear_arith);
            }
            lemma_sum_same(t, px, |j: int| term(i, j, l));
        }
        lemma_sum_same(s, f, h);
    }
    lemma_sum_same(r, left, spread_row);
    // The right factor's gradient.
    let right = |l: int|
        sum(
            t,
            |j: int|
                entry(row_major_config(k, m, n), g, flipped(a, r, s), j, l) * b[at2(l, t, j)],
        );
    let by_right = |l: int| sum(t, |j: int| sum(r, |i: int| term(i, j, l)));
    assert forall|l: int| 0 <= l < s implies #[trigger] right(l) == by_right(l) by {
        let f = |j: int|
            entry(row_major_config(k, m, n), g, flipped(a, r, s), j, l) * b[at2(l, t, j)];
        let h = |j: int| sum(r, |i: int| term(i, j, l));
        assert forall|j: int| 0 <= j < t implies #[trigger] f(j) == h(j) by {
            lemma_entry(k, m, n, at, g, l, j);
            let x = b[at2(l, t, j)];
            let p = |i: int| g[at2(i, t, j)] * at[at2(l, r, i)];
            lemma_sum_scale(r, p, x);
            let px = |i: int| p(i) * x;
            assert forall|i: int| 0 <= i < r implies #[trigger] px(i) == term(i, j, l) by {
                lemma_flipped(a, r, s, i, l);
                let (y, z) = (a[at2(i, s, l)], g[at2(i, t, j)]);
                assert((z * y) * x == z * (x * y)) by (nonlinear_arith);
            }
            lemma_sum_same(r, px, |i: int| term(i, j, l));
        }
        lemma_sum_same(t, f, h);
    }
    lemma_sum_same(s, right, by_right);
    // Both orders of summation agree.
    let by_left = |i: int| sum(s, |l: int| sum(t, |j: int| term(i, j, l)));
    assert forall|i: int| 0 <= i < r implies #[trigger] spread_row(i) == by_left(i) by {
        lemma_swap_last(t, s, term, i);
    }
    lemma_sum_same(r, spread_row, by_left);
    lemma_swap_around(r, s, t, term);
    let turned = |l: int| sum(r, |i: int| sum(t, |j: int| term(i, j, l)));
    assert forall|l: int| 0 <= l < s implies #[trigger] turned(l) == by_right(l) by {
        lemma_swap_first(r, t, term, l);
    }
    lemma_sum_same(s, turned, by_right);
}

} // verus!
