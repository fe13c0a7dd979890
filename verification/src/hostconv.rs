//! The parts of a convolution that run on the host: assembling the groups,
//! the bias, and the gradients of the general path, over elements of any kind
//! with a sum and a product.

use crate::conv::ConvDims;
use crate::host::{append_run, at2, at3, lemma_at2, lemma_at3};
use vstd::prelude::*;

verus! {

/// Whether `f` can take `x` and `y` to `r`.
pub open spec fn gives<T, F: Fn(T, T) -> T>(f: F, x: T, y: T, r: T) -> bool {
    f.ensures((x, y), r)
}

/// Whether adding `xs` to `zero`, one after the other, can give `r`.
pub open spec fn summed<T, A: Fn(T, T) -> T>(plus: A, zero: T, xs: Seq<T>, r: T) -> bool
    decreases xs.len(),
{
    if xs.len() == 0 {
        r == zero
    } else {
        exists|m: T|
            summed(plus, zero, xs.drop_last(), m) && #[trigger] gives(plus, m, xs.last(), r)
    }
}

/// Whether adding the products of `xs` and `ys` to `zero`, one after the
/// other, can give `r`.
pub open spec fn dotted<T, A: Fn(T, T) -> T, M: Fn(T, T) -> T>(
    plus: A,
    times: M,
    zero: T,
    xs: Seq<T>,
    ys: Seq<T>,
    r: T,
) -> bool
    decreases xs.len(),
{
    if xs.len() == 0 {
        r == zero
    } else {
        exists|m: T, p: T|
            dotted(plus, times, zero, xs.drop_last(), ys.drop_last(), m) && gives(
                times,
                xs.last(),
                ys.last(),
                p,
            ) && #[trigger] gives(plus, m, p, r)
    }
}

/// One more number.
proof fn lemma_summed_push<T, A: Fn(T, T) -> T>(plus: A, zero: T, xs: Seq<T>, x: T, m: T, r: T)
    requires
        summed(plus, zero, xs, m),
        gives(plus, m, x, r),
    ensures
        summed(plus, zero, xs.push(x), r),
{
    reveal_with_fuel(summed, 2);
    let all = xs.push(x);
    assert(all.drop_last() =~= xs);
    assert(gives(plus, m, all.last(), r));
}

/// One more product.
proof fn lemma_dotted_push<T, A: Fn(T, T) -> T, M: Fn(T, T) -> T>(
    plus: A,
    times: M,
    zero: T,
    xs: Seq<T>,
    ys: Seq<T>,
    x: T,
    y: T,
    m: T,
    p: T,
    r: T,
)
    requires
        dotted(plus, times, zero, xs, ys, m),
        gives(times, x, y, p),
        gives(plus, m, p, r),
    ensures
        dotted(plus, times, zero, xs.push(x), ys.push(y), r),
{
    reveal_with_fuel(dotted, 2);
    assert(xs.push(x).drop_last() =~= xs);
    assert(ys.push(y).drop_last() =~= ys);
}

/// The outputs of the groups of a convolution, each by channel, put together
/// by batch.
pub fn assemble_groups<T: Copy>(outs: &Vec<Vec<T>>, batch: usize, per_group: usize, t_out: usize) -> (r:
    Vec<T>)
    requires
        per_group > 0,
        outs@.len() * per_group <= usize::MAX,
        forall|g: int|
            0 <= g < outs@.len() ==> (#[trigger] outs@[g])@.len() == per_group * batch * t_out,
    ensures
        r@.len() == batch * (outs@.len() * per_group) * t_out,
        forall|b: int, c: int, t: int|
            0 <= b < batch && 0 <= c < outs@.len() * per_group && 0 <= t < t_out ==> r@[#[trigger] at3(
                b,
                outs@.len() * per_group,
                c,
                t_out as int,
                t,
            )] == outs@[c / per_group as int]@[at3(
                c % per_group as int,
                batch as int,
                b,
                t_out as int,
                t,
            )],
{
    let c_out: usize = outs.len() * per_group;
    let ghost co = c_out as int;
    let ghost w = t_out as int;
    let mut r: Vec<T> = Vec::new();
    let mut b: usize = 0;
    proof {
        assert((0 * co) * w == 0) by (nonlinear_arith);
    }
    while b < batch
        invariant
            b <= batch,
            per_group > 0,
            co == c_out,
            w == t_out,
            c_out == outs@.len() * per_group,
            forall|g: int|
                0 <= g < outs@.len() ==> (#[trigger] outs@[g])@.len() == per_group * batch * t_out,
            r@.len() == (b * co) * w,
            forall|p: int, c: int, t: int|
                0 <= p < b && 0 <= c < co && 0 <= t < w ==> r@[#[trigger] at3(p, co, c, w, t)]
                    == outs@[c / per_group as int]@[at3(
                    c % per_group as int,
                    batch as int,
                    p,
                    w,
                    t,
                )],
        decreases batch - b,
    {
        let mut c: usize = 0;
        proof {
            assert((b * co + 0) * w == (b * co) * w);
        }
        while c < c_out
            invariant
                c <= c_out,
                b < batch,
                per_group > 0,
                co == c_out,
                w == t_out,
                c_out == outs@.len() * per_group,
                forall|g: int|
                    0 <= g < outs@.len() ==> (#[trigger] outs@[g])@.len() == per_group * batch
                        * t_out,
                r@.len() == (b * co + c) * w,
                forall|p: int, q: int, t: int|
                    0 <= p <= b && 0 <= q < co && (p < b || q < c) && 0 <= t < w
                        ==> r@[#[trigger] at3(p, co, q, w, t)] == outs@[q
                        / per_group as int]@[at3(q % per_group as int, batch as int, p, w, t)],
            decreases c_out - c,
        {
            let g: usize = c / per_group;
            let cg: usize = c % per_group;
            proof {
                let x = c as int;
                let n = outs@.len() as int;
                let m = per_group as int;
                assert(x / m < n) by (nonlinear_arith)
                    requires
                        0 <= x < n * m,
                        m > 0,
                ;
                let l = outs@[g as int]@.len() as int;
                let z = batch as int;
                let i = cg as int;
                let j = b as int;
                assert(l == (m * z) * w);
                assert(0 <= i * z + j && i * z + j + 1 <= m * z) by (nonlinear_arith)
                    requires
                        0 <= i,
                        i + 1 <= m,
                        0 <= j,
                        j + 1 <= z,
                ;
                let a = i * z + j;
                let e = m * z;
                assert(0 <= a * w && a * w + w <= e * w && a <= e) by (nonlinear_arith)
                    requires
                        0 <= a,
                        a + 1 <= e,
                        w >= 0,
                ;
                assert(w == 0 ==> a * w == 0) by (nonlinear_arith);
            }
            let len: usize = outs[g].len();
            let ghost before = r@;
            if t_out > 0 {
                proof {
                    let a = cg * batch + b;
                    let e = per_group * batch;
                    assert(a <= a * w && cg * batch <= a) by (nonlinear_arith)
                        requires
                            w >= 1,
                            a >= 0,
                            a == cg * batch + b,
                            b >= 0,
                    ;
                }
                let from: usize = (cg * batch + b) * t_out;
                append_run(&mut r, &outs[g], from, t_out);
            }
            proof {
                let x = b * co + c;
                assert((x + 1) * w == x * w + w) by (nonlinear_arith);
                assert forall|p: int, q: int, t: int|
                    0 <= p <= b && 0 <= q < co && (p < b || q < c + 1) && 0 <= t < w implies r@[
                #[trigger] at3(p, co, q, w, t)] == outs@[q / per_group as int]@[at3(
                    q % per_group as int,
                    batch as int,
                    p,
                    w,
                    t,
                )] by {
                    if p < b || q < c {
                        let y = p * co + q;
                        assert(0 <= y && y + 1 <= x) by (nonlinear_arith)
                            requires
                                y == p * co + q,
                                x == b * co + c,
                                0 <= p <= b,
                                0 <= q < co,
                                c >= 0,
                                p + 1 <= b || (p == b && q < c),
                        ;
                        lemma_at2(y, w, t, x);
                        assert(r@[at3(p, co, q, w, t)] == before[at3(p, co, q, w, t)]);
                    } else {
                        assert(at3(p, co, q, w, t) == before.len() + t);
                        let from = (cg * batch + b) * t_out;
                        assert(r@[before.len() + t] == outs@[g as int]@.subrange(
                            from as int,
                            from + t_out,
                        )[t]);
                    }
                }
            }
            c = c + 1;
        }
        proof {
            let x = b as int;
            assert((x + 1) * co == x * co + co) by (nonlinear_arith);
        }
        b = b + 1;
    }
    r
}

/// A bias added to every channel.
pub fn add_bias<T: Copy, A: Fn(T, T) -> T>(
    out: &Vec<T>,
    bias: &Vec<T>,
    t_out: usize,
    plus: A,
) -> (r: Vec<T>)
    requires
        out@.len() > 0 ==> t_out > 0 && bias@.len() > 0,
        forall|x: T, y: T| #[trigger] plus.requires((x, y)),
    ensures
        r@.len() == out@.len(),
        forall|i: int|
            0 <= i < r@.len() ==> plus.ensures(
                (out@[i], bias@[(i / t_out as int) % bias@.len() as int]),
                #[trigger] r@[i],
            ),
{
    let c_out: usize = bias.len();
    let mut r: Vec<T> = Vec::new();
    let mut i: usize = 0;
    while i < out.len()
        invariant
            i <= out@.len(),
            c_out == bias@.len(),
            out@.len() > 0 ==> t_out > 0 && c_out > 0,
            forall|x: T, y: T| #[trigger] plus.requires((x, y)),
            r@.len() == i,
            forall|k: int|
                0 <= k < i ==> plus.ensures(
                    (out@[k], bias@[(k / t_out as int) % bias@.len() as int]),
                    #[trigger] r@[k],
                ),
        decreases out@.len() - i,
    {
        let co: usize = (i / t_out) % c_out;
        let x: T = out[i];
        let y: T = bias[co];
        r.push(plus(x, y));
        i = i + 1;
    }
    r
}

/// The elements of channel `c` of a `(batch, channels, steps)` tensor, by
/// batch and step.
pub open spec fn channel<T>(data: Seq<T>, batch: int, channels: int, steps: int, c: int) -> Seq<T> {
    Seq::new(
        (batch * steps) as nat,
        |i: int| data[at3(i / steps, channels, c, steps, i % steps)],
    )
}

/// Index of step `i` of channel `c` in a `(batch, channels, steps)` tensor.
fn channel_index(i: usize, batch: usize, channels: usize, steps: usize, c: usize) -> (p: usize)
    requires
        i < batch * steps,
        c < channels,
        batch * channels * steps <= usize::MAX,
    ensures
        p == at3(i as int / steps as int, channels as int, c as int, steps as int, i as int % steps as int),
        p < batch * channels * steps,
{
    proof {
        let s = steps as int;
        let x = i as int;
        let n = batch as int;
        assert(s > 0) by (nonlinear_arith)
            requires
                0 <= x < n * s,
                n >= 0,
                s >= 0,
        ;
        assert(x / s < n) by (nonlinear_arith)
            requires
                0 <= x < n * s,
                s > 0,
        ;
        lemma_at3(x / s, channels as int, c as int, s, x % s, n);
        let q = x / s;
        let m = channels as int;
        assert(q * m >= 0) by (nonlinear_arith)
            requires
                q >= 0,
                m >= 0,
        ;
        let y = q * m + c;
        assert(y * s >= y && y * s >= 0) by (nonlinear_arith)
            requires
                y >= 0,
                s >= 1,
        ;
    }
    ((i / steps) * channels + c) * steps + i % steps
}

/// The gradient of a convolution's bias: per channel, the sum over batch and
/// steps.
pub fn conv_bias_sum<T: Copy, A: Fn(T, T) -> T>(
    go: &Vec<T>,
    batch: usize,
    c_out: usize,
    t_out: usize,
    zero: T,
    plus: A,
) -> (r: Vec<T>)
    requires
        go@.len() == batch * c_out * t_out,
        batch * t_out <= usize::MAX,
        forall|x: T, y: T| #[trigger] plus.requires((x, y)),
    ensures
        r@.len() == c_out,
        forall|c: int|
            0 <= c < c_out ==> summed(
                plus,
                zero,
                channel(go@, batch as int, c_out as int, t_out as int, c),
                #[trigger] r@[c],
            ),
{
    let len: usize = go.len();
    let n: usize = batch * t_out;
    let mut r: Vec<T> = Vec::new();
    let mut c: usize = 0;
    while c < c_out
        invariant
            c <= c_out,
            n == batch * t_out,
            len == go@.len(),
            go@.len() == batch * c_out * t_out,
            forall|x: T, y: T| #[trigger] plus.requires((x, y)),
            r@.len() == c,
            forall|k: int|
                0 <= k < c ==> summed(
                    plus,
                    zero,
                    channel(go@, batch as int, c_out as int, t_out as int, k),
                    #[trigger] r@[k],
                ),
        decreases c_out - c,
    {
        let ghost xs = channel(go@, batch as int, c_out as int, t_out as int, c as int);
        let mut acc: T = zero;
        let mut i: usize = 0;
        assert(xs.take(0) =~= Seq::<T>::empty());
        while i < n
            invariant
                i <= n,
                c < c_out,
                n == batch * t_out,
                len == go@.len(),
                go@.len() == batch * c_out * t_out,
                forall|x: T, y: T| #[trigger] plus.requires((x, y)),
                xs == channel(go@, batch as int, c_out as int, t_out as int, c as int),
                summed(plus, zero, xs.take(i as int), acc),
            decreases n - i,
        {
            let p: usize = channel_index(i, batch, c_out, t_out, c);
            let x: T = go[p];
            let ghost before = acc;
            acc = plus(acc, x);
            proof {
                lemma_summed_push(plus, zero, xs.take(i as int), x, before, acc);
                assert(xs.take(i + 1) =~= xs.take(i as int).push(x));
            }
            i = i + 1;
        }
        assert(xs.take(n as int) =~= xs);
        r.push(acc);
        c = c + 1;
    }
    r
}

/// The extents of a grouped convolution's gradients.
#[derive(Clone, Copy, Debug)]
pub struct GradDims {
    pub dims: ConvDims,
    /// Input channels per group.
    pub per_group: usize,
    /// Output channels per group.
    pub out_per_group: usize,
    pub groups: usize,
}

impl GradDims {
    pub open spec fn c_out(self) -> int {
        self.groups * self.out_per_group
    }

    /// The columns of one group.
    pub open spec fn width(self) -> int {
        self.per_group * self.dims.k_size
    }

    /// The rows of the columns: one per batch and step.
    pub open spec fn rows(self) -> int {
        self.dims.batch * self.dims.t_out
    }

    /// Whether the channels are those of the groups, and the tensors can be
    /// held.
    pub open spec fn ok(self) -> bool {
        &&& self.dims.c_in == self.groups * self.per_group
        &&& self.c_out() <= usize::MAX
        &&& self.width() <= usize::MAX
        &&& self.rows() <= usize::MAX
        &&& self.c_out() * self.width() <= usize::MAX
        &&& self.dims.c_in * self.dims.k_size <= usize::MAX
        &&& self.dims.batch * self.dims.c_in * self.dims.t_in <= usize::MAX
        &&& self.dims.t_in + self.dims.padding < usize::MAX
    }
}

/// Column `j` of a matrix of `rows` by `cols`.
pub open spec fn column<T>(data: Seq<T>, rows: int, cols: int, j: int) -> Seq<T> {
    Seq::new(rows as nat, |i: int| data[at2(i, cols, j)])
}

/// What the element `e` of the weight's gradient can be: the products of the
/// output's gradient and the columns, summed over batch and steps.
pub open spec fn weight_grad_of<T, A: Fn(T, T) -> T, M: Fn(T, T) -> T>(
    plus: A,
    times: M,
    zero: T,
    go: Seq<T>,
    col: Seq<T>,
    d: GradDims,
    co: int,
    j: int,
    r: T,
) -> bool {
    let g = co / d.out_per_group as int;
    exists|s: T| #[trigger]
        dotted(
            plus,
            times,
            zero,
            channel(go, d.dims.batch as int, d.c_out(), d.dims.t_out as int, co),
            column(col, d.rows(), d.dims.c_in * d.dims.k_size, g * d.width() + j),
            s,
        ) && plus.ensures((zero, s), r)
}

/// The gradient of a convolution's weight, on the general path.
pub fn conv_weight_sum<T: Copy, A: Fn(T, T) -> T, M: Fn(T, T) -> T>(
    go: &Vec<T>,
    col: &Vec<T>,
    d: GradDims,
    zero: T,
    plus: A,
    times: M,
) -> (r: Vec<T>)
    requires
        d.ok(),
        go@.len() == d.dims.batch * d.c_out() * d.dims.t_out,
        col@.len() == d.rows() * (d.dims.c_in * d.dims.k_size),
        forall|x: T, y: T| #[trigger] plus.requires((x, y)),
        forall|x: T, y: T| #[trigger] times.requires((x, y)),
    ensures
        r@.len() == d.c_out() * d.width(),
        forall|co: int, j: int|
            0 <= co < d.c_out() && 0 <= j < d.width() ==> weight_grad_of(
                plus,
                times,
                zero,
                go@,
                col@,
                d,
                co,
                j,
                r@[#[trigger] at2(co, d.width(), j)],
            ),
{
    proof {
        lemma_ok(d);
    }
    let len: usize = go.len();
    let clen: usize = col.len();
    let c_out: usize = d.groups * d.out_per_group;
    let width: usize = d.per_group * d.dims.k_size;
    let rows: usize = d.dims.batch * d.dims.t_out;
    let cols: usize = d.dims.c_in * d.dims.k_size;
    let mut r: Vec<T> = Vec::new();
    let mut co: usize = 0;
    assert(0 * d.width() == 0);
    while co < c_out
        invariant
            co <= c_out,
            d.ok(),
            c_out == d.c_out(),
            width == d.width(),
            rows == d.rows(),
            cols == d.dims.c_in * d.dims.k_size,
            len == go@.len(),
            clen == col@.len(),
            go@.len() == d.dims.batch * d.c_out() * d.dims.t_out,
            col@.len() == rows * cols,
            forall|x: T, y: T| #[trigger] plus.requires((x, y)),
            forall|x: T, y: T| #[trigger] times.requires((x, y)),
            r@.len() == co * d.width(),
            forall|c: int, j: int|
                0 <= c < co && 0 <= j < d.width() ==> weight_grad_of(
                    plus,
                    times,
                    zero,
                    go@,
                    col@,
                    d,
                    c,
                    j,
                    r@[#[trigger] at2(c, d.width(), j)],
                ),
        decreases c_out - co,
    {
        proof {
            lemma_group(d, co as int);
        }
        let g: usize = co / d.out_per_group;
        let mut j: usize = 0;
        while j < width
            invariant
                j <= width,
                co < c_out,
                d.ok(),
                c_out == d.c_out(),
                width == d.width(),
                rows == d.rows(),
                cols == d.dims.c_in * d.dims.k_size,
                len == go@.len(),
                clen == col@.len(),
                go@.len() == d.dims.batch * d.c_out() * d.dims.t_out,
                col@.len() == rows * cols,
                d.out_per_group > 0,
                g == co as int / d.out_per_group as int,
                0 <= g * d.width(),
                g * d.width() + d.width() <= cols,
                forall|x: T, y: T| #[trigger] plus.requires((x, y)),
                forall|x: T, y: T| #[trigger] times.requires((x, y)),
                r@.len() == co * d.width() + j,
                forall|c: int, k: int|
                    0 <= c <= co && 0 <= k < d.width() && (c < co || k < j) ==> weight_grad_of(
                        plus,
                        times,
                        zero,
                        go@,
                        col@,
                        d,
                        c,
                        k,
                        r@[#[trigger] at2(c, d.width(), k)],
                    ),
            decreases width - j,
        {
            let at: usize = g * width + j;
            let s = row_dot(go, col, d, co, at, zero, &plus, &times);
            let ghost before = r@;
            r.push(plus(zero, s));
            proof {
                let w = d.width();
                assert forall|c: int, k: int|
                    0 <= c <= co && 0 <= k < w && (c < co || k < j + 1) implies weight_grad_of(
                    plus,
                    times,
                    zero,
                    go@,
                    col@,
                    d,
                    c,
                    k,
                    r@[#[trigger] at2(c, w, k)],
                ) by {
                    if c < co {
                        lemma_at2(c, w, k, co as int);
                    }
                    if c < co || k < j {
                        assert(r@[at2(c, w, k)] == before[at2(c, w, k)]);
                    }
                }
            }
            j = j + 1;
        }
        proof {
            let x = co as int;
            let w = d.width();
            assert((x + 1) * w == x * w + w) by (nonlinear_arith);
        }
        co = co + 1;
    }
    r
}

/// The products of channel `co` of the output's gradient and column `at`,
/// summed.
fn row_dot<T: Copy, A: Fn(T, T) -> T, M: Fn(T, T) -> T>(
    go: &Vec<T>,
    col: &Vec<T>,
    d: GradDims,
    co: usize,
    at: usize,
    zero: T,
    plus: &A,
    times: &M,
) -> (s: T)
    requires
        d.ok(),
        co < d.c_out(),
        at < d.dims.c_in * d.dims.k_size,
        go@.len() == d.dims.batch * d.c_out() * d.dims.t_out,
        col@.len() == d.rows() * (d.dims.c_in * d.dims.k_size),
        forall|x: T, y: T| #[trigger] plus.requires((x, y)),
        forall|x: T, y: T| #[trigger] times.requires((x, y)),
    ensures
        dotted(
            *plus,
            *times,
            zero,
            channel(go@, d.dims.batch as int, d.c_out(), d.dims.t_out as int, co as int),
            column(col@, d.rows(), d.dims.c_in * d.dims.k_size, at as int),
            s,
        ),
{
    proof {
        lemma_ok(d);
    }
    let len: usize = go.len();
    let clen: usize = col.len();
    let c_out: usize = d.groups * d.out_per_group;
    let rows: usize = d.dims.batch * d.dims.t_out;
    let cols: usize = d.dims.c_in * d.dims.k_size;
    let ghost xs = channel(go@, d.dims.batch as int, d.c_out(), d.dims.t_out as int, co as int);
    let ghost ys = column(col@, d.rows(), d.dims.c_in * d.dims.k_size, at as int);
    let mut acc: T = zero;
    let mut i: usize = 0;
    assert(xs.take(0) =~= Seq::<T>::empty());
    while i < rows
        invariant
            i <= rows,
            d.ok(),
            co < c_out,
            c_out == d.c_out(),
            rows == d.rows(),
            rows == d.dims.batch * d.dims.t_out,
            cols == d.dims.c_in * d.dims.k_size,
            at < cols,
            len == go@.len(),
            clen == col@.len(),
            go@.len() == d.dims.batch * c_out * d.dims.t_out,
            col@.len() == rows * cols,
            xs == channel(go@, d.dims.batch as int, c_out as int, d.dims.t_out as int, co as int),
            ys == column(col@, rows as int, cols as int, at as int),
            forall|x: T, y: T| #[trigger] plus.requires((x, y)),
            forall|x: T, y: T| #[trigger] times.requires((x, y)),
            dotted(*plus, *times, zero, xs.take(i as int), ys.take(i as int), acc),
        decreases rows - i,
    {
        let p: usize = channel_index(i, d.dims.batch, c_out, d.dims.t_out, co);
        proof {
            lemma_at2(i as int, cols as int, at as int, rows as int);
            let x = i as int;
            let c = cols as int;
            assert(x * c >= 0) by (nonlinear_arith)
                requires
                    x >= 0,
                    c >= 0,
            ;
        }
        let x: T = go[p];
        let y: T = col[i * cols + at];
        let m = times(x, y);
        let ghost before = acc;
        acc = plus(acc, m);
        proof {
            let t = xs.take(i as int);
            let u = ys.take(i as int);
            lemma_dotted_push(*plus, *times, zero, t, u, x, y, before, m, acc);
            assert(xs.take(i + 1) =~= t.push(x));
            assert(ys.take(i + 1) =~= u.push(y));
        }
        i = i + 1;
    }
    assert(xs.take(rows as int) =~= xs);
    assert(ys.take(rows as int) =~= ys);
    acc
}

proof fn lemma_ok(d: GradDims)
    requires
        d.ok(),
    ensures
        0 <= d.c_out(),
        0 <= d.width(),
        0 <= d.rows(),
        d.dims.c_in * d.dims.k_size == d.groups * d.width(),
{
    let a = d.groups as int;
    let b = d.per_group as int;
    let c = d.dims.k_size as int;
    assert((a * b) * c == a * (b * c)) by (nonlinear_arith);
    assert(d.groups * d.out_per_group >= 0) by (nonlinear_arith);
    assert(b * c >= 0) by (nonlinear_arith)
        requires
            b >= 0,
            c >= 0,
    ;
    assert(d.dims.batch * d.dims.t_out >= 0) by (nonlinear_arith);
}

/// An output channel lies in one of the groups, and the group's columns within
/// the row.
proof fn lemma_group(d: GradDims, co: int)
    requires
        d.ok(),
        0 <= co < d.c_out(),
    ensures
        d.out_per_group > 0,
        0 <= co / d.out_per_group as int,
        (co / d.out_per_group as int) < d.groups,
        0 <= (co / d.out_per_group as int) * d.width(),
        (co / d.out_per_group as int) * d.width() + d.width() <= d.dims.c_in * d.dims.k_size,
{
    lemma_ok(d);
    let m = d.out_per_group as int;
    let n = d.groups as int;
    assert(m > 0) by (nonlinear_arith)
        requires
            0 <= co < n * m,
            m >= 0,
            n >= 0,
    ;
    let g = co / m;
    assert(0 <= g < n) by (nonlinear_arith)
        requires
            0 <= co < n * m,
            m > 0,
            g == co / m,
    ;
    let w = d.width();
    assert(0 <= g * w && g * w + w <= n * w) by (nonlinear_arith)
        requires
            0 <= g,
            g + 1 <= n,
            w >= 0,
    ;
}

/// The weights by which input channel `c` reaches the output channels of its
/// group through the tap `k`.
pub open spec fn taps<T>(w: Seq<T>, d: GradDims, c: int, k: int) -> Seq<T> {
    let g = c / d.per_group as int;
    Seq::new(
        d.out_per_group as nat,
        |o: int|
            w[at2(
                at2(g, d.out_per_group as int, o),
                d.width(),
                at2(c % d.per_group as int, d.dims.k_size as int, k),
            )],
    )
}

/// The gradients of those output channels at step `t`.
pub open spec fn reached<T>(go: Seq<T>, d: GradDims, b: int, c: int, t: int) -> Seq<T> {
    let g = c / d.per_group as int;
    Seq::new(
        d.out_per_group as nat,
        |o: int|
            go[at3(b, d.c_out(), at2(g, d.out_per_group as int, o), d.dims.t_out as int, t)],
    )
}

/// The tap through which output step `t` reads input step `i`.
pub open spec fn tap_of(d: GradDims, i: int, t: int) -> int {
    i + d.dims.padding - t * d.dims.stride
}

/// Whether there is one.
pub open spec fn hits(d: GradDims, i: int, t: int) -> bool {
    0 <= tap_of(d, i, t) < d.dims.k_size
}

/// What step `i` of channel `c` of the input's gradient can be, counting the
/// first `n` output steps: for every output step that reads it, the products
/// of the weights and the output's gradients, summed.
pub open spec fn input_grad_of<T, A: Fn(T, T) -> T, M: Fn(T, T) -> T>(
    plus: A,
    times: M,
    zero: T,
    go: Seq<T>,
    w: Seq<T>,
    d: GradDims,
    b: int,
    c: int,
    i: int,
    n: int,
    r: T,
) -> bool
    decreases n,
{
    if n <= 0 {
        r == zero
    } else if hits(d, i, n - 1) {
        exists|m: T, p: T|
            input_grad_of(plus, times, zero, go, w, d, b, c, i, n - 1, m) && dotted(
                plus,
                times,
                zero,
                taps(w, d, c, tap_of(d, i, n - 1)),
                reached(go, d, b, c, n - 1),
                p,
            ) && #[trigger] gives(plus, m, p, r)
    } else {
        input_grad_of(plus, times, zero, go, w, d, b, c, i, n - 1, r)
    }
}

/// Output steps that do not read an input step do not matter to it.
proof fn lemma_no_hits<T, A: Fn(T, T) -> T, M: Fn(T, T) -> T>(
    plus: A,
    times: M,
    zero: T,
    go: Seq<T>,
    w: Seq<T>,
    d: GradDims,
    b: int,
    c: int,
    i: int,
    lo: int,
    n: int,
    r: T,
)
    requires
        0 <= lo <= n,
        forall|t: int| lo <= t < n ==> !#[trigger] hits(d, i, t),
        input_grad_of(plus, times, zero, go, w, d, b, c, i, lo, r),
    ensures
        input_grad_of(plus, times, zero, go, w, d, b, c, i, n, r),
    decreases n - lo,
{
    if lo < n {
        lemma_no_hits(plus, times, zero, go, w, d, b, c, i, lo, n - 1, r);
        assert(!hits(d, i, n - 1));
    }
}

/// The gradient of a convolution's input, on the general path.
pub fn conv_input_sum<T: Copy, A: Fn(T, T) -> T, M: Fn(T, T) -> T>(
    go: &Vec<T>,
    w: &Vec<T>,
    d: GradDims,
    zero: T,
    plus: A,
    times: M,
) -> (r: Vec<T>)
    requires
        d.ok(),
        d.dims.stride > 0,
        go@.len() == d.dims.batch * d.c_out() * d.dims.t_out,
        w@.len() == d.c_out() * d.width(),
        forall|x: T, y: T| #[trigger] plus.requires((x, y)),
        forall|x: T, y: T| #[trigger] times.requires((x, y)),
    ensures
        r@.len() == d.dims.batch * d.dims.c_in * d.dims.t_in,
        forall|b: int, c: int, i: int|
            0 <= b < d.dims.batch && 0 <= c < d.dims.c_in && 0 <= i < d.dims.t_in ==> input_grad_of(
                plus,
                times,
                zero,
                go@,
                w@,
                d,
                b,
                c,
                i,
                d.dims.t_out as int,
                r@[#[trigger] at3(b, d.dims.c_in as int, c, d.dims.t_in as int, i)],
            ),
{
    let mut r: Vec<T> = Vec::new();
    let ghost cn = d.dims.c_in as int;
    let ghost tn = d.dims.t_in as int;
    let ghost tt = d.dims.t_out as int;
    let mut b: usize = 0;
    proof {
        assert((0 * cn) * tn == 0) by (nonlinear_arith);
    }
    while b < d.dims.batch
        invariant
            b <= d.dims.batch,
            d.ok(),
            d.dims.stride > 0,
            cn == d.dims.c_in,
            tn == d.dims.t_in,
            tt == d.dims.t_out,
            go@.len() == d.dims.batch * d.c_out() * d.dims.t_out,
            w@.len() == d.c_out() * d.width(),
            forall|x: T, y: T| #[trigger] plus.requires((x, y)),
            forall|x: T, y: T| #[trigger] times.requires((x, y)),
            r@.len() == (b * cn) * tn,
            forall|p: int, c: int, i: int|
                0 <= p < b && 0 <= c < cn && 0 <= i < tn ==> input_grad_of(
                    plus,
                    times,
                    zero,
                    go@,
                    w@,
                    d,
                    p,
                    c,
                    i,
                    tt,
                    r@[#[trigger] at3(p, cn, c, tn, i)],
                ),
        decreases d.dims.batch - b,
    {
        let mut c: usize = 0;
        while c < d.dims.c_in
            invariant
                c <= d.dims.c_in,
                b < d.dims.batch,
                d.ok(),
                d.dims.stride > 0,
                cn == d.dims.c_in,
                tn == d.dims.t_in,
                tt == d.dims.t_out,
                go@.len() == d.dims.batch * d.c_out() * d.dims.t_out,
                w@.len() == d.c_out() * d.width(),
                forall|x: T, y: T| #[trigger] plus.requires((x, y)),
                forall|x: T, y: T| #[trigger] times.requires((x, y)),
                r@.len() == (b * cn + c) * tn,
                forall|p: int, q: int, i: int|
                    0 <= p <= b && 0 <= q < cn && (p < b || q < c) && 0 <= i < tn ==> input_grad_of(
                        plus,
                        times,
                        zero,
                        go@,
                        w@,
                        d,
                        p,
                        q,
                        i,
                        tt,
                        r@[#[trigger] at3(p, cn, q, tn, i)],
                    ),
            decreases d.dims.c_in - c,
        {
            let mut i: usize = 0;
            while i < d.dims.t_in
                invariant
                    i <= d.dims.t_in,
                    c < d.dims.c_in,
                    b < d.dims.batch,
                    d.ok(),
                    d.dims.stride > 0,
                    cn == d.dims.c_in,
                    tn == d.dims.t_in,
                    tt == d.dims.t_out,
                    go@.len() == d.dims.batch * d.c_out() * d.dims.t_out,
                    w@.len() == d.c_out() * d.width(),
                    forall|x: T, y: T| #[trigger] plus.requires((x, y)),
                    forall|x: T, y: T| #[trigger] times.requires((x, y)),
                    r@.len() == (b * cn + c) * tn + i,
                    forall|p: int, q: int, j: int|
                        0 <= p <= b && 0 <= q < cn && 0 <= j < tn && (p < b || q < c || (p == b
                            && q == c && j < i)) ==> input_grad_of(
                            plus,
                            times,
                            zero,
                            go@,
                            w@,
                            d,
                            p,
                            q,
                            j,
                            tt,
                            r@[#[trigger] at3(p, cn, q, tn, j)],
                        ),
                decreases d.dims.t_in - i,
            {
                let x = input_step(go, w, d, b, c, i, zero, &plus, &times);
                let ghost before = r@;
                r.push(x);
                proof {
                    let y = b * cn + c;
                    assert forall|p: int, q: int, j: int|
                        0 <= p <= b && 0 <= q < cn && 0 <= j < tn && (p < b || q < c || (p == b && q
                            == c && j < i + 1)) implies input_grad_of(
                        plus,
                        times,
                        zero,
                        go@,
                        w@,
                        d,
                        p,
                        q,
                        j,
                        tt,
                        r@[#[trigger] at3(p, cn, q, tn, j)],
                    ) by {
                        let z = p * cn + q;
                        if p < b || q < c {
                            assert(0 <= z && z + 1 <= y) by (nonlinear_arith)
                                requires
                                    z == p * cn + q,
                                    y == b * cn + c,
                                    0 <= p <= b,
                                    0 <= q < cn,
                                    c >= 0,
                                    p + 1 <= b || (p == b && q < c),
                            ;
                            lemma_at2(z, tn, j, y);
                            assert(r@[at3(p, cn, q, tn, j)] == before[at3(p, cn, q, tn, j)]);
                        } else if j < i {
                            assert(z == y);
                            assert(y * tn >= 0) by (nonlinear_arith)
                                requires
                                    y == b * cn + c,
                                    b >= 0,
                                    cn >= 0,
                                    c >= 0,
                                    tn >= 0,
                            ;
                            assert(r@[at3(p, cn, q, tn, j)] == before[at3(p, cn, q, tn, j)]);
                        } else {
                            assert(at3(p, cn, q, tn, j) == before.len());
                        }
                    }
                }
                i = i + 1;
            }
            proof {
                let y = b * cn + c;
                assert((y + 1) * tn == y * tn + tn) by (nonlinear_arith);
            }
            c = c + 1;
        }
        proof {
            let x = b as int;
            assert((x + 1) * cn == x * cn + cn) by (nonlinear_arith);
        }
        b = b + 1;
    }
    r
}

/// One element of the input's gradient.
fn input_step<T: Copy, A: Fn(T, T) -> T, M: Fn(T, T) -> T>(
    go: &Vec<T>,
    w: &Vec<T>,
    d: GradDims,
    b: usize,
    c: usize,
    i: usize,
    zero: T,
    plus: &A,
    times: &M,
) -> (r: T)
    requires
        d.ok(),
        d.dims.stride > 0,
        b < d.dims.batch,
        c < d.dims.c_in,
        i < d.dims.t_in,
        go@.len() == d.dims.batch * d.c_out() * d.dims.t_out,
        w@.len() == d.c_out() * d.width(),
        forall|x: T, y: T| #[trigger] plus.requires((x, y)),
        forall|x: T, y: T| #[trigger] times.requires((x, y)),
    ensures
        input_grad_of(
            *plus,
            *times,
            zero,
            go@,
            w@,
            d,
            b as int,
            c as int,
            i as int,
            d.dims.t_out as int,
            r,
        ),
{
    let at: usize = i + d.dims.padding;
    let s: usize = d.dims.stride;
    let k_size: usize = d.dims.k_size;
    let mut t: usize = if at + 1 > k_size {
        (at + 1 - k_size) / s
    } else {
        0
    };
    if t > d.dims.t_out {
        t = d.dims.t_out;
    }
    let mut acc: T = zero;
    let ghost tt = d.dims.t_out as int;
    proof {
        let e = at + 1 - k_size;
        assert forall|u: int| 0 <= u < t implies !#[trigger] hits(d, i as int, u) by {
            let sv = s as int;
            let q = e / sv;
            assert(u * sv + sv <= e) by (nonlinear_arith)
                requires
                    u + 1 <= q,
                    q == e / sv,
                    sv > 0,
                    e >= 0,
            ;
        }
        lemma_no_hits(
            *plus,
            *times,
            zero,
            go@,
            w@,
            d,
            b as int,
            c as int,
            i as int,
            0,
            t as int,
            zero,
        );
    }
    while t < d.dims.t_out && t <= at / s
        invariant
            t <= d.dims.t_out,
            d.ok(),
            s == d.dims.stride,
            s > 0,
            at == i + d.dims.padding,
            k_size == d.dims.k_size,
            b < d.dims.batch,
            c < d.dims.c_in,
            go@.len() == d.dims.batch * d.c_out() * d.dims.t_out,
            w@.len() == d.c_out() * d.width(),
            forall|x: T, y: T| #[trigger] plus.requires((x, y)),
            forall|x: T, y: T| #[trigger] times.requires((x, y)),
            input_grad_of(
                *plus,
                *times,
                zero,
                go@,
                w@,
                d,
                b as int,
                c as int,
                i as int,
                t as int,
                acc,
            ),
        decreases d.dims.t_out - t,
    {
        proof {
            let x = t as int;
            let sv = s as int;
            let a = at as int;
            assert(x * sv <= a) by (nonlinear_arith)
                requires
                    x <= a / sv,
                    sv > 0,
                    a >= 0,
            ;
            assert(x * sv >= 0) by (nonlinear_arith)
                requires
                    x >= 0,
                    sv > 0,
            ;
        }
        let k: usize = at - t * s;
        let ghost before = acc;
        if k < k_size {
            let p = tap_dot(go, w, d, b, c, k, t, zero, plus, times);
            acc = plus(acc, p);
            proof {
                reveal_with_fuel(input_grad_of, 2);
                assert(hits(d, i as int, t as int));
                assert(gives(*plus, before, p, acc));
            }
        } else {
            assert(!hits(d, i as int, t as int));
        }
        t = t + 1;
    }
    proof {
        let lo = t as int;
        let sv = s as int;
        let a = at as int;
        assert forall|u: int| lo <= u < tt implies !#[trigger] hits(d, i as int, u) by {
            assert(u * sv > a) by (nonlinear_arith)
                requires
                    u >= a / sv + 1,
                    sv > 0,
                    a >= 0,
            ;
        }
        lemma_no_hits(
            *plus,
            *times,
            zero,
            go@,
            w@,
            d,
            b as int,
            c as int,
            i as int,
            lo,
            tt,
            acc,
        );
    }
    acc
}

/// The products of the weights of one tap and the output's gradients at one
/// step, summed.
fn tap_dot<T: Copy, A: Fn(T, T) -> T, M: Fn(T, T) -> T>(
    go: &Vec<T>,
    w: &Vec<T>,
    d: GradDims,
    b: usize,
    c: usize,
    k: usize,
    t: usize,
    zero: T,
    plus: &A,
    times: &M,
) -> (r: T)
    requires
        d.ok(),
        b < d.dims.batch,
        c < d.dims.c_in,
        k < d.dims.k_size,
        t < d.dims.t_out,
        go@.len() == d.dims.batch * d.c_out() * d.dims.t_out,
        w@.len() == d.c_out() * d.width(),
        forall|x: T, y: T| #[trigger] plus.requires((x, y)),
        forall|x: T, y: T| #[trigger] times.requires((x, y)),
    ensures
        dotted(
            *plus,
            *times,
            zero,
            taps(w@, d, c as int, k as int),
            reached(go@, d, b as int, c as int, t as int),
            r,
        ),
{
    proof {
        lemma_ok(d);
        let m = d.per_group as int;
        let n = d.groups as int;
        let x = c as int;
        assert(m > 0) by (nonlinear_arith)
            requires
                0 <= x < n * m,
                m >= 0,
                n >= 0,
        ;
        assert(x / m < n) by (nonlinear_arith)
            requires
                0 <= x < n * m,
                m > 0,
        ;
        lemma_at2(x % m, d.dims.k_size as int, k as int, m);
        let cg = x % m;
        let kk = d.dims.k_size as int;
        assert(cg * kk >= 0) by (nonlinear_arith)
            requires
                cg >= 0,
                kk >= 0,
        ;
    }
    let glen: usize = go.len();
    let wlen: usize = w.len();
    let c_out: usize = d.groups * d.out_per_group;
    let width: usize = d.per_group * d.dims.k_size;
    let g: usize = c / d.per_group;
    let ck: usize = (c % d.per_group) * d.dims.k_size + k;
    let ghost xs = taps(w@, d, c as int, k as int);
    let ghost ys = reached(go@, d, b as int, c as int, t as int);
    let mut acc: T = zero;
    let mut o: usize = 0;
    assert(xs.take(0) =~= Seq::<T>::empty());
    while o < d.out_per_group
        invariant
            o <= d.out_per_group,
            d.ok(),
            b < d.dims.batch,
            t < d.dims.t_out,
            d.per_group > 0,
            c_out == d.c_out(),
            width == d.width(),
            g == c as int / d.per_group as int,
            g < d.groups,
            ck == at2(c as int % d.per_group as int, d.dims.k_size as int, k as int),
            ck < width,
            glen == go@.len(),
            wlen == w@.len(),
            go@.len() == d.dims.batch * d.c_out() * d.dims.t_out,
            w@.len() == d.c_out() * d.width(),
            xs == taps(w@, d, c as int, k as int),
            ys == reached(go@, d, b as int, c as int, t as int),
            forall|x: T, y: T| #[trigger] plus.requires((x, y)),
            forall|x: T, y: T| #[trigger] times.requires((x, y)),
            dotted(*plus, *times, zero, xs.take(o as int), ys.take(o as int), acc),
        decreases d.out_per_group - o,
    {
        proof {
            let m = d.out_per_group as int;
            lemma_at2(g as int, m, o as int, d.groups as int);
            let q = at2(g as int, m, o as int);
            let gg = g as int;
            assert(gg * m >= 0) by (nonlinear_arith)
                requires
                    gg >= 0,
                    m >= 0,
            ;
            lemma_at2(q, d.width(), ck as int, d.c_out());
            let wd = d.width();
            assert(q * wd >= 0) by (nonlinear_arith)
                requires
                    q >= 0,
                    wd >= 0,
            ;
            lemma_at3(
                b as int,
                d.c_out(),
                q,
                d.dims.t_out as int,
                t as int,
                d.dims.batch as int,
            );
            let bb = b as int;
            let cc = d.c_out();
            assert(bb * cc >= 0) by (nonlinear_arith)
                requires
                    bb >= 0,
                    cc >= 0,
            ;
            let y = bb * cc + q;
            let tn = d.dims.t_out as int;
            assert(y * tn >= y) by (nonlinear_arith)
                requires
                    y >= 0,
                    tn >= 1,
            ;
        }
        let co: usize = g * d.out_per_group + o;
        let x: T = w[co * width + ck];
        let y: T = go[(b * c_out + co) * d.dims.t_out + t];
        let p = times(x, y);
        let ghost before = acc;
        acc = plus(acc, p);
        proof {
            let u = xs.take(o as int);
            let v = ys.take(o as int);
            lemma_dotted_push(*plus, *times, zero, u, v, x, y, before, p, acc);
            assert(xs.take(o + 1) =~= u.push(x));
            assert(ys.take(o + 1) =~= v.push(y));
        }
        o = o + 1;
    }
    assert(xs.take(o as int) =~= xs);
    assert(ys.take(o as int) =~= ys);
    acc
}

} // verus!
