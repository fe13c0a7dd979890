//! Depthwise convolution and its gradients as whole kernels.

use crate::conv::ConvDims;
use crate::host::{at2, at3, lemma_at2};
use crate::index::{lemma_at2_parts, lemma_parts_at2, lemma_row_bound};
use crate::lanes::{
    ap, definite, depthwise_back_step, depthwise_back_sum, depthwise_step, depthwise_sum,
    depthwise_weight_step, halves_down, tap_sums, tree,
};
use vstd::prelude::*;

verus! {

/// A stack of matrices, element by element.
pub fn fill_stack<T, F: Fn(usize, usize, usize) -> T>(l: usize, m: usize, n: usize, f: &F) -> (r:
    Vec<T>)
    requires
        l * m * n <= usize::MAX,
        forall|i: usize, j: usize, k: usize|
            i < l && j < m && k < n ==> #[trigger] f.requires((i, j, k)),
    ensures
        r@.len() == l * m * n,
        forall|i: usize, j: usize, k: usize|
            i < l && j < m && k < n ==> f.ensures(
                (i, j, k),
                r@[#[trigger] at3(i as int, m as int, j as int, n as int, k as int)],
            ),
{
    let mut r: Vec<T> = Vec::new();
    if l == 0 || m == 0 || n == 0 {
        assert(l * m * n == 0) by (nonlinear_arith)
            requires
                l == 0 || m == 0 || n == 0,
        ;
        return r;
    }
    assert(l * m <= l * m * n) by (nonlinear_arith)
        requires
            n >= 1,
            l >= 0,
            m >= 0,
    ;
    let total: usize = l * m * n;
    let mut x: usize = 0;
    while x < total
        invariant
            x <= total,
            total == l * m * n,
            m > 0,
            n > 0,
            r@.len() == x,
            forall|i: usize, j: usize, k: usize|
                i < l && j < m && k < n ==> #[trigger] f.requires((i, j, k)),
            forall|i: usize, j: usize, k: usize|
                i < l && j < m && k < n && at3(i as int, m as int, j as int, n as int, k as int) < x
                    ==> f.ensures(
                    (i, j, k),
                    r@[#[trigger] at3(i as int, m as int, j as int, n as int, k as int)],
                ),
        decreases total - x,
    {
        let row: usize = x / n;
        let k: usize = x % n;
        let i: usize = row / m;
        let j: usize = row % m;
        proof {
            lemma_row_bound(x as int, l * m, n as int);
            lemma_row_bound(row as int, l as int, m as int);
            lemma_parts_at2(x as int, n as int);
            lemma_parts_at2(row as int, m as int);
        }
        let v = f(i, j, k);
        r.push(v);
        proof {
            assert forall|p: usize, q: usize, s: usize|
                p < l && q < m && s < n && at3(p as int, m as int, q as int, n as int, s as int) < x
                    + 1 implies f.ensures(
                (p, q, s),
                r@[#[trigger] at3(p as int, m as int, q as int, n as int, s as int)],
            ) by {
                let at = at3(p as int, m as int, q as int, n as int, s as int);
                let line = at2(p as int, m as int, q as int);
                lemma_at2_parts(line, n as int, s as int);
                lemma_at2_parts(p as int, m as int, q as int);
                lemma_at2(p as int, m as int, q as int, l as int);
                lemma_at2(line, n as int, s as int, l * m);
                if at == x {
                    assert(p == i && q == j && s == k);
                }
            }
        }
        x = x + 1;
    }
    assert forall|i: usize, j: usize, k: usize| i < l && j < m && k < n implies f.ensures(
        (i, j, k),
        r@[#[trigger] at3(i as int, m as int, j as int, n as int, k as int)],
    ) by {
        crate::host::lemma_at3(i as int, m as int, j as int, n as int, k as int, l as int);
    }
    r
}

/// A depthwise convolution.
pub fn depthwise_conv1d_fwd_f32<T: Copy, A: Fn(T, T) -> T, M: Fn(T, T) -> T>(
    x: &Vec<T>,
    w: &Vec<T>,
    bias: Option<&Vec<T>>,
    d: &ConvDims,
    zero: T,
    plus: &A,
    times: &M,
) -> (y: Vec<T>)
    requires
        x@.len() == d.batch * d.c_in * d.t_in,
        w@.len() == d.c_in * d.k_size,
        bias matches Some(v) ==> v@.len() == d.c_in,
        d.batch * d.c_in * d.t_out <= usize::MAX,
        d.t_out * d.stride + d.k_size <= usize::MAX,
        definite(*plus),
        definite(*times),
    ensures
        y@.len() == d.batch * d.c_in * d.t_out,
        forall|b: usize, c: usize, t: usize|
            b < d.batch && c < d.c_in && t < d.t_out ==> y@[#[trigger] at3(
                b as int,
                d.c_in as int,
                c as int,
                d.t_out as int,
                t as int,
            )] == ({
                let s = depthwise_sum(
                    *plus,
                    *times,
                    zero,
                    x@,
                    w@,
                    *d,
                    b as int,
                    c as int,
                    t as int,
                    d.k_size as int,
                );
                match bias {
                    Some(v) => ap(*plus, s, v@[c as int]),
                    None => s,
                }
            }),
{
    let f = |b: usize, c: usize, t: usize| -> (r: T)
        requires
            b < d.batch,
            c < d.c_in,
            t < d.t_out,
        ensures
            r == ({
                let s = depthwise_sum(
                    *plus,
                    *times,
                    zero,
                    x@,
                    w@,
                    *d,
                    b as int,
                    c as int,
                    t as int,
                    d.k_size as int,
                );
                match bias {
                    Some(v) => ap(*plus, s, v@[c as int]),
                    None => s,
                }
            }),
        { depthwise_step(x, w, bias, d, b, c, t, zero, plus, times) };
    fill_stack(d.batch, d.c_in, d.t_out, &f)
}

/// The gradient of a depthwise convolution's input.
pub fn depthwise_conv1d_bwd_x_f32<T: Copy, A: Fn(T, T) -> T, M: Fn(T, T) -> T>(
    go: &Vec<T>,
    w: &Vec<T>,
    d: &ConvDims,
    zero: T,
    plus: &A,
    times: &M,
) -> (gx: Vec<T>)
    requires
        d.stride > 0,
        go@.len() == d.batch * d.c_in * d.t_out,
        w@.len() == d.c_in * d.k_size,
        d.batch * d.c_in * d.t_in <= usize::MAX,
        d.t_in + d.padding <= usize::MAX,
        definite(*plus),
        definite(*times),
    ensures
        gx@.len() == d.batch * d.c_in * d.t_in,
        forall|b: usize, c: usize, i: usize|
            b < d.batch && c < d.c_in && i < d.t_in ==> gx@[#[trigger] at3(
                b as int,
                d.c_in as int,
                c as int,
                d.t_in as int,
                i as int,
            )] == depthwise_back_sum(
                *plus,
                *times,
                zero,
                go@,
                w@,
                *d,
                b as int,
                c as int,
                i as int,
                d.k_size as int,
            ),
{
    let f = |b: usize, c: usize, i: usize| -> (r: T)
        requires
            b < d.batch,
            c < d.c_in,
            i < d.t_in,
        ensures
            r == depthwise_back_sum(
                *plus,
                *times,
                zero,
                go@,
                w@,
                *d,
                b as int,
                c as int,
                i as int,
                d.k_size as int,
            ),
        { depthwise_back_step(go, w, d, b, c, i, zero, plus, times) };
    fill_stack(d.batch, d.c_in, d.t_in, &f)
}

/// The gradient of a depthwise convolution's weight, by blocks of `n`
/// threads.
pub fn depthwise_conv1d_bwd_w_f32<T: Copy, A: Fn(T, T) -> T, M: Fn(T, T) -> T>(
    go: &Vec<T>,
    x: &Vec<T>,
    d: &ConvDims,
    n: usize,
    zero: T,
    plus: &A,
    times: &M,
) -> (gw: Vec<T>)
    requires
        halves_down(n as nat),
        go@.len() == d.batch * d.c_in * d.t_out,
        x@.len() == d.batch * d.c_in * d.t_in,
        d.c_in * d.k_size <= usize::MAX,
        d.t_out * d.stride + d.k_size <= usize::MAX,
        definite(*plus),
        definite(*times),
    ensures
        gw@.len() == d.c_in * d.k_size,
        forall|c: usize, k: usize|
            c < d.c_in && k < d.k_size ==> gw@[#[trigger] at2(
                c as int,
                d.k_size as int,
                k as int,
            )] == tree(
                *plus,
                Seq::new(
                    n as nat,
                    |tid: int|
                        tap_sums(
                            *plus,
                            *times,
                            zero,
                            go@,
                            x@,
                            *d,
                            d.batch as int,
                            c as int,
                            k as int,
                            tid,
                            n as int,
                        ),
                ),
            ),
{
    let f = |c: usize, k: usize, e: usize| -> (r: T)
        requires
            c < d.c_in,
            k < d.k_size,
        ensures
            r == tree(
                *plus,
                Seq::new(
                    n as nat,
                    |tid: int|
                        tap_sums(
                            *plus,
                            *times,
                            zero,
                            go@,
                            x@,
                            *d,
                            d.batch as int,
                            c as int,
                            k as int,
                            tid,
                            n as int,
                        ),
                ),
            ),
        { depthwise_weight_step(go, x, d, c, k, n, zero, plus, times) };
    let gw = fill_stack(d.c_in, d.k_size, 1, &f);
    assert forall|c: usize, k: usize| c < d.c_in && k < d.k_size implies gw@[#[trigger] at2(
        c as int,
        d.k_size as int,
        k as int,
    )] == tree(
        *plus,
        Seq::new(
            n as nat,
            |tid: int|
                tap_sums(
                    *plus,
                    *times,
                    zero,
                    go@,
                    x@,
                    *d,
                    d.batch as int,
                    c as int,
                    k as int,
                    tid,
                    n as int,
                ),
        ),
    ) by {
        assert(at3(c as int, d.k_size as int, k as int, 1, 0) == at2(
            c as int,
            d.k_size as int,
            k as int,
        ));
        assert(f.ensures(
            (c, k, 0usize),
            gw@[at3(c as int, d.k_size as int, k as int, 1, 0usize as int)],
        ));
    }
    gw
}

} // verus!
