//! What the threads of the summing kernels compute, over elements of any kind.

use crate::conv::ConvDims;
use crate::host::{at2, at3, lemma_at2, lemma_at3};
use vstd::prelude::*;

verus! {

/// The value of an operation on two elements.
pub open spec fn ap<T, F: Fn(T, T) -> T>(f: F, x: T, y: T) -> T {
    choose|r: T| f.ensures((x, y), r)
}

/// Whether an operation can always be applied, and gives one value.
pub open spec fn definite<T, F: Fn(T, T) -> T>(f: F) -> bool {
    &&& forall|x: T, y: T| #[trigger] f.requires((x, y))
    &&& forall|x: T, y: T, r: T| #[trigger] f.ensures((x, y), r) ==> r == ap(f, x, y)
}

/// `acc` with all of `xs` added, one after the other.
pub open spec fn fold<T, F: Fn(T, T) -> T>(f: F, acc: T, xs: Seq<T>) -> T
    decreases xs.len(),
{
    if xs.len() == 0 {
        acc
    } else {
        ap(f, fold(f, acc, xs.drop_last()), xs.last())
    }
}

proof fn lemma_fold_push<T, F: Fn(T, T) -> T>(f: F, acc: T, xs: Seq<T>, x: T)
    ensures
        fold(f, acc, xs.push(x)) == ap(f, fold(f, acc, xs), x),
{
    assert(xs.push(x).drop_last() =~= xs);
}

/// Row `i` of a matrix of `n` columns.
pub open spec fn row_of<T>(data: Seq<T>, i: int, n: int) -> Seq<T> {
    Seq::new(n as nat, |j: int| data[at2(i, n, j)])
}

/// Running sums along rows.
pub fn cumsum_rows<T: Copy, F: Fn(T, T) -> T>(
    src: &Vec<T>,
    rows: usize,
    width: usize,
    zero: T,
    plus: F,
) -> (r: Vec<T>)
    requires
        src@.len() == rows * width,
        definite(plus),
    ensures
        r@.len() == src@.len(),
        forall|i: int, j: int|
            0 <= i < rows && 0 <= j < width ==> r@[#[trigger] at2(i, width as int, j)] == fold(
                plus,
                zero,
                row_of(src@, i, width as int).take(j + 1),
            ),
{
    let len: usize = src.len();
    let ghost w = width as int;
    let mut r: Vec<T> = Vec::new();
    let mut i: usize = 0;
    assert(0 * w == 0);
    while i < rows
        invariant
            i <= rows,
            w == width,
            len == src@.len(),
            src@.len() == rows * width,
            definite(plus),
            r@.len() == i * w,
            forall|a: int, b: int|
                0 <= a < i && 0 <= b < w ==> r@[#[trigger] at2(a, w, b)] == fold(
                    plus,
                    zero,
                    row_of(src@, a, w).take(b + 1),
                ),
        decreases rows - i,
    {
        let ghost row = row_of(src@, i as int, w);
        let mut acc: T = zero;
        let mut j: usize = 0;
        assert(row.take(0) =~= Seq::<T>::empty());
        while j < width
            invariant
                j <= width,
                i < rows,
                w == width,
                len == src@.len(),
                src@.len() == rows * width,
                definite(plus),
                row == row_of(src@, i as int, w),
                acc == fold(plus, zero, row.take(j as int)),
                r@.len() == i * w + j,
                forall|a: int, b: int|
                    0 <= a <= i && 0 <= b < w && (a < i || b < j) ==> r@[#[trigger] at2(a, w, b)]
                        == fold(plus, zero, row_of(src@, a, w).take(b + 1)),
            decreases width - j,
        {
            proof {
                lemma_at2(i as int, w, j as int, rows as int);
                let x = i as int;
                assert(x * w >= 0) by (nonlinear_arith)
                    requires
                        x >= 0,
                        w >= 0,
                ;
            }
            let x: T = src[i * width + j];
            acc = plus(acc, x);
            let ghost before = r@;
            r.push(acc);
            proof {
                assert(row.take(j + 1) =~= row.take(j as int).push(x));
                lemma_fold_push(plus, zero, row.take(j as int), x);
                assert forall|a: int, b: int|
                    0 <= a <= i && 0 <= b < w && (a < i || b < j + 1) implies r@[#[trigger] at2(
                    a,
                    w,
                    b,
                )] == fold(plus, zero, row_of(src@, a, w).take(b + 1)) by {
                    if a < i {
                        lemma_at2(a, w, b, i as int);
                    }
                    if a < i || b < j {
                        assert(r@[at2(a, w, b)] == before[at2(a, w, b)]);
                    }
                }
            }
            j = j + 1;
        }
        proof {
            let x = i as int;
            assert((x + 1) * w == x * w + w) by (nonlinear_arith);
        }
        i = i + 1;
    }
    r
}

/// The elements along an axis, at one outer and one inner position.
pub open spec fn fiber<T>(data: Seq<T>, o: int, axis: int, inner: int, i: int) -> Seq<T> {
    Seq::new(axis as nat, |a: int| data[at3(o, axis, a, inner, i)])
}

/// Sums along an axis.
pub fn reduce_axis<T: Copy, F: Fn(T, T) -> T>(
    src: &Vec<T>,
    outer: usize,
    axis: usize,
    inner: usize,
    zero: T,
    plus: F,
) -> (r: Vec<T>)
    requires
        src@.len() == outer * axis * inner,
        outer * inner <= usize::MAX,
        definite(plus),
    ensures
        r@.len() == outer * inner,
        forall|o: int, i: int|
            0 <= o < outer && 0 <= i < inner ==> r@[#[trigger] at2(o, inner as int, i)] == fold(
                plus,
                zero,
                fiber(src@, o, axis as int, inner as int, i),
            ),
{
    let ghost n = inner as int;
    let ghost m = axis as int;
    let mut r: Vec<T> = Vec::new();
    let mut o: usize = 0;
    assert(0 * n == 0);
    while o < outer
        invariant
            o <= outer,
            n == inner,
            m == axis,
            src@.len() == outer * axis * inner,
            definite(plus),
            r@.len() == o * n,
            forall|a: int, b: int|
                0 <= a < o && 0 <= b < n ==> r@[#[trigger] at2(a, n, b)] == fold(
                    plus,
                    zero,
                    fiber(src@, a, m, n, b),
                ),
        decreases outer - o,
    {
        let mut i: usize = 0;
        while i < inner
            invariant
                i <= inner,
                o < outer,
                n == inner,
                m == axis,
                src@.len() == outer * axis * inner,
                definite(plus),
                r@.len() == o * n + i,
                forall|a: int, b: int|
                    0 <= a <= o && 0 <= b < n && (a < o || b < i) ==> r@[#[trigger] at2(a, n, b)]
                        == fold(plus, zero, fiber(src@, a, m, n, b)),
            decreases inner - i,
        {
            let x = sum_fiber(src, outer, axis, inner, o, i, zero, &plus);
            let ghost before = r@;
            r.push(x);
            proof {
                assert forall|a: int, b: int|
                    0 <= a <= o && 0 <= b < n && (a < o || b < i + 1) implies r@[#[trigger] at2(
                    a,
                    n,
                    b,
                )] == fold(plus, zero, fiber(src@, a, m, n, b)) by {
                    if a < o {
                        lemma_at2(a, n, b, o as int);
                    }
                    if a < o || b < i {
                        let x = o as int;
                        assert(x * n >= 0) by (nonlinear_arith)
                            requires
                                x >= 0,
                                n >= 0,
                        ;
                        assert(r@[at2(a, n, b)] == before[at2(a, n, b)]);
                    }
                }
            }
            i = i + 1;
        }
        proof {
            let x = o as int;
            assert((x + 1) * n == x * n + n) by (nonlinear_arith);
        }
        o = o + 1;
    }
    r
}

/// One sum along an axis.
fn sum_fiber<T: Copy, F: Fn(T, T) -> T>(
    src: &Vec<T>,
    outer: usize,
    axis: usize,
    inner: usize,
    o: usize,
    i: usize,
    zero: T,
    plus: &F,
) -> (r: T)
    requires
        src@.len() == outer * axis * inner,
        o < outer,
        i < inner,
        definite(*plus),
    ensures
        r == fold(*plus, zero, fiber(src@, o as int, axis as int, inner as int, i as int)),
{
    let len: usize = src.len();
    let ghost xs = fiber(src@, o as int, axis as int, inner as int, i as int);
    let mut acc: T = zero;
    let mut a: usize = 0;
    assert(xs.take(0) =~= Seq::<T>::empty());
    while a < axis
        invariant
            a <= axis,
            o < outer,
            i < inner,
            len == src@.len(),
            src@.len() == outer * axis * inner,
            definite(*plus),
            xs == fiber(src@, o as int, axis as int, inner as int, i as int),
            acc == fold(*plus, zero, xs.take(a as int)),
        decreases axis - a,
    {
        proof {
            lemma_at3(o as int, axis as int, a as int, inner as int, i as int, outer as int);
            let x = o as int;
            let m = axis as int;
            let n = inner as int;
            assert(x * m >= 0) by (nonlinear_arith)
                requires
                    x >= 0,
                    m >= 0,
            ;
            let y = x * m + a;
            assert(y <= y * n) by (nonlinear_arith)
                requires
                    y >= 0,
                    n >= 1,
            ;
        }
        let x: T = src[(o * axis + a) * inner + i];
        acc = plus(acc, x);
        proof {
            assert(xs.take(a + 1) =~= xs.take(a as int).push(x));
            lemma_fold_push(*plus, zero, xs.take(a as int), x);
        }
        a = a + 1;
    }
    assert(xs.take(a as int) =~= xs);
    acc
}

/// Running sums along rows, from the end.
pub fn reverse_cumsum_rows<T: Copy, F: Fn(T, T) -> T>(
    src: &Vec<T>,
    rows: usize,
    width: usize,
    zero: T,
    plus: F,
) -> (r: Vec<T>)
    requires
        src@.len() == rows * width,
        definite(plus),
    ensures
        r@.len() == src@.len(),
        forall|i: int, j: int|
            0 <= i < rows && 0 <= j < width ==> r@[#[trigger] at2(i, width as int, j)] == fold(
                plus,
                zero,
                row_of(src@, i, width as int).reverse().take(width - j),
            ),
{
    let len: usize = src.len();
    let ghost w = width as int;
    let mut r: Vec<T> = Vec::new();
    let mut k: usize = 0;
    while k < len
        invariant
            k <= len,
            len == src@.len(),
            r@.len() == k,
        decreases len - k,
    {
        r.push(zero);
        k = k + 1;
    }
    let mut i: usize = 0;
    while i < rows
        invariant
            i <= rows,
            w == width,
            len == src@.len(),
            src@.len() == rows * width,
            definite(plus),
            r@.len() == len,
            forall|a: int, b: int|
                0 <= a < i && 0 <= b < w ==> r@[#[trigger] at2(a, w, b)] == fold(
                    plus,
                    zero,
                    row_of(src@, a, w).reverse().take(w - b),
                ),
        decreases rows - i,
    {
        let ghost back = row_of(src@, i as int, w).reverse();
        let mut acc: T = zero;
        let mut j: usize = width;
        assert(back.take(0) =~= Seq::<T>::empty());
        while j > 0
            invariant
                j <= width,
                i < rows,
                w == width,
                len == src@.len(),
                src@.len() == rows * width,
                definite(plus),
                back == row_of(src@, i as int, w).reverse(),
                acc == fold(plus, zero, back.take(w - j)),
                r@.len() == len,
                forall|a: int, b: int|
                    0 <= a <= i && 0 <= b < w && (a < i || b >= j) ==> r@[#[trigger] at2(a, w, b)]
                        == fold(plus, zero, row_of(src@, a, w).reverse().take(w - b)),
            decreases j,
        {
            j = j - 1;
            proof {
                lemma_at2(i as int, w, j as int, rows as int);
                let x = i as int;
                assert(x * w >= 0) by (nonlinear_arith)
                    requires
                        x >= 0,
                        w >= 0,
                ;
            }
            let x: T = src[i * width + j];
            acc = plus(acc, x);
            let ghost before = r@;
            r.set(i * width + j, acc);
            proof {
                let n = w - j - 1;
                assert(back.take(n + 1) =~= back.take(n).push(x));
                lemma_fold_push(plus, zero, back.take(n), x);
                assert forall|a: int, b: int|
                    0 <= a <= i && 0 <= b < w && (a < i || b >= j) implies r@[#[trigger] at2(
                    a,
                    w,
                    b,
                )] == fold(plus, zero, row_of(src@, a, w).reverse().take(w - b)) by {
                    if a < i {
                        lemma_at2(a, w, b, i as int);
                    }
                    if a < i || b > j {
                        assert(at2(a, w, b) != at2(i as int, w, j as int));
                        lemma_at2(a, w, b, rows as int);
                        assert(r@[at2(a, w, b)] == before[at2(a, w, b)]);
                    }
                }
            }
        }
        i = i + 1;
    }
    r
}

/// Every `step`-th element, from `from` on.
pub open spec fn every<T>(xs: Seq<T>, from: int, step: int) -> Seq<T>
    decreases (if from < xs.len() {
            xs.len() - from
        } else {
            0
        }),
{
    if step <= 0 || from >= xs.len() || from < 0 {
        Seq::empty()
    } else {
        Seq::empty().push(xs[from]) + every(xs, from + step, step)
    }
}

proof fn lemma_fold_join<T, F: Fn(T, T) -> T>(f: F, acc: T, xs: Seq<T>, ys: Seq<T>)
    ensures
        fold(f, acc, xs + ys) == fold(f, fold(f, acc, xs), ys),
    decreases ys.len(),
{
    if ys.len() == 0 {
        assert(xs + ys =~= xs);
    } else {
        lemma_fold_join(f, acc, xs, ys.drop_last());
        assert((xs + ys).drop_last() =~= xs + ys.drop_last());
    }
}

/// The partial sum of one thread: every `chunks`-th element, from `c` on.
pub fn partial_sum<T: Copy, F: Fn(T, T) -> T>(
    src: &Vec<T>,
    c: usize,
    chunks: usize,
    zero: T,
    plus: &F,
) -> (r: T)
    requires
        chunks > 0,
        definite(*plus),
    ensures
        r == fold(*plus, zero, every(src@, c as int, chunks as int)),
{
    let mut acc: T = zero;
    let mut i: usize = c;
    while i < src.len()
        invariant
            c <= i,
            chunks > 0,
            definite(*plus),
            fold(*plus, zero, every(src@, c as int, chunks as int)) == fold(
                *plus,
                acc,
                every(src@, i as int, chunks as int),
            ),
        decreases (if i < src@.len() {
                src@.len() - i
            } else {
                0
            }),
    {
        let x: T = src[i];
        let ghost before = acc;
        acc = plus(acc, x);
        proof {
            let one = Seq::<T>::empty().push(x);
            lemma_fold_join(
                *plus,
                before,
                one,
                every(src@, i + chunks, chunks as int),
            );
            lemma_fold_push(*plus, before, Seq::<T>::empty(), x);
        }
        if chunks > usize::MAX - i {
            assert(every(src@, i + chunks, chunks as int) =~= Seq::<T>::empty());
            return acc;
        }
        i = i + chunks;
    }
    acc
}

/// The sum of `xs` by halves: each element of the first half plus its
/// counterpart in the second, and so on.
pub open spec fn tree<T, F: Fn(T, T) -> T>(f: F, xs: Seq<T>) -> T
    decreases xs.len(),
{
    if xs.len() <= 1 {
        xs[0]
    } else {
        let h = (xs.len() / 2) as nat;
        tree(f, Seq::new(h, |i: int| ap(f, xs[i], xs[i + h])))
    }
}

/// Whether `n` is a power of two.
pub open spec fn halves_down(n: nat) -> bool
    decreases n,
{
    n == 1 || (n > 1 && n % 2 == 0 && halves_down(n / 2))
}

/// Sums partial results by halves, in place.
pub fn tree_sum<T: Copy, F: Fn(T, T) -> T>(partials: Vec<T>, plus: &F) -> (r: T)
    requires
        halves_down(partials@.len()),
        definite(*plus),
    ensures
        r == tree(*plus, partials@),
{
    let mut s = partials;
    let ghost all = s@;
    let mut n: usize = s.len();
    proof {
        assert(s@.take(n as int) =~= all);
    }
    while n > 1
        invariant
            1 <= n <= s@.len(),
            halves_down(n as nat),
            definite(*plus),
            tree(*plus, all) == tree(*plus, s@.take(n as int)),
        decreases n,
    {
        let h: usize = n / 2;
        let ghost xs = s@.take(n as int);
        let ghost next = Seq::new(h as nat, |i: int| ap(*plus, xs[i], xs[i + h]));
        let mut tid: usize = 0;
        while tid < h
            invariant
                tid <= h,
                h * 2 == n,
                n <= s@.len(),
                xs.len() == n,
                definite(*plus),
                next == Seq::new(h as nat, |i: int| ap(*plus, xs[i], xs[i + h])),
                forall|i: int| tid <= i < n ==> s@[i] == xs[i],
                forall|i: int| 0 <= i < tid ==> s@[i] == next[i],
            decreases h - tid,
        {
            let a: T = s[tid];
            let b: T = s[tid + h];
            let c = plus(a, b);
            s.set(tid, c);
            tid = tid + 1;
        }
        assert(s@.take(h as int) =~= next);
        n = h;
    }
    s[0]
}

/// The input step that output step `t` reads through tap `k`, if any.
pub open spec fn reads(d: ConvDims, t: int, k: int) -> Option<int> {
    let pos = t * d.stride + k - d.padding;
    if 0 <= pos < d.t_in {
        Some(pos)
    } else {
        None
    }
}

/// A depthwise output step, counting the first `n` taps.
pub open spec fn depthwise_sum<T, A: Fn(T, T) -> T, M: Fn(T, T) -> T>(
    plus: A,
    times: M,
    zero: T,
    x: Seq<T>,
    w: Seq<T>,
    d: ConvDims,
    b: int,
    c: int,
    t: int,
    n: int,
) -> T
    decreases n,
{
    if n <= 0 {
        zero
    } else {
        let rest = depthwise_sum(plus, times, zero, x, w, d, b, c, t, n - 1);
        match reads(d, t, n - 1) {
            Some(pos) => ap(
                plus,
                rest,
                ap(
                    times,
                    x[at3(b, d.c_in as int, c, d.t_in as int, pos)],
                    w[at2(c, d.k_size as int, n - 1)],
                ),
            ),
            None => rest,
        }
    }
}

/// One output step of a depthwise convolution.
pub fn depthwise_step<T: Copy, A: Fn(T, T) -> T, M: Fn(T, T) -> T>(
    x: &Vec<T>,
    w: &Vec<T>,
    bias: Option<&Vec<T>>,
    d: &ConvDims,
    b: usize,
    c: usize,
    t: usize,
    zero: T,
    plus: &A,
    times: &M,
) -> (r: T)
    requires
        b < d.batch,
        c < d.c_in,
        t < d.t_out,
        x@.len() == d.batch * d.c_in * d.t_in,
        w@.len() == d.c_in * d.k_size,
        bias matches Some(v) ==> v@.len() == d.c_in,
        d.t_out * d.stride + d.k_size <= usize::MAX,
        definite(*plus),
        definite(*times),
    ensures
        ({
            let s = depthwise_sum(
                *plus,
                *times,
                zero,
                x@,
                w@,
                *d,
                b as int,
                c as int,
                t as int,
                d.k_size as int,
            );
            r == (match bias {
                Some(v) => ap(*plus, s, v@[c as int]),
                None => s,
            })
        }),
{
    let xlen: usize = x.len();
    let wlen: usize = w.len();
    let mut acc: T = zero;
    let mut k: usize = 0;
    while k < d.k_size
        invariant
            k <= d.k_size,
            b < d.batch,
            c < d.c_in,
            t < d.t_out,
            xlen == x@.len(),
            wlen == w@.len(),
            x@.len() == d.batch * d.c_in * d.t_in,
            w@.len() == d.c_in * d.k_size,
            d.t_out * d.stride + d.k_size <= usize::MAX,
            definite(*plus),
            definite(*times),
            acc == depthwise_sum(
                *plus,
                *times,
                zero,
                x@,
                w@,
                *d,
                b as int,
                c as int,
                t as int,
                k as int,
            ),
        decreases d.k_size - k,
    {
        proof {
            let y = t as int;
            let n = d.t_out as int;
            let s = d.stride as int;
            assert(0 <= y * s <= n * s) by (nonlinear_arith)
                requires
                    0 <= y <= n,
                    s >= 0,
            ;
        }
        let at: usize = t * d.stride + k;
        if at >= d.padding && at - d.padding < d.t_in {
            let pos: usize = at - d.padding;
            proof {
                lemma_index(b as int, d.batch as int, c as int, d.c_in as int, pos as int, d.t_in as int);
                lemma_at2(c as int, d.k_size as int, k as int, d.c_in as int);
                let cc = c as int;
                let kk = d.k_size as int;
                assert(cc * kk >= 0) by (nonlinear_arith)
                    requires
                        cc >= 0,
                        kk >= 0,
                ;
            }
            let xv: T = x[(b * d.c_in + c) * d.t_in + pos];
            let wv: T = w[c * d.k_size + k];
            let p = times(xv, wv);
            acc = plus(acc, p);
        }
        k = k + 1;
    }
    match bias {
        Some(v) => {
            let bv: T = v[c];
            plus(acc, bv)
        },
        None => acc,
    }
}

/// A three-part index is in range, and so are its steps.
proof fn lemma_index(b: int, batch: int, c: int, channels: int, t: int, steps: int)
    requires
        0 <= b < batch,
        0 <= c < channels,
        0 <= t < steps,
    ensures
        0 <= b * channels,
        0 <= b * channels + c,
        0 <= (b * channels + c) * steps,
        b * channels + c <= (b * channels + c) * steps,
        at3(b, channels, c, steps, t) < batch * channels * steps,
{
    lemma_at3(b, channels, c, steps, t, batch);
    assert(0 <= b * channels) by (nonlinear_arith)
        requires
            b >= 0,
            channels >= 0,
    ;
    let y = b * channels + c;
    assert(0 <= y <= y * steps) by (nonlinear_arith)
        requires
            y >= 0,
            steps >= 1,
    ;
}

/// The output step that reads input step `i` through tap `k`, if any.
pub open spec fn read_by(d: ConvDims, i: int, k: int) -> Option<int> {
    let num = i + d.padding - k;
    if num >= 0 && num % d.stride as int == 0 && (num / d.stride as int) < d.t_out {
        Some(num / d.stride as int)
    } else {
        None
    }
}

/// The gradient of a depthwise input step, counting the first `n` taps.
pub open spec fn depthwise_back_sum<T, A: Fn(T, T) -> T, M: Fn(T, T) -> T>(
    plus: A,
    times: M,
    zero: T,
    go: Seq<T>,
    w: Seq<T>,
    d: ConvDims,
    b: int,
    c: int,
    i: int,
    n: int,
) -> T
    decreases n,
{
    if n <= 0 {
        zero
    } else {
        let rest = depthwise_back_sum(plus, times, zero, go, w, d, b, c, i, n - 1);
        match read_by(d, i, n - 1) {
            Some(t) => ap(
                plus,
                rest,
                ap(
                    times,
                    go[at3(b, d.c_in as int, c, d.t_out as int, t)],
                    w[at2(c, d.k_size as int, n - 1)],
                ),
            ),
            None => rest,
        }
    }
}

/// The gradient of one input step of a depthwise convolution.
pub fn depthwise_back_step<T: Copy, A: Fn(T, T) -> T, M: Fn(T, T) -> T>(
    go: &Vec<T>,
    w: &Vec<T>,
    d: &ConvDims,
    b: usize,
    c: usize,
    i: usize,
    zero: T,
    plus: &A,
    times: &M,
) -> (r: T)
    requires
        b < d.batch,
        c < d.c_in,
        i < d.t_in,
        d.stride > 0,
        go@.len() == d.batch * d.c_in * d.t_out,
        w@.len() == d.c_in * d.k_size,
        d.t_in + d.padding <= usize::MAX,
        definite(*plus),
        definite(*times),
    ensures
        r == depthwise_back_sum(
            *plus,
            *times,
            zero,
            go@,
            w@,
            *d,
            b as int,
            c as int,
            i as int,
            d.k_size as int,
        ),
{
    let glen: usize = go.len();
    let wlen: usize = w.len();
    let mut acc: T = zero;
    let mut k: usize = 0;
    while k < d.k_size
        invariant
            k <= d.k_size,
            b < d.batch,
            c < d.c_in,
            i < d.t_in,
            d.stride > 0,
            glen == go@.len(),
            wlen == w@.len(),
            go@.len() == d.batch * d.c_in * d.t_out,
            w@.len() == d.c_in * d.k_size,
            d.t_in + d.padding <= usize::MAX,
            definite(*plus),
            definite(*times),
            acc == depthwise_back_sum(
                *plus,
                *times,
                zero,
                go@,
                w@,
                *d,
                b as int,
                c as int,
                i as int,
                k as int,
            ),
        decreases d.k_size - k,
    {
        let at: usize = i + d.padding;
        if at >= k && (at - k) % d.stride == 0 && (at - k) / d.stride < d.t_out {
            let t: usize = (at - k) / d.stride;
            proof {
                lemma_index(
                    b as int,
                    d.batch as int,
                    c as int,
                    d.c_in as int,
                    t as int,
                    d.t_out as int,
                );
                lemma_at2(c as int, d.k_size as int, k as int, d.c_in as int);
                let cc = c as int;
                let kk = d.k_size as int;
                assert(cc * kk >= 0) by (nonlinear_arith)
                    requires
                        cc >= 0,
                        kk >= 0,
                ;
            }
            let gv: T = go[(b * d.c_in + c) * d.t_out + t];
            let wv: T = w[c * d.k_size + k];
            let p = times(gv, wv);
            acc = plus(acc, p);
        }
        k = k + 1;
    }
    acc
}

/// The gradient goes back along the taps by which the output was read:
/// output step `t` reads input step `i` through tap `k` exactly where `i` is
/// said to be read by `t` through `k`.
pub proof fn law_gradient_follows_the_taps(d: ConvDims, t: int, i: int, k: int)
    requires
        d.stride > 0,
        0 <= t < d.t_out,
        0 <= i < d.t_in,
    ensures
        (reads(d, t, k) == Some(i)) == (read_by(d, i, k) == Some(t)),
{
    let num = i + d.padding - k;
    let s = d.stride as int;
    if reads(d, t, k) == Some(i) {
        assert(num == t * s);
        vstd::arithmetic::div_mod::lemma_fundamental_div_mod_converse(num, s, t, 0);
        assert(t * s >= 0) by (nonlinear_arith)
            requires
                t >= 0,
                s > 0,
        ;
    }
    if read_by(d, i, k) == Some(t) {
        vstd::arithmetic::div_mod::lemma_fundamental_div_mod(num, s);
        assert(s * t == t * s) by (nonlinear_arith);
    }
}

/// What a thread adds to `acc` for one tap and one batch entry: the products
/// of the output's gradient and the input at every `n`-th output step, from
/// `t` on.
pub open spec fn tap_sum<T, A: Fn(T, T) -> T, M: Fn(T, T) -> T>(
    plus: A,
    times: M,
    acc: T,
    go: Seq<T>,
    x: Seq<T>,
    d: ConvDims,
    b: int,
    c: int,
    k: int,
    t: int,
    n: int,
) -> T
    decreases (if t < d.t_out {
            d.t_out - t
        } else {
            0
        }),
{
    if n <= 0 || t >= d.t_out {
        acc
    } else {
        tap_sum(
            plus,
            times,
            match reads(d, t, k) {
                Some(pos) => ap(
                    plus,
                    acc,
                    ap(
                        times,
                        go[at3(b, d.c_in as int, c, d.t_out as int, t)],
                        x[at3(b, d.c_in as int, c, d.t_in as int, pos)],
                    ),
                ),
                None => acc,
            },
            go,
            x,
            d,
            b,
            c,
            k,
            t + n,
            n,
        )
    }
}

/// The same over the first `b` batch entries.
pub open spec fn tap_sums<T, A: Fn(T, T) -> T, M: Fn(T, T) -> T>(
    plus: A,
    times: M,
    zero: T,
    go: Seq<T>,
    x: Seq<T>,
    d: ConvDims,
    b: int,
    c: int,
    k: int,
    tid: int,
    n: int,
) -> T
    decreases b,
{
    if b <= 0 {
        zero
    } else {
        tap_sum(
            plus,
            times,
            tap_sums(plus, times, zero, go, x, d, b - 1, c, k, tid, n),
            go,
            x,
            d,
            b - 1,
            c,
            k,
            tid,
            n,
        )
    }
}

/// The partial sum of one thread.
fn weight_partial<T: Copy, A: Fn(T, T) -> T, M: Fn(T, T) -> T>(
    go: &Vec<T>,
    x: &Vec<T>,
    d: &ConvDims,
    c: usize,
    k: usize,
    tid: usize,
    n: usize,
    zero: T,
    plus: &A,
    times: &M,
) -> (r: T)
    requires
        c < d.c_in,
        k < d.k_size,
        n > 0,
        go@.len() == d.batch * d.c_in * d.t_out,
        x@.len() == d.batch * d.c_in * d.t_in,
        d.t_out * d.stride + d.k_size <= usize::MAX,
        definite(*plus),
        definite(*times),
    ensures
        r == tap_sums(
            *plus,
            *times,
            zero,
            go@,
            x@,
            *d,
            d.batch as int,
            c as int,
            k as int,
            tid as int,
            n as int,
        ),
{
    let glen: usize = go.len();
    let xlen: usize = x.len();
    let mut acc: T = zero;
    let mut b: usize = 0;
    while b < d.batch
        invariant
            b <= d.batch,
            c < d.c_in,
            k < d.k_size,
            n > 0,
            glen == go@.len(),
            xlen == x@.len(),
            go@.len() == d.batch * d.c_in * d.t_out,
            x@.len() == d.batch * d.c_in * d.t_in,
            d.t_out * d.stride + d.k_size <= usize::MAX,
            definite(*plus),
            definite(*times),
            acc == tap_sums(
                *plus,
                *times,
                zero,
                go@,
                x@,
                *d,
                b as int,
                c as int,
                k as int,
                tid as int,
                n as int,
            ),
        decreases d.batch - b,
    {
        let ghost before = acc;
        let mut t: usize = tid;
        let mut more: bool = t < d.t_out;
        while more
            invariant
                more ==> t < d.t_out,
                b < d.batch,
                c < d.c_in,
                k < d.k_size,
                n > 0,
                glen == go@.len(),
                xlen == x@.len(),
                go@.len() == d.batch * d.c_in * d.t_out,
                x@.len() == d.batch * d.c_in * d.t_in,
                d.t_out * d.stride + d.k_size <= usize::MAX,
                definite(*plus),
                definite(*times),
                tap_sum(
                    *plus,
                    *times,
                    before,
                    go@,
                    x@,
                    *d,
                    b as int,
                    c as int,
                    k as int,
                    tid as int,
                    n as int,
                ) == (if more {
                    tap_sum(
                        *plus,
                        *times,
                        acc,
                        go@,
                        x@,
                        *d,
                        b as int,
                        c as int,
                        k as int,
                        t as int,
                        n as int,
                    )
                } else {
                    acc
                }),
            decreases (if more {
                    d.t_out - t
                } else {
                    0
                }),
        {
            proof {
                let y = t as int;
                let m = d.t_out as int;
                let s = d.stride as int;
                assert(0 <= y * s <= m * s) by (nonlinear_arith)
                    requires
                        0 <= y <= m,
                        s >= 0,
                ;
            }
            let at: usize = t * d.stride + k;
            if at >= d.padding && at - d.padding < d.t_in {
                let pos: usize = at - d.padding;
                proof {
                    lemma_index(
                        b as int,
                        d.batch as int,
                        c as int,
                        d.c_in as int,
                        t as int,
                        d.t_out as int,
                    );
                    lemma_index(
                        b as int,
                        d.batch as int,
                        c as int,
                        d.c_in as int,
                        pos as int,
                        d.t_in as int,
                    );
                }
                let gv: T = go[(b * d.c_in + c) * d.t_out + t];
                let xv: T = x[(b * d.c_in + c) * d.t_in + pos];
                let p = times(gv, xv);
                acc = plus(acc, p);
            }
            if n < d.t_out - t {
                t = t + n;
            } else {
                assert(tap_sum(
                    *plus,
                    *times,
                    acc,
                    go@,
                    x@,
                    *d,
                    b as int,
                    c as int,
                    k as int,
                    t + n,
                    n as int,
                ) == acc);
                more = false;
            }
        }
        b = b + 1;
    }
    acc
}

/// One element of the gradient of a depthwise weight, by a block of `n`
/// threads.
pub fn depthwise_weight_step<T: Copy, A: Fn(T, T) -> T, M: Fn(T, T) -> T>(
    go: &Vec<T>,
    x: &Vec<T>,
    d: &ConvDims,
    c: usize,
    k: usize,
    n: usize,
    zero: T,
    plus: &A,
    times: &M,
) -> (r: T)
    requires
        c < d.c_in,
        k < d.k_size,
        halves_down(n as nat),
        go@.len() == d.batch * d.c_in * d.t_out,
        x@.len() == d.batch * d.c_in * d.t_in,
        d.t_out * d.stride + d.k_size <= usize::MAX,
        definite(*plus),
        definite(*times),
    ensures
        r == tree(
            *plus,
            Seq::new(
                n as nat,
                |tid: int|
                    tap_sums(
                        *plus,
                        *times,
                        zero,
                        go@,
                        x@,
                        *d,
                        d.batch as int,
                        c as int,
                        k as int,
                        tid,
                        n as int,
                    ),
            ),
        ),
{
    let ghost all = Seq::new(
        n as nat,
        |tid: int|
            tap_sums(
                *plus,
                *times,
                zero,
                go@,
                x@,
                *d,
                d.batch as int,
                c as int,
                k as int,
                tid,
                n as int,
            ),
    );
    let mut partials: Vec<T> = Vec::new();
    let mut tid: usize = 0;
    while tid < n
        invariant
            tid <= n,
            n > 0,
            c < d.c_in,
            k < d.k_size,
            go@.len() == d.batch * d.c_in * d.t_out,
            x@.len() == d.batch * d.c_in * d.t_in,
            d.t_out * d.stride + d.k_size <= usize::MAX,
            definite(*plus),
            definite(*times),
            all == Seq::new(
                n as nat,
                |tid: int|
                    tap_sums(
                        *plus,
                        *times,
                        zero,
                        go@,
                        x@,
                        *d,
                        d.batch as int,
                        c as int,
                        k as int,
                        tid,
                        n as int,
                    ),
            ),
            partials@ == all.take(tid as int),
        decreases n - tid,
    {
        let p = weight_partial(go, x, d, c, k, tid, n, zero, plus, times);
        partials.push(p);
        tid = tid + 1;
        assert(partials@ =~= all.take(tid as int));
    }
    assert(all.take(n as int) =~= all);
    tree_sum(partials, plus)
}

} // verus!
