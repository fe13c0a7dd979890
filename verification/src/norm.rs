//! What the threads of the normalising kernels compute for one row, over
//! elements of any kind.

use crate::lanes::{ap, definite, halves_down, tree, tree_sum};
use crate::scan::{ap1, definite1};
use vstd::prelude::*;

verus! {

/// `acc` with the products of `xs` and `ys` added, one after the other.
pub open spec fn fold_dot<T, A: Fn(T, T) -> T, M: Fn(T, T) -> T>(
    plus: A,
    times: M,
    acc: T,
    xs: Seq<T>,
    ys: Seq<T>,
) -> T
    decreases xs.len(),
{
    if xs.len() == 0 {
        acc
    } else {
        ap(
            plus,
            fold_dot(plus, times, acc, xs.drop_last(), ys.drop_last()),
            ap(times, xs.last(), ys.last()),
        )
    }
}

/// The sum of the products of two rows.
pub fn dot_rows<T: Copy, A: Fn(T, T) -> T, M: Fn(T, T) -> T>(
    xs: &[T],
    ys: &[T],
    zero: T,
    plus: &A,
    times: &M,
) -> (r: T)
    requires
        xs@.len() == ys@.len(),
        definite(*plus),
        definite(*times),
    ensures
        r == fold_dot(*plus, *times, zero, xs@, ys@),
{
    let mut acc: T = zero;
    let mut i: usize = 0;
    assert(xs@.take(0) =~= Seq::<T>::empty());
    while i < xs.len()
        invariant
            i <= xs@.len(),
            xs@.len() == ys@.len(),
            definite(*plus),
            definite(*times),
            acc == fold_dot(*plus, *times, zero, xs@.take(i as int), ys@.take(i as int)),
        decreases xs@.len() - i,
    {
        let x: T = xs[i];
        let y: T = ys[i];
        let p = times(x, y);
        acc = plus(acc, p);
        proof {
            assert(xs@.take(i + 1).drop_last() =~= xs@.take(i as int));
            assert(ys@.take(i + 1).drop_last() =~= ys@.take(i as int));
        }
        i = i + 1;
    }
    assert(xs@.take(i as int) =~= xs@);
    assert(ys@.take(i as int) =~= ys@);
    acc
}

/// A row divided by its root mean square and weighted. `inverse` makes the
/// factor of the sum of squares.
pub fn rmsnorm_row<T: Copy, A: Fn(T, T) -> T, M: Fn(T, T) -> T, R: Fn(T) -> T>(
    x: &[T],
    w: &[T],
    zero: T,
    plus: &A,
    times: &M,
    inverse: &R,
) -> (r: Vec<T>)
    requires
        x@.len() == w@.len(),
        definite(*plus),
        definite(*times),
        definite1(*inverse),
    ensures
        r@.len() == x@.len(),
        forall|i: int|
            0 <= i < r@.len() ==> #[trigger] r@[i] == ap(
                *times,
                ap(*times, x@[i], w@[i]),
                ap1(*inverse, fold_dot(*plus, *times, zero, x@, x@)),
            ),
{
    let squares = dot_rows(x, x, zero, plus, times);
    let scale = inverse(squares);
    let mut r: Vec<T> = Vec::new();
    let mut i: usize = 0;
    while i < x.len()
        invariant
            i <= x@.len(),
            x@.len() == w@.len(),
            definite(*times),
            r@.len() == i,
            forall|j: int|
                0 <= j < i ==> #[trigger] r@[j] == ap(*times, ap(*times, x@[j], w@[j]), scale),
        decreases x@.len() - i,
    {
        let xv: T = x[i];
        let wv: T = w[i];
        let xw = times(xv, wv);
        r.push(times(xw, scale));
        i = i + 1;
    }
    r
}

/// What one thread of a row adds up: the products of every `n`-th element of
/// three rows, from `from` on, first two first.
pub open spec fn strided_dot<T, A: Fn(T, T) -> T, M: Fn(T, T) -> T>(
    plus: A,
    times: M,
    acc: T,
    xs: Seq<T>,
    ys: Seq<T>,
    ws: Option<Seq<T>>,
    from: int,
    n: int,
) -> T
    decreases (if from < xs.len() {
            xs.len() - from
        } else {
            0
        }),
{
    if n <= 0 || from < 0 || from >= xs.len() {
        acc
    } else {
        let p = ap(times, xs[from], ys[from]);
        strided_dot(
            plus,
            times,
            ap(
                plus,
                acc,
                match ws {
                    Some(w) => ap(times, p, w[from]),
                    None => p,
                },
            ),
            xs,
            ys,
            ws,
            from + n,
            n,
        )
    }
}

/// The partial sum of one thread of a row.
fn thread_dot<T: Copy, A: Fn(T, T) -> T, M: Fn(T, T) -> T>(
    xs: &[T],
    ys: &[T],
    ws: Option<&[T]>,
    from: usize,
    n: usize,
    zero: T,
    plus: &A,
    times: &M,
) -> (r: T)
    requires
        xs@.len() == ys@.len(),
        ws matches Some(w) ==> w@.len() == xs@.len(),
        n > 0,
        definite(*plus),
        definite(*times),
    ensures
        r == strided_dot(
            *plus,
            *times,
            zero,
            xs@,
            ys@,
            match ws {
                Some(w) => Some(w@),
                None => None,
            },
            from as int,
            n as int,
        ),
{
    let ghost wv = match ws {
        Some(w) => Some(w@),
        None => None,
    };
    let mut acc: T = zero;
    let mut i: usize = from;
    while i < xs.len()
        invariant
            xs@.len() == ys@.len(),
            ws matches Some(w) ==> w@.len() == xs@.len(),
            wv == (match ws {
                Some(w) => Some(w@),
                None => None,
            }),
            n > 0,
            definite(*plus),
            definite(*times),
            strided_dot(*plus, *times, zero, xs@, ys@, wv, from as int, n as int) == strided_dot(
                *plus,
                *times,
                acc,
                xs@,
                ys@,
                wv,
                i as int,
                n as int,
            ),
        decreases (if i < xs@.len() {
                xs@.len() - i
            } else {
                0
            }),
    {
        let x: T = xs[i];
        let y: T = ys[i];
        let p = times(x, y);
        let q: T = match ws {
            Some(w) => {
                let z: T = w[i];
                times(p, z)
            },
            None => p,
        };
        acc = plus(acc, q);
        if n > usize::MAX - i {
            assert(strided_dot(*plus, *times, acc, xs@, ys@, wv, i + n, n as int) == acc);
            return acc;
        }
        i = i + n;
    }
    acc
}

/// The partial sums of `n` threads, added by halves.
pub open spec fn block_dot<T, A: Fn(T, T) -> T, M: Fn(T, T) -> T>(
    plus: A,
    times: M,
    zero: T,
    xs: Seq<T>,
    ys: Seq<T>,
    ws: Option<Seq<T>>,
    n: nat,
) -> T {
    tree(plus, Seq::new(n, |t: int| strided_dot(plus, times, zero, xs, ys, ws, t, n as int)))
}

fn block_sum<T: Copy, A: Fn(T, T) -> T, M: Fn(T, T) -> T>(
    xs: &[T],
    ys: &[T],
    ws: Option<&[T]>,
    n: usize,
    zero: T,
    plus: &A,
    times: &M,
) -> (r: T)
    requires
        xs@.len() == ys@.len(),
        ws matches Some(w) ==> w@.len() == xs@.len(),
        halves_down(n as nat),
        definite(*plus),
        definite(*times),
    ensures
        r == block_dot(
            *plus,
            *times,
            zero,
            xs@,
            ys@,
            match ws {
                Some(w) => Some(w@),
                None => None,
            },
            n as nat,
        ),
{
    let ghost wv = match ws {
        Some(w) => Some(w@),
        None => None,
    };
    let ghost all = Seq::new(
        n as nat,
        |t: int| strided_dot(*plus, *times, zero, xs@, ys@, wv, t, n as int),
    );
    let mut partials: Vec<T> = Vec::new();
    let mut t: usize = 0;
    while t < n
        invariant
            t <= n,
            n > 0,
            xs@.len() == ys@.len(),
            ws matches Some(w) ==> w@.len() == xs@.len(),
            wv == (match ws {
                Some(w) => Some(w@),
                None => None,
            }),
            definite(*plus),
            definite(*times),
            all == Seq::new(
                n as nat,
                |t: int| strided_dot(*plus, *times, zero, xs@, ys@, wv, t, n as int),
            ),
            partials@ == all.take(t as int),
        decreases n - t,
    {
        let p = thread_dot(xs, ys, ws, t, n, zero, plus, times);
        partials.push(p);
        t = t + 1;
        assert(partials@ =~= all.take(t as int));
    }
    assert(all.take(n as int) =~= all);
    tree_sum(partials, plus)
}

/// The gradient of a normalised row, by a block of `n` threads: `inverse`
/// makes the factor of the sum of squares, `spread` divides by the length.
pub fn rmsnorm_back_row<
    T: Copy,
    A: Fn(T, T) -> T,
    M: Fn(T, T) -> T,
    S: Fn(T, T) -> T,
    R: Fn(T) -> T,
    D: Fn(T) -> T,
>(
    go: &[T],
    x: &[T],
    w: &[T],
    n: usize,
    zero: T,
    plus: &A,
    times: &M,
    minus: &S,
    inverse: &R,
    spread: &D,
) -> (r: Vec<T>)
    requires
        x@.len() == w@.len(),
        x@.len() == go@.len(),
        halves_down(n as nat),
        definite(*plus),
        definite(*times),
        definite(*minus),
        definite1(*inverse),
        definite1(*spread),
    ensures
        r@.len() == x@.len(),
        ({
            let inv = ap1(*inverse, block_dot(*plus, *times, zero, x@, x@, None, n as nat));
            let dot = block_dot(*plus, *times, zero, go@, x@, Some(w@), n as nat);
            let scale = ap1(
                *spread,
                ap(*times, ap(*times, ap(*times, dot, inv), inv), inv),
            );
            forall|i: int|
                0 <= i < r@.len() ==> #[trigger] r@[i] == ap(
                    *minus,
                    ap(*times, ap(*times, w@[i], inv), go@[i]),
                    ap(*times, x@[i], scale),
                )
        }),
{
    let squares = block_sum(x, x, None, n, zero, plus, times);
    let dot = block_sum(go, x, Some(w), n, zero, plus, times);
    let inv = inverse(squares);
    let d1 = times(dot, inv);
    let d2 = times(d1, inv);
    let d3 = times(d2, inv);
    let scale = spread(d3);
    let mut r: Vec<T> = Vec::new();
    let mut i: usize = 0;
    while i < x.len()
        invariant
            i <= x@.len(),
            x@.len() == w@.len(),
            x@.len() == go@.len(),
            definite(*times),
            definite(*minus),
            r@.len() == i,
            forall|j: int|
                0 <= j < i ==> #[trigger] r@[j] == ap(
                    *minus,
                    ap(*times, ap(*times, w@[j], inv), go@[j]),
                    ap(*times, x@[j], scale),
                ),
        decreases x@.len() - i,
    {
        let wv: T = w[i];
        let gv: T = go[i];
        let xv: T = x[i];
        let a = times(wv, inv);
        let b = times(a, gv);
        let c = times(xv, scale);
        r.push(minus(b, c));
        i = i + 1;
    }
    r
}

/// The largest of `xs`, by `above`, beginning with `m`.
pub open spec fn largest<T, G: Fn(T, T) -> bool>(above: G, m: T, xs: Seq<T>) -> T
    decreases xs.len(),
{
    if xs.len() == 0 {
        m
    } else {
        let r = largest(above, m, xs.drop_last());
        if choose|b: bool| above.ensures((xs.last(), r), b) {
            xs.last()
        } else {
            r
        }
    }
}

/// Whether a comparison can always be made, and has one outcome.
pub open spec fn decided<T, G: Fn(T, T) -> bool>(above: G) -> bool {
    &&& forall|x: T, y: T| #[trigger] above.requires((x, y))
    &&& forall|x: T, y: T, b: bool| #[trigger]
        above.ensures((x, y), b) ==> b == (choose|c: bool| above.ensures((x, y), c))
}

/// The sum of what `part` makes of every element and `m`.
pub open spec fn fold_parts<T, A: Fn(T, T) -> T, P: Fn(T, T) -> T>(
    plus: A,
    part: P,
    acc: T,
    m: T,
    xs: Seq<T>,
) -> T
    decreases xs.len(),
{
    if xs.len() == 0 {
        acc
    } else {
        ap(plus, fold_parts(plus, part, acc, m, xs.drop_last()), ap(part, xs.last(), m))
    }
}

/// The logarithms of a row's shares: `part` grows an element less the
/// largest, `log` takes the logarithm of their sum.
pub fn log_softmax_row<
    T: Copy,
    A: Fn(T, T) -> T,
    S: Fn(T, T) -> T,
    G: Fn(T, T) -> bool,
    P: Fn(T, T) -> T,
    L: Fn(T) -> T,
>(
    x: &[T],
    zero: T,
    plus: &A,
    minus: &S,
    above: &G,
    part: &P,
    log: &L,
) -> (r: Vec<T>)
    requires
        x@.len() > 0,
        definite(*plus),
        definite(*minus),
        decided(*above),
        definite(*part),
        definite1(*log),
    ensures
        r@.len() == x@.len(),
        ({
            let m = largest(*above, x@[0], x@.drop_first());
            let l = ap1(*log, fold_parts(*plus, *part, zero, m, x@));
            forall|i: int|
                0 <= i < r@.len() ==> #[trigger] r@[i] == ap(*minus, ap(*minus, x@[i], m), l)
        }),
{
    let ghost tail = x@.drop_first();
    let mut m: T = x[0];
    let mut i: usize = 1;
    assert(tail.take(0) =~= Seq::<T>::empty());
    while i < x.len()
        invariant
            1 <= i <= x@.len(),
            tail == x@.drop_first(),
            decided(*above),
            m == largest(*above, x@[0], tail.take(i - 1)),
        decreases x@.len() - i,
    {
        let v: T = x[i];
        proof {
            assert(tail.take(i as int).drop_last() =~= tail.take(i - 1));
            assert(tail.take(i as int).last() == v);
        }
        if above(v, m) {
            m = v;
        }
        i = i + 1;
    }
    assert(tail.take(i - 1) =~= tail);
    let mut acc: T = zero;
    let mut j: usize = 0;
    assert(x@.take(0) =~= Seq::<T>::empty());
    while j < x.len()
        invariant
            j <= x@.len(),
            definite(*plus),
            definite(*part),
            acc == fold_parts(*plus, *part, zero, m, x@.take(j as int)),
        decreases x@.len() - j,
    {
        let v: T = x[j];
        assert(x@.take(j + 1).drop_last() =~= x@.take(j as int));
        let e = part(v, m);
        acc = plus(acc, e);
        j = j + 1;
    }
    assert(x@.take(j as int) =~= x@);
    let l = log(acc);
    let mut r: Vec<T> = Vec::new();
    let mut k: usize = 0;
    while k < x.len()
        invariant
            k <= x@.len(),
            definite(*minus),
            r@.len() == k,
            forall|i: int|
                0 <= i < k ==> #[trigger] r@[i] == ap(*minus, ap(*minus, x@[i], m), l),
        decreases x@.len() - k,
    {
        let v: T = x[k];
        let a = minus(v, m);
        r.push(minus(a, l));
        k = k + 1;
    }
    r
}

/// Row `i` of a matrix of `n` columns.
pub open spec fn matrix_row<T>(data: Seq<T>, i: int, n: int) -> Seq<T> {
    data.subrange(i * n, i * n + n)
}

/// What the rows from `from` to `to` add to the gradient of one weight.
pub open spec fn weight_rows<T, A: Fn(T, T) -> T, M: Fn(T, T) -> T, R: Fn(T) -> T>(
    plus: A,
    times: M,
    inverse: R,
    zero: T,
    go: Seq<T>,
    x: Seq<T>,
    n: int,
    col: int,
    from: int,
    to: int,
) -> T
    decreases to - from,
{
    if to <= from {
        zero
    } else {
        let row = matrix_row(x, to - 1, n);
        ap(
            plus,
            weight_rows(plus, times, inverse, zero, go, x, n, col, from, to - 1),
            ap(
                times,
                ap(times, go[(to - 1) * n + col], x[(to - 1) * n + col]),
                ap1(inverse, fold_dot(plus, times, zero, row, row)),
            ),
        )
    }
}

/// The part of the gradient of one weight of a normalisation that one chunk
/// of rows makes up.
pub fn rmsnorm_weight_chunk<T: Copy, A: Fn(T, T) -> T, M: Fn(T, T) -> T, R: Fn(T) -> T>(
    go: &Vec<T>,
    x: &Vec<T>,
    n: usize,
    col: usize,
    from: usize,
    to: usize,
    zero: T,
    plus: &A,
    times: &M,
    inverse: &R,
) -> (r: T)
    requires
        col < n,
        from <= to,
        to * n <= x@.len(),
        go@.len() == x@.len(),
        definite(*plus),
        definite(*times),
        definite1(*inverse),
    ensures
        r == weight_rows(
            *plus,
            *times,
            *inverse,
            zero,
            go@,
            x@,
            n as int,
            col as int,
            from as int,
            to as int,
        ),
{
    let len: usize = x.len();
    let mut acc: T = zero;
    let mut row: usize = from;
    while row < to
        invariant
            from <= row <= to,
            col < n,
            len == x@.len(),
            to * n <= x@.len(),
            go@.len() == x@.len(),
            definite(*plus),
            definite(*times),
            definite1(*inverse),
            acc == weight_rows(
                *plus,
                *times,
                *inverse,
                zero,
                go@,
                x@,
                n as int,
                col as int,
                from as int,
                row as int,
            ),
        decreases to - row,
    {
        proof {
            let a = row as int;
            let b = to as int;
            let c = n as int;
            assert(0 <= a * c && a * c + c <= b * c) by (nonlinear_arith)
                requires
                    0 <= a,
                    a + 1 <= b,
                    c >= 0,
            ;
        }
        let base: usize = row * n;
        let xs = vstd::slice::slice_subrange(x.as_slice(), base, base + n);
        let squares = dot_rows(xs, xs, zero, plus, times);
        let inv = inverse(squares);
        let g: T = go[base + col];
        let v: T = x[base + col];
        let gx = times(g, v);
        let p = times(gx, inv);
        acc = plus(acc, p);
        row = row + 1;
    }
    acc
}

} // verus!
