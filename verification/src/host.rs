//! Data movements and sums that run on the host, over elements of any kind.

use crate::error::{CudaError, ShapeError};
use crate::shape::{
    clamped, coords, element_count, expanded_strides, expands_to,
    law_broadcast_reads_clamped_coordinates, law_transpose_reads_exchanged_coordinates,
    lemma_numel_le_span, lemma_numel_swapped, numel, position, row_major, row_major_strides, span,
    stride_at, strided, swapped, tail,
};
use vstd::prelude::*;

verus! {

/// The numbers of a list, without their bound.
pub open spec fn nats(s: Seq<usize>) -> Seq<nat> {
    Seq::new(s.len(), |i: int| s[i] as nat)
}

/// The position reached from `flat` by the strides `out` and `src`.
pub fn step_through(flat: usize, out: &Vec<usize>, src: &Vec<usize>) -> (p: usize)
    requires
        out@.len() == src@.len(),
        forall|i: int| 0 <= i < out@.len() ==> #[trigger] out@[i] > 0,
        strided(flat as nat, nats(out@), nats(src@)) <= usize::MAX,
    ensures
        p == strided(flat as nat, nats(out@), nats(src@)),
{
    let mut rem: usize = flat;
    let mut acc: usize = 0;
    let mut d: usize = 0;
    let ghost o = nats(out@);
    let ghost s = nats(src@);
    proof {
        assert(o.subrange(0, o.len() as int) =~= o);
        assert(s.subrange(0, s.len() as int) =~= s);
    }
    while d < out.len()
        invariant
            d <= out@.len(),
            out@.len() == src@.len(),
            o == nats(out@),
            s == nats(src@),
            forall|i: int| 0 <= i < out@.len() ==> #[trigger] out@[i] > 0,
            strided(flat as nat, o, s) <= usize::MAX,
            strided(flat as nat, o, s) == acc + strided(
                rem as nat,
                o.subrange(d as int, o.len() as int),
                s.subrange(d as int, s.len() as int),
            ),
        decreases out@.len() - d,
    {
        let so: usize = out[d];
        let ss: usize = src[d];
        let coord: usize = rem / so;
        proof {
            let ot = o.subrange(d as int, o.len() as int);
            let st = s.subrange(d as int, s.len() as int);
            assert(ot.drop_first() =~= o.subrange(d + 1, o.len() as int));
            assert(st.drop_first() =~= s.subrange(d + 1, s.len() as int));
            assert(ot[0] == so && st[0] == ss);
            assert(coord as nat * ss as nat == coord * ss);
        }
        acc = acc + coord * ss;
        rem = rem % so;
        d = d + 1;
    }
    acc
}

/// Strides for reading a tensor of shape `shape` under broadcasting.
pub fn broadcast_steps(shape: &[usize]) -> (t: Vec<usize>)
    requires
        span(shape@) <= usize::MAX,
    ensures
        t@.len() == shape@.len(),
        nats(t@) == expanded_strides(shape@),
{
    let mut t = row_major_strides(shape);
    let mut i: usize = 0;
    while i < shape.len()
        invariant
            i <= shape@.len(),
            t@.len() == shape@.len(),
            forall|k: int|
                0 <= k < shape@.len() ==> #[trigger] t@[k] == (if k < i && shape@[k] == 1 {
                    0
                } else {
                    stride_at(shape@, k)
                }),
        decreases shape@.len() - i,
    {
        if shape[i] == 1 {
            t.set(i, 0);
        }
        i = i + 1;
    }
    assert(nats(t@) =~= expanded_strides(shape@));
    t
}

/// The strides of a shape with elements are all positive.
proof fn lemma_strides_positive(s: Seq<usize>, i: int)
    requires
        numel(s) > 0,
        0 <= i < s.len(),
    ensures
        stride_at(s, i) > 0,
{
    crate::shape::lemma_split(s, i + 1);
    let a = numel(s.subrange(0, i + 1));
    let b = numel(tail(s, i + 1));
    assert(b > 0) by (nonlinear_arith)
        requires
            a * b > 0,
    ;
}

/// Where an operand of shape `a` is read for the element `flat` of the shape
/// `d`.
pub open spec fn read_at(a: Seq<usize>, d: Seq<usize>, flat: nat) -> nat {
    position(a, clamped(a, coords(d, flat)))
}

/// `f` applied to two operands element by element, each repeated along its
/// axes of extent one.
pub fn broadcast_apply<T: Copy, F: Fn(T, T) -> T>(
    a: &Vec<T>,
    a_shape: &[usize],
    b: &Vec<T>,
    b_shape: &[usize],
    out: &[usize],
    f: F,
) -> (r: Vec<T>)
    requires
        expands_to(a_shape@, out@),
        expands_to(b_shape@, out@),
        span(out@) <= usize::MAX,
        span(a_shape@) <= usize::MAX,
        span(b_shape@) <= usize::MAX,
        a@.len() == numel(a_shape@),
        b@.len() == numel(b_shape@),
        forall|x: T, y: T| #[trigger] f.requires((x, y)),
    ensures
        r@.len() == numel(out@),
        forall|i: int|
            0 <= i < r@.len() ==> f.ensures(
                (
                    a@[read_at(a_shape@, out@, i as nat) as int],
                    b@[read_at(b_shape@, out@, i as nat) as int],
                ),
                #[trigger] r@[i],
            ),
{
    let n: usize = element_count(out);
    let so = row_major_strides(out);
    let sa = broadcast_steps(a_shape);
    let sb = broadcast_steps(b_shape);
    proof {
        assert(nats(so@) =~= row_major(out@));
        lemma_numel_le_span(a_shape@);
        lemma_numel_le_span(b_shape@);
    }
    let mut r: Vec<T> = Vec::new();
    let mut i: usize = 0;
    while i < n
        invariant
            i <= n,
            n == numel(out@),
            nats(so@) == row_major(out@),
            nats(sa@) == expanded_strides(a_shape@),
            nats(sb@) == expanded_strides(b_shape@),
            so@.len() == out@.len(),
            sa@.len() == out@.len(),
            sb@.len() == out@.len(),
            expands_to(a_shape@, out@),
            expands_to(b_shape@, out@),
            a@.len() == numel(a_shape@) <= usize::MAX,
            b@.len() == numel(b_shape@) <= usize::MAX,
            forall|x: T, y: T| #[trigger] f.requires((x, y)),
            r@.len() == i,
            forall|k: int|
                0 <= k < i ==> f.ensures(
                    (
                        a@[read_at(a_shape@, out@, k as nat) as int],
                        b@[read_at(b_shape@, out@, k as nat) as int],
                    ),
                    #[trigger] r@[k],
                ),
        decreases n - i,
    {
        proof {
            law_broadcast_reads_clamped_coordinates(a_shape@, out@, i as nat);
            law_broadcast_reads_clamped_coordinates(b_shape@, out@, i as nat);
            assert forall|k: int| 0 <= k < so@.len() implies #[trigger] so@[k] > 0 by {
                lemma_strides_positive(out@, k);
                assert(nats(so@)[k] == row_major(out@)[k]);
            }
        }
        let ia: usize = step_through(i, &so, &sa);
        let ib: usize = step_through(i, &so, &sb);
        let x: T = a[ia];
        let y: T = b[ib];
        r.push(f(x, y));
        i = i + 1;
    }
    r
}

/// Appends `len` elements of `src`, from `from` on.
pub fn append_run<T: Copy>(v: &mut Vec<T>, src: &Vec<T>, from: usize, len: usize)
    requires
        from + len <= src@.len(),
    ensures
        final(v)@ == old(v)@ + src@.subrange(from as int, from + len),
{
    let end: usize = src.len();
    let ghost base = v@;
    let mut i: usize = 0;
    assert(v@ =~= base + src@.subrange(from as int, from as int));
    while i < len
        invariant
            i <= len,
            end == src@.len(),
            from + len <= src@.len(),
            v@ == base + src@.subrange(from as int, from + i),
        decreases len - i,
    {
        v.push(src[from + i]);
        i = i + 1;
        assert(v@ =~= base + src@.subrange(from as int, from + i));
    }
}

/// The slices of a stack, repeated along the leading axes of extent one.
pub fn broadcast_expand_batch<T: Copy>(
    src: &Vec<T>,
    lead: &[usize],
    wide: &[usize],
    slice: usize,
) -> (r: Result<Vec<T>, CudaError>)
    requires
        span(lead@) <= usize::MAX,
        span(wide@) <= usize::MAX,
        lead@.len() == wide@.len() ==> expands_to(lead@, wide@),
        src@.len() == numel(lead@) * slice,
        numel(wide@) * slice <= usize::MAX,
    ensures
        lead@.len() != wide@.len() ==> r == Err::<Vec<T>, CudaError>(
            CudaError::Shape(
                ShapeError::RankMismatch {
                    op: "broadcast_expand_batch",
                    lhs: lead@.len() as usize,
                    rhs: wide@.len() as usize,
                },
            ),
        ),
        lead@.len() == wide@.len() ==> {
            &&& r matches Ok(v)
            &&& v@.len() == numel(wide@) * slice
            &&& forall|i: int, j: int|
                0 <= i < numel(wide@) && 0 <= j < slice ==> v@[#[trigger] at2(i, slice as int, j)]
                    == src@[at2(read_at(lead@, wide@, i as nat) as int, slice as int, j)]
        },
{
    if lead.len() != wide.len() {
        return Err(
            CudaError::Shape(
                ShapeError::RankMismatch {
                    op: "broadcast_expand_batch",
                    lhs: lead.len(),
                    rhs: wide.len(),
                },
            ),
        );
    }
    let n: usize = element_count(wide);
    let so = row_major_strides(wide);
    let sa = broadcast_steps(lead);
    proof {
        assert(nats(so@) =~= row_major(wide@));
    }
    let mut v: Vec<T> = Vec::new();
    let mut i: usize = 0;
    proof {
        assert(0 * slice == 0);
        lemma_numel_le_span(lead@);
    }
    let len: usize = src.len();
    while i < n
        invariant
            i <= n,
            n == numel(wide@),
            nats(so@) == row_major(wide@),
            nats(sa@) == expanded_strides(lead@),
            so@.len() == wide@.len(),
            sa@.len() == wide@.len(),
            expands_to(lead@, wide@),
            numel(lead@) <= usize::MAX,
            len == src@.len(),
            src@.len() == numel(lead@) * slice,
            v@.len() == i * slice,
            forall|k: int, j: int|
                0 <= k < i && 0 <= j < slice ==> v@[#[trigger] at2(k, slice as int, j)] == src@[at2(
                    read_at(lead@, wide@, k as nat) as int,
                    slice as int,
                    j,
                )],
        decreases n - i,
    {
        proof {
            law_broadcast_reads_clamped_coordinates(lead@, wide@, i as nat);
            assert forall|k: int| 0 <= k < so@.len() implies #[trigger] so@[k] > 0 by {
                lemma_strides_positive(wide@, k);
                assert(nats(so@)[k] == row_major(wide@)[k]);
            }
        }
        let p: usize = step_through(i, &so, &sa);
        proof {
            let c = numel(lead@) as int;
            let s = slice as int;
            let q = p as int;
            assert(q * s + s <= c * s) by (nonlinear_arith)
                requires
                    q + 1 <= c,
                    s >= 0,
            ;
            assert(q * s >= 0) by (nonlinear_arith)
                requires
                    q >= 0,
                    s >= 0,
            ;
        }
        let from: usize = p * slice;
        let ghost before = v@;
        append_run(&mut v, src, from, slice);
        proof {
            let s = slice as int;
            assert((i + 1) * s == i * s + s) by (nonlinear_arith);
            assert forall|k: int, j: int| 0 <= k < i + 1 && 0 <= j < slice implies v@[#[trigger] at2(
                k,
                s,
                j,
            )] == src@[at2(read_at(lead@, wide@, k as nat) as int, s, j)] by {
                if k < i {
                    lemma_at2(k, s, j, i as int);
                    assert(v@[at2(k, s, j)] == before[at2(k, s, j)]);
                } else {
                    assert(v@[i * s + j] == src@.subrange(from as int, from + slice)[j]);
                }
            }
        }
        i = i + 1;
    }
    Ok(v)
}

/// Row-major index into a matrix of `n` columns.
pub open spec fn at2(i: int, n: int, j: int) -> int {
    i * n + j
}

/// Row-major index into a stack of `m` by `n` matrices.
pub open spec fn at3(i: int, m: int, j: int, n: int, k: int) -> int {
    (i * m + j) * n + k
}

pub proof fn lemma_at2(i: int, n: int, j: int, rows: int)
    requires
        0 <= i < rows,
        0 <= j < n,
    ensures
        0 <= at2(i, n, j) < rows * n,
{
    assert(0 <= i * n + j < rows * n) by (nonlinear_arith)
        requires
            0 <= i < rows,
            0 <= j < n,
    ;
}

pub proof fn lemma_at3(i: int, m: int, j: int, n: int, k: int, l: int)
    requires
        0 <= i < l,
        0 <= j < m,
        0 <= k < n,
    ensures
        0 <= at3(i, m, j, n, k) < l * m * n,
        0 <= i * m + j < l * m,
{
    lemma_at2(i, m, j, l);
    lemma_at2(i * m + j, n, k, l * m);
}

/// The elements of an index tensor with two axes exchanged.
pub fn swap_index_axes<T: Copy>(data: &Vec<T>, shape: &[usize], a: usize, b: usize) -> (r: Vec<T>)
    requires
        a < shape@.len(),
        b < shape@.len(),
        span(shape@) <= usize::MAX,
        data@.len() == numel(shape@),
    ensures
        r@.len() == data@.len(),
        forall|i: int|
            0 <= i < r@.len() ==> #[trigger] r@[i] == data@[position(
                shape@,
                swapped(
                    coords(swapped(shape@, a as int, b as int), i as nat),
                    a as int,
                    b as int,
                ),
            ) as int],
{
    let ghost s = shape@;
    let ghost out = swapped(s, a as int, b as int);
    let mut turned: Vec<usize> = Vec::new();
    let mut k: usize = 0;
    while k < shape.len()
        invariant
            k <= shape@.len(),
            a < shape@.len(),
            b < shape@.len(),
            s == shape@,
            out == swapped(s, a as int, b as int),
            turned@ == out.subrange(0, k as int),
        decreases shape@.len() - k,
    {
        let e: usize = if k == b {
            shape[a]
        } else if k == a {
            shape[b]
        } else {
            shape[k]
        };
        turned.push(e);
        k = k + 1;
        assert(turned@ =~= out.subrange(0, k as int));
    }
    assert(turned@ =~= out);
    proof {
        lemma_numel_swapped(s, a as int, b as int);
    }
    let so = row_major_strides(turned.as_slice());
    let mut ss = row_major_strides(shape);
    let sa: usize = ss[a];
    let sb: usize = ss[b];
    ss.set(a, sb);
    ss.set(b, sa);
    proof {
        assert(nats(so@) =~= row_major(out));
        assert(nats(ss@) =~= swapped(row_major(s), a as int, b as int));
    }
    let mut r: Vec<T> = Vec::new();
    let mut i: usize = 0;
    while i < data.len()
        invariant
            i <= data@.len(),
            a < s.len(),
            b < s.len(),
            data@.len() == numel(s),
            out == swapped(s, a as int, b as int),
            numel(out) == numel(s),
            so@.len() == s.len(),
            ss@.len() == s.len(),
            nats(so@) == row_major(out),
            nats(ss@) == swapped(row_major(s), a as int, b as int),
            r@.len() == i,
            forall|k: int|
                0 <= k < i ==> #[trigger] r@[k] == data@[position(
                    s,
                    swapped(coords(out, k as nat), a as int, b as int),
                ) as int],
        decreases data@.len() - i,
    {
        proof {
            law_transpose_reads_exchanged_coordinates(s, a as int, b as int, i as nat);
            assert forall|k: int| 0 <= k < so@.len() implies #[trigger] so@[k] > 0 by {
                lemma_strides_positive(out, k);
                assert(nats(so@)[k] == row_major(out)[k]);
            }
        }
        let p: usize = step_through(i, &so, &ss);
        r.push(data[p]);
        i = i + 1;
    }
    r
}

/// A run of columns of a matrix.
pub fn take_columns<T: Copy>(data: &Vec<T>, rows: usize, cols: usize, from: usize, width: usize) -> (r:
    Vec<T>)
    requires
        data@.len() == rows * cols,
        from + width <= cols,
    ensures
        r@.len() == rows * width,
        forall|i: int, j: int|
            0 <= i < rows && 0 <= j < width ==> r@[#[trigger] at2(i, width as int, j)] == data@[at2(
                i,
                cols as int,
                from + j,
            )],
{
    let mut r: Vec<T> = Vec::new();
    let len: usize = data.len();
    let mut i: usize = 0;
    assert(0 * width == 0);
    while i < rows
        invariant
            i <= rows,
            data@.len() == rows * cols,
            len == data@.len(),
            from + width <= cols,
            r@.len() == i * width,
            forall|k: int, j: int|
                0 <= k < i && 0 <= j < width ==> r@[#[trigger] at2(k, width as int, j)]
                    == data@[at2(k, cols as int, from + j)],
        decreases rows - i,
    {
        proof {
            let x = i as int;
            let c = cols as int;
            let n = rows as int;
            assert(x * c + c <= n * c) by (nonlinear_arith)
                requires
                    x + 1 <= n,
                    c >= 0,
            ;
            assert(x * c >= 0) by (nonlinear_arith)
                requires
                    x >= 0,
                    c >= 0,
            ;
        }
        let base: usize = i * cols + from;
        let ghost before = r@;
        append_run(&mut r, data, base, width);
        proof {
            let w = width as int;
            assert((i + 1) * w == i * w + w) by (nonlinear_arith);
            assert forall|k: int, j: int| 0 <= k < i + 1 && 0 <= j < width implies r@[#[trigger] at2(
                k,
                w,
                j,
            )] == data@[at2(k, cols as int, from + j)] by {
                if k < i {
                    lemma_at2(k, w, j, i as int);
                    assert(r@[at2(k, w, j)] == before[at2(k, w, j)]);
                } else {
                    assert(r@[i * w + j] == data@.subrange(base as int, base + width)[j]);
                }
            }
        }
        i = i + 1;
    }
    r
}

/// A run of elements.
pub fn take_range<T: Copy>(data: &Vec<T>, from: usize, len: usize) -> (r: Vec<T>)
    requires
        from + len <= data@.len(),
    ensures
        r@ == data@.subrange(from as int, from + len),
{
    let mut r: Vec<T> = Vec::new();
    append_run(&mut r, data, from, len);
    assert(r@ =~= data@.subrange(from as int, from + len));
    r
}

/// How many places of the axis the first `k` parts of a concatenation take.
pub open spec fn offset_of(lens: Seq<usize>, k: int) -> int
    decreases k,
{
    if k <= 0 {
        0
    } else {
        offset_of(lens, k - 1) + lens[k - 1]
    }
}

/// Where the element `e` of the part `k` in row `o` of a concatenation lies.
pub open spec fn concat_at(lens: Seq<usize>, inner: int, o: int, k: int, e: int) -> int {
    (o * offset_of(lens, lens.len() as int) + offset_of(lens, k)) * inner + e
}

pub(crate) proof fn lemma_offset(lens: Seq<usize>, i: int, j: int)
    requires
        0 <= i <= j <= lens.len(),
    ensures
        0 <= offset_of(lens, i) <= offset_of(lens, j),
    decreases j,
{
    if i < j {
        lemma_offset(lens, i, j - 1);
    } else if i > 0 {
        lemma_offset(lens, i - 1, i - 1);
    }
}

/// Parts of one concatenation do not overlap, and come in order.
proof fn lemma_concat_at(lens: Seq<usize>, inner: int, o: int, k: int, e: int, p: int, q: int)
    requires
        0 <= o <= p,
        0 <= k < lens.len(),
        0 <= q <= lens.len(),
        o < p || k < q,
        inner >= 0,
        0 <= e < lens[k] * inner,
    ensures
        0 <= concat_at(lens, inner, o, k, e) < concat_at(lens, inner, p, q, 0),
{
    let n = lens.len() as int;
    let t = offset_of(lens, n);
    lemma_offset(lens, k, k + 1);
    lemma_offset(lens, k + 1, n);
    lemma_offset(lens, q, n);
    let a = offset_of(lens, k);
    let b = offset_of(lens, q);
    let l = lens[k] as int;
    if o < p {
        assert(o * t + a + l <= p * t + b) by (nonlinear_arith)
            requires
                o + 1 <= p,
                a + l <= t,
                b >= 0,
                t >= 0,
        ;
    } else {
        lemma_offset(lens, k + 1, q);
    }
    assert(o * t >= 0) by (nonlinear_arith)
        requires
            o >= 0,
            t >= 0,
    ;
    let x = o * t + a;
    let y = p * t + b;
    assert(0 <= x * inner + e < y * inner) by (nonlinear_arith)
        requires
            0 <= x,
            x + l <= y,
            0 <= e < l * inner,
            inner >= 0,
    ;
}

/// Several tensors one after the other along an axis: for each outer index,
/// the run of the first, then that of the second, and so on.
pub fn concat_runs<T: Copy>(ins: &Vec<Vec<T>>, outer: usize, lens: &[usize], inner: usize) -> (r: Vec<
    T,
>)
    requires
        ins@.len() == lens@.len(),
        forall|k: int|
            0 <= k < ins@.len() ==> (#[trigger] ins@[k])@.len() == outer * (lens@[k] * inner),
    ensures
        r@.len() == (outer * offset_of(lens@, lens@.len() as int)) * inner,
        forall|o: int, k: int, e: int|
            0 <= o < outer && 0 <= k < ins@.len() && 0 <= e < lens@[k] * inner
                ==> r@[#[trigger] concat_at(lens@, inner as int, o, k, e)] == ins@[k]@[at2(
                o,
                lens@[k] * inner,
                e,
            )],
{
    let ghost ls = lens@;
    let ghost n = lens@.len() as int;
    let ghost w = inner as int;
    let mut r: Vec<T> = Vec::new();
    let mut o: usize = 0;
    proof {
        assert((0 * offset_of(ls, n) + offset_of(ls, 0)) * w == 0) by (nonlinear_arith)
            requires
                offset_of(ls, 0) == 0,
        ;
    }
    while o < outer
        invariant
            o <= outer,
            ls == lens@,
            n == ls.len(),
            w == inner,
            ins@.len() == n,
            forall|k: int|
                0 <= k < ins@.len() ==> (#[trigger] ins@[k])@.len() == outer * (lens@[k] * inner),
            r@.len() == concat_at(ls, w, o as int, 0, 0),
            forall|p: int, k: int, e: int|
                0 <= p < o && 0 <= k < n && 0 <= e < ls[k] * inner ==> r@[#[trigger] concat_at(
                    ls,
                    w,
                    p,
                    k,
                    e,
                )] == ins@[k]@[at2(p, ls[k] * inner, e)],
        decreases outer - o,
    {
        let mut k: usize = 0;
        while k < ins.len()
            invariant
                k <= n,
                o < outer,
                ls == lens@,
                n == ls.len(),
                w == inner,
                ins@.len() == n,
                forall|k: int|
                    0 <= k < ins@.len() ==> (#[trigger] ins@[k])@.len() == outer * (lens@[k]
                        * inner),
                r@.len() == concat_at(ls, w, o as int, k as int, 0),
                forall|p: int, q: int, e: int|
                    0 <= p <= o && 0 <= q < n && (p < o || q < k) && 0 <= e < ls[q] * inner
                        ==> r@[#[trigger] concat_at(ls, w, p, q, e)] == ins@[q]@[at2(
                        p,
                        ls[q] * inner,
                        e,
                    )],
            decreases n - k,
        {
            let len: usize = ins[k].len();
            proof {
                let m = ls[k as int] * inner;
                let u = outer as int;
                let x = o as int;
                assert(m >= 0) by (nonlinear_arith)
                    requires
                        m == ls[k as int] * inner,
                ;
                assert(x * m + m <= u * m && x * m >= 0 && m <= u * m) by (nonlinear_arith)
                    requires
                        0 <= x,
                        x + 1 <= u,
                        m >= 0,
                ;
            }
            let run: usize = lens[k] * inner;
            let from: usize = o * run;
            let ghost before = r@;
            append_run(&mut r, &ins[k], from, run);
            proof {
                let a = o * offset_of(ls, n) + offset_of(ls, k as int);
                let l = ls[k as int] as int;
                assert((a + l) * w == a * w + l * w) by (nonlinear_arith);
                assert forall|p: int, q: int, e: int|
                    0 <= p <= o && 0 <= q < n && (p < o || q < k + 1) && 0 <= e < ls[q]
                        * inner implies r@[#[trigger] concat_at(ls, w, p, q, e)] == ins@[q]@[at2(
                    p,
                    ls[q] * inner,
                    e,
                )] by {
                    if p < o || q < k {
                        lemma_concat_at(ls, w, p, q, e, o as int, k as int);
                        assert(r@[concat_at(ls, w, p, q, e)] == before[concat_at(ls, w, p, q, e)]);
                    } else {
                        assert(concat_at(ls, w, p, q, e) == before.len() + e);
                        assert(r@[before.len() + e] == ins@[q]@.subrange(
                            from as int,
                            from + run,
                        )[e]);
                    }
                }
            }
            k = k + 1;
        }
        proof {
            let t = offset_of(ls, n);
            let x = o as int;
            assert((x + 1) * t == x * t + t) by (nonlinear_arith);
            assert(concat_at(ls, w, x + 1, 0, 0) == concat_at(ls, w, x, n, 0));
        }
        o = o + 1;
    }
    proof {
        assert(concat_at(ls, w, outer as int, 0, 0) == (outer * offset_of(ls, n)) * inner);
    }
    r
}

} // verus!
