//! Which elements the threads of the copying kernels read and write.

use crate::conv::ConvDims;
use crate::host::{at2, at3, concat_at, lemma_at2, lemma_at3, offset_of};
use vstd::arithmetic::div_mod::{lemma_fundamental_div_mod, lemma_fundamental_div_mod_converse, lemma_mod_bound};
use vstd::prelude::*;

verus! {

/// Row and column of an index into a matrix of `n` columns.
pub proof fn lemma_at2_parts(i: int, n: int, j: int)
    requires
        0 <= j < n,
    ensures
        at2(i, n, j) / n == i,
        at2(i, n, j) % n == j,
{
    lemma_fundamental_div_mod_converse(at2(i, n, j), n, i, j);
}

/// An index is where its row and column say.
pub proof fn lemma_parts_at2(x: int, n: int)
    requires
        n > 0,
    ensures
        at2(x / n, n, x % n) == x,
        0 <= x % n < n,
        0 <= x ==> 0 <= x / n,
{
    lemma_fundamental_div_mod(x, n);
    lemma_mod_bound(x, n);
    assert((x / n) * n == n * (x / n)) by (nonlinear_arith);
    if 0 <= x {
        assert(0 <= x / n) by (nonlinear_arith)
            requires
                0 <= x,
                n > 0,
        ;
    }
}

/// The row of an index below `rows * n` is below `rows`.
pub proof fn lemma_row_bound(x: int, rows: int, n: int)
    requires
        0 <= x < rows * n,
        n >= 0,
    ensures
        n > 0,
        0 <= x / n < rows,
{
    assert(n > 0) by (nonlinear_arith)
        requires
            0 <= x < rows * n,
            n >= 0,
    ;
    assert(0 <= x / n < rows) by (nonlinear_arith)
        requires
            0 <= x < rows * n,
            n > 0,
    ;
}

/// Where the thread of output element `idx` reads in a transposition of
/// `rows` by `cols`.
pub open spec fn transposed_from(idx: int, rows: int, cols: int) -> int {
    at2(idx % rows, cols, idx / rows)
}

pub fn transpose_2d_source(idx: u32, rows: u32, cols: u32) -> (p: u32)
    requires
        idx < rows * cols,
        rows * cols <= u32::MAX,
    ensures
        p == transposed_from(idx as int, rows as int, cols as int),
        p < rows * cols,
{
    proof {
        let x = idx as int;
        let r = rows as int;
        let c = cols as int;
        assert(x < c * r) by (nonlinear_arith)
            requires
                x < r * c,
        ;
        lemma_row_bound(x, c, r);
        lemma_at2(x % r, c, x / r, r);
        let m = x % r;
        assert(m * c >= 0) by (nonlinear_arith)
            requires
                m >= 0,
                c >= 0,
        ;
    }
    (idx % rows) * cols + idx / rows
}

/// Transposing back reads every element from where it was.
pub proof fn law_transposition_undoes_itself(idx: int, rows: int, cols: int)
    requires
        0 <= idx < rows * cols,
        rows >= 0,
        cols >= 0,
    ensures
        transposed_from(transposed_from(idx, rows, cols), cols, rows) == idx,
{
    assert(idx < cols * rows) by (nonlinear_arith)
        requires
            idx < rows * cols,
    ;
    lemma_row_bound(idx, cols, rows);
    lemma_parts_at2(idx, rows);
    lemma_at2_parts(idx % rows, cols, idx / rows);
}

/// The parts of an index: outer, along the axis, and inner.
pub open spec fn axis_parts(idx: int, axis: int, inner: int) -> (int, int, int) {
    ((idx / inner) / axis, (idx / inner) % axis, idx % inner)
}

pub(crate) proof fn lemma_axis_parts(idx: int, outer: int, axis: int, inner: int)
    requires
        0 <= idx < outer * axis * inner,
        axis >= 0,
        inner >= 0,
    ensures
        axis > 0,
        inner > 0,
        ({
            let (o, a, i) = axis_parts(idx, axis, inner);
            &&& 0 <= o < outer
            &&& 0 <= a < axis
            &&& 0 <= i < inner
            &&& at3(o, axis, a, inner, i) == idx
        }),
{
    lemma_row_bound(idx, outer * axis, inner);
    lemma_parts_at2(idx, inner);
    lemma_row_bound(idx / inner, outer, axis);
    lemma_parts_at2(idx / inner, axis);
}

pub(crate) proof fn lemma_parts_of_at3(o: int, axis: int, a: int, inner: int, i: int)
    requires
        0 <= a < axis,
        0 <= i < inner,
    ensures
        axis_parts(at3(o, axis, a, inner, i), axis, inner) == (o, a, i),
{
    lemma_at2_parts(o * axis + a, inner, i);
    lemma_at2_parts(o, axis, a);
}

/// A window along an axis.
#[derive(Clone, Copy, Debug)]
pub struct Window {
    pub outer: u32,
    /// Extent of the axis.
    pub axis: u32,
    /// Extent of the window.
    pub len: u32,
    pub start: u32,
    pub inner: u32,
}

impl Window {
    /// Whether the window lies within the axis and the tensor can be indexed.
    pub open spec fn ok(self) -> bool {
        &&& self.start + self.len <= self.axis
        &&& self.outer * self.axis * self.inner <= u32::MAX
    }

    /// Elements of the window.
    pub open spec fn count(self) -> int {
        self.outer * self.len * self.inner
    }

    /// Elements of the tensor.
    pub open spec fn whole(self) -> int {
        self.outer * self.axis * self.inner
    }

    /// Where the thread of window element `idx` reads.
    pub open spec fn from(self, idx: int) -> int {
        let (o, a, i) = axis_parts(idx, self.len as int, self.inner as int);
        at3(o, self.axis as int, self.start + a, self.inner as int, i)
    }

    /// Where the thread of tensor element `idx` reads in the window, if it is
    /// in the window.
    pub open spec fn back(self, idx: int) -> Option<int> {
        let (o, a, i) = axis_parts(idx, self.axis as int, self.inner as int);
        if self.start <= a < self.start + self.len {
            Some(at3(o, self.len as int, a - self.start, self.inner as int, i))
        } else {
            None
        }
    }

    /// The source of a copied window's element.
    pub fn narrow_source(&self, idx: u32) -> (p: u32)
        requires
            self.ok(),
            idx < self.count(),
        ensures
            p == self.from(idx as int),
            p < self.whole(),
    {
        proof {
            let (o, a, i) = axis_parts(idx as int, self.len as int, self.inner as int);
            lemma_axis_parts(idx as int, self.outer as int, self.len as int, self.inner as int);
            lemma_at3(
                o,
                self.axis as int,
                self.start + a,
                self.inner as int,
                i,
                self.outer as int,
            );
            lemma_no_overflow(o, self.axis as int, self.start + a, self.inner as int, i);
        }
        let i: u32 = idx % self.inner;
        let rest: u32 = idx / self.inner;
        let a: u32 = rest % self.len;
        let o: u32 = rest / self.len;
        (o * self.axis + (self.start + a)) * self.inner + i
    }

    /// The source of an element of the gradient, in the window's gradient.
    /// There is none outside the window, where the gradient is zero.
    pub fn narrow_back_source(&self, idx: u32) -> (p: Option<u32>)
        requires
            self.ok(),
            idx < self.whole(),
        ensures
            match p {
                Some(q) => self.back(idx as int) == Some(q as int) && q < self.count(),
                None => self.back(idx as int) is None,
            },
    {
        proof {
            let (o, a, i) = axis_parts(idx as int, self.axis as int, self.inner as int);
            lemma_axis_parts(idx as int, self.outer as int, self.axis as int, self.inner as int);
            if self.start <= a < self.start + self.len {
                lemma_at3(
                    o,
                    self.len as int,
                    a - self.start,
                    self.inner as int,
                    i,
                    self.outer as int,
                );
                lemma_no_overflow(o, self.len as int, a - self.start, self.inner as int, i);
                let x = self.outer as int;
                let y = self.len as int;
                let z = self.axis as int;
                let w = self.inner as int;
                assert(x * y * w <= x * z * w) by (nonlinear_arith)
                    requires
                        x >= 0,
                        0 <= y <= z,
                        w >= 0,
                ;
            }
        }
        let i: u32 = idx % self.inner;
        let rest: u32 = idx / self.inner;
        let a: u32 = rest % self.axis;
        let o: u32 = rest / self.axis;
        if a >= self.start && a - self.start < self.len {
            Some((o * self.len + (a - self.start)) * self.inner + i)
        } else {
            None
        }
    }
}

/// The steps of a three-part index are no larger than the index.
proof fn lemma_no_overflow(o: int, axis: int, a: int, inner: int, i: int)
    requires
        o >= 0,
        a >= 0,
        axis >= 0,
        inner > 0,
        i >= 0,
    ensures
        0 <= o * axis,
        0 <= o * axis + a <= at3(o, axis, a, inner, i),
        0 <= (o * axis + a) * inner <= at3(o, axis, a, inner, i),
{
    assert(0 <= o * axis) by (nonlinear_arith)
        requires
            o >= 0,
            axis >= 0,
    ;
    let x = o * axis + a;
    assert(x <= x * inner) by (nonlinear_arith)
        requires
            x >= 0,
            inner >= 1,
    ;
}

/// The gradient of a window puts every element back where it was read, and
/// takes none that was not read.
pub proof fn law_window_gradient_inverts_window(w: Window, idx: int)
    requires
        w.ok(),
    ensures
        0 <= idx < w.count() ==> w.back(w.from(idx)) == Some(idx),
        0 <= idx < w.whole() ==> (w.back(idx) matches Some(q) ==> w.from(q) == idx && 0 <= q
            < w.count()),
{
    let outer = w.outer as int;
    let inner = w.inner as int;
    if 0 <= idx < w.count() {
        let (o, a, i) = axis_parts(idx, w.len as int, inner);
        lemma_axis_parts(idx, outer, w.len as int, inner);
        lemma_parts_of_at3(o, w.axis as int, w.start + a, inner, i);
    }
    if 0 <= idx < w.whole() {
        let (o, a, i) = axis_parts(idx, w.axis as int, inner);
        lemma_axis_parts(idx, outer, w.axis as int, inner);
        if w.start <= a < w.start + w.len {
            lemma_parts_of_at3(o, w.len as int, a - w.start, inner, i);
            lemma_at3(o, w.len as int, a - w.start, inner, i, outer);
        }
    }
}

/// Taking a part's window out of a concatenation gives the part back.
pub proof fn law_concatenation_keeps_its_parts(lens: Seq<usize>, w: Window, k: int, o: int, e: int)
    requires
        0 <= k < lens.len(),
        w.axis == offset_of(lens, lens.len() as int),
        w.start == offset_of(lens, k),
        w.len == lens[k],
        0 <= o < w.outer,
        0 <= e < lens[k] * w.inner,
    ensures
        w.from(at2(o, lens[k] * w.inner, e)) == concat_at(lens, w.inner as int, o, k, e),
{
    let l = lens[k] as int;
    let n = w.inner as int;
    let t = offset_of(lens, lens.len() as int);
    lemma_row_bound(e, l, n);
    lemma_parts_at2(e, n);
    let a = e / n;
    let i = e % n;
    assert(at2(o, l * n, e) == at3(o, l, a, n, i)) by (nonlinear_arith)
        requires
            at2(o, l * n, e) == o * (l * n) + e,
            at3(o, l, a, n, i) == (o * l + a) * n + i,
            e == a * n + i,
    ;
    lemma_parts_of_at3(o, l, a, n, i);
    let s = offset_of(lens, k);
    assert((o * t + (s + a)) * n + i == (o * t + s) * n + e) by (nonlinear_arith)
        requires
            e == a * n + i,
    ;
}

/// Where an embedding's thread reads in the table, for the row `raw`. A row
/// that the table does not have reads nothing.
pub open spec fn embedding_from(tid: int, raw: int, dim: int, rows: int) -> Option<int> {
    if 0 <= raw < rows {
        Some(at2(raw, dim, tid % dim))
    } else {
        None
    }
}

pub fn embedding_source(tid: u32, raw: i64, dim: u32, rows: u32) -> (p: Option<usize>)
    requires
        dim > 0,
        rows * dim <= usize::MAX,
    ensures
        match p {
            Some(q) => embedding_from(tid as int, raw as int, dim as int, rows as int) == Some(
                q as int,
            ) && q < rows * dim,
            None => embedding_from(tid as int, raw as int, dim as int, rows as int) is None,
        },
{
    if raw < 0 || raw as u64 >= rows as u64 {
        return None;
    }
    proof {
        let r = raw as int;
        let d = dim as int;
        lemma_at2(r, d, tid as int % d, rows as int);
        assert(r * d >= 0) by (nonlinear_arith)
            requires
                r >= 0,
                d >= 0,
        ;
    }
    Some(raw as usize * dim as usize + (tid % dim) as usize)
}

/// Where a gather's thread reads, for the column `raw`. A column that the
/// source does not have reads nothing.
pub open spec fn gather_from(tid: int, raw: int, width: int, picks: int) -> Option<int> {
    if 0 <= raw < width {
        Some(at2(tid / picks, width, raw))
    } else {
        None
    }
}

pub fn gather_source(tid: u32, raw: i64, width: u32, picks: u32, rows: u32) -> (p: Option<usize>)
    requires
        tid < rows * picks,
        rows * width <= usize::MAX,
    ensures
        match p {
            Some(q) => gather_from(tid as int, raw as int, width as int, picks as int) == Some(
                q as int,
            ) && q < rows * width,
            None => gather_from(tid as int, raw as int, width as int, picks as int) is None,
        },
{
    if raw < 0 || raw as u64 >= width as u64 {
        return None;
    }
    proof {
        let x = tid as int;
        let n = picks as int;
        lemma_row_bound(x, rows as int, n);
        lemma_at2(x / n, width as int, raw as int, rows as int);
        let q = x / n;
        let w = width as int;
        assert(q * w >= 0) by (nonlinear_arith)
            requires
                q >= 0,
                w >= 0,
        ;
    }
    Some((tid / picks) as usize * width as usize + raw as usize)
}

/// Batch and step, channel and tap of a column entry.
pub open spec fn column_parts(d: ConvDims, tid: int) -> (int, int, int, int) {
    let ck = d.c_in * d.k_size;
    let row = tid / ck;
    let col = tid % ck;
    (
        row / d.t_out as int,
        row % d.t_out as int,
        col / d.k_size as int,
        col % d.k_size as int,
    )
}

/// Where the thread of a column entry reads the input, or writes its gradient.
/// An entry in the padding does neither.
pub open spec fn column_from(d: ConvDims, tid: int) -> Option<int> {
    let (b, t, c, k) = column_parts(d, tid);
    let pos = t * d.stride + k - d.padding;
    if 0 <= pos < d.t_in {
        Some(at3(b, d.c_in as int, c, d.t_in as int, pos))
    } else {
        None
    }
}

/// A column entry's parts are in range.
proof fn lemma_column_parts(d: ConvDims, tid: int)
    requires
        0 <= tid < d.batch * d.t_out * (d.c_in * d.k_size),
    ensures
        ({
            let (b, t, c, k) = column_parts(d, tid);
            &&& 0 <= b < d.batch
            &&& 0 <= t < d.t_out
            &&& 0 <= c < d.c_in
            &&& 0 <= k < d.k_size
            &&& at2(at2(b, d.t_out as int, t), d.c_in * d.k_size, at2(c, d.k_size as int, k))
                == tid
        }),
        d.c_in * d.k_size > 0,
        d.t_out > 0,
        d.k_size > 0,
{
    let ck = d.c_in * d.k_size;
    assert(ck >= 0) by (nonlinear_arith)
        requires
            ck == d.c_in * d.k_size,
    ;
    lemma_row_bound(tid, d.batch * d.t_out, ck);
    lemma_parts_at2(tid, ck);
    let row = tid / ck;
    let col = tid % ck;
    lemma_row_bound(row, d.batch as int, d.t_out as int);
    lemma_parts_at2(row, d.t_out as int);
    lemma_row_bound(col, d.c_in as int, d.k_size as int);
    lemma_parts_at2(col, d.k_size as int);
}

/// The place of a column entry in the input.
pub fn im2col_source(d: &ConvDims, tid: usize) -> (p: Option<usize>)
    requires
        tid < d.batch * d.t_out * (d.c_in * d.k_size),
        d.c_in * d.k_size <= usize::MAX,
        d.batch * d.c_in * d.t_in <= usize::MAX,
        d.t_out * d.stride + d.k_size <= usize::MAX,
    ensures
        match p {
            Some(q) => column_from(*d, tid as int) == Some(q as int) && q < d.batch * d.c_in
                * d.t_in,
            None => column_from(*d, tid as int) is None,
        },
{
    proof {
        lemma_column_parts(*d, tid as int);
    }
    let ck: usize = d.c_in * d.k_size;
    let row: usize = tid / ck;
    let col: usize = tid % ck;
    let b: usize = row / d.t_out;
    let t: usize = row % d.t_out;
    let c: usize = col / d.k_size;
    let k: usize = col % d.k_size;
    proof {
        let x = t as int;
        let y = d.t_out as int;
        let s = d.stride as int;
        assert(0 <= x * s <= y * s) by (nonlinear_arith)
            requires
                0 <= x <= y,
                s >= 0,
        ;
    }
    let at: usize = t * d.stride + k;
    if at < d.padding || at - d.padding >= d.t_in {
        return None;
    }
    let pos: usize = at - d.padding;
    proof {
        lemma_at3(
            b as int,
            d.c_in as int,
            c as int,
            d.t_in as int,
            pos as int,
            d.batch as int,
        );
        lemma_no_overflow(b as int, d.c_in as int, c as int, d.t_in as int, pos as int);
    }
    Some((b * d.c_in + c) * d.t_in + pos)
}

/// The column entry of batch `b`, output step `t`, channel `c` and tap `k`
/// holds the input at the step that the tap reaches, or the padding.
pub proof fn law_columns_hold_what_the_taps_read(d: ConvDims, b: int, t: int, c: int, k: int)
    requires
        0 <= b,
        0 <= t < d.t_out,
        0 <= c < d.c_in,
        0 <= k < d.k_size,
    ensures
        column_from(
            d,
            at2(at2(b, d.t_out as int, t), d.c_in * d.k_size, at2(c, d.k_size as int, k)),
        ) == (if 0 <= t * d.stride + k - d.padding < d.t_in {
            Some(at3(b, d.c_in as int, c, d.t_in as int, t * d.stride + k - d.padding))
        } else {
            None
        }),
{
    lemma_at2(c, d.k_size as int, k, d.c_in as int);
    lemma_at2_parts(
        at2(b, d.t_out as int, t),
        d.c_in * d.k_size,
        at2(c, d.k_size as int, k),
    );
    lemma_at2_parts(b, d.t_out as int, t);
    lemma_at2_parts(c, d.k_size as int, k);
}

/// The source element for output element `idx`, by the strides of both.
pub fn strided_source(idx: u32, out: &Vec<u32>, src: &Vec<u32>) -> (p: u32)
    requires
        out@.len() == src@.len(),
        forall|i: int| 0 <= i < out@.len() ==> #[trigger] out@[i] > 0,
        crate::shape::strided(idx as nat, naturals(out@), naturals(src@)) <= u32::MAX,
    ensures
        p == crate::shape::strided(idx as nat, naturals(out@), naturals(src@)),
{
    let mut rem: u32 = idx;
    let mut acc: u32 = 0;
    let mut d: usize = 0;
    let ghost o = naturals(out@);
    let ghost s = naturals(src@);
    proof {
        assert(o.subrange(0, o.len() as int) =~= o);
        assert(s.subrange(0, s.len() as int) =~= s);
    }
    while d < out.len()
        invariant
            d <= out@.len(),
            out@.len() == src@.len(),
            o == naturals(out@),
            s == naturals(src@),
            forall|i: int| 0 <= i < out@.len() ==> #[trigger] out@[i] > 0,
            crate::shape::strided(idx as nat, o, s) <= u32::MAX,
            crate::shape::strided(idx as nat, o, s) == acc + crate::shape::strided(
                rem as nat,
                o.subrange(d as int, o.len() as int),
                s.subrange(d as int, s.len() as int),
            ),
        decreases out@.len() - d,
    {
        let so: u32 = out[d];
        let ss: u32 = src[d];
        let coord: u32 = rem / so;
        proof {
            let ot = o.subrange(d as int, o.len() as int);
            let st = s.subrange(d as int, s.len() as int);
            assert(ot.drop_first() =~= o.subrange(d + 1, o.len() as int));
            assert(st.drop_first() =~= s.subrange(d + 1, s.len() as int));
            assert(ot[0] == so && st[0] == ss);
            assert(coord as nat * ss as nat == coord * ss);
        }
        acc = acc + coord * ss;
        rem = rem % so;
        d = d + 1;
    }
    acc
}

/// The numbers of a list, without their bound.
pub open spec fn naturals(s: Seq<u32>) -> Seq<nat> {
    Seq::new(s.len(), |i: int| s[i] as nat)
}

} // verus!
