//! The plain scan kernel: one thread per batch entry, head and feature walks
//! the chunks and keeps its column of the state.

use crate::host::{at2, lemma_at2};
use crate::index::{lemma_at2_parts, lemma_parts_at2};
use crate::scan::{
    element_index, lemma_row, lemma_step, row_at, row_index, rows, scannable, step_of, Arith, Head,
    ScanData,
};
use crate::ssd::{ScanDims, MAX_BLOCK_LEN, MAX_N_DIM};
use vstd::prelude::*;

verus! {

impl<T: Copy, A: Fn(T, T) -> T, M: Fn(T, T) -> T, S: Fn(T, T) -> T, E: Fn(T) -> T> Arith<
    T,
    A,
    M,
    S,
    E,
> {
    /// The running decay of a chunk.
    pub fn chunk_decay(&self, data: &ScanData<T>, d: &ScanDims, k: Head, chunk: usize) -> (v: Vec<T>)
        requires
            self.ok(),
            scannable(*d),
            data@.fits(*d),
            k.within(*d),
            chunk < d.t_len / d.block_len,
        ensures
            v@.len() == d.block_len,
            forall|q: int|
                0 <= q < d.block_len ==> #[trigger] v@[q] == self.decay(
                    data@,
                    *d,
                    k,
                    chunk as int,
                    q + 1,
                ),
    {
        let mut v: Vec<T> = Vec::new();
        let mut acc: T = self.zero;
        let mut q: usize = 0;
        while q < d.block_len
            invariant
                q <= d.block_len,
                self.ok(),
                scannable(*d),
                data@.fits(*d),
                k.within(*d),
                chunk < d.t_len / d.block_len,
                acc == self.decay(data@, *d, k, chunk as int, q as int),
                v@.len() == q,
                forall|j: int|
                    0 <= j < q ==> #[trigger] v@[j] == self.decay(
                        data@,
                        *d,
                        k,
                        chunk as int,
                        j + 1,
                    ),
            decreases d.block_len - q,
        {
            proof {
                lemma_step(*d, chunk as int, q as int);
            }
            let t: usize = chunk * d.block_len + q;
            let row: usize = row_index(d, k, t);
            let x: T = data.a[row];
            acc = self.do_sum(acc, x);
            v.push(acc);
            q = q + 1;
        }
        v
    }

    /// The overlap of the projections at two steps.
    pub fn step_overlap(&self, data: &ScanData<T>, d: &ScanDims, k: Head, t: usize, u: usize) -> (r: T)
        requires
            self.ok(),
            scannable(*d),
            data@.fits(*d),
            k.within(*d),
            t < d.t_len,
            u < d.t_len,
        ensures
            r == self.overlap(data@, *d, k, t as int, u as int, d.n_dim as int),
    {
        let ct: usize = row_index(d, k, t);
        let bu: usize = row_index(d, k, u);
        let mut acc: T = self.zero;
        let mut n: usize = 0;
        while n < d.n_dim
            invariant
                n <= d.n_dim,
                self.ok(),
                scannable(*d),
                data@.fits(*d),
                ct == row_at(*d, k.b as int, t as int, k.h as int),
                bu == row_at(*d, k.b as int, u as int, k.h as int),
                ct < rows(*d),
                bu < rows(*d),
                acc == self.overlap(data@, *d, k, t as int, u as int, n as int),
            decreases d.n_dim - n,
        {
            let c: T = data.c[element_index(ct, d.n_dim, n, Ghost(rows(*d)))];
            let b: T = data.b[element_index(bu, d.n_dim, n, Ghost(rows(*d)))];
            let m = self.do_prod(c, b);
            acc = self.do_sum(acc, m);
            n = n + 1;
        }
        acc
    }

    /// The output of one lane at place `q` of a chunk that it entered with the
    /// states `h`.
    fn lane_output(
        &self,
        data: &ScanData<T>,
        d: &ScanDims,
        k: Head,
        p: usize,
        chunk: usize,
        q: usize,
        cum: &Vec<T>,
        h: &Vec<T>,
    ) -> (y: T)
        requires
            self.ok(),
            scannable(*d),
            data@.fits(*d),
            k.within(*d),
            p < d.p_dim,
            chunk < d.t_len / d.block_len,
            q < d.block_len,
            cum@.len() == d.block_len,
            forall|j: int|
                0 <= j < d.block_len ==> #[trigger] cum@[j] == self.decay(
                    data@,
                    *d,
                    k,
                    chunk as int,
                    j + 1,
                ),
            h@.len() == d.n_dim,
            forall|n: int|
                0 <= n < d.n_dim ==> #[trigger] h@[n] == self.state(
                    data@,
                    *d,
                    k,
                    p as int,
                    n,
                    false,
                    chunk as int,
                ),
        ensures
            y == self.output(
                data@,
                *d,
                k,
                p as int,
                false,
                chunk as int,
                q as int,
                d.n_dim as int,
            ),
    {
        proof {
            lemma_step(*d, chunk as int, q as int);
        }
        let t: usize = chunk * d.block_len + q;
        let cum_t: T = cum[q];
        let mut acc: T = self.zero;
        let mut m: usize = 0;
        while m < q + 1
            invariant
                m <= q + 1,
                self.ok(),
                scannable(*d),
                data@.fits(*d),
                k.within(*d),
                p < d.p_dim,
                chunk < d.t_len / d.block_len,
                q < d.block_len,
                t == step_of(*d, chunk as int, q as int),
                t < d.t_len,
                cum@.len() == d.block_len,
                cum_t == self.decay(data@, *d, k, chunk as int, q + 1),
                forall|j: int|
                    0 <= j < d.block_len ==> #[trigger] cum@[j] == self.decay(
                        data@,
                        *d,
                        k,
                        chunk as int,
                        j + 1,
                    ),
                acc == self.within_chunk(
                    data@,
                    *d,
                    k,
                    p as int,
                    chunk as int,
                    q as int,
                    m as int,
                ),
            decreases q + 1 - m,
        {
            proof {
                lemma_step(*d, chunk as int, m as int);
            }
            let u: usize = chunk * d.block_len + m;
            let f = self.do_left(cum_t, cum[m]);
            let o = self.step_overlap(data, d, k, t, u);
            let row: usize = row_index(d, k, u);
            let x: T = data.x[element_index(row, d.p_dim, p, Ghost(rows(*d)))];
            let fo = self.do_prod(f, o);
            let g = self.do_prod(fo, x);
            acc = self.do_sum(acc, g);
            m = m + 1;
        }
        let grown = self.do_grown(cum_t);
        let row: usize = row_index(d, k, t);
        let mut n: usize = 0;
        while n < d.n_dim
            invariant
                n <= d.n_dim,
                self.ok(),
                scannable(*d),
                data@.fits(*d),
                row == row_at(*d, k.b as int, t as int, k.h as int),
                row < rows(*d),
                t == step_of(*d, chunk as int, q as int),
                grown == self.grown(self.decay(data@, *d, k, chunk as int, q + 1)),
                h@.len() == d.n_dim,
                forall|i: int|
                    0 <= i < d.n_dim ==> #[trigger] h@[i] == self.state(
                        data@,
                        *d,
                        k,
                        p as int,
                        i,
                        false,
                        chunk as int,
                    ),
                acc == self.output(
                    data@,
                    *d,
                    k,
                    p as int,
                    false,
                    chunk as int,
                    q as int,
                    n as int,
                ),
            decreases d.n_dim - n,
        {
            let c: T = data.c[element_index(row, d.n_dim, n, Ghost(rows(*d)))];
            let gc = self.do_prod(grown, c);
            let z = self.do_prod(gc, h[n]);
            acc = self.do_sum(acc, z);
            n = n + 1;
        }
        acc
    }

    /// One state of a lane after a chunk that it entered as `before`.
    fn lane_carry(
        &self,
        data: &ScanData<T>,
        d: &ScanDims,
        k: Head,
        p: usize,
        n: usize,
        chunk: usize,
        cum: &Vec<T>,
        before: T,
    ) -> (r: T)
        requires
            self.ok(),
            scannable(*d),
            data@.fits(*d),
            k.within(*d),
            p < d.p_dim,
            n < d.n_dim,
            chunk < d.t_len / d.block_len,
            cum@.len() == d.block_len,
            forall|j: int|
                0 <= j < d.block_len ==> #[trigger] cum@[j] == self.decay(
                    data@,
                    *d,
                    k,
                    chunk as int,
                    j + 1,
                ),
        ensures
            r == self.carried(
                data@,
                *d,
                k,
                p as int,
                n as int,
                chunk as int,
                false,
                before,
                d.block_len as int,
            ),
    {
        let end: T = cum[d.block_len - 1];
        let full = self.do_grown(end);
        let mut acc: T = self.do_prod(before, full);
        let mut m: usize = 0;
        while m < d.block_len
            invariant
                m <= d.block_len,
                self.ok(),
                scannable(*d),
                data@.fits(*d),
                k.within(*d),
                p < d.p_dim,
                n < d.n_dim,
                chunk < d.t_len / d.block_len,
                cum@.len() == d.block_len,
                end == self.decay(data@, *d, k, chunk as int, d.block_len as int),
                forall|j: int|
                    0 <= j < d.block_len ==> #[trigger] cum@[j] == self.decay(
                        data@,
                        *d,
                        k,
                        chunk as int,
                        j + 1,
                    ),
                acc == self.carried(
                    data@,
                    *d,
                    k,
                    p as int,
                    n as int,
                    chunk as int,
                    false,
                    before,
                    m as int,
                ),
            decreases d.block_len - m,
        {
            proof {
                lemma_step(*d, chunk as int, m as int);
            }
            let u: usize = chunk * d.block_len + m;
            let f = self.do_left(end, cum[m]);
            let row: usize = row_index(d, k, u);
            let b: T = data.b[element_index(row, d.n_dim, n, Ghost(rows(*d)))];
            let x: T = data.x[element_index(row, d.p_dim, p, Ghost(rows(*d)))];
            let fb = self.do_prod(f, b);
            let g = self.do_prod(fb, x);
            acc = self.do_sum(acc, g);
            m = m + 1;
        }
        acc
    }

    /// The outputs of one lane, step by step.
    pub fn scan_lane(&self, data: &ScanData<T>, d: &ScanDims, k: Head, p: usize) -> (ys: Vec<T>)
        requires
            self.ok(),
            scannable(*d),
            data@.fits(*d),
            k.within(*d),
            p < d.p_dim,
        ensures
            ys@.len() == d.t_len,
            forall|t: int|
                0 <= t < d.t_len ==> #[trigger] ys@[t] == self.scanned(
                    data@,
                    *d,
                    k,
                    p as int,
                    false,
                    t,
                ),
    {
        let chunks: usize = d.t_len / d.block_len;
        let mut h: Vec<T> = Vec::new();
        let mut i: usize = 0;
        while i < d.n_dim
            invariant
                i <= d.n_dim,
                h@.len() == i,
                forall|n: int|
                    0 <= n < i ==> #[trigger] h@[n] == self.state(
                        data@,
                        *d,
                        k,
                        p as int,
                        n,
                        false,
                        0,
                    ),
            decreases d.n_dim - i,
        {
            h.push(self.zero);
            i = i + 1;
        }
        let mut ys: Vec<T> = Vec::new();
        let mut chunk: usize = 0;
        assert(0 * d.block_len == 0);
        while chunk < chunks
            invariant
                chunk <= chunks,
                chunks == d.t_len / d.block_len,
                self.ok(),
                scannable(*d),
                data@.fits(*d),
                k.within(*d),
                p < d.p_dim,
                h@.len() == d.n_dim,
                forall|n: int|
                    0 <= n < d.n_dim ==> #[trigger] h@[n] == self.state(
                        data@,
                        *d,
                        k,
                        p as int,
                        n,
                        false,
                        chunk as int,
                    ),
                ys@.len() == chunk * d.block_len,
                forall|t: int|
                    0 <= t < ys@.len() ==> #[trigger] ys@[t] == self.scanned(
                        data@,
                        *d,
                        k,
                        p as int,
                        false,
                        t,
                    ),
            decreases chunks - chunk,
        {
            let cum = self.chunk_decay(data, d, k, chunk);
            let mut q: usize = 0;
            while q < d.block_len
                invariant
                    q <= d.block_len,
                    chunk < chunks,
                    chunks == d.t_len / d.block_len,
                    self.ok(),
                    scannable(*d),
                    data@.fits(*d),
                    k.within(*d),
                    p < d.p_dim,
                    cum@.len() == d.block_len,
                    forall|j: int|
                        0 <= j < d.block_len ==> #[trigger] cum@[j] == self.decay(
                            data@,
                            *d,
                            k,
                            chunk as int,
                            j + 1,
                        ),
                    h@.len() == d.n_dim,
                    forall|n: int|
                        0 <= n < d.n_dim ==> #[trigger] h@[n] == self.state(
                            data@,
                            *d,
                            k,
                            p as int,
                            n,
                            false,
                            chunk as int,
                        ),
                    ys@.len() == step_of(*d, chunk as int, q as int),
                    forall|t: int|
                        0 <= t < ys@.len() ==> #[trigger] ys@[t] == self.scanned(
                            data@,
                            *d,
                            k,
                            p as int,
                            false,
                            t,
                        ),
                decreases d.block_len - q,
            {
                proof {
                    lemma_step(*d, chunk as int, q as int);
                }
                let y = self.lane_output(data, d, k, p, chunk, q, &cum, &h);
                ys.push(y);
                q = q + 1;
            }
            let mut next: Vec<T> = Vec::new();
            let mut n: usize = 0;
            while n < d.n_dim
                invariant
                    n <= d.n_dim,
                    chunk < chunks,
                    chunks == d.t_len / d.block_len,
                    self.ok(),
                    scannable(*d),
                    data@.fits(*d),
                    k.within(*d),
                    p < d.p_dim,
                    cum@.len() == d.block_len,
                    forall|j: int|
                        0 <= j < d.block_len ==> #[trigger] cum@[j] == self.decay(
                            data@,
                            *d,
                            k,
                            chunk as int,
                            j + 1,
                        ),
                    h@.len() == d.n_dim,
                    forall|i: int|
                        0 <= i < d.n_dim ==> #[trigger] h@[i] == self.state(
                            data@,
                            *d,
                            k,
                            p as int,
                            i,
                            false,
                            chunk as int,
                        ),
                    next@.len() == n,
                    forall|i: int|
                        0 <= i < n ==> #[trigger] next@[i] == self.state(
                            data@,
                            *d,
                            k,
                            p as int,
                            i,
                            false,
                            chunk + 1,
                        ),
                decreases d.n_dim - n,
            {
                let before: T = h[n];
                let s = self.lane_carry(data, d, k, p, n, chunk, &cum, before);
                next.push(s);
                n = n + 1;
            }
            h = next;
            proof {
                let x = chunk as int;
                let l = d.block_len as int;
                assert((x + 1) * l == x * l + l) by (nonlinear_arith);
            }
            chunk = chunk + 1;
        }
        proof {
            lemma_parts_at2(d.t_len as int, d.block_len as int);
        }
        ys
    }

    /// The whole scan: every lane writes its own outputs.
    pub fn ssd_scan_chunked(&self, data: &ScanData<T>, d: &ScanDims) -> (y: Vec<T>)
        requires
            self.ok(),
            d.n_dim <= MAX_N_DIM,
            d.block_len <= MAX_BLOCK_LEN,
            scannable(*d),
            data@.fits(*d),
        ensures
            y@.len() == rows(*d) * d.p_dim,
            forall|b: int, t: int, h: int, p: int|
                0 <= b < d.batch && 0 <= t < d.t_len && 0 <= h < d.n_heads && 0 <= p < d.p_dim
                    ==> y@[#[trigger] out_at(*d, b, t, h, p)] == self.scanned(
                    data@,
                    *d,
                    Head { b: b as usize, h: h as usize },
                    p,
                    false,
                    t,
                ),
    {
        let len: usize = data.x.len();
        let mut y: Vec<T> = Vec::new();
        let mut i: usize = 0;
        while i < len
            invariant
                i <= len,
                y@.len() == i,
            decreases len - i,
        {
            y.push(self.zero);
            i = i + 1;
        }
        let mut b: usize = 0;
        while b < d.batch
            invariant
                b <= d.batch,
                self.ok(),
                scannable(*d),
                data@.fits(*d),
                y@.len() == rows(*d) * d.p_dim,
                forall|b1: int, t: int, h: int, p: int|
                    0 <= b1 < b && 0 <= t < d.t_len && 0 <= h < d.n_heads && 0 <= p < d.p_dim
                        ==> y@[#[trigger] out_at(*d, b1, t, h, p)] == self.scanned(
                        data@,
                        *d,
                        Head { b: b1 as usize, h: h as usize },
                        p,
                        false,
                        t,
                    ),
            decreases d.batch - b,
        {
            let mut h: usize = 0;
            while h < d.n_heads
                invariant
                    h <= d.n_heads,
                    b < d.batch,
                    self.ok(),
                    scannable(*d),
                    data@.fits(*d),
                    y@.len() == rows(*d) * d.p_dim,
                    forall|b1: int, t: int, h1: int, p: int|
                        0 <= b1 <= b && 0 <= t < d.t_len && 0 <= h1 < d.n_heads && 0 <= p < d.p_dim
                            && (b1 < b || h1 < h) ==> y@[#[trigger] out_at(*d, b1, t, h1, p)]
                            == self.scanned(
                            data@,
                            *d,
                            Head { b: b1 as usize, h: h1 as usize },
                            p,
                            false,
                            t,
                        ),
                decreases d.n_heads - h,
            {
                let mut p: usize = 0;
                while p < d.p_dim
                    invariant
                        p <= d.p_dim,
                        h < d.n_heads,
                        b < d.batch,
                        self.ok(),
                        scannable(*d),
                        data@.fits(*d),
                        y@.len() == rows(*d) * d.p_dim,
                        forall|b1: int, t: int, h1: int, p1: int|
                            0 <= b1 <= b && 0 <= t < d.t_len && 0 <= h1 < d.n_heads && 0 <= p1
                                < d.p_dim && (b1 < b || h1 < h || (b1 == b && h1 == h && p1 < p))
                                ==> y@[#[trigger] out_at(*d, b1, t, h1, p1)] == self.scanned(
                                data@,
                                *d,
                                Head { b: b1 as usize, h: h1 as usize },
                                p1,
                                false,
                                t,
                            ),
                    decreases d.p_dim - p,
                {
                    let k = Head { b, h };
                    let ys = self.scan_lane(data, d, k, p);
                    let ghost before = y@;
                    write_lane(&mut y, &ys, d, k, p);
                    proof {
                        assert forall|b1: int, t: int, h1: int, p1: int|
                            0 <= b1 <= b && 0 <= t < d.t_len && 0 <= h1 < d.n_heads && 0 <= p1
                                < d.p_dim && (b1 < b || h1 < h || (b1 == b && h1 == h && p1 < p
                                + 1)) implies y@[#[trigger] out_at(*d, b1, t, h1, p1)]
                            == self.scanned(
                            data@,
                            *d,
                            Head { b: b1 as usize, h: h1 as usize },
                            p1,
                            false,
                            t,
                        ) by {
                            if b1 == b && h1 == h && p1 == p {
                                assert(y@[out_at(*d, b as int, t, h as int, p as int)] == ys@[t]);
                            } else {
                                assert(before[out_at(*d, b1, t, h1, p1)] == self.scanned(
                                    data@,
                                    *d,
                                    Head { b: b1 as usize, h: h1 as usize },
                                    p1,
                                    false,
                                    t,
                                ));
                            }
                        }
                    }
                    p = p + 1;
                }
                h = h + 1;
            }
            b = b + 1;
        }
        y
    }
}

/// Where the output of a step, head and feature lies.
pub open spec fn out_at(d: ScanDims, b: int, t: int, h: int, p: int) -> int {
    at2(row_at(d, b, t, h), d.p_dim as int, p)
}

/// Every output has a place of its own, within the output: no two threads
/// write the same element.
pub proof fn law_lanes_write_apart(
    d: ScanDims,
    b: int,
    t: int,
    h: int,
    p: int,
    b1: int,
    t1: int,
    h1: int,
    p1: int,
)
    requires
        0 <= b < d.batch && 0 <= t < d.t_len && 0 <= h < d.n_heads && 0 <= p < d.p_dim,
        0 <= b1 < d.batch && 0 <= t1 < d.t_len && 0 <= h1 < d.n_heads && 0 <= p1 < d.p_dim,
    ensures
        0 <= out_at(d, b, t, h, p) < rows(d) * d.p_dim,
        out_at(d, b, t, h, p) == out_at(d, b1, t1, h1, p1) ==> b == b1 && t == t1 && h == h1 && p
            == p1,
{
    lemma_row(d, b, t, h);
    lemma_at2(row_at(d, b, t, h), d.p_dim as int, p, rows(d));
    lemma_at2_parts(row_at(d, b, t, h), d.p_dim as int, p);
    lemma_at2_parts(row_at(d, b1, t1, h1), d.p_dim as int, p1);
    let y = b * d.t_len + t;
    let z = b1 * d.t_len + t1;
    lemma_at2_parts(y, d.n_heads as int, h);
    lemma_at2_parts(z, d.n_heads as int, h1);
    lemma_at2_parts(b, d.t_len as int, t);
    lemma_at2_parts(b1, d.t_len as int, t1);
}

/// Writes the outputs of one lane, and nothing else.
pub fn write_lane<T: Copy>(y: &mut Vec<T>, ys: &Vec<T>, d: &ScanDims, k: Head, p: usize)
    requires
        scannable(*d),
        k.within(*d),
        p < d.p_dim,
        ys@.len() == d.t_len,
        old(y)@.len() == rows(*d) * d.p_dim,
    ensures
        final(y)@.len() == old(y)@.len(),
        forall|t: int|
            0 <= t < d.t_len ==> final(y)@[#[trigger] out_at(
                *d,
                k.b as int,
                t,
                k.h as int,
                p as int,
            )] == ys@[t],
        forall|b1: int, t: int, h1: int, p1: int|
            0 <= b1 < d.batch && 0 <= t < d.t_len && 0 <= h1 < d.n_heads && 0 <= p1 < d.p_dim && (b1
                != k.b || h1 != k.h || p1 != p) ==> final(y)@[#[trigger] out_at(*d, b1, t, h1, p1)]
                == old(y)@[out_at(*d, b1, t, h1, p1)],
{
    let ghost y0 = y@;
    let mut t: usize = 0;
    while t < d.t_len
        invariant
            t <= d.t_len,
            scannable(*d),
            k.within(*d),
            p < d.p_dim,
            ys@.len() == d.t_len,
            y0 == old(y)@,
            y@.len() == rows(*d) * d.p_dim,
            y0.len() == y@.len(),
            forall|u: int|
                0 <= u < t ==> y@[#[trigger] out_at(*d, k.b as int, u, k.h as int, p as int)]
                    == ys@[u],
            forall|b1: int, u: int, h1: int, p1: int|
                0 <= b1 < d.batch && 0 <= u < d.t_len && 0 <= h1 < d.n_heads && 0 <= p1 < d.p_dim
                    && (b1 != k.b || h1 != k.h || p1 != p) ==> y@[#[trigger] out_at(
                    *d,
                    b1,
                    u,
                    h1,
                    p1,
                )] == y0[out_at(*d, b1, u, h1, p1)],
        decreases d.t_len - t,
    {
        let row: usize = row_index(d, k, t);
        let i: usize = element_index(row, d.p_dim, p, Ghost(rows(*d)));
        let ghost before = y@;
        y.set(i, ys[t]);
        proof {
            let kb = k.b as int;
            let kh = k.h as int;
            let kp = p as int;
            let tt = t as int;
            assert(i == out_at(*d, kb, tt, kh, kp));
            assert forall|u: int| 0 <= u < t + 1 implies y@[#[trigger] out_at(*d, kb, u, kh, kp)]
                == ys@[u] by {
                law_lanes_write_apart(*d, kb, u, kh, kp, kb, tt, kh, kp);
            }
            assert forall|b1: int, u: int, h1: int, p1: int|
                0 <= b1 < d.batch && 0 <= u < d.t_len && 0 <= h1 < d.n_heads && 0 <= p1 < d.p_dim
                    && (b1 != k.b || h1 != k.h || p1 != p) implies y@[#[trigger] out_at(
                *d,
                b1,
                u,
                h1,
                p1,
            )] == y0[out_at(*d, b1, u, h1, p1)] by {
                law_lanes_write_apart(*d, b1, u, h1, p1, kb, tt, kh, kp);
                assert(y@[out_at(*d, b1, u, h1, p1)] == before[out_at(*d, b1, u, h1, p1)]);
            }
        }
        t = t + 1;
    }
}

} // verus!
