//! The chunked scan, as its kernels compute it, over elements of any kind.

use crate::host::{at2, at3, lemma_at2, lemma_at3};
use crate::index::{lemma_at2_parts, lemma_parts_at2};
use crate::lanes::{ap, definite};
use crate::ssd::ScanDims;
use vstd::prelude::*;

verus! {

/// The value of a function of one element.
pub open spec fn ap1<T, F: Fn(T) -> T>(f: F, x: T) -> T {
    choose|r: T| f.ensures((x,), r)
}

/// Whether a function can always be applied, and gives one value.
pub open spec fn definite1<T, F: Fn(T) -> T>(f: F) -> bool {
    &&& forall|x: T| #[trigger] f.requires((x,))
    &&& forall|x: T, r: T| #[trigger] f.ensures((x,), r) ==> r == ap1(f, x)
}

/// The arithmetic of a scan.
pub struct Arith<T, A, M, S, E> {
    pub zero: T,
    pub plus: A,
    pub times: M,
    pub minus: S,
    pub exp: E,
}

impl<T: Copy, A: Fn(T, T) -> T, M: Fn(T, T) -> T, S: Fn(T, T) -> T, E: Fn(T) -> T> Arith<
    T,
    A,
    M,
    S,
    E,
> {
    pub open spec fn ok(self) -> bool {
        &&& definite(self.plus)
        &&& definite(self.times)
        &&& definite(self.minus)
        &&& definite1(self.exp)
    }

    pub open spec fn sum(self, x: T, y: T) -> T {
        ap(self.plus, x, y)
    }

    pub open spec fn prod(self, x: T, y: T) -> T {
        ap(self.times, x, y)
    }

    /// How much of something is left after decaying from `y` to `x`.
    pub open spec fn left(self, x: T, y: T) -> T {
        ap1(self.exp, ap(self.minus, x, y))
    }

    pub open spec fn grown(self, x: T) -> T {
        ap1(self.exp, x)
    }

    pub(crate) fn do_sum(&self, x: T, y: T) -> (r: T)
        requires
            self.ok(),
        ensures
            r == self.sum(x, y),
    {
        (self.plus)(x, y)
    }

    pub(crate) fn do_prod(&self, x: T, y: T) -> (r: T)
        requires
            self.ok(),
        ensures
            r == self.prod(x, y),
    {
        (self.times)(x, y)
    }

    pub(crate) fn do_left(&self, x: T, y: T) -> (r: T)
        requires
            self.ok(),
        ensures
            r == self.left(x, y),
    {
        let d = (self.minus)(x, y);
        (self.exp)(d)
    }

    pub(crate) fn do_grown(&self, x: T) -> (r: T)
        requires
            self.ok(),
        ensures
            r == self.grown(x),
    {
        (self.exp)(x)
    }
}

/// The operands of a scan: `x` by batch, step, head and feature, `a` by
/// batch, step and head, `b` and `c` by batch, step, head and state.
#[verifier::ext_equal]
pub struct ScanSeqs<T> {
    pub x: Seq<T>,
    pub a: Seq<T>,
    pub b: Seq<T>,
    pub c: Seq<T>,
}

/// The same, to be read.
pub struct ScanData<T> {
    pub x: Vec<T>,
    pub a: Vec<T>,
    pub b: Vec<T>,
    pub c: Vec<T>,
}

impl<T> View for ScanData<T> {
    type V = ScanSeqs<T>;

    open spec fn view(&self) -> ScanSeqs<T> {
        ScanSeqs { x: self.x@, a: self.a@, b: self.b@, c: self.c@ }
    }
}

/// The row of a step and head.
pub open spec fn row_at(d: ScanDims, b: int, t: int, h: int) -> int {
    at3(b, d.t_len as int, t, d.n_heads as int, h)
}

/// Rows altogether.
pub open spec fn rows(d: ScanDims) -> int {
    d.batch * d.t_len * d.n_heads
}

impl<T> ScanSeqs<T> {
    /// Whether the operands have the extents `d`.
    pub open spec fn fits(self, d: ScanDims) -> bool {
        &&& self.x.len() == rows(d) * d.p_dim
        &&& self.a.len() == rows(d)
        &&& self.b.len() == rows(d) * d.n_dim
        &&& self.c.len() == rows(d) * d.n_dim
    }

    pub open spec fn x_at(self, d: ScanDims, b: int, t: int, h: int, p: int) -> T {
        self.x[at2(row_at(d, b, t, h), d.p_dim as int, p)]
    }

    pub open spec fn a_at(self, d: ScanDims, b: int, t: int, h: int) -> T {
        self.a[row_at(d, b, t, h)]
    }

    pub open spec fn b_at(self, d: ScanDims, b: int, t: int, h: int, n: int) -> T {
        self.b[at2(row_at(d, b, t, h), d.n_dim as int, n)]
    }

    pub open spec fn c_at(self, d: ScanDims, b: int, t: int, h: int, n: int) -> T {
        self.c[at2(row_at(d, b, t, h), d.n_dim as int, n)]
    }
}

/// One head of one batch entry.
#[derive(Clone, Copy, Debug)]
pub struct Head {
    pub b: usize,
    pub h: usize,
}

impl Head {
    pub open spec fn within(self, d: ScanDims) -> bool {
        self.b < d.batch && self.h < d.n_heads
    }
}

/// The step at place `q` of a chunk.
pub open spec fn step_of(d: ScanDims, chunk: int, q: int) -> int {
    at2(chunk, d.block_len as int, q)
}

impl<T: Copy, A: Fn(T, T) -> T, M: Fn(T, T) -> T, S: Fn(T, T) -> T, E: Fn(T) -> T> Arith<
    T,
    A,
    M,
    S,
    E,
> {
    /// The decay summed over the first `n` steps of a chunk.
    pub open spec fn decay(self, s: ScanSeqs<T>, d: ScanDims, k: Head, chunk: int, n: int) -> T
        decreases n,
    {
        if n <= 0 {
            self.zero
        } else {
            self.sum(
                self.decay(s, d, k, chunk, n - 1),
                s.a_at(d, k.b as int, step_of(d, chunk, n - 1), k.h as int),
            )
        }
    }

    /// The product of the output projection at step `t` and the input
    /// projection at step `u`, over the first `n` states.
    pub open spec fn overlap(self, s: ScanSeqs<T>, d: ScanDims, k: Head, t: int, u: int, n: int) -> T
        decreases n,
    {
        if n <= 0 {
            self.zero
        } else {
            self.sum(
                self.overlap(s, d, k, t, u, n - 1),
                self.prod(
                    s.c_at(d, k.b as int, t, k.h as int, n - 1),
                    s.b_at(d, k.b as int, u, k.h as int, n - 1),
                ),
            )
        }
    }

    /// What the first `m` steps of a chunk contribute to the output at place
    /// `q` of it.
    pub open spec fn within_chunk(
        self,
        s: ScanSeqs<T>,
        d: ScanDims,
        k: Head,
        p: int,
        chunk: int,
        q: int,
        m: int,
    ) -> T
        decreases m,
    {
        if m <= 0 {
            self.zero
        } else {
            let t = step_of(d, chunk, q);
            let u = step_of(d, chunk, m - 1);
            self.sum(
                self.within_chunk(s, d, k, p, chunk, q, m - 1),
                self.prod(
                    self.prod(
                        self.left(
                            self.decay(s, d, k, chunk, q + 1),
                            self.decay(s, d, k, chunk, m),
                        ),
                        self.overlap(s, d, k, t, u, d.n_dim as int),
                    ),
                    s.x_at(d, k.b as int, u, k.h as int, p),
                ),
            )
        }
    }

    /// The state after the first `m` steps of a chunk that it entered as
    /// `before`. The three factors of a step's contribution are multiplied in
    /// one of two orders.
    pub open spec fn carried(
        self,
        s: ScanSeqs<T>,
        d: ScanDims,
        k: Head,
        p: int,
        n: int,
        chunk: int,
        scaled: bool,
        before: T,
        m: int,
    ) -> T
        decreases m,
    {
        let end = self.decay(s, d, k, chunk, d.block_len as int);
        if m <= 0 {
            self.prod(before, self.grown(end))
        } else {
            let u = step_of(d, chunk, m - 1);
            let f = self.left(end, self.decay(s, d, k, chunk, m));
            let x = s.x_at(d, k.b as int, u, k.h as int, p);
            let b = s.b_at(d, k.b as int, u, k.h as int, n);
            self.sum(
                self.carried(s, d, k, p, n, chunk, scaled, before, m - 1),
                if scaled {
                    self.prod(self.prod(f, x), b)
                } else {
                    self.prod(self.prod(f, b), x)
                },
            )
        }
    }

    /// The state on entering a chunk.
    pub open spec fn state(
        self,
        s: ScanSeqs<T>,
        d: ScanDims,
        k: Head,
        p: int,
        n: int,
        scaled: bool,
        chunk: int,
    ) -> T
        decreases chunk,
    {
        if chunk <= 0 {
            self.zero
        } else {
            self.carried(
                s,
                d,
                k,
                p,
                n,
                chunk - 1,
                scaled,
                self.state(s, d, k, p, n, scaled, chunk - 1),
                d.block_len as int,
            )
        }
    }

    /// The output at place `q` of a chunk: what the chunk itself contributes,
    /// and what the first `n` states carry into it.
    pub open spec fn output(
        self,
        s: ScanSeqs<T>,
        d: ScanDims,
        k: Head,
        p: int,
        scaled: bool,
        chunk: int,
        q: int,
        n: int,
    ) -> T
        decreases n,
    {
        if n <= 0 {
            self.within_chunk(s, d, k, p, chunk, q, q + 1)
        } else {
            self.sum(
                self.output(s, d, k, p, scaled, chunk, q, n - 1),
                self.prod(
                    self.prod(
                        self.grown(self.decay(s, d, k, chunk, q + 1)),
                        s.c_at(d, k.b as int, step_of(d, chunk, q), k.h as int, n - 1),
                    ),
                    self.state(s, d, k, p, n - 1, scaled, chunk),
                ),
            )
        }
    }

    /// The output at step `t`.
    pub open spec fn scanned(
        self,
        s: ScanSeqs<T>,
        d: ScanDims,
        k: Head,
        p: int,
        scaled: bool,
        t: int,
    ) -> T {
        self.output(
            s,
            d,
            k,
            p,
            scaled,
            t / d.block_len as int,
            t % d.block_len as int,
            d.n_dim as int,
        )
    }
}

/// Whether the blocks divide the sequence and everything can be indexed.
pub open spec fn scannable(d: ScanDims) -> bool {
    &&& d.block_len > 0
    &&& d.t_len % d.block_len == 0
    &&& rows(d) <= usize::MAX
    &&& rows(d) * d.p_dim <= usize::MAX
    &&& rows(d) * d.n_dim <= usize::MAX
}

/// The step at a place of a chunk is a step of the sequence.
pub proof fn lemma_step(d: ScanDims, chunk: int, q: int)
    requires
        d.block_len > 0,
        d.t_len % d.block_len == 0,
        0 <= chunk < d.t_len as int / d.block_len as int,
        0 <= q < d.block_len,
    ensures
        0 <= step_of(d, chunk, q) < d.t_len,
        0 <= chunk * d.block_len,
        step_of(d, chunk, q) / d.block_len as int == chunk,
        step_of(d, chunk, q) % d.block_len as int == q,
{
    let n = d.block_len as int;
    let t = d.t_len as int;
    lemma_parts_at2(t, n);
    lemma_at2(chunk, n, q, t / n);
    lemma_at2_parts(chunk, n, q);
    assert(0 <= chunk * n) by (nonlinear_arith)
        requires
            chunk >= 0,
            n >= 0,
    ;
}

/// A row of a step is a row, and its parts are no larger.
pub proof fn lemma_row(d: ScanDims, b: int, t: int, h: int)
    requires
        0 <= b < d.batch,
        0 <= t < d.t_len,
        0 <= h < d.n_heads,
    ensures
        0 <= row_at(d, b, t, h) < rows(d),
        0 <= b * d.t_len,
        0 <= b * d.t_len + t <= row_at(d, b, t, h),
        0 <= (b * d.t_len + t) * d.n_heads,
{
    lemma_at3(b, d.t_len as int, t, d.n_heads as int, h, d.batch as int);
    let l = d.t_len as int;
    assert(0 <= b * l) by (nonlinear_arith)
        requires
            b >= 0,
            l >= 0,
    ;
    let y = b * l + t;
    let n = d.n_heads as int;
    assert(y <= y * n) by (nonlinear_arith)
        requires
            y >= 0,
            n >= 1,
    ;
}

/// The row of a step and head.
pub fn row_index(d: &ScanDims, k: Head, t: usize) -> (r: usize)
    requires
        k.within(*d),
        t < d.t_len,
        rows(*d) <= usize::MAX,
    ensures
        r == row_at(*d, k.b as int, t as int, k.h as int),
        r < rows(*d),
{
    proof {
        lemma_row(*d, k.b as int, t as int, k.h as int);
    }
    (k.b * d.t_len + t) * d.n_heads + k.h
}

/// An element of a row of `n`.
pub(crate) fn element_index(row: usize, n: usize, i: usize, Ghost(all): Ghost<int>) -> (r: usize)
    requires
        row < all,
        i < n,
        all * n <= usize::MAX,
    ensures
        r == at2(row as int, n as int, i as int),
        r < all * n,
{
    proof {
        lemma_at2(row as int, n as int, i as int, all);
        let x = row as int;
        let y = n as int;
        assert(0 <= x * y) by (nonlinear_arith)
            requires
                x >= 0,
                y >= 0,
        ;
    }
    row * n + i
}

} // verus!
