//! What the chunked scan is for: the sum over all earlier steps that it
//! computes chunk by chunk, and what follows from that.

use crate::lanes::ap;
use crate::scan::{scannable, step_of, Arith, Head, ScanSeqs};
use crate::ssd::ScanDims;
use vstd::prelude::*;

verus! {

impl<T: Copy, A: Fn(T, T) -> T, M: Fn(T, T) -> T, S: Fn(T, T) -> T, E: Fn(T) -> T> Arith<
    T,
    A,
    M,
    S,
    E,
> {
    /// Whether nothing is lost to rounding: sums are associative and
    /// commutative, with zero neutral and differences undoing them; products
    /// are associative and commutative and distribute over sums; and the
    /// exponential takes sums to products.
    #[verifier::opaque]
    pub open spec fn exact(self) -> bool {
        &&& forall|x: T, y: T, z: T|
            #[trigger] self.sum(self.sum(x, y), z) == self.sum(x, self.sum(y, z))
        &&& forall|x: T, y: T| #[trigger] self.sum(x, y) == self.sum(y, x)
        &&& forall|x: T| #[trigger] self.sum(self.zero, x) == x
        &&& forall|x: T, y: T| self.sum(y, #[trigger] ap(self.minus, x, y)) == x
        &&& forall|x: T, y: T, z: T|
            #[trigger] self.prod(self.prod(x, y), z) == self.prod(x, self.prod(y, z))
        &&& forall|x: T, y: T| #[trigger] self.prod(x, y) == self.prod(y, x)
        &&& forall|x: T, y: T, z: T|
            #[trigger] self.prod(x, self.sum(y, z)) == self.sum(self.prod(x, y), self.prod(x, z))
        &&& forall|x: T, y: T|
            #[trigger] self.grown(self.sum(x, y)) == self.prod(self.grown(x), self.grown(y))
    }

    /// The decay summed over the first `n` steps of the sequence.
    pub open spec fn total(self, s: ScanSeqs<T>, d: ScanDims, k: Head, n: int) -> T
        decreases n,
    {
        if n <= 0 {
            self.zero
        } else {
            self.sum(
                self.total(s, d, k, n - 1),
                s.a_at(d, k.b as int, n - 1, k.h as int),
            )
        }
    }

    /// What the first `m` steps contribute to the output at step `t`: for each
    /// step `u`, what the decay from `u` to `t` leaves of the input there, times
    /// the overlap of the projections over the first `n` states.
    pub open spec fn contributions(
        self,
        s: ScanSeqs<T>,
        d: ScanDims,
        k: Head,
        p: int,
        t: int,
        n: int,
        m: int,
    ) -> T
        decreases m,
    {
        if m <= 0 {
            self.zero
        } else {
            self.sum(
                self.contributions(s, d, k, p, t, n, m - 1),
                self.prod(
                    self.prod(
                        self.left(self.total(s, d, k, t + 1), self.total(s, d, k, m)),
                        self.overlap(s, d, k, t, m - 1, n),
                    ),
                    s.x_at(d, k.b as int, m - 1, k.h as int, p),
                ),
            )
        }
    }

    /// The output at step `t`: the contributions of all steps up to it.
    pub open spec fn recurrence(self, s: ScanSeqs<T>, d: ScanDims, k: Head, p: int, t: int) -> T {
        self.contributions(s, d, k, p, t, d.n_dim as int, t + 1)
    }

    /// What the first `m` steps leave in state `n` after `e` steps.
    spec fn kept(self, s: ScanSeqs<T>, d: ScanDims, k: Head, p: int, n: int, e: int, m: int) -> T
        decreases m,
    {
        if m <= 0 {
            self.zero
        } else {
            self.sum(
                self.kept(s, d, k, p, n, e, m - 1),
                self.prod(
                    self.prod(
                        self.left(self.total(s, d, k, e), self.total(s, d, k, m)),
                        s.b_at(d, k.b as int, m - 1, k.h as int, n),
                    ),
                    s.x_at(d, k.b as int, m - 1, k.h as int, p),
                ),
            )
        }
    }

    /// What the first `m` steps contribute to the output at step `t` through
    /// state `n`.
    spec fn through(self, s: ScanSeqs<T>, d: ScanDims, k: Head, p: int, t: int, n: int, m: int) -> T
        decreases m,
    {
        if m <= 0 {
            self.zero
        } else {
            self.sum(
                self.through(s, d, k, p, t, n, m - 1),
                self.prod(
                    self.prod(
                        self.left(self.total(s, d, k, t + 1), self.total(s, d, k, m)),
                        self.prod(
                            s.c_at(d, k.b as int, t, k.h as int, n),
                            s.b_at(d, k.b as int, m - 1, k.h as int, n),
                        ),
                    ),
                    s.x_at(d, k.b as int, m - 1, k.h as int, p),
                ),
            )
        }
    }

    pub(crate) proof fn lemma_regroup(self, x: T, y: T, z: T)
        requires
            self.exact(),
        ensures
            self.sum(self.sum(x, y), z) == self.sum(x, self.sum(y, z)),
            self.prod(self.prod(x, y), z) == self.prod(x, self.prod(y, z)),
    {
        reveal(Arith::exact);
    }

    pub(crate) proof fn lemma_exchange(self, x: T, y: T)
        requires
            self.exact(),
        ensures
            self.sum(x, y) == self.sum(y, x),
            self.prod(x, y) == self.prod(y, x),
    {
        reveal(Arith::exact);
    }

    pub(crate) proof fn lemma_neutral(self, x: T)
        requires
            self.exact(),
        ensures
            self.sum(self.zero, x) == x,
            self.sum(x, self.zero) == x,
    {
        reveal(Arith::exact);
        self.lemma_exchange(self.zero, x);
    }

    pub(crate) proof fn lemma_spread(self, x: T, y: T, z: T)
        requires
            self.exact(),
        ensures
            self.prod(x, self.sum(y, z)) == self.sum(self.prod(x, y), self.prod(x, z)),
            self.prod(self.sum(y, z), x) == self.sum(self.prod(y, x), self.prod(z, x)),
    {
        assert(self.prod(x, self.sum(y, z)) == self.sum(self.prod(x, y), self.prod(x, z))) by {
            reveal(Arith::exact);
        }
        self.lemma_exchange(x, y);
        self.lemma_exchange(x, z);
        self.lemma_exchange(x, self.sum(y, z));
    }

    pub(crate) proof fn lemma_undone(self, x: T, y: T)
        requires
            self.exact(),
        ensures
            self.sum(y, ap(self.minus, x, y)) == x,
    {
        reveal(Arith::exact);
    }

    pub(crate) proof fn lemma_cancel(self, x: T, a: T, b: T)
        requires
            self.exact(),
            self.sum(x, a) == self.sum(x, b),
        ensures
            a == b,
    {
        let i = ap(self.minus, self.zero, x);
        self.lemma_undone(self.zero, x);
        self.lemma_exchange(x, i);
        self.lemma_regroup(i, x, a);
        self.lemma_regroup(i, x, b);
        self.lemma_neutral(a);
        self.lemma_neutral(b);
    }

    pub(crate) proof fn lemma_nothing(self, x: T)
        requires
            self.exact(),
        ensures
            self.prod(x, self.zero) == self.zero,
            self.prod(self.zero, x) == self.zero,
    {
        let w = self.prod(x, self.zero);
        self.lemma_spread(x, self.zero, self.zero);
        self.lemma_neutral(self.zero);
        self.lemma_neutral(w);
        self.lemma_cancel(w, w, self.zero);
        self.lemma_exchange(x, self.zero);
    }

    /// What is left between two sums does not depend on what they share.
    proof fn lemma_shared(self, c: T, x: T, y: T)
        requires
            self.exact(),
        ensures
            self.left(self.sum(c, x), self.sum(c, y)) == self.left(x, y),
    {
        let a = ap(self.minus, self.sum(c, x), self.sum(c, y));
        let b = ap(self.minus, x, y);
        self.lemma_undone(self.sum(c, x), self.sum(c, y));
        self.lemma_undone(x, y);
        self.lemma_regroup(c, y, b);
        self.lemma_cancel(self.sum(c, y), a, b);
    }

    /// Decaying further multiplies what is left.
    pub(crate) proof fn lemma_further(self, x: T, y: T, w: T)
        requires
            self.exact(),
        ensures
            self.prod(self.left(x, y), self.grown(w)) == self.left(self.sum(x, w), y),
    {
        let a = ap(self.minus, self.sum(x, w), y);
        let b = ap(self.minus, x, y);
        self.lemma_undone(self.sum(x, w), y);
        self.lemma_undone(x, y);
        self.lemma_regroup(y, b, w);
        self.lemma_cancel(y, a, self.sum(b, w));
        assert(self.grown(self.sum(b, w)) == self.prod(self.grown(b), self.grown(w))) by {
            reveal(Arith::exact);
        }
    }

    /// The decay over whole chunks and part of the next one.
    proof fn lemma_total(self, s: ScanSeqs<T>, d: ScanDims, k: Head, chunk: int, n: int)
        requires
            self.exact(),
            0 <= chunk * d.block_len,
            0 <= n,
        ensures
            self.total(s, d, k, step_of(d, chunk, n)) == self.sum(
                self.total(s, d, k, chunk * d.block_len),
                self.decay(s, d, k, chunk, n),
            ),
        decreases n,
    {
        let c = self.total(s, d, k, chunk * d.block_len);
        if n == 0 {
            self.lemma_neutral(c);
        } else {
            self.lemma_total(s, d, k, chunk, n - 1);
            self.lemma_regroup(
                c,
                self.decay(s, d, k, chunk, n - 1),
                s.a_at(d, k.b as int, step_of(d, chunk, n - 1), k.h as int),
            );
        }
    }

    /// What is left between two places of a chunk is what is left between the
    /// steps.
    proof fn lemma_places(self, s: ScanSeqs<T>, d: ScanDims, k: Head, chunk: int, q: int, m: int)
        requires
            self.exact(),
            0 <= chunk * d.block_len,
            0 <= q,
            0 <= m,
        ensures
            self.left(self.decay(s, d, k, chunk, q), self.decay(s, d, k, chunk, m)) == self.left(
                self.total(s, d, k, step_of(d, chunk, q)),
                self.total(s, d, k, step_of(d, chunk, m)),
            ),
    {
        self.lemma_total(s, d, k, chunk, q);
        self.lemma_total(s, d, k, chunk, m);
        self.lemma_shared(
            self.total(s, d, k, chunk * d.block_len),
            self.decay(s, d, k, chunk, q),
            self.decay(s, d, k, chunk, m),
        );
    }

    /// The last of four factors goes to the first.
    proof fn lemma_forward(self, f: T, b: T, x: T, g: T)
        requires
            self.exact(),
        ensures
            self.prod(self.prod(self.prod(f, b), x), g) == self.prod(
                self.prod(self.prod(f, g), b),
                x,
            ),
    {
        let fb = self.prod(f, b);
        self.lemma_regroup(fb, x, g);
        self.lemma_exchange(x, g);
        self.lemma_regroup(fb, g, x);
        self.lemma_regroup(f, b, g);
        self.lemma_exchange(b, g);
        self.lemma_regroup(f, g, b);
    }

    /// States decay from one end to a later one as a whole.
    proof fn lemma_decayed(
        self,
        s: ScanSeqs<T>,
        d: ScanDims,
        k: Head,
        p: int,
        n: int,
        e: int,
        f: int,
        w: T,
        m: int,
    )
        requires
            self.exact(),
            self.total(s, d, k, f) == self.sum(self.total(s, d, k, e), w),
        ensures
            self.prod(self.kept(s, d, k, p, n, e, m), self.grown(w)) == self.kept(
                s,
                d,
                k,
                p,
                n,
                f,
                m,
            ),
        decreases m,
    {
        let g = self.grown(w);
        if m <= 0 {
            self.lemma_nothing(g);
        } else {
            self.lemma_decayed(s, d, k, p, n, e, f, w, m - 1);
            let b = s.b_at(d, k.b as int, m - 1, k.h as int, n);
            let x = s.x_at(d, k.b as int, m - 1, k.h as int, p);
            let te = self.total(s, d, k, e);
            let tu = self.total(s, d, k, m);
            self.lemma_spread(
                g,
                self.kept(s, d, k, p, n, e, m - 1),
                self.prod(self.prod(self.left(te, tu), b), x),
            );
            self.lemma_forward(self.left(te, tu), b, x, g);
            self.lemma_further(te, tu, w);
        }
    }

    /// The state within a chunk is what all steps so far leave in it.
    proof fn lemma_carried(
        self,
        s: ScanSeqs<T>,
        d: ScanDims,
        k: Head,
        p: int,
        n: int,
        chunk: int,
        before: T,
        m: int,
    )
        requires
            self.exact(),
            0 <= chunk * d.block_len,
            0 <= m,
            before == self.kept(s, d, k, p, n, chunk * d.block_len, chunk * d.block_len),
        ensures
            self.carried(s, d, k, p, n, chunk, false, before, m) == self.kept(
                s,
                d,
                k,
                p,
                n,
                step_of(d, chunk, d.block_len as int),
                step_of(d, chunk, m),
            ),
        decreases m,
    {
        let from = chunk * d.block_len;
        let to = step_of(d, chunk, d.block_len as int);
        if m == 0 {
            self.lemma_total(s, d, k, chunk, d.block_len as int);
            self.lemma_decayed(
                s,
                d,
                k,
                p,
                n,
                from,
                to,
                self.decay(s, d, k, chunk, d.block_len as int),
                from,
            );
        } else {
            self.lemma_carried(s, d, k, p, n, chunk, before, m - 1);
            self.lemma_places(s, d, k, chunk, d.block_len as int, m);
            assert(step_of(d, chunk, m) - 1 == step_of(d, chunk, m - 1));
        }
    }

    /// The state on entering a chunk is what all steps before leave in it.
    proof fn lemma_entered(
        self,
        s: ScanSeqs<T>,
        d: ScanDims,
        k: Head,
        p: int,
        n: int,
        chunk: int,
    )
        requires
            self.exact(),
            0 <= chunk,
        ensures
            self.state(s, d, k, p, n, false, chunk) == self.kept(
                s,
                d,
                k,
                p,
                n,
                chunk * d.block_len,
                chunk * d.block_len,
            ),
        decreases chunk,
    {
        let l = d.block_len as int;
        if chunk == 0 {
            assert(chunk * l == 0) by (nonlinear_arith)
                requires
                    chunk == 0,
            ;
        } else {
            self.lemma_entered(s, d, k, p, n, chunk - 1);
            assert(0 <= (chunk - 1) * l && (chunk - 1) * l + l == chunk * l) by (nonlinear_arith)
                requires
                    chunk >= 1,
                    l >= 0,
            ;
            self.lemma_carried(
                s,
                d,
                k,
                p,
                n,
                chunk - 1,
                self.state(s, d, k, p, n, false, chunk - 1),
                l,
            );
        }
    }

    /// What a state holds, read out at step `t`.
    proof fn lemma_read(
        self,
        s: ScanSeqs<T>,
        d: ScanDims,
        k: Head,
        p: int,
        t: int,
        n: int,
        e: int,
        w: T,
        m: int,
    )
        requires
            self.exact(),
            self.total(s, d, k, t + 1) == self.sum(self.total(s, d, k, e), w),
        ensures
            self.prod(
                self.prod(self.grown(w), s.c_at(d, k.b as int, t, k.h as int, n)),
                self.kept(s, d, k, p, n, e, m),
            ) == self.through(s, d, k, p, t, n, m),
        decreases m,
    {
        let g = self.grown(w);
        let c = s.c_at(d, k.b as int, t, k.h as int, n);
        let gc = self.prod(g, c);
        if m <= 0 {
            self.lemma_nothing(gc);
        } else {
            self.lemma_read(s, d, k, p, t, n, e, w, m - 1);
            let b = s.b_at(d, k.b as int, m - 1, k.h as int, n);
            let x = s.x_at(d, k.b as int, m - 1, k.h as int, p);
            let te = self.total(s, d, k, e);
            let tu = self.total(s, d, k, m);
            let f = self.left(te, tu);
            let one = self.prod(self.prod(f, b), x);
            self.lemma_spread(gc, self.kept(s, d, k, p, n, e, m - 1), one);
            // gc * ((f * b) * x) == ((f * g) * (c * b)) * x
            self.lemma_exchange(gc, one);
            self.lemma_regroup(one, g, c);
            self.lemma_forward(f, b, x, g);
            let fg = self.prod(f, g);
            self.lemma_forward(fg, b, x, c);
            self.lemma_regroup(fg, c, b);
            self.lemma_further(te, tu, w);
        }
    }

    /// One more state adds what goes through it.
    proof fn lemma_one_more(
        self,
        s: ScanSeqs<T>,
        d: ScanDims,
        k: Head,
        p: int,
        t: int,
        n: int,
        m: int,
    )
        requires
            self.exact(),
            0 <= n,
        ensures
            self.contributions(s, d, k, p, t, n + 1, m) == self.sum(
                self.contributions(s, d, k, p, t, n, m),
                self.through(s, d, k, p, t, n, m),
            ),
        decreases m,
    {
        if m <= 0 {
            self.lemma_neutral(self.zero);
        } else {
            self.lemma_one_more(s, d, k, p, t, n, m - 1);
            let f = self.left(self.total(s, d, k, t + 1), self.total(s, d, k, m));
            let x = s.x_at(d, k.b as int, m - 1, k.h as int, p);
            let o = self.overlap(s, d, k, t, m - 1, n);
            let cb = self.prod(
                s.c_at(d, k.b as int, t, k.h as int, n),
                s.b_at(d, k.b as int, m - 1, k.h as int, n),
            );
            self.lemma_spread(f, o, cb);
            self.lemma_spread(x, self.prod(f, o), self.prod(f, cb));
            let u = self.contributions(s, d, k, p, t, n, m - 1);
            let v = self.through(s, d, k, p, t, n, m - 1);
            let y = self.prod(self.prod(f, o), x);
            let z = self.prod(self.prod(f, cb), x);
            self.lemma_crossed(u, v, y, z);
        }
    }

    pub(crate) proof fn lemma_crossed(self, u: T, v: T, y: T, z: T)
        requires
            self.exact(),
        ensures
            self.sum(self.sum(u, v), self.sum(y, z)) == self.sum(self.sum(u, y), self.sum(v, z)),
    {
        self.lemma_regroup(u, v, self.sum(y, z));
        self.lemma_regroup(v, y, z);
        self.lemma_exchange(v, y);
        self.lemma_regroup(y, v, z);
        self.lemma_regroup(u, y, self.sum(v, z));
    }

    /// Without states there is nothing.
    proof fn lemma_stateless(
        self,
        s: ScanSeqs<T>,
        d: ScanDims,
        k: Head,
        p: int,
        t: int,
        m: int,
    )
        requires
            self.exact(),
        ensures
            self.contributions(s, d, k, p, t, 0, m) == self.zero,
        decreases m,
    {
        if m > 0 {
            self.lemma_stateless(s, d, k, p, t, m - 1);
            self.lemma_nothing(self.left(self.total(s, d, k, t + 1), self.total(s, d, k, m)));
            self.lemma_nothing(s.x_at(d, k.b as int, m - 1, k.h as int, p));
            self.lemma_neutral(self.zero);
        }
    }

    /// The output is what the chunk contributes and what the steps before it
    /// contribute through the first `n` states.
    proof fn lemma_output(
        self,
        s: ScanSeqs<T>,
        d: ScanDims,
        k: Head,
        p: int,
        chunk: int,
        q: int,
        n: int,
    )
        requires
            self.exact(),
            0 <= chunk,
            0 <= q,
            0 <= n,
            0 <= chunk * d.block_len,
        ensures
            self.output(s, d, k, p, false, chunk, q, n) == self.sum(
                self.within_chunk(s, d, k, p, chunk, q, q + 1),
                self.contributions(
                    s,
                    d,
                    k,
                    p,
                    step_of(d, chunk, q),
                    n,
                    chunk * d.block_len,
                ),
            ),
        decreases n,
    {
        let w = self.within_chunk(s, d, k, p, chunk, q, q + 1);
        let t = step_of(d, chunk, q);
        let from = chunk * d.block_len;
        if n == 0 {
            self.lemma_stateless(s, d, k, p, t, from);
            self.lemma_neutral(w);
        } else {
            self.lemma_output(s, d, k, p, chunk, q, n - 1);
            self.lemma_entered(s, d, k, p, n - 1, chunk);
            self.lemma_total(s, d, k, chunk, q + 1);
            assert(step_of(d, chunk, q + 1) == t + 1);
            self.lemma_read(
                s,
                d,
                k,
                p,
                t,
                n - 1,
                from,
                self.decay(s, d, k, chunk, q + 1),
                from,
            );
            self.lemma_one_more(s, d, k, p, t, n - 1, from);
            self.lemma_regroup(
                w,
                self.contributions(s, d, k, p, t, n - 1, from),
                self.through(s, d, k, p, t, n - 1, from),
            );
        }
    }

    /// The contributions of a chunk follow those of the steps before.
    proof fn lemma_appended(
        self,
        s: ScanSeqs<T>,
        d: ScanDims,
        k: Head,
        p: int,
        chunk: int,
        q: int,
        m: int,
    )
        requires
            self.exact(),
            0 <= chunk * d.block_len,
            0 <= q,
            0 <= m,
        ensures
            self.contributions(
                s,
                d,
                k,
                p,
                step_of(d, chunk, q),
                d.n_dim as int,
                step_of(d, chunk, m),
            ) == self.sum(
                self.contributions(
                    s,
                    d,
                    k,
                    p,
                    step_of(d, chunk, q),
                    d.n_dim as int,
                    chunk * d.block_len,
                ),
                self.within_chunk(s, d, k, p, chunk, q, m),
            ),
        decreases m,
    {
        let t = step_of(d, chunk, q);
        let c = self.contributions(s, d, k, p, t, d.n_dim as int, chunk * d.block_len);
        if m == 0 {
            self.lemma_neutral(c);
        } else {
            self.lemma_appended(s, d, k, p, chunk, q, m - 1);
            let u = step_of(d, chunk, m - 1);
            assert(step_of(d, chunk, m) == u + 1);
            assert(step_of(d, chunk, q + 1) == t + 1);
            self.lemma_places(s, d, k, chunk, q + 1, m);
            let one = self.prod(
                self.prod(
                    self.left(self.total(s, d, k, t + 1), self.total(s, d, k, u + 1)),
                    self.overlap(s, d, k, t, u, d.n_dim as int),
                ),
                s.x_at(d, k.b as int, u, k.h as int, p),
            );
            self.lemma_regroup(c, self.within_chunk(s, d, k, p, chunk, q, m - 1), one);
        }
    }

    /// The chunked scan computes the sum over all steps up to `t`, in exact
    /// arithmetic.
    pub proof fn law_scan_computes_recurrence(
        self,
        s: ScanSeqs<T>,
        d: ScanDims,
        k: Head,
        p: int,
        t: int,
    )
        requires
            self.exact(),
            scannable(d),
            0 <= t,
        ensures
            self.scanned(s, d, k, p, false, t) == self.recurrence(s, d, k, p, t),
            self.scanned(s, d, k, p, true, t) == self.recurrence(s, d, k, p, t),
    {
        let l = d.block_len as int;
        let chunk = t / l;
        let q = t % l;
        crate::index::lemma_parts_at2(t, l);
        assert(0 <= chunk && 0 <= chunk * l) by (nonlinear_arith)
            requires
                chunk == t / l,
                t >= 0,
                l > 0,
        ;
        assert(step_of(d, chunk, q) == t);
        assert(step_of(d, chunk, q + 1) == t + 1);
        self.lemma_output(s, d, k, p, chunk, q, d.n_dim as int);
        self.lemma_appended(s, d, k, p, chunk, q, q + 1);
        self.lemma_exchange(
            self.within_chunk(s, d, k, p, chunk, q, q + 1),
            self.contributions(s, d, k, p, t, d.n_dim as int, chunk * l),
        );
        assert(self.factors_commute()) by {
            assert forall|f: T, x: T, b: T| #[trigger]
                self.prod(self.prod(f, x), b) == self.prod(self.prod(f, b), x) by {
                self.lemma_regroup(f, x, b);
                self.lemma_exchange(x, b);
                self.lemma_regroup(f, b, x);
            }
        }
        self.law_scan_kernels_agree(s, d, k, p, t);
    }

    /// The state that a decay `a` and an input `u` lead to after step `t`, from
    /// nothing before the first: what the decay leaves of the state before,
    /// plus the input.
    pub open spec fn hidden(self, a: spec_fn(int) -> T, u: spec_fn(int) -> T, t: int) -> T
        decreases t + 1,
    {
        if t < 0 {
            self.zero
        } else {
            self.sum(self.prod(self.grown(a(t)), self.hidden(a, u, t - 1)), u(t))
        }
    }

    /// A state depends on the steps up to its own only.
    pub(crate) proof fn lemma_hidden_same(
        self,
        a: spec_fn(int) -> T,
        b: spec_fn(int) -> T,
        u: spec_fn(int) -> T,
        v: spec_fn(int) -> T,
        t: int,
    )
        requires
            forall|i: int| 0 <= i <= t ==> #[trigger] a(i) == b(i) && u(i) == v(i),
        ensures
            self.hidden(a, u, t) == self.hidden(b, v, t),
        decreases t + 1,
    {
        if t >= 0 {
            self.lemma_hidden_same(a, b, u, v, t - 1);
            assert(a(t) == b(t));
        }
    }

    /// A state is what all steps so far leave in it.
    proof fn lemma_hidden(self, s: ScanSeqs<T>, d: ScanDims, k: Head, p: int, n: int, t: int)
        requires
            self.exact(),
            forall|x: T| #[trigger] self.prod(self.grown(self.zero), x) == x,
            t >= -1,
        ensures
            self.hidden(
                |i: int| s.a_at(d, k.b as int, i, k.h as int),
                |i: int|
                    self.prod(
                        s.x_at(d, k.b as int, i, k.h as int, p),
                        s.b_at(d, k.b as int, i, k.h as int, n),
                    ),
                t,
            ) == self.kept(s, d, k, p, n, t + 1, t + 1),
        decreases t + 1,
    {
        if t >= 0 {
            self.lemma_hidden(s, d, k, p, n, t - 1);
            let a = s.a_at(d, k.b as int, t, k.h as int);
            let b = s.b_at(d, k.b as int, t, k.h as int, n);
            let x = s.x_at(d, k.b as int, t, k.h as int, p);
            let e = self.total(s, d, k, t + 1);
            assert(e == self.sum(self.total(s, d, k, t), a));
            self.lemma_decayed(s, d, k, p, n, t, t + 1, a, t);
            self.lemma_exchange(self.kept(s, d, k, p, n, t, t), self.grown(a));
            let none = ap(self.minus, e, e);
            self.lemma_undone(e, e);
            self.lemma_neutral(e);
            self.lemma_cancel(e, none, self.zero);
            assert(self.prod(self.grown(self.zero), b) == b);
            self.lemma_exchange(b, x);
        }
    }

    /// The output of a scan, in exact arithmetic with the exponential of zero
    /// neutral to products: the sum over all states of the output projection
    /// times the state, where every state decays and takes its input in step by
    /// step.
    pub proof fn law_recurrence_reads_the_states(
        self,
        s: ScanSeqs<T>,
        d: ScanDims,
        k: Head,
        p: int,
        t: int,
        n: int,
    )
        requires
            self.exact(),
            forall|x: T| #[trigger] self.prod(self.grown(self.zero), x) == x,
            t >= 0,
            n >= 0,
        ensures
            self.contributions(s, d, k, p, t, n, t + 1) == self.tally(
                n,
                |j: int|
                    self.prod(
                        s.c_at(d, k.b as int, t, k.h as int, j),
                        self.hidden(
                            |i: int| s.a_at(d, k.b as int, i, k.h as int),
                            |i: int|
                                self.prod(
                                    s.x_at(d, k.b as int, i, k.h as int, p),
                                    s.b_at(d, k.b as int, i, k.h as int, j),
                                ),
                            t,
                        ),
                    ),
            ),
        decreases n,
    {
        if n == 0 {
            self.lemma_stateless(s, d, k, p, t, t + 1);
        } else {
            self.law_recurrence_reads_the_states(s, d, k, p, t, n - 1);
            self.lemma_one_more(s, d, k, p, t, n - 1, t + 1);
            let c = s.c_at(d, k.b as int, t, k.h as int, n - 1);
            self.lemma_neutral(self.total(s, d, k, t + 1));
            self.lemma_read(s, d, k, p, t, n - 1, t + 1, self.zero, t + 1);
            assert(self.prod(self.grown(self.zero), c) == c);
            self.lemma_hidden(s, d, k, p, n - 1, t);
        }
    }

    proof fn lemma_same_total(self, s: ScanSeqs<T>, d: ScanDims, e: ScanDims, k: Head, n: int)
        requires
            e == (ScanDims { block_len: e.block_len, ..d }),
        ensures
            self.total(s, d, k, n) == self.total(s, e, k, n),
        decreases n,
    {
        if n > 0 {
            self.lemma_same_total(s, d, e, k, n - 1);
        }
    }

    proof fn lemma_same_overlap(
        self,
        s: ScanSeqs<T>,
        d: ScanDims,
        e: ScanDims,
        k: Head,
        t: int,
        u: int,
        n: int,
    )
        requires
            e == (ScanDims { block_len: e.block_len, ..d }),
        ensures
            self.overlap(s, d, k, t, u, n) == self.overlap(s, e, k, t, u, n),
        decreases n,
    {
        if n > 0 {
            self.lemma_same_overlap(s, d, e, k, t, u, n - 1);
        }
    }

    proof fn lemma_same_contributions(
        self,
        s: ScanSeqs<T>,
        d: ScanDims,
        e: ScanDims,
        k: Head,
        p: int,
        t: int,
        n: int,
        m: int,
    )
        requires
            e == (ScanDims { block_len: e.block_len, ..d }),
        ensures
            self.contributions(s, d, k, p, t, n, m) == self.contributions(s, e, k, p, t, n, m),
        decreases m,
    {
        if m > 0 {
            self.lemma_same_contributions(s, d, e, k, p, t, n, m - 1);
            self.lemma_same_total(s, d, e, k, t + 1);
            self.lemma_same_total(s, d, e, k, m);
            self.lemma_same_overlap(s, d, e, k, t, m - 1, n);
        }
    }

    /// Into chunks of which length a sequence is cut makes no difference, in
    /// exact arithmetic.
    pub proof fn law_chunk_length_does_not_matter(
        self,
        s: ScanSeqs<T>,
        d: ScanDims,
        e: ScanDims,
        k: Head,
        p: int,
        scaled: bool,
        t: int,
    )
        requires
            self.exact(),
            scannable(d),
            scannable(e),
            e == (ScanDims { block_len: e.block_len, ..d }),
            0 <= t,
        ensures
            self.scanned(s, d, k, p, scaled, t) == self.scanned(s, e, k, p, scaled, t),
    {
        self.law_scan_computes_recurrence(s, d, k, p, t);
        self.law_scan_computes_recurrence(s, e, k, p, t);
        self.lemma_same_contributions(s, d, e, k, p, t, d.n_dim as int, t + 1);
    }

    proof fn lemma_early_decay(
        self,
        s: ScanSeqs<T>,
        r: ScanSeqs<T>,
        d: ScanDims,
        k: Head,
        t: int,
        chunk: int,
        n: int,
    )
        requires
            s.same_until(r, d, k, t),
            0 <= chunk * d.block_len,
            step_of(d, chunk, n) <= t + 1,
        ensures
            self.decay(s, d, k, chunk, n) == self.decay(r, d, k, chunk, n),
        decreases n,
    {
        if n > 0 {
            self.lemma_early_decay(s, r, d, k, t, chunk, n - 1);
            let u = step_of(d, chunk, n - 1);
            assert(s.same_step(r, d, k, u));
        }
    }

    proof fn lemma_early_overlap(
        self,
        s: ScanSeqs<T>,
        r: ScanSeqs<T>,
        d: ScanDims,
        k: Head,
        t: int,
        u: int,
        n: int,
    )
        requires
            s.same_until(r, d, k, t),
            0 <= u <= t,
            n <= d.n_dim,
        ensures
            self.overlap(s, d, k, t, u, n) == self.overlap(r, d, k, t, u, n),
        decreases n,
    {
        if n > 0 {
            self.lemma_early_overlap(s, r, d, k, t, u, n - 1);
            assert(s.same_step(r, d, k, t));
            assert(s.same_step(r, d, k, u));
        }
    }

    proof fn lemma_early_within(
        self,
        s: ScanSeqs<T>,
        r: ScanSeqs<T>,
        d: ScanDims,
        k: Head,
        p: int,
        chunk: int,
        q: int,
        m: int,
    )
        requires
            s.same_until(r, d, k, step_of(d, chunk, q)),
            0 <= p < d.p_dim,
            0 <= chunk * d.block_len,
            0 <= q,
            m <= q + 1,
        ensures
            self.within_chunk(s, d, k, p, chunk, q, m) == self.within_chunk(
                r,
                d,
                k,
                p,
                chunk,
                q,
                m,
            ),
        decreases m,
    {
        if m > 0 {
            let t = step_of(d, chunk, q);
            let u = step_of(d, chunk, m - 1);
            self.lemma_early_within(s, r, d, k, p, chunk, q, m - 1);
            self.lemma_early_decay(s, r, d, k, t, chunk, q + 1);
            self.lemma_early_decay(s, r, d, k, t, chunk, m);
            self.lemma_early_overlap(s, r, d, k, t, u, d.n_dim as int);
            assert(s.same_step(r, d, k, u));
        }
    }

    proof fn lemma_early_carried(
        self,
        s: ScanSeqs<T>,
        r: ScanSeqs<T>,
        d: ScanDims,
        k: Head,
        p: int,
        n: int,
        scaled: bool,
        t: int,
        chunk: int,
        before: T,
        m: int,
    )
        requires
            s.same_until(r, d, k, t),
            0 <= p < d.p_dim,
            0 <= n < d.n_dim,
            0 <= chunk * d.block_len,
            step_of(d, chunk, d.block_len as int) <= t + 1,
            m <= d.block_len,
        ensures
            self.carried(s, d, k, p, n, chunk, scaled, before, m) == self.carried(
                r,
                d,
                k,
                p,
                n,
                chunk,
                scaled,
                before,
                m,
            ),
        decreases m,
    {
        self.lemma_early_decay(s, r, d, k, t, chunk, d.block_len as int);
        if m > 0 {
            self.lemma_early_carried(s, r, d, k, p, n, scaled, t, chunk, before, m - 1);
            self.lemma_early_decay(s, r, d, k, t, chunk, m);
            assert(s.same_step(r, d, k, step_of(d, chunk, m - 1)));
        }
    }

    proof fn lemma_early_state(
        self,
        s: ScanSeqs<T>,
        r: ScanSeqs<T>,
        d: ScanDims,
        k: Head,
        p: int,
        n: int,
        scaled: bool,
        t: int,
        chunk: int,
    )
        requires
            s.same_until(r, d, k, t),
            0 <= p < d.p_dim,
            0 <= n < d.n_dim,
            0 <= chunk,
            chunk * d.block_len <= t + 1,
        ensures
            self.state(s, d, k, p, n, scaled, chunk) == self.state(r, d, k, p, n, scaled, chunk),
        decreases chunk,
    {
        let l = d.block_len as int;
        if chunk > 0 {
            assert(0 <= (chunk - 1) * l && (chunk - 1) * l + l == chunk * l) by (nonlinear_arith)
                requires
                    chunk >= 1,
                    l >= 0,
            ;
            self.lemma_early_state(s, r, d, k, p, n, scaled, t, chunk - 1);
            self.lemma_early_carried(
                s,
                r,
                d,
                k,
                p,
                n,
                scaled,
                t,
                chunk - 1,
                self.state(s, d, k, p, n, scaled, chunk - 1),
                l,
            );
        }
    }

    proof fn lemma_early_output(
        self,
        s: ScanSeqs<T>,
        r: ScanSeqs<T>,
        d: ScanDims,
        k: Head,
        p: int,
        scaled: bool,
        chunk: int,
        q: int,
        n: int,
    )
        requires
            s.same_until(r, d, k, step_of(d, chunk, q)),
            0 <= p < d.p_dim,
            0 <= chunk,
            0 <= chunk * d.block_len,
            0 <= q,
            n <= d.n_dim,
        ensures
            self.output(s, d, k, p, scaled, chunk, q, n) == self.output(
                r,
                d,
                k,
                p,
                scaled,
                chunk,
                q,
                n,
            ),
        decreases n,
    {
        let t = step_of(d, chunk, q);
        self.lemma_early_within(s, r, d, k, p, chunk, q, q + 1);
        if n > 0 {
            self.lemma_early_output(s, r, d, k, p, scaled, chunk, q, n - 1);
            self.lemma_early_decay(s, r, d, k, t, chunk, q + 1);
            self.lemma_early_state(s, r, d, k, p, n - 1, scaled, t, chunk);
            assert(s.same_step(r, d, k, t));
        }
    }

    /// Nothing after step `t`, and no other head, matters to the output at
    /// step `t`, in whatever arithmetic.
    pub proof fn law_later_steps_do_not_matter(
        self,
        s: ScanSeqs<T>,
        r: ScanSeqs<T>,
        d: ScanDims,
        k: Head,
        p: int,
        scaled: bool,
        t: int,
    )
        requires
            scannable(d),
            0 <= p < d.p_dim,
            0 <= t,
            s.same_until(r, d, k, t),
        ensures
            self.scanned(s, d, k, p, scaled, t) == self.scanned(r, d, k, p, scaled, t),
    {
        let l = d.block_len as int;
        let chunk = t / l;
        crate::index::lemma_parts_at2(t, l);
        assert(0 <= chunk && 0 <= chunk * l) by (nonlinear_arith)
            requires
                chunk == t / l,
                t >= 0,
                l > 0,
        ;
        self.lemma_early_output(s, r, d, k, p, scaled, chunk, t % l, d.n_dim as int);
    }
}

impl<T> ScanSeqs<T> {
    /// Whether two scans have the same operands at a step of a head.
    pub open spec fn same_step(self, r: ScanSeqs<T>, d: ScanDims, k: Head, u: int) -> bool {
        let b = k.b as int;
        let h = k.h as int;
        &&& self.a_at(d, b, u, h) == r.a_at(d, b, u, h)
        &&& forall|p: int|
            0 <= p < d.p_dim ==> #[trigger] self.x_at(d, b, u, h, p) == r.x_at(d, b, u, h, p)
        &&& forall|n: int|
            0 <= n < d.n_dim ==> #[trigger] self.b_at(d, b, u, h, n) == r.b_at(d, b, u, h, n)
        &&& forall|n: int|
            0 <= n < d.n_dim ==> #[trigger] self.c_at(d, b, u, h, n) == r.c_at(d, b, u, h, n)
    }

    /// Whether two scans have the same operands at all steps of a head up to
    /// `t`.
    pub open spec fn same_until(self, r: ScanSeqs<T>, d: ScanDims, k: Head, t: int) -> bool {
        forall|u: int| 0 <= u <= t ==> #[trigger] self.same_step(r, d, k, u)
    }
}

} // verus!
