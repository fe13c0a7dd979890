//! The shared-memory scan kernel: one block per batch entry and head. Its
//! threads, one per feature, load a chunk together, share every decay and
//! every overlap, and keep the states side by side. The work between two
//! barriers is one function here; no thread reads in it what another writes.

use crate::host::{at2, lemma_at2};
use crate::index::{lemma_at2_parts, lemma_parts_at2, lemma_row_bound};
use crate::lane::{law_lanes_write_apart, out_at};
use crate::scan::{
    element_index, lemma_step, row_at, row_index, rows, scannable, step_of, Arith, Head, ScanData,
    ScanSeqs,
};
use crate::ssd::ScanDims;
use vstd::prelude::*;

verus! {

/// What the threads of a block share.
pub struct Shared<T> {
    /// Running decay of the chunk.
    pub cum: Vec<T>,
    /// Input and output projections of the chunk, by place and state.
    pub b: Vec<T>,
    pub c: Vec<T>,
    /// States by thread. A row has one element more than there are states.
    pub state: Vec<T>,
    /// What is left of each place at the end of the chunk.
    pub decay_end: Vec<T>,
    /// What is left of the state at each place.
    pub decay_start: Vec<T>,
    /// Overlaps of one place with those before it, and what is left of them
    /// there: two of each, used in turn.
    pub bc_even: Vec<T>,
    pub decay_even: Vec<T>,
    pub bc_odd: Vec<T>,
    pub decay_odd: Vec<T>,
}

/// Whether a block's threads can do with the extents: one thread per feature
/// and per place of a chunk.
pub open spec fn blockable(d: ScanDims) -> bool {
    &&& scannable(d)
    &&& d.p_dim == d.block_len
    &&& d.block_len * d.n_dim <= usize::MAX
    &&& d.p_dim * (d.n_dim + 1) <= usize::MAX
    &&& d.n_dim < usize::MAX
}

impl<T> Shared<T> {
    pub open spec fn sized(self, d: ScanDims) -> bool {
        &&& self.cum@.len() == d.block_len
        &&& self.b@.len() == d.block_len * d.n_dim
        &&& self.c@.len() == d.block_len * d.n_dim
        &&& self.state@.len() == d.p_dim * (d.n_dim + 1)
        &&& self.decay_end@.len() == d.block_len
        &&& self.decay_start@.len() == d.block_len
        &&& self.bc_even@.len() == d.block_len
        &&& self.decay_even@.len() == d.block_len
        &&& self.bc_odd@.len() == d.block_len
        &&& self.decay_odd@.len() == d.block_len
    }

    /// The state `n` of thread `p`.
    pub open spec fn state_of(self, d: ScanDims, p: int, n: int) -> T {
        self.state@[at2(p, d.n_dim + 1, n)]
    }
}

/// `n` copies of an element.
fn filled<T: Copy>(x: T, n: usize) -> (v: Vec<T>)
    ensures
        v@.len() == n,
        forall|i: int| 0 <= i < n ==> #[trigger] v@[i] == x,
{
    let mut v: Vec<T> = Vec::new();
    let mut i: usize = 0;
    while i < n
        invariant
            i <= n,
            v@.len() == i,
            forall|j: int| 0 <= j < i ==> #[trigger] v@[j] == x,
        decreases n - i,
    {
        v.push(x);
        i = i + 1;
    }
    v
}

impl<T: Copy, A: Fn(T, T) -> T, M: Fn(T, T) -> T, S: Fn(T, T) -> T, E: Fn(T) -> T> Arith<
    T,
    A,
    M,
    S,
    E,
> {
    /// The shared memory of a block at the start: all states are zero.
    fn block_start(&self, d: &ScanDims, s: Ghost<ScanSeqs<T>>, k: Head) -> (m: Shared<T>)
        requires
            blockable(*d),
        ensures
            m.sized(*d),
            self.holds_states(m, s@, *d, k, 0),
    {
        let q: usize = d.block_len;
        let n: usize = d.n_dim;
        let z: T = self.zero;
        let m = Shared {
            cum: filled(z, q),
            b: filled(z, q * n),
            c: filled(z, q * n),
            state: filled(z, d.p_dim * (n + 1)),
            decay_end: filled(z, q),
            decay_start: filled(z, q),
            bc_even: filled(z, q),
            decay_even: filled(z, q),
            bc_odd: filled(z, q),
            decay_odd: filled(z, q),
        };
        proof {
            assert forall|p: int, i: int|
                0 <= p < d.p_dim && 0 <= i < d.n_dim implies #[trigger] m.state_of(*d, p, i)
                == self.state(s@, *d, k, p, i, true, 0) by {
                lemma_at2(p, d.n_dim + 1, i, d.p_dim as int);
            }
        }
        m
    }

    /// Whether the states are those on entering a chunk.
    pub open spec fn holds_states(
        self,
        m: Shared<T>,
        s: ScanSeqs<T>,
        d: ScanDims,
        k: Head,
        chunk: int,
    ) -> bool {
        forall|p: int, n: int|
            0 <= p < d.p_dim && 0 <= n < d.n_dim ==> #[trigger] m.state_of(d, p, n) == self.state(
                s,
                d,
                k,
                p,
                n,
                true,
                chunk,
            )
    }

    /// Whether the running decay is that of a chunk.
    pub open spec fn holds_decay(
        self,
        m: Shared<T>,
        s: ScanSeqs<T>,
        d: ScanDims,
        k: Head,
        chunk: int,
    ) -> bool {
        forall|q: int|
            0 <= q < d.block_len ==> #[trigger] m.cum@[q] == self.decay(s, d, k, chunk, q + 1)
    }

    /// Whether the projections are those of a chunk.
    pub open spec fn holds_projections(
        self,
        m: Shared<T>,
        s: ScanSeqs<T>,
        d: ScanDims,
        k: Head,
        chunk: int,
    ) -> bool {
        forall|q: int, n: int|
            0 <= q < d.block_len && 0 <= n < d.n_dim ==> m.b@[#[trigger] at2(q, d.n_dim as int, n)]
                == s.b_at(d, k.b as int, step_of(d, chunk, q), k.h as int, n) && m.c@[at2(
                q,
                d.n_dim as int,
                n,
            )] == s.c_at(d, k.b as int, step_of(d, chunk, q), k.h as int, n)
    }

    /// Whether what is left of each place is known, at the end and from the
    /// start of a chunk.
    pub open spec fn holds_factors(
        self,
        m: Shared<T>,
        s: ScanSeqs<T>,
        d: ScanDims,
        k: Head,
        chunk: int,
    ) -> bool {
        forall|q: int|
            #![trigger m.decay_end@[q]]
            #![trigger m.decay_start@[q]]
            0 <= q < d.block_len ==> m.decay_end@[q] == self.left(
                self.decay(s, d, k, chunk, d.block_len as int),
                self.decay(s, d, k, chunk, q + 1),
            ) && m.decay_start@[q] == self.grown(self.decay(s, d, k, chunk, q + 1))
    }

    /// Whether `bc` and `dec` are the overlaps of place `q` with the places up
    /// to it, and what is left of them there.
    pub open spec fn holds_row(
        self,
        bc: Seq<T>,
        dec: Seq<T>,
        s: ScanSeqs<T>,
        d: ScanDims,
        k: Head,
        chunk: int,
        q: int,
    ) -> bool {
        forall|j: int|
            0 <= j <= q ==> #[trigger] bc[j] == self.overlap(
                s,
                d,
                k,
                step_of(d, chunk, q),
                step_of(d, chunk, j),
                d.n_dim as int,
            ) && dec[j] == self.left(
                self.decay(s, d, k, chunk, q + 1),
                self.decay(s, d, k, chunk, j + 1),
            )
    }

    /// The first thread sums the decay up.
    fn block_decay(&self, m: &mut Shared<T>, data: &ScanData<T>, d: &ScanDims, k: Head, chunk: usize)
        requires
            self.ok(),
            blockable(*d),
            data@.fits(*d),
            k.within(*d),
            chunk < d.t_len / d.block_len,
            old(m).sized(*d),
        ensures
            final(m).sized(*d),
            final(m).state == old(m).state,
            self.holds_decay(*final(m), data@, *d, k, chunk as int),
    {
        m.cum = self.chunk_decay(data, d, k, chunk);
    }

    /// All threads load the projections, one element after the other in turn.
    fn block_load(&self, m: &mut Shared<T>, data: &ScanData<T>, d: &ScanDims, k: Head, chunk: usize)
        requires
            self.ok(),
            blockable(*d),
            data@.fits(*d),
            k.within(*d),
            chunk < d.t_len / d.block_len,
            old(m).sized(*d),
        ensures
            final(m).sized(*d),
            final(m).state == old(m).state,
            final(m).cum == old(m).cum,
            self.holds_projections(*final(m), data@, *d, k, chunk as int),
    {
        let n: usize = d.n_dim;
        let all: usize = d.block_len * n;
        let ghost m0 = *m;
        let mut i: usize = 0;
        while i < all
            invariant
                i <= all,
                all == d.block_len * d.n_dim,
                n == d.n_dim,
                self.ok(),
                blockable(*d),
                data@.fits(*d),
                k.within(*d),
                chunk < d.t_len / d.block_len,
                m.sized(*d),
                m.state == m0.state,
                m.cum == m0.cum,
                forall|j: int|
                    0 <= j < i ==> #[trigger] m.b@[j] == data@.b_at(
                        *d,
                        k.b as int,
                        step_of(*d, chunk as int, j / n as int),
                        k.h as int,
                        j % n as int,
                    ) && m.c@[j] == data@.c_at(
                        *d,
                        k.b as int,
                        step_of(*d, chunk as int, j / n as int),
                        k.h as int,
                        j % n as int,
                    ),
            decreases all - i,
        {
            proof {
                lemma_row_bound(i as int, d.block_len as int, n as int);
                lemma_step(*d, chunk as int, i as int / n as int);
            }
            let q: usize = i / n;
            let col: usize = i % n;
            let t: usize = chunk * d.block_len + q;
            let row: usize = row_index(d, k, t);
            let at: usize = element_index(row, n, col, Ghost(rows(*d)));
            m.b.set(i, data.b[at]);
            m.c.set(i, data.c[at]);
            i = i + 1;
        }
        proof {
            assert forall|q: int, c: int|
                0 <= q < d.block_len && 0 <= c < d.n_dim implies m.b@[#[trigger] at2(
                q,
                d.n_dim as int,
                c,
            )] == data@.b_at(*d, k.b as int, step_of(*d, chunk as int, q), k.h as int, c)
                && m.c@[at2(q, d.n_dim as int, c)] == data@.c_at(
                *d,
                k.b as int,
                step_of(*d, chunk as int, q),
                k.h as int,
                c,
            ) by {
                lemma_at2(q, d.n_dim as int, c, d.block_len as int);
                lemma_at2_parts(q, d.n_dim as int, c);
            }
        }
    }

    /// The overlap of two places, from the shared projections.
    fn shared_overlap(
        &self,
        m: &Shared<T>,
        d: &ScanDims,
        q: usize,
        j: usize,
        s: Ghost<ScanSeqs<T>>,
        k: Head,
        chunk: Ghost<int>,
    ) -> (r: T)
        requires
            self.ok(),
            blockable(*d),
            m.sized(*d),
            self.holds_projections(*m, s@, *d, k, chunk@),
            q < d.block_len,
            j < d.block_len,
        ensures
            r == self.overlap(
                s@,
                *d,
                k,
                step_of(*d, chunk@, q as int),
                step_of(*d, chunk@, j as int),
                d.n_dim as int,
            ),
    {
        let mut acc: T = self.zero;
        let mut n: usize = 0;
        while n < d.n_dim
            invariant
                n <= d.n_dim,
                self.ok(),
                blockable(*d),
                m.sized(*d),
                self.holds_projections(*m, s@, *d, k, chunk@),
                q < d.block_len,
                j < d.block_len,
                acc == self.overlap(
                    s@,
                    *d,
                    k,
                    step_of(*d, chunk@, q as int),
                    step_of(*d, chunk@, j as int),
                    n as int,
                ),
            decreases d.n_dim - n,
        {
            let ic: usize = element_index(q, d.n_dim, n, Ghost(d.block_len as int));
            let ib: usize = element_index(j, d.n_dim, n, Ghost(d.block_len as int));
            let c: T = m.c[ic];
            let b: T = m.b[ib];
            assert(m.c@[at2(q as int, d.n_dim as int, n as int)] == c);
            assert(m.b@[at2(j as int, d.n_dim as int, n as int)] == b);
            let p = self.do_prod(c, b);
            acc = self.do_sum(acc, p);
            n = n + 1;
        }
        acc
    }

    /// Every thread prepares what is left of its place, and the first row.
    fn block_prepare(
        &self,
        m: &mut Shared<T>,
        d: &ScanDims,
        s: Ghost<ScanSeqs<T>>,
        k: Head,
        chunk: Ghost<int>,
    )
        requires
            self.ok(),
            blockable(*d),
            old(m).sized(*d),
            self.holds_decay(*old(m), s@, *d, k, chunk@),
            self.holds_projections(*old(m), s@, *d, k, chunk@),
        ensures
            final(m).sized(*d),
            final(m).state == old(m).state,
            final(m).cum == old(m).cum,
            final(m).b == old(m).b,
            final(m).c == old(m).c,
            self.holds_factors(*final(m), s@, *d, k, chunk@),
            self.holds_row(
                final(m).bc_even@,
                final(m).decay_even@,
                s@,
                *d,
                k,
                chunk@,
                0,
            ),
    {
        let ghost m0 = *m;
        let end: T = m.cum[d.block_len - 1];
        let first: T = m.cum[0];
        let mut tid: usize = 0;
        while tid < d.block_len
            invariant
                tid <= d.block_len,
                self.ok(),
                blockable(*d),
                m.sized(*d),
                m.state == m0.state,
                m.cum == m0.cum,
                m.b == m0.b,
                m.c == m0.c,
                self.holds_decay(m0, s@, *d, k, chunk@),
                self.holds_projections(m0, s@, *d, k, chunk@),
                end == self.decay(s@, *d, k, chunk@, d.block_len as int),
                first == self.decay(s@, *d, k, chunk@, 1),
                forall|q: int|
                    #![trigger m.decay_end@[q]]
                    #![trigger m.decay_start@[q]]
                    0 <= q < tid ==> m.decay_end@[q] == self.left(
                        end,
                        self.decay(s@, *d, k, chunk@, q + 1),
                    ) && m.decay_start@[q] == self.grown(self.decay(s@, *d, k, chunk@, q + 1)),
                tid > 0 ==> self.holds_row(m.bc_even@, m.decay_even@, s@, *d, k, chunk@, 0),
            decreases d.block_len - tid,
        {
            let mine: T = m.cum[tid];
            assert(mine == m0.cum@[tid as int]);
            let e = self.do_left(end, mine);
            m.decay_end.set(tid, e);
            let g = self.do_grown(mine);
            m.decay_start.set(tid, g);
            let bc: T = if tid == 0 {
                self.shared_overlap(m, d, 0, 0, s, k, chunk)
            } else {
                self.zero
            };
            m.bc_even.set(tid, bc);
            let f = self.do_left(first, mine);
            m.decay_even.set(tid, f);
            tid = tid + 1;
        }
    }

    /// The output of one thread at one place.
    fn thread_output(
        &self,
        m: &Shared<T>,
        bc: &Vec<T>,
        dec: &Vec<T>,
        data: &ScanData<T>,
        d: &ScanDims,
        k: Head,
        chunk: usize,
        q: usize,
        tid: usize,
    ) -> (y: T)
        requires
            self.ok(),
            blockable(*d),
            data@.fits(*d),
            k.within(*d),
            chunk < d.t_len / d.block_len,
            q < d.block_len,
            tid < d.p_dim,
            m.sized(*d),
            bc@.len() == d.block_len,
            dec@.len() == d.block_len,
            self.holds_projections(*m, data@, *d, k, chunk as int),
            self.holds_factors(*m, data@, *d, k, chunk as int),
            self.holds_states(*m, data@, *d, k, chunk as int),
            self.holds_row(bc@, dec@, data@, *d, k, chunk as int, q as int),
        ensures
            y == self.output(
                data@,
                *d,
                k,
                tid as int,
                true,
                chunk as int,
                q as int,
                d.n_dim as int,
            ),
    {
        let mut acc: T = self.zero;
        let mut j: usize = 0;
        while j < q + 1
            invariant
                j <= q + 1,
                self.ok(),
                blockable(*d),
                data@.fits(*d),
                k.within(*d),
                chunk < d.t_len / d.block_len,
                q < d.block_len,
                tid < d.p_dim,
                bc@.len() == d.block_len,
                dec@.len() == d.block_len,
                self.holds_row(bc@, dec@, data@, *d, k, chunk as int, q as int),
                acc == self.within_chunk(
                    data@,
                    *d,
                    k,
                    tid as int,
                    chunk as int,
                    q as int,
                    j as int,
                ),
            decreases q + 1 - j,
        {
            proof {
                lemma_step(*d, chunk as int, j as int);
            }
            let u: usize = chunk * d.block_len + j;
            let row: usize = row_index(d, k, u);
            let f: T = dec[j];
            let o: T = bc[j];
            assert(bc@[j as int] == o);
            let x: T = data.x[element_index(row, d.p_dim, tid, Ghost(rows(*d)))];
            let fo = self.do_prod(f, o);
            let g = self.do_prod(fo, x);
            acc = self.do_sum(acc, g);
            j = j + 1;
        }
        let grown: T = m.decay_start[q];
        let mut n: usize = 0;
        while n < d.n_dim
            invariant
                n <= d.n_dim,
                self.ok(),
                blockable(*d),
                q < d.block_len,
                tid < d.p_dim,
                m.sized(*d),
                self.holds_projections(*m, data@, *d, k, chunk as int),
                self.holds_states(*m, data@, *d, k, chunk as int),
                grown == self.grown(self.decay(data@, *d, k, chunk as int, q + 1)),
                acc == self.output(
                    data@,
                    *d,
                    k,
                    tid as int,
                    true,
                    chunk as int,
                    q as int,
                    n as int,
                ),
            decreases d.n_dim - n,
        {
            let c: T = m.c[element_index(q, d.n_dim, n, Ghost(d.block_len as int))];
            assert(m.c@[at2(q as int, d.n_dim as int, n as int)] == c);
            let h: T = m.state[element_index(tid, d.n_dim + 1, n, Ghost(d.p_dim as int))];
            assert(m.state_of(*d, tid as int, n as int) == h);
            let gc = self.do_prod(grown, c);
            let z = self.do_prod(gc, h);
            acc = self.do_sum(acc, z);
            n = n + 1;
        }
        acc
    }

    /// The row of the next place, from the shared projections: every thread
    /// makes one element. Elements that the next place does not look at stay
    /// zero.
    fn next_row(
        &self,
        m: &Shared<T>,
        d: &ScanDims,
        q: usize,
        s: Ghost<ScanSeqs<T>>,
        k: Head,
        chunk: Ghost<int>,
    ) -> (r: (Vec<T>, Vec<T>))
        requires
            self.ok(),
            blockable(*d),
            m.sized(*d),
            self.holds_decay(*m, s@, *d, k, chunk@),
            self.holds_projections(*m, s@, *d, k, chunk@),
            q < d.block_len,
        ensures
            r.0@.len() == d.block_len,
            r.1@.len() == d.block_len,
            self.holds_row(r.0@, r.1@, s@, *d, k, chunk@, q as int),
    {
        let here: T = m.cum[q];
        let mut bc: Vec<T> = Vec::new();
        let mut dec: Vec<T> = Vec::new();
        let mut tid: usize = 0;
        while tid < d.block_len
            invariant
                tid <= d.block_len,
                self.ok(),
                blockable(*d),
                m.sized(*d),
                self.holds_decay(*m, s@, *d, k, chunk@),
                self.holds_projections(*m, s@, *d, k, chunk@),
                q < d.block_len,
                here == self.decay(s@, *d, k, chunk@, q + 1),
                bc@.len() == tid,
                dec@.len() == tid,
                forall|j: int|
                    #![trigger bc@[j]]
                    #![trigger dec@[j]]
                    0 <= j < tid && j <= q ==> bc@[j] == self.overlap(
                        s@,
                        *d,
                        k,
                        step_of(*d, chunk@, q as int),
                        step_of(*d, chunk@, j),
                        d.n_dim as int,
                    ) && dec@[j] == self.left(here, self.decay(s@, *d, k, chunk@, j + 1)),
            decreases d.block_len - tid,
        {
            let b: T = if tid <= q {
                self.shared_overlap(m, d, q, tid, s, k, chunk)
            } else {
                self.zero
            };
            let mine: T = m.cum[tid];
            let f = self.do_left(here, mine);
            let ghost bc0 = bc@;
            let ghost dec0 = dec@;
            bc.push(b);
            dec.push(f);
            proof {
                assert(mine == self.decay(s@, *d, k, chunk@, tid + 1));
                assert forall|j: int|
                    #![trigger bc@[j]]
                    #![trigger dec@[j]]
                    0 <= j < tid + 1 && j <= q implies bc@[j] == self.overlap(
                    s@,
                    *d,
                    k,
                    step_of(*d, chunk@, q as int),
                    step_of(*d, chunk@, j),
                    d.n_dim as int,
                ) && dec@[j] == self.left(here, self.decay(s@, *d, k, chunk@, j + 1)) by {
                    if j < tid {
                        assert(bc@[j] == bc0[j] && dec@[j] == dec0[j]);
                    }
                }
            }
            tid = tid + 1;
        }
        (bc, dec)
    }

    /// All threads write their outputs of a chunk, place by place.
    fn block_outputs(
        &self,
        m: &mut Shared<T>,
        y: &mut Vec<T>,
        data: &ScanData<T>,
        d: &ScanDims,
        k: Head,
        chunk: usize,
    )
        requires
            self.ok(),
            blockable(*d),
            data@.fits(*d),
            k.within(*d),
            chunk < d.t_len / d.block_len,
            old(m).sized(*d),
            old(y)@.len() == rows(*d) * d.p_dim,
            self.holds_decay(*old(m), data@, *d, k, chunk as int),
            self.holds_projections(*old(m), data@, *d, k, chunk as int),
            self.holds_factors(*old(m), data@, *d, k, chunk as int),
            self.holds_states(*old(m), data@, *d, k, chunk as int),
            self.holds_row(
                old(m).bc_even@,
                old(m).decay_even@,
                data@,
                *d,
                k,
                chunk as int,
                0,
            ),
        ensures
            final(m).sized(*d),
            final(m).cum == old(m).cum,
            final(m).b == old(m).b,
            final(m).state == old(m).state,
            final(m).decay_end == old(m).decay_end,
            final(y)@.len() == old(y)@.len(),
            forall|t: int, p: int|
                0 <= t < d.t_len && 0 <= p < d.p_dim ==> final(y)@[#[trigger] out_at(
                    *d,
                    k.b as int,
                    t,
                    k.h as int,
                    p,
                )] == (if t / d.block_len as int == chunk {
                    self.scanned(data@, *d, k, p, true, t)
                } else {
                    old(y)@[out_at(*d, k.b as int, t, k.h as int, p)]
                }),
            untouched(old(y)@, final(y)@, *d, k),
    {
        let ghost m0 = *m;
        let ghost y0 = y@;
        let mut q: usize = 0;
        while q < d.block_len
            invariant
                q <= d.block_len,
                self.ok(),
                blockable(*d),
                data@.fits(*d),
                k.within(*d),
                chunk < d.t_len / d.block_len,
                m.sized(*d),
                m.cum == m0.cum,
                m.b == m0.b,
                m.c == m0.c,
                m.state == m0.state,
                m.decay_end == m0.decay_end,
                m.decay_start == m0.decay_start,
                y0.len() == rows(*d) * d.p_dim,
                y@.len() == y0.len(),
                self.holds_decay(m0, data@, *d, k, chunk as int),
                self.holds_projections(m0, data@, *d, k, chunk as int),
                self.holds_factors(m0, data@, *d, k, chunk as int),
                self.holds_states(m0, data@, *d, k, chunk as int),
                q < d.block_len && q % 2 == 0 ==> self.holds_row(
                    m.bc_even@,
                    m.decay_even@,
                    data@,
                    *d,
                    k,
                    chunk as int,
                    q as int,
                ),
                q < d.block_len && q % 2 == 1 ==> self.holds_row(
                    m.bc_odd@,
                    m.decay_odd@,
                    data@,
                    *d,
                    k,
                    chunk as int,
                    q as int,
                ),
                forall|t: int, p: int|
                    0 <= t < d.t_len && 0 <= p < d.p_dim ==> y@[#[trigger] out_at(
                        *d,
                        k.b as int,
                        t,
                        k.h as int,
                        p,
                    )] == (if t / d.block_len as int == chunk && t % (d.block_len as int) < q {
                        self.scanned(data@, *d, k, p, true, t)
                    } else {
                        y0[out_at(*d, k.b as int, t, k.h as int, p)]
                    }),
                untouched(y0, y@, *d, k),
            decreases d.block_len - q,
        {
            proof {
                self.lemma_same_shared(m0, *m, data@, *d, k, chunk as int);
            }
            if q % 2 == 0 {
                self.write_place(m, &m.bc_even, &m.decay_even, y, data, d, k, chunk, q);
            } else {
                self.write_place(m, &m.bc_odd, &m.decay_odd, y, data, d, k, chunk, q);
            }
            proof {
                assert forall|t: int, p: int|
                    0 <= t < d.t_len && 0 <= p < d.p_dim implies y@[#[trigger] out_at(
                    *d,
                    k.b as int,
                    t,
                    k.h as int,
                    p,
                )] == (if t / d.block_len as int == chunk && t % (d.block_len as int) < q + 1 {
                    self.scanned(data@, *d, k, p, true, t)
                } else {
                    y0[out_at(*d, k.b as int, t, k.h as int, p)]
                }) by {
                    lemma_parts_at2(t, d.block_len as int);
                    lemma_step(*d, chunk as int, q as int);
                }
            }
            if q + 1 < d.block_len {
                let (bc, dec) = self.next_row(m, d, q + 1, Ghost(data@), k, Ghost(chunk as int));
                if q % 2 == 0 {
                    m.bc_odd = bc;
                    m.decay_odd = dec;
                } else {
                    m.bc_even = bc;
                    m.decay_even = dec;
                }
            }
            q = q + 1;
        }
    }

    /// What is known of the shared memory does not depend on the rows.
    proof fn lemma_same_shared(
        &self,
        m0: Shared<T>,
        m: Shared<T>,
        s: ScanSeqs<T>,
        d: ScanDims,
        k: Head,
        chunk: int,
    )
        requires
            m.cum == m0.cum,
            m.b == m0.b,
            m.c == m0.c,
            m.state == m0.state,
            m.decay_end == m0.decay_end,
            m.decay_start == m0.decay_start,
            self.holds_decay(m0, s, d, k, chunk),
            self.holds_projections(m0, s, d, k, chunk),
            self.holds_factors(m0, s, d, k, chunk),
            self.holds_states(m0, s, d, k, chunk),
        ensures
            self.holds_decay(m, s, d, k, chunk),
            self.holds_projections(m, s, d, k, chunk),
            self.holds_factors(m, s, d, k, chunk),
            self.holds_states(m, s, d, k, chunk),
    {
        assert forall|p: int, n: int|
            0 <= p < d.p_dim && 0 <= n < d.n_dim implies #[trigger] m.state_of(d, p, n)
            == self.state(s, d, k, p, n, true, chunk) by {
            assert(m0.state_of(d, p, n) == m.state_of(d, p, n));
        }
    }

    /// All threads write their outputs at one place.
    fn write_place(
        &self,
        m: &Shared<T>,
        bc: &Vec<T>,
        dec: &Vec<T>,
        y: &mut Vec<T>,
        data: &ScanData<T>,
        d: &ScanDims,
        k: Head,
        chunk: usize,
        q: usize,
    )
        requires
            self.ok(),
            blockable(*d),
            data@.fits(*d),
            k.within(*d),
            chunk < d.t_len / d.block_len,
            q < d.block_len,
            m.sized(*d),
            bc@.len() == d.block_len,
            dec@.len() == d.block_len,
            old(y)@.len() == rows(*d) * d.p_dim,
            self.holds_projections(*m, data@, *d, k, chunk as int),
            self.holds_factors(*m, data@, *d, k, chunk as int),
            self.holds_states(*m, data@, *d, k, chunk as int),
            self.holds_row(bc@, dec@, data@, *d, k, chunk as int, q as int),
        ensures
            final(y)@.len() == old(y)@.len(),
            forall|t: int, p: int|
                0 <= t < d.t_len && 0 <= p < d.p_dim ==> final(y)@[#[trigger] out_at(
                    *d,
                    k.b as int,
                    t,
                    k.h as int,
                    p,
                )] == (if t == step_of(*d, chunk as int, q as int) {
                    self.scanned(data@, *d, k, p, true, t)
                } else {
                    old(y)@[out_at(*d, k.b as int, t, k.h as int, p)]
                }),
            untouched(old(y)@, final(y)@, *d, k),
    {
        proof {
            lemma_step(*d, chunk as int, q as int);
        }
        let t: usize = chunk * d.block_len + q;
        let row: usize = row_index(d, k, t);
        let ghost y0 = y@;
        let mut tid: usize = 0;
        while tid < d.p_dim
            invariant
                tid <= d.p_dim,
                self.ok(),
                blockable(*d),
                data@.fits(*d),
                k.within(*d),
                chunk < d.t_len / d.block_len,
                q < d.block_len,
                t == step_of(*d, chunk as int, q as int),
                t < d.t_len,
                t as int / d.block_len as int == chunk,
                t as int % d.block_len as int == q,
                row == row_at(*d, k.b as int, t as int, k.h as int),
                row < rows(*d),
                m.sized(*d),
                bc@.len() == d.block_len,
                dec@.len() == d.block_len,
                y0.len() == rows(*d) * d.p_dim,
                y@.len() == y0.len(),
                self.holds_projections(*m, data@, *d, k, chunk as int),
                self.holds_factors(*m, data@, *d, k, chunk as int),
                self.holds_states(*m, data@, *d, k, chunk as int),
                self.holds_row(bc@, dec@, data@, *d, k, chunk as int, q as int),
                forall|u: int, p: int|
                    0 <= u < d.t_len && 0 <= p < d.p_dim ==> y@[#[trigger] out_at(
                        *d,
                        k.b as int,
                        u,
                        k.h as int,
                        p,
                    )] == (if u == t && p < tid {
                        self.scanned(data@, *d, k, p, true, u)
                    } else {
                        y0[out_at(*d, k.b as int, u, k.h as int, p)]
                    }),
                untouched(y0, y@, *d, k),
            decreases d.p_dim - tid,
        {
            let v = self.thread_output(m, bc, dec, data, d, k, chunk, q, tid);
            let i: usize = element_index(row, d.p_dim, tid, Ghost(rows(*d)));
            let ghost before = y@;
            y.set(i, v);
            proof {
                let kb = k.b as int;
                let kh = k.h as int;
                assert(i == out_at(*d, kb, t as int, kh, tid as int));
                assert forall|u: int, p: int|
                    0 <= u < d.t_len && 0 <= p < d.p_dim implies y@[#[trigger] out_at(
                    *d,
                    kb,
                    u,
                    kh,
                    p,
                )] == (if u == t && p < tid + 1 {
                    self.scanned(data@, *d, k, p, true, u)
                } else {
                    y0[out_at(*d, kb, u, kh, p)]
                }) by {
                    law_lanes_write_apart(*d, kb, u, kh, p, kb, t as int, kh, tid as int);
                    if u != t || p != tid {
                        assert(y@[out_at(*d, kb, u, kh, p)] == before[out_at(*d, kb, u, kh, p)]);
                    }
                }
                assert forall|b1: int, u: int, h1: int, p: int|
                    0 <= b1 < d.batch && 0 <= u < d.t_len && 0 <= h1 < d.n_heads && 0 <= p < d.p_dim
                        && (b1 != kb || h1 != kh) implies y@[#[trigger] out_at(*d, b1, u, h1, p)]
                    == y0[out_at(*d, b1, u, h1, p)] by {
                    law_lanes_write_apart(*d, b1, u, h1, p, kb, t as int, kh, tid as int);
                    assert(y@[out_at(*d, b1, u, h1, p)] == before[out_at(*d, b1, u, h1, p)]);
                }
            }
            tid = tid + 1;
        }
    }

    /// Every thread carries its states over to the next chunk.
    fn block_carry(&self, m: &mut Shared<T>, data: &ScanData<T>, d: &ScanDims, k: Head, chunk: usize)
        requires
            self.ok(),
            blockable(*d),
            data@.fits(*d),
            k.within(*d),
            chunk < d.t_len / d.block_len,
            old(m).sized(*d),
            self.holds_decay(*old(m), data@, *d, k, chunk as int),
            forall|q: int, n: int|
                0 <= q < d.block_len && 0 <= n < d.n_dim ==> old(m).b@[#[trigger] at2(
                    q,
                    d.n_dim as int,
                    n,
                )] == data@.b_at(*d, k.b as int, step_of(*d, chunk as int, q), k.h as int, n),
            forall|q: int|
                0 <= q < d.block_len ==> #[trigger] old(m).decay_end@[q] == self.left(
                    self.decay(data@, *d, k, chunk as int, d.block_len as int),
                    self.decay(data@, *d, k, chunk as int, q + 1),
                ),
            self.holds_states(*old(m), data@, *d, k, chunk as int),
        ensures
            final(m).sized(*d),
            self.holds_states(*final(m), data@, *d, k, chunk + 1),
    {
        let ghost m0 = *m;
        let end: T = m.cum[d.block_len - 1];
        let full = self.do_grown(end);
        let mut tid: usize = 0;
        while tid < d.p_dim
            invariant
                tid <= d.p_dim,
                self.ok(),
                blockable(*d),
                data@.fits(*d),
                k.within(*d),
                chunk < d.t_len / d.block_len,
                m.sized(*d),
                m.b == m0.b,
                m.decay_end == m0.decay_end,
                full == self.grown(self.decay(data@, *d, k, chunk as int, d.block_len as int)),
                forall|q: int, n: int|
                    0 <= q < d.block_len && 0 <= n < d.n_dim ==> m0.b@[#[trigger] at2(
                        q,
                        d.n_dim as int,
                        n,
                    )] == data@.b_at(*d, k.b as int, step_of(*d, chunk as int, q), k.h as int, n),
                forall|q: int|
                    0 <= q < d.block_len ==> #[trigger] m0.decay_end@[q] == self.left(
                        self.decay(data@, *d, k, chunk as int, d.block_len as int),
                        self.decay(data@, *d, k, chunk as int, q + 1),
                    ),
                forall|p: int, n: int|
                    0 <= p < d.p_dim && 0 <= n < d.n_dim ==> #[trigger] m.state_of(*d, p, n)
                        == self.state(
                        data@,
                        *d,
                        k,
                        p,
                        n,
                        true,
                        if p < tid {
                            chunk + 1
                        } else {
                            chunk as int
                        },
                    ),
            decreases d.p_dim - tid,
        {
            let mut n: usize = 0;
            while n < d.n_dim
                invariant
                    n <= d.n_dim,
                    tid < d.p_dim,
                    self.ok(),
                    blockable(*d),
                    data@.fits(*d),
                    k.within(*d),
                    chunk < d.t_len / d.block_len,
                    m.sized(*d),
                    m.b == m0.b,
                    m.decay_end == m0.decay_end,
                    full == self.grown(
                        self.decay(data@, *d, k, chunk as int, d.block_len as int),
                    ),
                    forall|q: int, i: int|
                        0 <= q < d.block_len && 0 <= i < d.n_dim ==> m0.b@[#[trigger] at2(
                            q,
                            d.n_dim as int,
                            i,
                        )] == data@.b_at(
                            *d,
                            k.b as int,
                            step_of(*d, chunk as int, q),
                            k.h as int,
                            i,
                        ),
                    forall|q: int|
                        0 <= q < d.block_len ==> #[trigger] m0.decay_end@[q] == self.left(
                            self.decay(data@, *d, k, chunk as int, d.block_len as int),
                            self.decay(data@, *d, k, chunk as int, q + 1),
                        ),
                    forall|p: int, i: int|
                        0 <= p < d.p_dim && 0 <= i < d.n_dim ==> #[trigger] m.state_of(*d, p, i)
                            == self.state(
                            data@,
                            *d,
                            k,
                            p,
                            i,
                            true,
                            if p < tid || (p == tid && i < n) {
                                chunk + 1
                            } else {
                                chunk as int
                            },
                        ),
                decreases d.n_dim - n,
            {
                let at: usize = element_index(tid, d.n_dim + 1, n, Ghost(d.p_dim as int));
                let before: T = m.state[at];
                assert(m.state_of(*d, tid as int, n as int) == before);
                let v = self.thread_carry(m, data, d, k, tid, n, chunk, full, before);
                let ghost m1 = *m;
                m.state.set(at, v);
                proof {
                    assert forall|p: int, i: int|
                        0 <= p < d.p_dim && 0 <= i < d.n_dim implies #[trigger] m.state_of(*d, p, i)
                        == self.state(
                        data@,
                        *d,
                        k,
                        p,
                        i,
                        true,
                        if p < tid || (p == tid && i < n + 1) {
                            chunk + 1
                        } else {
                            chunk as int
                        },
                    ) by {
                        lemma_at2(p, d.n_dim + 1, i, d.p_dim as int);
                        lemma_at2_parts(p, d.n_dim + 1, i);
                        lemma_at2_parts(tid as int, d.n_dim + 1, n as int);
                        if p != tid || i != n {
                            assert(m.state_of(*d, p, i) == m1.state_of(*d, p, i));
                        }
                    }
                }
                n = n + 1;
            }
            tid = tid + 1;
        }
    }

    /// One state of one thread after a chunk.
    fn thread_carry(
        &self,
        m: &Shared<T>,
        data: &ScanData<T>,
        d: &ScanDims,
        k: Head,
        tid: usize,
        n: usize,
        chunk: usize,
        full: T,
        before: T,
    ) -> (r: T)
        requires
            self.ok(),
            blockable(*d),
            data@.fits(*d),
            k.within(*d),
            chunk < d.t_len / d.block_len,
            tid < d.p_dim,
            n < d.n_dim,
            m.sized(*d),
            full == self.grown(self.decay(data@, *d, k, chunk as int, d.block_len as int)),
            forall|q: int, i: int|
                0 <= q < d.block_len && 0 <= i < d.n_dim ==> m.b@[#[trigger] at2(
                    q,
                    d.n_dim as int,
                    i,
                )] == data@.b_at(*d, k.b as int, step_of(*d, chunk as int, q), k.h as int, i),
            forall|q: int|
                0 <= q < d.block_len ==> #[trigger] m.decay_end@[q] == self.left(
                    self.decay(data@, *d, k, chunk as int, d.block_len as int),
                    self.decay(data@, *d, k, chunk as int, q + 1),
                ),
        ensures
            r == self.carried(
                data@,
                *d,
                k,
                tid as int,
                n as int,
                chunk as int,
                true,
                before,
                d.block_len as int,
            ),
    {
        let mut acc: T = self.do_prod(before, full);
        let mut q: usize = 0;
        while q < d.block_len
            invariant
                q <= d.block_len,
                self.ok(),
                blockable(*d),
                data@.fits(*d),
                k.within(*d),
                chunk < d.t_len / d.block_len,
                tid < d.p_dim,
                n < d.n_dim,
                m.sized(*d),
                forall|q: int, i: int|
                    0 <= q < d.block_len && 0 <= i < d.n_dim ==> m.b@[#[trigger] at2(
                        q,
                        d.n_dim as int,
                        i,
                    )] == data@.b_at(*d, k.b as int, step_of(*d, chunk as int, q), k.h as int, i),
                forall|q: int|
                    0 <= q < d.block_len ==> #[trigger] m.decay_end@[q] == self.left(
                        self.decay(data@, *d, k, chunk as int, d.block_len as int),
                        self.decay(data@, *d, k, chunk as int, q + 1),
                    ),
                acc == self.carried(
                    data@,
                    *d,
                    k,
                    tid as int,
                    n as int,
                    chunk as int,
                    true,
                    before,
                    q as int,
                ),
            decreases d.block_len - q,
        {
            proof {
                lemma_step(*d, chunk as int, q as int);
            }
            let u: usize = chunk * d.block_len + q;
            let row: usize = row_index(d, k, u);
            let f: T = m.decay_end[q];
            assert(m.decay_end@[q as int] == f);
            let x: T = data.x[element_index(row, d.p_dim, tid, Ghost(rows(*d)))];
            let b: T = m.b[element_index(q, d.n_dim, n, Ghost(d.block_len as int))];
            assert(m.b@[at2(q as int, d.n_dim as int, n as int)] == b);
            let fx = self.do_prod(f, x);
            let g = self.do_prod(fx, b);
            acc = self.do_sum(acc, g);
            q = q + 1;
        }
        acc
    }

    /// One block: the outputs of one head of one batch entry, and nothing
    /// else.
    pub fn scan_block(&self, y: &mut Vec<T>, data: &ScanData<T>, d: &ScanDims, k: Head)
        requires
            self.ok(),
            blockable(*d),
            data@.fits(*d),
            k.within(*d),
            old(y)@.len() == rows(*d) * d.p_dim,
        ensures
            final(y)@.len() == old(y)@.len(),
            forall|t: int, p: int|
                0 <= t < d.t_len && 0 <= p < d.p_dim ==> final(y)@[#[trigger] out_at(
                    *d,
                    k.b as int,
                    t,
                    k.h as int,
                    p,
                )] == self.scanned(data@, *d, k, p, true, t),
            untouched(old(y)@, final(y)@, *d, k),
    {
        let ghost y0 = y@;
        let chunks: usize = d.t_len / d.block_len;
        let mut m = self.block_start(d, Ghost(data@), k);
        let mut chunk: usize = 0;
        while chunk < chunks
            invariant
                chunk <= chunks,
                chunks == d.t_len / d.block_len,
                self.ok(),
                blockable(*d),
                data@.fits(*d),
                k.within(*d),
                m.sized(*d),
                self.holds_states(m, data@, *d, k, chunk as int),
                y@.len() == rows(*d) * d.p_dim,
                y0.len() == y@.len(),
                forall|t: int, p: int|
                    0 <= t < d.t_len && 0 <= p < d.p_dim && t / (d.block_len as int) < chunk
                        ==> y@[#[trigger] out_at(*d, k.b as int, t, k.h as int, p)] == self.scanned(
                        data@,
                        *d,
                        k,
                        p,
                        true,
                        t,
                    ),
                untouched(y0, y@, *d, k),
            decreases chunks - chunk,
        {
            let ghost m0 = m;
            self.block_decay(&mut m, data, d, k, chunk);
            let ghost m1 = m;
            self.block_load(&mut m, data, d, k, chunk);
            proof {
                assert(self.holds_decay(m, data@, *d, k, chunk as int)) by {
                    assert forall|q: int| 0 <= q < d.block_len implies #[trigger] m.cum@[q]
                        == self.decay(data@, *d, k, chunk as int, q + 1) by {
                        assert(m1.cum@[q] == m.cum@[q]);
                    }
                }
            }
            let ghost m2 = m;
            self.block_prepare(&mut m, d, Ghost(data@), k, Ghost(chunk as int));
            proof {
                assert forall|p: int, n: int|
                    0 <= p < d.p_dim && 0 <= n < d.n_dim implies #[trigger] m.state_of(*d, p, n)
                    == self.state(data@, *d, k, p, n, true, chunk as int) by {
                    assert(m0.state_of(*d, p, n) == m.state_of(*d, p, n));
                }
                assert(self.holds_projections(m, data@, *d, k, chunk as int)) by {
                    assert(m.b == m2.b && m.c == m2.c);
                }
            }
            let ghost m3 = m;
            self.block_outputs(&mut m, y, data, d, k, chunk);
            proof {
                assert forall|p: int, n: int|
                    0 <= p < d.p_dim && 0 <= n < d.n_dim implies #[trigger] m.state_of(*d, p, n)
                    == self.state(data@, *d, k, p, n, true, chunk as int) by {
                    assert(m3.state_of(*d, p, n) == m.state_of(*d, p, n));
                }
            }
            self.block_carry(&mut m, data, d, k, chunk);
            chunk = chunk + 1;
        }
        proof {
            assert forall|t: int, p: int|
                0 <= t < d.t_len && 0 <= p < d.p_dim implies y@[#[trigger] out_at(
                *d,
                k.b as int,
                t,
                k.h as int,
                p,
            )] == self.scanned(data@, *d, k, p, true, t) by {
                let n = d.block_len as int;
                let l = d.t_len as int;
                lemma_parts_at2(l, n);
                assert((l / n) * n == l);
                lemma_row_bound(t, l / n, n);
            }
        }
    }

    /// The whole scan, block by block.
    pub fn ssd_scan_chunked_p1(&self, data: &ScanData<T>, d: &ScanDims) -> (y: Vec<T>)
        requires
            self.ok(),
            blockable(*d),
            data@.fits(*d),
        ensures
            y@.len() == rows(*d) * d.p_dim,
            forall|b: int, t: int, h: int, p: int|
                0 <= b < d.batch && 0 <= t < d.t_len && 0 <= h < d.n_heads && 0 <= p < d.p_dim
                    ==> y@[#[trigger] out_at(*d, b, t, h, p)] == self.scanned(
                    data@,
                    *d,
                    Head { b: b as usize, h: h as usize },
                    p,
                    true,
                    t,
                ),
    {
        let len: usize = data.x.len();
        let mut y: Vec<T> = filled(self.zero, len);
        let mut b: usize = 0;
        while b < d.batch
            invariant
                b <= d.batch,
                self.ok(),
                blockable(*d),
                data@.fits(*d),
                y@.len() == rows(*d) * d.p_dim,
                forall|b1: int, t: int, h: int, p: int|
                    0 <= b1 < b && 0 <= t < d.t_len && 0 <= h < d.n_heads && 0 <= p < d.p_dim
                        ==> y@[#[trigger] out_at(*d, b1, t, h, p)] == self.scanned(
                        data@,
                        *d,
                        Head { b: b1 as usize, h: h as usize },
                        p,
                        true,
                        t,
                    ),
            decreases d.batch - b,
        {
            let mut h: usize = 0;
            while h < d.n_heads
                invariant
                    h <= d.n_heads,
                    b < d.batch,
                    self.ok(),
                    blockable(*d),
                    data@.fits(*d),
                    y@.len() == rows(*d) * d.p_dim,
                    forall|b1: int, t: int, h1: int, p: int|
                        0 <= b1 <= b && 0 <= t < d.t_len && 0 <= h1 < d.n_heads && 0 <= p < d.p_dim
                            && (b1 < b || h1 < h) ==> y@[#[trigger] out_at(*d, b1, t, h1, p)]
                            == self.scanned(
                            data@,
                            *d,
                            Head { b: b1 as usize, h: h1 as usize },
                            p,
                            true,
                            t,
                        ),
                decreases d.n_heads - h,
            {
                let k = Head { b, h };
                let ghost before = y@;
                self.scan_block(&mut y, data, d, k);
                proof {
                    assert forall|b1: int, t: int, h1: int, p: int|
                        0 <= b1 <= b && 0 <= t < d.t_len && 0 <= h1 < d.n_heads && 0 <= p < d.p_dim
                            && (b1 < b || h1 < h + 1) implies y@[#[trigger] out_at(
                        *d,
                        b1,
                        t,
                        h1,
                        p,
                    )] == self.scanned(
                        data@,
                        *d,
                        Head { b: b1 as usize, h: h1 as usize },
                        p,
                        true,
                        t,
                    ) by {
                        if b1 != b || h1 != h {
                            assert(y@[out_at(*d, b1, t, h1, p)] == before[out_at(
                                *d,
                                b1,
                                t,
                                h1,
                                p,
                            )]);
                        }
                    }
                }
                h = h + 1;
            }
            b = b + 1;
        }
        y
    }
}

/// Whether the outputs of all other heads are as they were.
pub open spec fn untouched<T>(before: Seq<T>, after: Seq<T>, d: ScanDims, k: Head) -> bool {
    forall|b: int, t: int, h: int, p: int|
        0 <= b < d.batch && 0 <= t < d.t_len && 0 <= h < d.n_heads && 0 <= p < d.p_dim && (b != k.b
            || h != k.h) ==> after[#[trigger] out_at(d, b, t, h, p)] == before[out_at(
            d,
            b,
            t,
            h,
            p,
        )]
}

} // verus!
