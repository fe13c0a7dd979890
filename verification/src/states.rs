//! What the chunked scan of a backend leaves: the states, step by step, read
//! out through the output projection.

use crate::compound::{scan_dims, ssd_val};
use crate::host::{at2, at3};
use crate::meaning::{Machine, World};
use crate::places::lemma_low_positions;
use crate::program::Val;
use crate::rows::scan_val;
use crate::scan::{row_at, rows, scannable, Head, ScanSeqs};
use crate::shape::{in_range, lemma_low_rank, lemma_numel_le_span, position, regular, span};
use crate::ssd::{MAX_BLOCK_LEN, MAX_N_DIM};
use vstd::prelude::*;

verus! {

impl<
    T: Copy,
    A: Fn(T, T) -> T,
    M: Fn(T, T) -> T,
    S: Fn(T, T) -> T,
    E: Fn(T) -> T,
    N: Fn(T) -> T,
    I: Fn(T) -> T,
    L: Fn(T) -> T,
    G: Fn(T, T) -> bool,
    P: Fn(T, T) -> T,
    R: Fn(T) -> T,
    D: Fn(T) -> T,
> Machine<T, A, M, S, E, N, I, L, G, P, R, D> {
    /// The tensor that the scan kernel makes of the caller's own operands: at
    /// batch entry `i`, step `t`, head `h` and feature `p` it holds the sum over
    /// all states of the output projection there times the state after step
    /// `t`, where a state starts from nothing and at every step keeps what the
    /// exponential of the decay leaves of it and takes in the input times the
    /// input projection. Arithmetic is exact, with the exponential of zero
    /// neutral to products.
    pub proof fn law_ssd_scan_runs_the_states(
        self,
        world: World<T>,
        x: Val,
        a: Val,
        b: Val,
        c: Val,
        block_len: usize,
        i: nat,
        t: nat,
        h: nat,
        p: nat,
    )
        requires
            self.arith.exact(),
            forall|z: T| #[trigger] self.arith.prod(self.arith.grown(self.arith.zero), z) == z,
            span(x.dims) <= usize::MAX,
            span(b.dims) <= usize::MAX,
            ssd_val(x, a, b, c, block_len) matches Ok(Some(_)),
            in_range(x.dims, seq![i, t, h, p]),
        ensures
            ({
                let y = ssd_val(x, a, b, c, block_len)->Ok_0->Some_0;
                &&& y.dims == x.dims
                &&& self.at(world, y, seq![i, t, h, p]) == self.arith.tally(
                    b.dims[3] as int,
                    |n: int|
                        self.arith.prod(
                            self.at(world, c, seq![i, t, h, n as nat]),
                            self.arith.hidden(
                                |u: int| self.at(world, a, seq![i, u as nat, h]),
                                |u: int|
                                    self.arith.prod(
                                        self.at(world, x, seq![i, u as nat, h, p]),
                                        self.at(world, b, seq![i, u as nat, h, n as nat]),
                                    ),
                                t as int,
                            ),
                        ),
                )
            }),
    {
        let d = scan_dims(x.dims, b.dims, block_len);
        let y = scan_val(x, a, b, c, d)->Ok_0;
        let at = seq![i, t, h, p];
        assert(at[0] < x.dims[0] && at[1] < x.dims[1] && at[2] < x.dims[2] && at[3] < x.dims[3]);
        lemma_low_rank(x.dims);
        lemma_low_rank(b.dims);
        lemma_numel_le_span(x.dims);
        lemma_numel_le_span(b.dims);
        let (n0, n1, n2, n3, m3) = (
            d.batch as int,
            d.t_len as int,
            d.n_heads as int,
            d.p_dim as int,
            d.n_dim as int,
        );
        assert(n0 * (n1 * (n2 * n3)) == n0 * n1 * n2 * n3) by (nonlinear_arith);
        assert(n0 * (n1 * (n2 * m3)) == n0 * n1 * n2 * m3) by (nonlinear_arith);
        let lines = n0 * n1 * n2;
        assert(0 <= lines <= lines * n3) by (nonlinear_arith)
            requires
                lines == n0 * n1 * n2,
                n0 >= 0,
                n1 >= 0,
                n2 >= 0,
                n3 >= 1,
        ;
        assert(scannable(d));
        let k = Head { b: i as usize, h: h as usize };
        let s = ScanSeqs {
            x: self.nums(world, x),
            a: self.nums(world, a),
            b: self.nums(world, b),
            c: self.nums(world, c),
        };
        self.law_scan_tensor_holds_the_recurrence(world, x, a, b, c, d, k, t as int, p as int);
        lemma_low_positions(x.dims, at);
        self.arith.law_recurrence_reads_the_states(s, d, k, p as int, t as int, m3);
        let read = |n: int|
            self.arith.prod(
                s.c_at(d, k.b as int, t as int, k.h as int, n),
                self.arith.hidden(
                    |u: int| s.a_at(d, k.b as int, u, k.h as int),
                    |u: int|
                        self.arith.prod(
                            s.x_at(d, k.b as int, u, k.h as int, p as int),
                            s.b_at(d, k.b as int, u, k.h as int, n),
                        ),
                    t as int,
                ),
            );
        let held = |n: int|
            self.arith.prod(
                self.at(world, c, seq![i, t, h, n as nat]),
                self.arith.hidden(
                    |u: int| self.at(world, a, seq![i, u as nat, h]),
                    |u: int|
                        self.arith.prod(
                            self.at(world, x, seq![i, u as nat, h, p]),
                            self.at(world, b, seq![i, u as nat, h, n as nat]),
                        ),
                    t as int,
                ),
            );
        assert forall|n: int| 0 <= n < m3 implies #[trigger] read(n) == held(n) by {
            lemma_low_positions(c.dims, seq![i, t, h, n as nat]);
            let a1 = |u: int| s.a_at(d, k.b as int, u, k.h as int);
            let a2 = |u: int| self.at(world, a, seq![i, u as nat, h]);
            let u1 = |u: int|
                self.arith.prod(
                    s.x_at(d, k.b as int, u, k.h as int, p as int),
                    s.b_at(d, k.b as int, u, k.h as int, n),
                );
            let u2 = |u: int|
                self.arith.prod(
                    self.at(world, x, seq![i, u as nat, h, p]),
                    self.at(world, b, seq![i, u as nat, h, n as nat]),
                );
            assert forall|u: int| 0 <= u <= t implies #[trigger] a1(u) == a2(u) && u1(u) == u2(
                u,
            ) by {
                lemma_low_positions(a.dims, seq![i, u as nat, h]);
                lemma_low_positions(x.dims, seq![i, u as nat, h, p]);
                lemma_low_positions(b.dims, seq![i, u as nat, h, n as nat]);
            }
            self.arith.lemma_hidden_same(a1, a2, u1, u2, t as int);
        }
        self.arith.lemma_tally_same(m3, read, held);
    }
}

/// Whether the scan runs on the device: the shapes fit each other, the
/// chunk length divides the steps, and both the chunk length and the number
/// of states are within the kernel's limits. Where only the chunk length
/// does not divide the steps the scan is left to be composed.
pub proof fn law_scans_run_where_chunks_fit(x: Val, a: Val, b: Val, c: Val, block_len: usize)
    requires
        regular(x.dims),
    ensures
        ({
            let fits = x.dims.len() == 4 && a.dims == seq![x.dims[0], x.dims[1], x.dims[2]]
                && b.dims.len() == 4 && b.dims[0] == x.dims[0] && b.dims[1] == x.dims[1]
                && b.dims[2] == x.dims[2] && c.dims == b.dims;
            let whole = block_len > 0 && x.dims[1] % block_len == 0;
            let r = ssd_val(x, a, b, c, block_len);
            &&& (r is Ok && r->Ok_0 is Some) <==> fits && whole && b.dims[3] <= MAX_N_DIM && block_len
                <= MAX_BLOCK_LEN
            &&& (r is Ok && r->Ok_0 is None) <==> fits && !whole
        }),
{
    if x.dims.len() == 4 {
        lemma_low_rank(x.dims);
        let (n0, n1, n2, n3) = (
            x.dims[0] as int,
            x.dims[1] as int,
            x.dims[2] as int,
            x.dims[3] as int,
        );
        assert(n0 * (n1 * (n2 * n3)) == n0 * n2 * n3 * n1) by (nonlinear_arith);
        assert(n0 <= n0 * n2 * n3 * n1 && n1 <= n0 * n2 * n3 * n1 && n2 <= n0 * n2 * n3 * n1
            && n3 <= n0 * n2 * n3 * n1 && n0 * n2 <= n0 * n2 * n3 * n1 && n0 * n2 * n3 <= n0
            * n2 * n3 * n1) by (nonlinear_arith)
            requires
                n0 >= 1,
                n1 >= 1,
                n2 >= 1,
                n3 >= 1,
        ;
    }
}

} // verus!
