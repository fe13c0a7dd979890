//! What the gradients of a product of matrices hand its factors, element by
//! element.

use crate::device::{lemma_padded, padded, transposed_val};
use crate::gemm::stack;
use crate::host::{at3, lemma_at3};
use crate::index::{axis_parts, lemma_axis_parts, lemma_parts_of_at3};
use crate::kernels::MAX_RANK;
use crate::launch::first_long;
use crate::matrix::{lead, matmul_inner_val, must_expand, wide_lead};
use crate::meaning::{Machine, World};
use crate::places::{facing, lemma_padded_position, under};
use crate::products::{head, left_of, lemma_in_stack, right_of};
use crate::program::Val;
use crate::rules::{left_grad, part, right_grad, saved};
use crate::scan::Arith;
use crate::shape::{
    coords, expands_to, in_range, lemma_coords_of_position, lemma_numel_concat, lemma_numel_le_span,
    lemma_position_bound, lemma_position_of_coords, lemma_positive, numel, position, regular, span,
    swapped, tail,
};
use crate::tape::{matmul_fits, TapeOp};
use vstd::prelude::*;

verus! {

impl<T: Copy, A: Fn(T, T) -> T, M: Fn(T, T) -> T, S: Fn(T, T) -> T, E: Fn(T) -> T> Arith<
    T,
    A,
    M,
    S,
    E,
> {
    /// A sum over a stack of matrices is the sum over the matrices, rows and
    /// columns.
    proof fn lemma_tally_stack(self, l: int, m: int, n: int, f: spec_fn(int) -> T)
        requires
            self.exact(),
            0 <= l,
            0 <= m,
            0 <= n,
        ensures
            self.tally(l * m * n, f) == self.tally(
                l,
                |x: int| self.tally(m, |y: int| self.tally(n, |z: int| f(at3(x, m, y, n, z)))),
            ),
    {
        let inner = |r: int| self.tally(n, |z: int| f(r * n + z));
        assert(0 <= l * m) by (nonlinear_arith)
            requires
                l >= 0,
                m >= 0,
        ;
        self.lemma_tally_rows(l * m, n, f);
        self.lemma_tally_rows(l, m, inner);
        let p = |x: int| self.tally(m, |y: int| inner(x * m + y));
        let q = |x: int| self.tally(m, |y: int| self.tally(n, |z: int| f(at3(x, m, y, n, z))));
        assert forall|x: int| 0 <= x < l implies #[trigger] p(x) == q(x) by {
            let a = |y: int| inner(x * m + y);
            let b = |y: int| self.tally(n, |z: int| f(at3(x, m, y, n, z)));
            assert forall|y: int| 0 <= y < m implies #[trigger] a(y) == b(y) by {
                self.lemma_tally_same(
                    n,
                    |z: int| f((x * m + y) * n + z),
                    |z: int| f(at3(x, m, y, n, z)),
                );
            }
            self.lemma_tally_same(m, a, b);
        }
        self.lemma_tally_same(l, p, q);
    }

    /// A sum over a stack with one row and column of each matrix that counts.
    proof fn lemma_tally_entry(
        self,
        l: int,
        m: int,
        n: int,
        f: spec_fn(int) -> T,
        g: spec_fn(int) -> T,
        y0: int,
        z0: int,
    )
        requires
            self.exact(),
            0 <= l,
            0 <= y0 < m,
            0 <= z0 < n,
            forall|x: int, y: int, z: int|
                0 <= x < l && 0 <= y < m && 0 <= z < n ==> f(#[trigger] at3(x, m, y, n, z)) == (
                if y == y0 && z == z0 {
                    g(x)
                } else {
                    self.zero
                }),
        ensures
            self.tally(l * m * n, f) == self.tally(l, g),
    {
        self.lemma_tally_stack(l, m, n, f);
        let p = |x: int| self.tally(m, |y: int| self.tally(n, |z: int| f(at3(x, m, y, n, z))));
        assert forall|x: int| 0 <= x < l implies #[trigger] p(x) == g(x) by {
            let rows = |y: int| self.tally(n, |z: int| f(at3(x, m, y, n, z)));
            assert forall|y: int| 0 <= y < m && y != y0 implies #[trigger] rows(y) == self.zero by {
                let one = |z: int| f(at3(x, m, y, n, z));
                assert forall|z: int| 0 <= z < n implies #[trigger] one(z) == self.zero by {
                    assert(f(at3(x, m, y, n, z)) == self.zero);
                }
                self.lemma_tally_nothing(n, one);
            }
            self.lemma_tally_one(m, rows, y0);
            let one = |z: int| f(at3(x, m, y0, n, z));
            assert forall|z: int| 0 <= z < n && z != z0 implies #[trigger] one(z) == self.zero by {
                assert(f(at3(x, m, y0, n, z)) == self.zero);
            }
            self.lemma_tally_one(n, one, z0);
            assert(f(at3(x, m, y0, n, z0)) == g(x));
        }
        self.lemma_tally_same(l, p, g);
    }

    /// A sum over a stack with one row of each matrix that counts.
    proof fn lemma_tally_row(
        self,
        l: int,
        m: int,
        n: int,
        f: spec_fn(int) -> T,
        g: spec_fn(int, int) -> T,
        y0: int,
    )
        requires
            self.exact(),
            0 <= l,
            0 <= y0 < m,
            0 <= n,
            forall|x: int, y: int, z: int|
                0 <= x < l && 0 <= y < m && 0 <= z < n ==> f(#[trigger] at3(x, m, y, n, z)) == (
                if y == y0 {
                    g(x, z)
                } else {
                    self.zero
                }),
        ensures
            self.tally(l * m * n, f) == self.tally(l, |x: int| self.tally(n, |z: int| g(x, z))),
    {
        self.lemma_tally_stack(l, m, n, f);
        let p = |x: int| self.tally(m, |y: int| self.tally(n, |z: int| f(at3(x, m, y, n, z))));
        let q = |x: int| self.tally(n, |z: int| g(x, z));
        assert forall|x: int| 0 <= x < l implies #[trigger] p(x) == q(x) by {
            let rows = |y: int| self.tally(n, |z: int| f(at3(x, m, y, n, z)));
            assert forall|y: int| 0 <= y < m && y != y0 implies #[trigger] rows(y) == self.zero by {
                let one = |z: int| f(at3(x, m, y, n, z));
                assert forall|z: int| 0 <= z < n implies #[trigger] one(z) == self.zero by {
                    assert(f(at3(x, m, y, n, z)) == self.zero);
                }
                self.lemma_tally_nothing(n, one);
            }
            self.lemma_tally_one(m, rows, y0);
            let one = |z: int| f(at3(x, m, y0, n, z));
            let two = |z: int| g(x, z);
            assert forall|z: int| 0 <= z < n implies #[trigger] one(z) == two(z) by {
                assert(f(at3(x, m, y0, n, z)) == g(x, z));
            }
            self.lemma_tally_same(n, one, two);
        }
        self.lemma_tally_same(l, p, q);
    }

    /// A sum over a stack with one column of each matrix that counts.
    proof fn lemma_tally_column(
        self,
        l: int,
        m: int,
        n: int,
        f: spec_fn(int) -> T,
        g: spec_fn(int, int) -> T,
        z0: int,
    )
        requires
            self.exact(),
            0 <= l,
            0 <= m,
            0 <= z0 < n,
            forall|x: int, y: int, z: int|
                0 <= x < l && 0 <= y < m && 0 <= z < n ==> f(#[trigger] at3(x, m, y, n, z)) == (
                if z == z0 {
                    g(x, y)
                } else {
                    self.zero
                }),
        ensures
            self.tally(l * m * n, f) == self.tally(l, |x: int| self.tally(m, |y: int| g(x, y))),
    {
        self.lemma_tally_stack(l, m, n, f);
        let p = |x: int| self.tally(m, |y: int| self.tally(n, |z: int| f(at3(x, m, y, n, z))));
        let q = |x: int| self.tally(m, |y: int| g(x, y));
        assert forall|x: int| 0 <= x < l implies #[trigger] p(x) == q(x) by {
            let rows = |y: int| self.tally(n, |z: int| f(at3(x, m, y, n, z)));
            let want = |y: int| g(x, y);
            assert forall|y: int| 0 <= y < m implies #[trigger] rows(y) == want(y) by {
                let one = |z: int| f(at3(x, m, y, n, z));
                assert forall|z: int| 0 <= z < n && z != z0 implies #[trigger] one(z)
                    == self.zero by {
                    assert(f(at3(x, m, y, n, z)) == self.zero);
                }
                self.lemma_tally_one(n, one, z0);
                assert(f(at3(x, m, y, n, z0)) == g(x, y));
            }
            self.lemma_tally_same(m, rows, want);
        }
        self.lemma_tally_same(l, p, q);
    }
}

/// The coordinates of an entry of a stack of matrices.
proof fn lemma_entry_coords(to: Seq<usize>, m: usize, n: usize, x: int, y: int, z: int)
    requires
        0 <= x < numel(to),
        0 <= y < m,
        0 <= z < n,
    ensures
        ({
            let s = to + seq![m, n];
            let e = coords(to, x as nat) + seq![y as nat, z as nat];
            let i = at3(x, m as int, y, n as int, z);
            &&& in_range(s, e)
            &&& 0 <= i < numel(s)
            &&& position(s, e) == i
            &&& coords(s, i as nat) == e
        }),
{
    let s = to + seq![m, n];
    let h = coords(to, x as nat);
    let e = h + seq![y as nat, z as nat];
    lemma_position_of_coords(to, x as nat);
    assert(in_range(s, e)) by {
        assert forall|i: int| 0 <= i < s.len() implies e[i] < #[trigger] s[i] by {
            if i < to.len() {
                assert(h[i] < to[i]);
            }
        }
    }
    lemma_in_stack(s, e);
    assert(lead(s) =~= to);
    assert(head(e) =~= h);
    lemma_position_bound(s, e);
    lemma_coords_of_position(s, e);
}

/// A shape without an empty axis that has as many elements as one that it
/// expands to is that one.
proof fn lemma_full(s: Seq<usize>, to: Seq<usize>)
    requires
        expands_to(s, to),
        forall|i: int| 0 <= i < to.len() ==> #[trigger] to[i] >= 1,
    ensures
        numel(s) <= numel(to),
        numel(s) == numel(to) ==> s == to,
    decreases s.len(),
{
    if s.len() > 0 {
        let (s1, t1) = (s.drop_first(), to.drop_first());
        assert(expands_to(s1, t1)) by {
            assert forall|i: int| 0 <= i < s1.len() implies #[trigger] s1[i] == t1[i] || s1[i]
                == 1 by {
                assert(s[i + 1] == to[i + 1] || s[i + 1] == 1);
            }
        }
        assert forall|i: int| 0 <= i < t1.len() implies #[trigger] t1[i] >= 1 by {
            assert(to[i + 1] >= 1);
        }
        lemma_full(s1, t1);
        lemma_positive(t1);
        let (a, b, p, q) = (s[0] as int, to[0] as int, numel(s1) as int, numel(t1) as int);
        assert(s[0] == to[0] || s[0] == 1);
        assert(to[0] >= 1);
        assert(a * p <= b * q) by (nonlinear_arith)
            requires
                0 <= a <= b,
                0 <= p <= q,
        ;
        if numel(s) == numel(to) {
            assert(a == b && p == q) by (nonlinear_arith)
                requires
                    a * p == b * q,
                    1 <= a <= b || (a == b),
                    0 <= p <= q,
                    1 <= b,
                    1 <= q,
                    a >= 0,
            ;
            assert(s =~= to) by {
                assert forall|i: int| 0 <= i < s.len() implies s[i] == to[i] by {
                    if i > 0 {
                        assert(s1[i - 1] == t1[i - 1]);
                    }
                }
            }
        }
    } else {
        assert(s =~= to);
    }
}

/// The leading axes of the products that a product's gradients are made of.
proof fn lemma_back_leads(g: Seq<usize>, s: Seq<usize>)
    requires
        g.len() >= 2,
        s.len() == g.len(),
        expands_to(lead(s), lead(g)),
        forall|i: int| 0 <= i < g.len() ==> #[trigger] g[i] >= 1,
    ensures
        wide_lead(g, s) == lead(g),
        wide_lead(s, g) == lead(g),
        !must_expand(g, s) ==> lead(s) == lead(g) || stack(s) == 1,
        !must_expand(s, g) ==> lead(s) == lead(g) || stack(s) == 1,
{
    let (p, q) = (lead(g), lead(s));
    assert forall|i: int| 0 <= i < p.len() implies #[trigger] p[i] >= 1 by {
        assert(g[i] >= 1);
    }
    lemma_full(q, p);
    assert forall|i: int| 0 <= i < p.len() implies s[i] == g[i] || s[i] == 1 by {
        assert(q[i] == p[i] || q[i] == 1);
    }
    assert forall|i: int| 0 <= i < p.len() implies wide_lead(g, s)[i] == p[i] && wide_lead(s, g)[i]
        == p[i] by {
        assert(g[i] >= 1);
        assert(q[i] == p[i] || q[i] == 1);
    }
    assert(wide_lead(g, s) =~= p);
    assert(wide_lead(s, g) =~= p);
    if p.len() == 0 {
        assert(q =~= p);
    }
}

impl<
    T: Copy,
    A: Fn(T, T) -> T,
    M: Fn(T, T) -> T,
    S: Fn(T, T) -> T,
    E: Fn(T) -> T,
    N: Fn(T) -> T,
    I: Fn(T) -> T,
    L: Fn(T) -> T,
    G: Fn(T, T) -> bool,
    P: Fn(T, T) -> T,
    R: Fn(T) -> T,
    D: Fn(T) -> T,
> Machine<T, A, M, S, E, N, I, L, G, P, R, D> {
    /// What element `i` of a product's gradient hands the left factor at `c`:
    /// where the element reads that row and matrix, its gradient times the
    /// right factor's element that it is multiplied with.
    pub open spec fn left_share(
        self,
        world: World<T>,
        g: Val,
        a: Seq<usize>,
        b: Val,
        c: Seq<nat>,
        i: int,
    ) -> T {
        let e = coords(g.dims, i as nat);
        let l = c[c.len() - 1];
        if left_of(a, e, l) == c {
            self.arith.prod(
                self.nums(world, g)[i],
                self.at(world, b, right_of(b.dims, e, l)),
            )
        } else {
            self.arith.zero
        }
    }

    /// What element `i` of a product's gradient hands the right factor at `c`.
    pub open spec fn right_share(
        self,
        world: World<T>,
        g: Val,
        a: Val,
        b: Seq<usize>,
        c: Seq<nat>,
        i: int,
    ) -> T {
        let e = coords(g.dims, i as nat);
        let l = c[c.len() - 2];
        if right_of(b, e, l) == c {
            self.arith.prod(
                self.at(world, a, left_of(a.dims, e, l)),
                self.nums(world, g)[i],
            )
        } else {
            self.arith.zero
        }
    }

    /// What the gradient of the left factor holds.
    #[verifier::rlimit(80)]
    #[verifier::spinoff_prover]
    proof fn lemma_left_grad(self, world: World<T>, g: Val, a: Val, b: Val, c: Seq<nat>)
        requires
            self.product_back(world, g, a, b),
            in_range(a.dims, c),
        ensures
            ({
                &&& left_grad(g, a, b) matches Ok(y)
                &&& y.dims == a.dims
                &&& self.filled(world, y)
                &&& self.at(world, y, c) == self.arith.tally(
                    g.count() as int,
                    |i: int| self.left_share(world, g, a.dims, b, c, i),
                )
            }),
    {
        let r = a.dims.len() as int;
        let pad = (r - b.dims.len()) as nat;
        let pb = padded(b.dims, pad);
        lemma_padded(b.dims, pad);
        lemma_back_shapes(g, a, b);
        let to = lead(g.dims);
        let (m, k, n) = (a.dims[r - 2], a.dims[r - 1], g.dims[r - 1]);
        let wide = Val { term: b.term, dims: pb };
        let (u, v) = ((r - 2) as usize, (r - 1) as usize);
        self.law_transposition_exchanges_coordinates(world, "transpose_inner", wide, u, v);
        self.lemma_transposed_if_ok(world, wide, u, v);
        let bt = transposed_val("transpose_inner", wide, u, v)->Ok_0;
        assert(lead(bt.dims) =~= lead(pb));
        lemma_back_leads(g.dims, bt.dims);
        let expand = must_expand(g.dims, bt.dims);
        let dims = to + seq![m, k];
        assert(g.dims =~= to + seq![m, n]);
        assert(expands_to(to, to));
        lemma_triple(to, m, n);
        lemma_triple(to, m, k);
        lemma_triple(to, k, n);
        lemma_triple(to, n, k);
        let ga = matmul_inner_val(g, bt)->Ok_0;
        assert forall|e: Seq<nat>| in_range(dims, e) implies #[trigger] self.at(world, ga, e)
            == self.arith.tally(
            n as int,
            |j: int|
                self.arith.prod(
                    self.at(world, g, left_of(g.dims, e, j as nat)),
                    self.at(world, bt, right_of(bt.dims, e, j as nat)),
                ),
        ) by {
            self.lemma_stacked(world, g, bt, to, expand, e);
        }
        let some = coords(dims, 0);
        lemma_positive(dims);
        lemma_position_of_coords(dims, 0);
        self.lemma_stacked(world, g, bt, to, expand, some);
        assert(ga.dims == dims);
        lemma_repeats(a.dims, dims, to);
        self.law_summing_back_gathers_what_was_repeated(world, ga, a.dims);
        let y = left_grad(g, a, b)->Ok_0;
        assert(self.at(world, y, c) == self.gathered(world, ga, a.dims, c));
        // both sums, matrix by matrix
        let (y0, z0) = (c[r - 2] as int, c[r - 1] as int);
        assert(c[r - 2] < a.dims[r - 2] && c[r - 1] < a.dims[r - 1]);
        let l = numel(to) as int;
        let hit = |x: int| under(lead(a.dims), coords(to, x as nat)) == head(c);
        let ps = |i: int|
            if under(a.dims, coords(ga.dims, i as nat)) == c {
                self.nums(world, ga)[i]
            } else {
                self.arith.zero
            };
        let gx = |x: int|
            if hit(x) {
                self.nums(world, ga)[at3(x, m as int, y0, k as int, z0)]
            } else {
                self.arith.zero
            };
        assert forall|x: int, y: int, z: int|
            0 <= x < l && 0 <= y < m && 0 <= z < k implies ps(
            #[trigger] at3(x, m as int, y, k as int, z),
        ) == (if y == y0 && z == z0 {
            gx(x)
        } else {
            self.arith.zero
        }) by {
            lemma_entry_coords(to, m, k, x, y, z);
            lemma_under_pair(a.dims, coords(to, x as nat), y as nat, z as nat, c);
        }
        self.arith.lemma_tally_entry(l, m as int, k as int, ps, gx, y0, z0);
        let qs = |i: int| self.left_share(world, g, a.dims, b, c, i);
        let fx = |x: int, z: int|
            if hit(x) {
                let e = coords(to, x as nat) + seq![y0 as nat, z as nat];
                self.arith.prod(
                    self.nums(world, g)[at3(x, m as int, y0, n as int, z)],
                    self.at(world, b, right_of(b.dims, e, z0 as nat)),
                )
            } else {
                self.arith.zero
            };
        assert forall|x: int, y: int, z: int|
            0 <= x < l && 0 <= y < m && 0 <= z < n implies qs(
            #[trigger] at3(x, m as int, y, n as int, z),
        ) == (if y == y0 {
            fx(x, z)
        } else {
            self.arith.zero
        }) by {
            lemma_entry_coords(to, m, n, x, y, z);
            lemma_left_pair(a.dims, coords(to, x as nat), y as nat, z as nat, z0 as nat, c);
        }
        self.arith.lemma_tally_row(l, m as int, n as int, qs, fx, y0);
        let rows = |x: int| self.arith.tally(n as int, |z: int| fx(x, z));
        assert forall|x: int| 0 <= x < l implies #[trigger] gx(x) == rows(x) by {
            let h = coords(to, x as nat);
            let fs = |z: int| fx(x, z);
            if hit(x) {
                let e = h + seq![y0 as nat, z0 as nat];
                lemma_entry_coords(to, m, k, x, y0, z0);
                assert(self.at(world, ga, e) == self.nums(world, ga)[at3(
                    x,
                    m as int,
                    y0,
                    k as int,
                    z0,
                )]);
                let ts = |j: int|
                    self.arith.prod(
                        self.at(world, g, left_of(g.dims, e, j as nat)),
                        self.at(world, bt, right_of(bt.dims, e, j as nat)),
                    );
                assert forall|j: int| 0 <= j < n implies #[trigger] ts(j) == fs(j) by {
                    lemma_entry_coords(to, m, n, x, y0, j);
                    self.lemma_left_terms(world, g, b, pad, bt, h, y0 as nat, z0 as nat, j as nat);
                }
                self.arith.lemma_tally_same(n as int, ts, fs);
            } else {
                self.arith.lemma_tally_nothing(n as int, fs);
            }
        }
        self.arith.lemma_tally_same(l, gx, rows);
    }

    /// What transposing the last two axes leaves.
    proof fn lemma_transposed_if_ok(self, world: World<T>, v: Val, a: usize, b: usize)
        requires
            self.filled(world, v),
            transposed_val("transpose_inner", v, a, b) is Ok,
        ensures
            ({
                let y = transposed_val("transpose_inner", v, a, b)->Ok_0;
                &&& y.dims == swapped(v.dims, a as int, b as int)
                &&& y.count() == v.count()
                &&& self.filled(world, y)
                &&& span(y.dims) == span(v.dims)
                &&& forall|c: Seq<nat>|
                    in_range(y.dims, c) ==> #[trigger] self.at(world, y, c) == self.at(
                        world,
                        v,
                        swapped(c, a as int, b as int),
                    )
            }),
    {
        self.lemma_transposed(world, "transpose_inner", v, a, b);
        crate::shape::lemma_numel_swapped(v.dims, a as int, b as int);
    }

    /// The terms that make an element of the left factor's gradient.
    proof fn lemma_left_terms(
        self,
        world: World<T>,
        g: Val,
        b: Val,
        pad: nat,
        bt: Val,
        h: Seq<nat>,
        y: nat,
        l: nat,
        j: nat,
    )
        requires
            g.dims.len() >= 2,
            padded(b.dims, pad).len() == g.dims.len(),
            in_range(lead(g.dims), h),
            expands_to(lead(padded(b.dims, pad)), lead(g.dims)),
            l < padded(b.dims, pad)[g.dims.len() - 2],
            j < padded(b.dims, pad)[g.dims.len() - 1],
            bt.dims == swapped(padded(b.dims, pad), g.dims.len() - 2, g.dims.len() - 1),
            forall|c: Seq<nat>|
                in_range(bt.dims, c) ==> #[trigger] self.at(world, bt, c) == self.at(
                    world,
                    Val { term: b.term, dims: padded(b.dims, pad) },
                    swapped(c, g.dims.len() - 2, g.dims.len() - 1),
                ),
        ensures
            left_of(g.dims, h + seq![y, l], j) == h + seq![y, j],
            self.at(world, bt, right_of(bt.dims, h + seq![y, l], j)) == self.at(
                world,
                b,
                right_of(b.dims, h + seq![y, j], l),
            ),
    {
        let r = g.dims.len() as int;
        let pb = padded(b.dims, pad);
        let (e, f) = (h + seq![y, l], h + seq![y, j]);
        assert(left_of(g.dims, e, j) =~= f) by {
            assert forall|q: int| 0 <= q < r - 2 implies left_of(g.dims, e, j)[q] == f[q] by {
                assert(h[q] < lead(g.dims)[q]);
            }
        }
        let c = right_of(bt.dims, e, j);
        let d = right_of(pb, f, l);
        assert(in_range(pb, d)) by {
            assert forall|q: int| 0 <= q < r implies d[q] < #[trigger] pb[q] by {
                if q < r - 2 {
                    assert(h[q] < lead(g.dims)[q]);
                    assert(lead(pb)[q] == lead(g.dims)[q] || lead(pb)[q] == 1);
                }
            }
        }
        assert(in_range(bt.dims, c)) by {
            assert forall|q: int| 0 <= q < r implies c[q] < #[trigger] bt.dims[q] by {
                if q < r - 2 {
                    assert(d[q] < pb[q]);
                }
            }
        }
        assert(swapped(c, r - 2, r - 1) =~= d);
        lemma_padded_position(b.dims, pad, d);
        assert(d.subrange(pad as int, d.len() as int) =~= right_of(b.dims, f, l)) by {
            assert forall|q: int| 0 <= q < b.dims.len() implies d[q + pad] == right_of(
                b.dims,
                f,
                l,
            )[q] by {
                assert(pb[q + pad] == b.dims[q]);
            }
        }
    }

    /// What the gradient of the right factor holds.
    #[verifier::rlimit(80)]
    #[verifier::spinoff_prover]
    proof fn lemma_right_grad(self, world: World<T>, g: Val, a: Val, b: Val, c: Seq<nat>)
        requires
            self.product_back(world, g, a, b),
            b.dims.len() >= 2,
            in_range(b.dims, c),
        ensures
            ({
                &&& right_grad(g, a, b) matches Ok(y)
                &&& y.dims == b.dims
                &&& self.filled(world, y)
                &&& self.at(world, y, c) == self.arith.tally(
                    g.count() as int,
                    |i: int| self.right_share(world, g, a, b.dims, c, i),
                )
            }),
    {
        let r = a.dims.len() as int;
        let rb = b.dims.len() as int;
        let pad = (r - rb) as nat;
        let pb = padded(b.dims, pad);
        lemma_padded(b.dims, pad);
        lemma_back_shapes(g, a, b);
        let to = lead(g.dims);
        let (m, k, n) = (a.dims[r - 2], a.dims[r - 1], g.dims[r - 1]);
        let (u, v) = ((r - 2) as usize, (r - 1) as usize);
        self.law_transposition_exchanges_coordinates(world, "transpose_inner", a, u, v);
        self.lemma_transposed_if_ok(world, a, u, v);
        let ta = transposed_val("transpose_inner", a, u, v)->Ok_0;
        assert(lead(ta.dims) =~= lead(a.dims));
        lemma_back_leads(g.dims, ta.dims);
        let expand = must_expand(ta.dims, g.dims);
        let dims = to + seq![k, n];
        assert(g.dims =~= to + seq![m, n]);
        assert(expands_to(to, to));
        lemma_triple(to, m, n);
        lemma_triple(to, m, k);
        lemma_triple(to, k, n);
        lemma_triple(to, k, m);
        let gb = matmul_inner_val(ta, g)->Ok_0;
        assert forall|e: Seq<nat>| in_range(dims, e) implies #[trigger] self.at(world, gb, e)
            == self.arith.tally(
            m as int,
            |i: int|
                self.arith.prod(
                    self.at(world, ta, left_of(ta.dims, e, i as nat)),
                    self.at(world, g, right_of(g.dims, e, i as nat)),
                ),
        ) by {
            self.lemma_stacked(world, ta, g, to, expand, e);
        }
        let some = coords(dims, 0);
        lemma_positive(dims);
        lemma_position_of_coords(dims, 0);
        self.lemma_stacked(world, ta, g, to, expand, some);
        assert(gb.dims == dims);
        assert(pb[r - 2] == b.dims[rb - 2] && pb[r - 1] == b.dims[rb - 1]);
        lemma_repeats_padded(b.dims, pad, dims, to);
        self.law_summing_back_gathers_what_was_repeated(world, gb, b.dims);
        let y = right_grad(g, a, b)->Ok_0;
        assert(self.at(world, y, c) == self.gathered(world, gb, b.dims, c));
        let (y0, z0) = (c[rb - 2] as int, c[rb - 1] as int);
        assert(c[rb - 2] < b.dims[rb - 2] && c[rb - 1] < b.dims[rb - 1]);
        let l = numel(to) as int;
        let hit = |x: int| under(lead(b.dims), coords(to, x as nat)) == head(c);
        let ps = |i: int|
            if under(b.dims, coords(gb.dims, i as nat)) == c {
                self.nums(world, gb)[i]
            } else {
                self.arith.zero
            };
        let gx = |x: int|
            if hit(x) {
                self.nums(world, gb)[at3(x, k as int, y0, n as int, z0)]
            } else {
                self.arith.zero
            };
        assert forall|x: int, y: int, z: int|
            0 <= x < l && 0 <= y < k && 0 <= z < n implies ps(
            #[trigger] at3(x, k as int, y, n as int, z),
        ) == (if y == y0 && z == z0 {
            gx(x)
        } else {
            self.arith.zero
        }) by {
            lemma_entry_coords(to, k, n, x, y, z);
            lemma_under_pair(b.dims, coords(to, x as nat), y as nat, z as nat, c);
        }
        self.arith.lemma_tally_entry(l, k as int, n as int, ps, gx, y0, z0);
        let qs = |i: int| self.right_share(world, g, a, b.dims, c, i);
        let fx = |x: int, i: int|
            if hit(x) {
                let e = coords(to, x as nat) + seq![i as nat, z0 as nat];
                self.arith.prod(
                    self.at(world, a, left_of(a.dims, e, y0 as nat)),
                    self.nums(world, g)[at3(x, m as int, i, n as int, z0)],
                )
            } else {
                self.arith.zero
            };
        assert forall|x: int, y: int, z: int|
            0 <= x < l && 0 <= y < m && 0 <= z < n implies qs(
            #[trigger] at3(x, m as int, y, n as int, z),
        ) == (if z == z0 {
            fx(x, y)
        } else {
            self.arith.zero
        }) by {
            lemma_entry_coords(to, m, n, x, y, z);
            lemma_right_pair(b.dims, coords(to, x as nat), y as nat, z as nat, y0 as nat, c);
        }
        self.arith.lemma_tally_column(l, m as int, n as int, qs, fx, z0);
        let rows = |x: int| self.arith.tally(m as int, |i: int| fx(x, i));
        assert forall|x: int| 0 <= x < l implies #[trigger] gx(x) == rows(x) by {
            let h = coords(to, x as nat);
            let fs = |i: int| fx(x, i);
            if hit(x) {
                let e = h + seq![y0 as nat, z0 as nat];
                lemma_entry_coords(to, k, n, x, y0, z0);
                assert(self.at(world, gb, e) == self.nums(world, gb)[at3(
                    x,
                    k as int,
                    y0,
                    n as int,
                    z0,
                )]);
                let ts = |i: int|
                    self.arith.prod(
                        self.at(world, ta, left_of(ta.dims, e, i as nat)),
                        self.at(world, g, right_of(g.dims, e, i as nat)),
                    );
                assert forall|i: int| 0 <= i < m implies #[trigger] ts(i) == fs(i) by {
                    lemma_entry_coords(to, m, n, x, i, z0);
                    self.lemma_right_terms(world, g, a, ta, h, y0 as nat, z0 as nat, i as nat);
                }
                self.arith.lemma_tally_same(m as int, ts, fs);
            } else {
                self.arith.lemma_tally_nothing(m as int, fs);
            }
        }
        self.arith.lemma_tally_same(l, gx, rows);
    }

    /// The terms that make an element of the right factor's gradient.
    proof fn lemma_right_terms(
        self,
        world: World<T>,
        g: Val,
        a: Val,
        ta: Val,
        h: Seq<nat>,
        l: nat,
        j: nat,
        i: nat,
    )
        requires
            g.dims.len() >= 2,
            a.dims.len() == g.dims.len(),
            in_range(lead(g.dims), h),
            expands_to(lead(a.dims), lead(g.dims)),
            i < a.dims[g.dims.len() - 2],
            l < a.dims[g.dims.len() - 1],
            ta.dims == swapped(a.dims, g.dims.len() - 2, g.dims.len() - 1),
            forall|c: Seq<nat>|
                in_range(ta.dims, c) ==> #[trigger] self.at(world, ta, c) == self.at(
                    world,
                    a,
                    swapped(c, g.dims.len() - 2, g.dims.len() - 1),
                ),
        ensures
            right_of(g.dims, h + seq![l, j], i) == h + seq![i, j],
            self.at(world, ta, left_of(ta.dims, h + seq![l, j], i)) == self.at(
                world,
                a,
                left_of(a.dims, h + seq![i, j], l),
            ),
    {
        let r = g.dims.len() as int;
        let (e, f) = (h + seq![l, j], h + seq![i, j]);
        assert(right_of(g.dims, e, i) =~= f) by {
            assert forall|q: int| 0 <= q < r - 2 implies right_of(g.dims, e, i)[q] == f[q] by {
                assert(h[q] < lead(g.dims)[q]);
            }
        }
        let c = left_of(ta.dims, e, i);
        let d = left_of(a.dims, f, l);
        assert(in_range(ta.dims, c)) by {
            assert forall|q: int| 0 <= q < r implies c[q] < #[trigger] ta.dims[q] by {
                if q < r - 2 {
                    assert(h[q] < lead(g.dims)[q]);
                    assert(lead(a.dims)[q] == lead(g.dims)[q] || lead(a.dims)[q] == 1);
                }
            }
        }
        assert(swapped(c, r - 2, r - 1) =~= d);
    }

    /// Whether `g` is a gradient of the product of `a` and `b`, and the products
    /// that it takes to pass it on can be held and indexed.
    pub open spec fn product_back(self, world: World<T>, g: Val, a: Val, b: Val) -> bool {
        let r = a.dims.len() as int;
        let (m, k, n) = (facing(a.dims, 1), facing(a.dims, 0), facing(b.dims, 0));
        let to = lead(g.dims);
        &&& self.arith.exact()
        &&& self.filled(world, g)
        &&& self.filled(world, a)
        &&& self.filled(world, b)
        &&& matmul_fits(a.dims, b.dims, g.dims)
        &&& r <= MAX_RANK
        &&& regular(g.dims)
        &&& regular(a.dims)
        &&& regular(b.dims)
        &&& regular(to + seq![m, k])
        &&& regular(to + seq![k, n])
        &&& m <= i32::MAX
        &&& k <= i32::MAX
        &&& n <= i32::MAX
    }

    /// The gradients of a product of matrices. The left factor is handed, at
    /// every place, the sum over all elements of the product that read it of
    /// their gradient times the right factor's element that it is multiplied
    /// with there; and the right factor the same with the factors exchanged.
    pub proof fn law_matmul_gradients_weigh_by_the_other_factor(
        self,
        world: World<T>,
        op: TapeOp,
        g: Val,
        c: Seq<nat>,
        d: Seq<nat>,
    )
        requires
            op is MatMul,
            self.product_back(world, g, saved(op->MatMul_a_val), saved(op->MatMul_b_val)),
            op->MatMul_b_val.dims().len() >= 2,
            in_range(op->MatMul_a_val.dims(), c),
            in_range(op->MatMul_b_val.dims(), d),
        ensures
            ({
                let (a, b) = (saved(op->MatMul_a_val), saved(op->MatMul_b_val));
                &&& part(op, 0, g) matches Ok(x)
                &&& part(op, 1, g) matches Ok(y)
                &&& x.dims == a.dims && self.filled(world, x)
                &&& y.dims == b.dims && self.filled(world, y)
                &&& self.at(world, x, c) == self.arith.tally(
                    g.count() as int,
                    |i: int| self.left_share(world, g, a.dims, b, c, i),
                )
                &&& self.at(world, y, d) == self.arith.tally(
                    g.count() as int,
                    |i: int| self.right_share(world, g, a, b.dims, d, i),
                )
            }),
    {
        let (a, b) = (saved(op->MatMul_a_val), saved(op->MatMul_b_val));
        self.lemma_left_grad(world, g, a, b, c);
        self.lemma_right_grad(world, g, a, b, d);
    }
}

/// The counts of a stack of matrices.
proof fn lemma_triple(to: Seq<usize>, m: usize, n: usize)
    ensures
        numel(to + seq![m, n]) == numel(to) * m * n,
        span(to + seq![m, n]) == span(to) * span(seq![m, n]),
        lead(to + seq![m, n]) == to,
        numel(to) <= usize::MAX ==> numel(seq![numel(to) as usize, m, n]) == numel(to) * m * n,
{
    lemma_numel_concat(to, seq![m, n]);
    crate::shape::lemma_low_rank(seq![m, n]);
    crate::shape::lemma_low_rank(seq![numel(to) as usize, m, n]);
    let (l, p, q) = (numel(to) as int, m as int, n as int);
    assert(l * (p * q) == l * p * q) by (nonlinear_arith);
    assert(lead(to + seq![m, n]) =~= to);
}

/// The shapes that passing a product's gradient on goes through.
proof fn lemma_back_shapes(g: Val, a: Val, b: Val)
    requires
        matmul_fits(a.dims, b.dims, g.dims),
        regular(g.dims),
        regular(a.dims),
        regular(b.dims),
        regular(lead(g.dims) + seq![facing(a.dims, 1), facing(a.dims, 0)]),
        regular(lead(g.dims) + seq![facing(a.dims, 0), facing(b.dims, 0)]),
    ensures
        ({
            let r = a.dims.len() as int;
            let pb = padded(b.dims, (r - b.dims.len()) as nat);
            let to = lead(g.dims);
            let (m, k, n) = (facing(a.dims, 1), facing(a.dims, 0), facing(b.dims, 0));
            &&& g.dims.len() == r && r >= 2
            &&& pb.len() == r
            &&& m == a.dims[r - 2] && k == a.dims[r - 1] && n == pb[r - 1] && k == pb[r - 2]
            &&& g.dims == to + seq![m, n]
            &&& expands_to(lead(a.dims), to)
            &&& expands_to(lead(pb), to)
            &&& regular(pb)
            &&& span(g.dims) <= u32::MAX && span(a.dims) <= u32::MAX && span(pb) <= u32::MAX
            &&& span(to + seq![m, k]) <= u32::MAX
            &&& span(to + seq![k, n]) <= u32::MAX
            &&& numel(to) <= u32::MAX
            &&& span(seq![numel(to) as usize, m, n]) <= usize::MAX
            &&& span(seq![numel(to) as usize, m, k]) <= usize::MAX
            &&& span(seq![numel(to) as usize, k, m]) <= usize::MAX
            &&& span(seq![numel(to) as usize, k, n]) <= usize::MAX
            &&& span(seq![numel(to) as usize, n, k]) <= usize::MAX
        }),
{
    let r = a.dims.len() as int;
    let pad = (r - b.dims.len()) as nat;
    let pb = padded(b.dims, pad);
    lemma_padded(b.dims, pad);
    let (la, lb) = (lead(a.dims), lead(pb));
    crate::broadcast::law_operands_expand_to_joint_shape(la, lb);
    assert(padded(la, 0) =~= la);
    assert(padded(lb, 0) =~= lb);
    let to = lead(g.dims);
    assert(to =~= crate::broadcast::joint_dims(la, lb));
    let (m, k, n) = (a.dims[r - 2], a.dims[r - 1], pb[r - 1]);
    assert(g.dims =~= to + seq![m, n]);
    assert(pb[r - 1] == facing(b.dims, 0));
    assert(pb[r - 2] == facing(b.dims, 1));
    assert(regular(pb)) by {
        assert forall|i: int| 0 <= i < pb.len() implies #[trigger] pb[i] >= 1 by {
            if i >= pad {
                assert(b.dims[i - pad] >= 1);
            }
        }
    }
    lemma_positive(g.dims);
    lemma_positive(a.dims);
    lemma_positive(pb);
    lemma_positive(to + seq![m, k]);
    lemma_positive(to + seq![k, n]);
    lemma_triple(to, m, n);
    lemma_triple(to, m, k);
    lemma_triple(to, k, n);
    lemma_triple(to, n, k);
    lemma_triple(to, k, m);
    assert(a.dims[r - 2] >= 1 && a.dims[r - 1] >= 1 && pb[r - 1] >= 1);
    let (l, p, q, s) = (numel(to) as int, m as int, k as int, n as int);
    assert(l <= l * p * s) by (nonlinear_arith)
        requires
            l >= 0,
            p >= 1,
            s >= 1,
    ;
    assert(l * p * q == l * q * p && l * q * s == l * s * q) by (nonlinear_arith);
    assert(numel(to) >= 1) by {
        assert forall|i: int| 0 <= i < to.len() implies #[trigger] to[i] >= 1 by {
            assert(g.dims[i] >= 1);
        }
        lemma_positive(to);
    }
    lemma_positive(seq![l as usize, m, n]);
    lemma_positive(seq![l as usize, m, k]);
    lemma_positive(seq![l as usize, k, m]);
    lemma_positive(seq![l as usize, k, n]);
    lemma_positive(seq![l as usize, n, k]);
}

/// A stack of matrices was broadcast to one with wider leading axes.
proof fn lemma_repeats(s: Seq<usize>, dims: Seq<usize>, to: Seq<usize>)
    requires
        s.len() >= 2,
        dims == to + seq![s[s.len() - 2], s[s.len() - 1]],
        expands_to(lead(s), to),
    ensures
        s.len() == dims.len(),
        forall|k: int|
            0 <= k < s.len() ==> #[trigger] facing(s, k) == facing(dims, k) || facing(s, k) == 1,
{
    assert forall|k: int| 0 <= k < s.len() implies #[trigger] facing(s, k) == facing(dims, k)
        || facing(s, k) == 1 by {
        let i = s.len() - 1 - k;
        if i < s.len() - 2 {
            assert(lead(s)[i] == to[i] || lead(s)[i] == 1);
        }
    }
}

/// So was one with fewer axes.
proof fn lemma_repeats_padded(s: Seq<usize>, pad: nat, dims: Seq<usize>, to: Seq<usize>)
    requires
        s.len() >= 2,
        dims == to + seq![s[s.len() - 2], s[s.len() - 1]],
        expands_to(lead(padded(s, pad)), to),
    ensures
        s.len() <= dims.len(),
        forall|k: int|
            0 <= k < s.len() ==> #[trigger] facing(s, k) == facing(dims, k) || facing(s, k) == 1,
{
    let p = padded(s, pad);
    lemma_padded(s, pad);
    assert forall|k: int| 0 <= k < s.len() implies #[trigger] facing(s, k) == facing(dims, k)
        || facing(s, k) == 1 by {
        let i = p.len() - 1 - k;
        assert(p[i] == s[i - pad]);
        if i < p.len() - 2 {
            assert(lead(p)[i] == to[i] || lead(p)[i] == 1);
        }
    }
}

/// What broadcasting reads in a stack of matrices.
proof fn lemma_under_pair(s: Seq<usize>, h: Seq<nat>, y: nat, z: nat, c: Seq<nat>)
    requires
        2 <= s.len() <= h.len() + 2,
        c.len() == s.len(),
        y < s[s.len() - 2],
        z < s[s.len() - 1],
    ensures
        under(s, h + seq![y, z]) == c <==> under(lead(s), h) == head(c) && y == c[s.len() - 2]
            && z == c[s.len() - 1],
{
    let e = h + seq![y, z];
    let u = under(lead(s), h);
    assert(under(s, e) =~= u + seq![y, z]) by {
        assert forall|i: int| 0 <= i < s.len() implies under(s, e)[i] == (u + seq![y, z])[i] by {
            if i < s.len() - 2 {
                assert(lead(s)[i] == s[i]);
            }
        }
    }
    if under(s, e) == c {
        assert(head(c) =~= u);
    }
    if u == head(c) && y == c[s.len() - 2] && z == c[s.len() - 1] {
        assert(u + seq![y, z] =~= c);
    }
}

/// What the left factor is read at.
proof fn lemma_left_pair(s: Seq<usize>, h: Seq<nat>, y: nat, z: nat, l: nat, c: Seq<nat>)
    requires
        2 <= s.len() <= h.len() + 2,
        c.len() == s.len(),
        l == c[s.len() - 1],
    ensures
        left_of(s, h + seq![y, z], l) == c <==> under(lead(s), h) == head(c) && y == c[s.len()
            - 2],
{
    let e = h + seq![y, z];
    let u = under(lead(s), h);
    assert(left_of(s, e, l) =~= u + seq![y, l]) by {
        assert forall|i: int| 0 <= i < s.len() implies left_of(s, e, l)[i] == (u + seq![y, l])[i] by {
            if i < s.len() - 2 {
                assert(lead(s)[i] == s[i]);
            }
        }
    }
    if left_of(s, e, l) == c {
        assert(head(c) =~= u);
    }
    if u == head(c) && y == c[s.len() - 2] {
        assert(u + seq![y, l] =~= c);
    }
}

/// What the right factor is read at.
proof fn lemma_right_pair(s: Seq<usize>, h: Seq<nat>, y: nat, z: nat, l: nat, c: Seq<nat>)
    requires
        2 <= s.len() <= h.len() + 2,
        c.len() == s.len(),
        l == c[s.len() - 2],
    ensures
        right_of(s, h + seq![y, z], l) == c <==> under(lead(s), h) == head(c) && z == c[s.len()
            - 1],
{
    let e = h + seq![y, z];
    let u = under(lead(s), h);
    assert(right_of(s, e, l) =~= u + seq![l, z]) by {
        assert forall|i: int| 0 <= i < s.len() implies right_of(s, e, l)[i] == (u + seq![l, z])[i] by {
            if i < s.len() - 2 {
                assert(lead(s)[i] == s[i]);
            }
        }
    }
    if right_of(s, e, l) == c {
        assert(head(c) =~= u);
    }
    if u == head(c) && z == c[s.len() - 1] {
        assert(u + seq![l, z] =~= c);
    }
}

} // verus!
