//! What the products of matrices leave, matrix by matrix and element by
//! element.

use crate::broadcast::{aligned, compatible, first_clash, law_operands_expand_to_joint_shape};
use crate::compound::{host_expands, matmul_countable, matmul_val, product_lead, right_padded};
use crate::device::{lemma_padded, padded};
use crate::gemm::{lemma_last_pair, row_major_config, stack, Batching, GemmConfig};
use crate::host::{at2, at3, lemma_at2, lemma_at3, read_at};
use crate::index::{lemma_at2_parts, lemma_parts_at2, lemma_row_bound};
use crate::matrix::{
    lead, matmul_inner_val, must_expand, product_val, repeated_val, stacked_val, wide_lead,
};
use crate::meaning::{product_parts, Datum, Machine, World};
use crate::places::{
    facing, joinable, joins, lemma_axis, lemma_joinable, lemma_low_positions,
    lemma_padded_position, lemma_under, lemma_under_self, under,
};
use crate::program::{HostTaskView, Term, Val};
use crate::shape::{
    coords, expands_to, in_range, lemma_low_rank, lemma_numel_concat, lemma_numel_le_span,
    lemma_position_bound, lemma_position_of_coords, lemma_span_run, numel, position, span, tail,
};
use vstd::prelude::*;

verus! {

/// Where the left factor is read for the element at `c` of a product: in row
/// `c[r - 2]` and column `l` of the matrix that broadcasting the leading axes
/// leads to.
pub open spec fn left_of(s: Seq<usize>, c: Seq<nat>, l: nat) -> Seq<nat> {
    Seq::new(
        s.len(),
        |q: int|
            if q == s.len() - 1 {
                l
            } else if q == s.len() - 2 {
                c[c.len() - 2]
            } else if s[q] == 1 {
                0nat
            } else {
                c[c.len() - s.len() + q]
            },
    )
}

/// Where the right factor is read for the element at `c` of a product: in row
/// `l` and column `c[r - 1]` of the matrix that broadcasting the leading axes
/// leads to.
pub open spec fn right_of(s: Seq<usize>, c: Seq<nat>, l: nat) -> Seq<nat> {
    Seq::new(
        s.len(),
        |q: int|
            if q == s.len() - 1 {
                c[c.len() - 1]
            } else if q == s.len() - 2 {
                l
            } else if s[q] == 1 {
                0nat
            } else {
                c[c.len() - s.len() + q]
            },
    )
}

/// The leading coordinates.
pub open spec fn head(c: Seq<nat>) -> Seq<nat> {
    c.subrange(0, c.len() - 2)
}

/// A position within a stack of matrices.
pub(crate) proof fn lemma_in_stack(s: Seq<usize>, c: Seq<nat>)
    requires
        s.len() >= 2,
        in_range(s, c),
    ensures
        ({
            let r = s.len() as int;
            &&& in_range(lead(s), head(c))
            &&& position(s, c) == at3(
                position(lead(s), head(c)) as int,
                s[r - 2] as int,
                c[r - 2] as int,
                s[r - 1] as int,
                c[r - 1] as int,
            )
        }),
{
    let r = s.len() as int;
    lemma_axis(s, c, r - 2);
    let t = tail(s, r - 1);
    lemma_low_rank(t);
    lemma_low_positions(t, c.subrange(r - 1, r));
}

/// A stack of one matrix has leading extents of one.
proof fn lemma_single(s: Seq<usize>)
    requires
        numel(s) == 1,
    ensures
        forall|i: int| 0 <= i < s.len() ==> #[trigger] s[i] == 1,
    decreases s.len(),
{
    if s.len() > 0 {
        let r = s.drop_first();
        let (d, m) = (s[0] as int, numel(r) as int);
        assert(d == 1 && m == 1) by (nonlinear_arith)
            requires
                d * m == 1,
                d >= 0,
                m >= 0,
        ;
        lemma_single(r);
        assert forall|i: int| 0 <= i < s.len() implies #[trigger] s[i] == 1 by {
            if i > 0 {
                assert(r[i - 1] == 1);
            }
        }
    }
}

/// Where a stack is read that is as wide as the product, or holds one matrix.
proof fn lemma_which(s: Seq<usize>, to: Seq<usize>, c: Seq<nat>)
    requires
        expands_to(s, to),
        in_range(to, c),
        s == to || numel(s) == 1,
    ensures
        position(s, under(s, c)) == (if numel(s) == 1 {
            0
        } else {
            position(to, c)
        }),
{
    assert(padded(s, 0) =~= s);
    lemma_under(s, 0, to, c);
    if numel(s) != 1 {
        lemma_under_self(to, c);
    }
}

impl<
    T: Copy,
    A: Fn(T, T) -> T,
    M: Fn(T, T) -> T,
    S: Fn(T, T) -> T,
    E: Fn(T) -> T,
    N: Fn(T) -> T,
    I: Fn(T) -> T,
    L: Fn(T) -> T,
    G: Fn(T, T) -> bool,
    P: Fn(T, T) -> T,
    R: Fn(T) -> T,
    D: Fn(T) -> T,
> Machine<T, A, M, S, E, N, I, L, G, P, R, D> {
    /// An element of a product is a sum of products.
    proof fn lemma_dot_tally(
        self,
        g: GemmConfig,
        a: Seq<T>,
        b: Seq<T>,
        from_a: int,
        from_b: int,
        i: int,
        j: int,
        n: int,
    )
        ensures
            self.dot(g, a, b, from_a, from_b, i, j, n) == self.arith.tally(
                n,
                |l: int|
                    self.arith.prod(a[from_a + g.left_at(i, l)], b[from_b + g.right_at(l, j)]),
            ),
        decreases n,
    {
        if n > 0 {
            self.lemma_dot_tally(g, a, b, from_a, from_b, i, j, n - 1);
        }
    }

    /// What one call of the matrix product leaves.
    proof fn lemma_product(
        self,
        world: World<T>,
        a: Val,
        b: Val,
        to: Seq<usize>,
        q: int,
        i: int,
        j: int,
    )
        requires
            self.arith.exact(),
            a.dims.len() >= 2,
            b.dims.len() == a.dims.len(),
            a.dims[a.dims.len() - 1] == b.dims[a.dims.len() - 2],
            a.dims[a.dims.len() - 2] <= i32::MAX,
            a.dims[a.dims.len() - 1] <= i32::MAX,
            b.dims[a.dims.len() - 1] <= i32::MAX,
            span(a.dims) <= usize::MAX,
            span(b.dims) <= usize::MAX,
            span(to + seq![a.dims[a.dims.len() - 2], b.dims[a.dims.len() - 1]]) <= usize::MAX,
            stack(a.dims) == stack(b.dims) || stack(a.dims) == 1 || stack(b.dims) == 1,
            a.dims.len() == 2 ==> to.len() == 0,
            0 <= q < numel(to),
            0 <= i < a.dims[a.dims.len() - 2],
            0 <= j < b.dims[a.dims.len() - 1],
        ensures
            ({
                let r = a.dims.len() as int;
                let (m, k, n) = (
                    a.dims[r - 2] as int,
                    a.dims[r - 1] as int,
                    b.dims[r - 1] as int,
                );
                let dims = to + seq![a.dims[r - 2], b.dims[r - 1]];
                let qa = if stack(a.dims) == 1 {
                    0
                } else {
                    q
                };
                let qb = if stack(b.dims) == 1 {
                    0
                } else {
                    q
                };
                &&& product_val(a, b, dims) matches Ok(y)
                &&& y.dims == dims
                &&& self.filled(world, y)
                &&& self.nums(world, y)[at3(q, m, i, n, j)] == self.arith.tally(
                    k,
                    |l: int|
                        self.arith.prod(
                            self.nums(world, a)[at3(qa, m, i, k, l)],
                            self.nums(world, b)[at3(qb, k, l, n, j)],
                        ),
                )
            }),
    {
        let r = a.dims.len() as int;
        let (m, k, n) = (a.dims[r - 2] as int, a.dims[r - 1] as int, b.dims[r - 1] as int);
        let dims = to + seq![a.dims[r - 2], b.dims[r - 1]];
        let (qa, qb) = (
            if stack(a.dims) == 1 {
                0
            } else {
                q
            },
            if stack(b.dims) == 1 {
                0
            } else {
                q
            },
        );
        lemma_last_pair(a.dims);
        lemma_last_pair(b.dims);
        lemma_last_pair(dims);
        lemma_span_run(a.dims, 0, r - 2);
        lemma_span_run(b.dims, 0, r - 2);
        lemma_numel_le_span(lead(a.dims));
        lemma_numel_le_span(lead(b.dims));
        assert(dims.subrange(0, dims.len() - 2) =~= to);
        assert(0 <= m * k <= i64::MAX && 0 <= k * n <= i64::MAX && 0 <= m * n <= i64::MAX)
            by (nonlinear_arith)
            requires
                0 <= m <= i32::MAX,
                0 <= k <= i32::MAX,
                0 <= n <= i32::MAX,
        ;
        let y = product_val(a, b, dims)->Ok_0;
        let x = at3(q, m, i, n, j);
        let g = row_major_config(a.dims[r - 2], a.dims[r - 1], b.dims[r - 1]);
        lemma_at2(i, n, j, m);
        lemma_at2_parts(i, n, j);
        lemma_at2_parts(q, m * n, at2(i, n, j));
        lemma_at2(q, m * n, at2(i, n, j), numel(to) as int);
        assert(x == at2(q, m * n, at2(i, n, j))) by (nonlinear_arith)
            requires
                x == (q * m + i) * n + j,
                at2(q, m * n, at2(i, n, j)) == q * (m * n) + (i * n + j),
        ;
        let (xa, xb) = (self.nums(world, a), self.nums(world, b));
        if let Term::Product { gemm, batching, a: ta, b: tb, onto } = y.term {
            let (fa, fb): (int, int) = match batching {
                None => (0, 0),
                Some(s) => (q * s.stride_a, q * s.stride_b),
            };
            if r == 2 {
                lemma_low_rank(to);
                lemma_low_rank(lead(a.dims));
                lemma_low_rank(lead(b.dims));
                assert(batching is None);
                assert(q == 0);
                assert(0 * m == 0);
            } else {
                assert(batching is Some);
                assert(batching->0.stride_c == m * n);
                assert(q * 0 == 0);
            }
            assert(product_parts(gemm, batching, x) == (q, j, i));
            assert(*ta == b.term && *tb == a.term);
            assert(*onto == Term::Zeros(numel(dims)));
            let blank = self.data(world, *onto).numbers();
            assert(blank.len() == numel(dims));
            assert(0 <= q * (m * n)) by (nonlinear_arith)
                requires
                    q >= 0,
                    m * n >= 0,
            ;
            assert(0 <= i * n) by (nonlinear_arith)
                requires
                    i >= 0,
                    n >= 0,
            ;
            assert(0 <= x < numel(dims));
            assert(self.nums(world, y) == self.product(gemm, batching, xb, xa, blank));
            assert(self.nums(world, y)[x] == self.dot(gemm, xb, xa, fa, fb, j, i, k));
            self.lemma_dot_tally(gemm, xb, xa, fa, fb, j, i, k);
            let f = |l: int|
                self.arith.prod(xb[fa + gemm.left_at(j, l)], xa[fb + gemm.right_at(l, i)]);
            let h = |l: int|
                self.arith.prod(xa[at3(qa, m, i, k, l)], xb[at3(qb, k, l, n, j)]);
            assert(fb == qa * (m * k)) by {
                assert(0 * (m * k) == 0);
            }
            assert(fa == qb * (k * n)) by {
                assert(0 * (k * n) == 0);
            }
            assert forall|l: int| 0 <= l < k implies #[trigger] f(l) == h(l) by {
                assert(qa * (m * k) + (i * k + l) == (qa * m + i) * k + l) by (nonlinear_arith);
                assert(qb * (k * n) + (l * n + j) == (qb * k + l) * n + j) by (nonlinear_arith);
                self.arith.lemma_exchange(xb[at3(qb, k, l, n, j)], xa[at3(qa, m, i, k, l)]);
            }
            self.arith.lemma_tally_same(k, f, h);
        }
    }

    /// What repeating the matrices of a stack on the host gives.
    proof fn lemma_repeated(self, world: World<T>, v: Val, to: Seq<usize>)
        requires
            v.dims.len() >= 2,
            span(v.dims) <= usize::MAX,
            numel(to) <= usize::MAX,
        ensures
            ({
                let y = repeated_val(v, to);
                let r = v.dims.len() as int;
                let slice = v.dims[r - 2] * v.dims[r - 1];
                &&& self.data(world, y.term) is Numbers
                &&& self.nums(world, y).len() == numel(to) * slice
                &&& forall|q: int, e: int|
                    0 <= q < numel(to) && 0 <= e < slice ==> self.nums(world, y)[#[trigger] at2(
                        q,
                        slice,
                        e,
                    )] == self.nums(world, v)[at2(
                        read_at(lead(v.dims), to, q as nat) as int,
                        slice,
                        e,
                    )]
            }),
    {
        let y = repeated_val(v, to);
        let r = v.dims.len() as int;
        lemma_last_pair(v.dims);
        let slice = v.dims[r - 2] * v.dims[r - 1];
        assert(slice >= 0) by (nonlinear_arith)
            requires
                slice == v.dims[r - 2] * v.dims[r - 1],
        ;
        let task = HostTaskView::ExpandBatch {
            lead: lead(v.dims),
            wide: to,
            slice: slice as usize,
        };
        let xs = self.nums(world, v);
        let ins = self.all_data(world, seq![v.term]);
        self.lemma_all_data(world, seq![v.term]);
        let ys = Seq::new(ins.len(), |k: int| ins[k].numbers());
        assert(ys[0] == xs);
        assert(numel(to) * slice >= 0) by (nonlinear_arith)
            requires
                slice >= 0,
        ;
        let made = Seq::new(
            (numel(to) * slice) as nat,
            |x: int| xs[at2(read_at(lead(v.dims), to, (x / slice) as nat) as int, slice, x % slice)],
        );
        assert(task.gives(
            ys,
            self.arith.zero,
            self.arith.plus,
            self.arith.minus,
            self.arith.times,
            made,
        )) by {
            assert forall|i: int, j: int|
                0 <= i < numel(to) && 0 <= j < slice implies made[#[trigger] at2(i, slice, j)]
                == ys[0][at2(read_at(lead(v.dims), to, i as nat) as int, slice, j)] by {
                lemma_at2(i, slice, j, numel(to) as int);
                lemma_at2_parts(i, slice, j);
                assert(0 <= i * slice) by (nonlinear_arith)
                    requires
                        i >= 0,
                        slice >= 0,
                ;
            }
        }
        let got = self.computed(task, ys);
        assert(self.data(world, y.term) == Datum::Numbers(got));
    }

    /// What a product of stacks leaves, where both are broadcast to `to`.
    #[verifier::rlimit(30)]
    pub(crate) proof fn lemma_stacked(
        self,
        world: World<T>,
        a: Val,
        b: Val,
        to: Seq<usize>,
        expand: bool,
        c: Seq<nat>,
    )
        requires
            self.arith.exact(),
            a.dims.len() >= 2,
            b.dims.len() == a.dims.len(),
            a.dims[a.dims.len() - 1] == b.dims[a.dims.len() - 2],
            a.dims[a.dims.len() - 2] <= i32::MAX,
            a.dims[a.dims.len() - 1] <= i32::MAX,
            b.dims[a.dims.len() - 1] <= i32::MAX,
            span(a.dims) <= usize::MAX,
            span(b.dims) <= usize::MAX,
            span(to + seq![a.dims[a.dims.len() - 2], b.dims[a.dims.len() - 1]]) <= usize::MAX,
            numel(to) <= usize::MAX,
            expand ==> span(
                seq![numel(to) as usize, a.dims[a.dims.len() - 2], a.dims[a.dims.len() - 1]],
            ) <= usize::MAX,
            expand ==> span(
                seq![numel(to) as usize, b.dims[a.dims.len() - 2], b.dims[a.dims.len() - 1]],
            ) <= usize::MAX,
            expands_to(lead(a.dims), to),
            expands_to(lead(b.dims), to),
            !expand ==> lead(a.dims) == to || stack(a.dims) == 1,
            !expand ==> lead(b.dims) == to || stack(b.dims) == 1,
            in_range(to + seq![a.dims[a.dims.len() - 2], b.dims[a.dims.len() - 1]], c),
        ensures
            ({
                let r = a.dims.len() as int;
                &&& stacked_val(a, b, to, expand) matches Ok(y)
                &&& y.dims == to + seq![a.dims[r - 2], b.dims[r - 1]]
                &&& self.filled(world, y)
                &&& self.at(world, y, c) == self.arith.tally(
                    a.dims[r - 1] as int,
                    |l: int|
                        self.arith.prod(
                            self.at(world, a, left_of(a.dims, c, l as nat)),
                            self.at(world, b, right_of(b.dims, c, l as nat)),
                        ),
                )
            }),
    {
        let r = a.dims.len() as int;
        let dims = to + seq![a.dims[r - 2], b.dims[r - 1]];
        let (m, k, n) = (a.dims[r - 2] as int, a.dims[r - 1] as int, b.dims[r - 1] as int);
        lemma_in_stack(dims, c);
        assert(lead(dims) =~= to);
        let hc = head(c);
        let q = position(to, hc) as int;
        lemma_position_bound(to, hc);
        let (i, j) = (c[r - 2] as int, c[r - 1] as int);
        assert(c[r - 2] < dims[r - 2] && c[r - 1] < dims[r - 1]);
        let (la, lb) = (lead(a.dims), lead(b.dims));
        assert(padded(la, 0) =~= la);
        assert(padded(lb, 0) =~= lb);
        lemma_under(la, 0, to, hc);
        lemma_under(lb, 0, to, hc);
        let pa = position(la, under(la, hc)) as int;
        let pb = position(lb, under(lb, hc)) as int;
        let (xa, xb) = (self.nums(world, a), self.nums(world, b));
        let h = |l: int|
            self.arith.prod(
                self.at(world, a, left_of(a.dims, c, l as nat)),
                self.at(world, b, right_of(b.dims, c, l as nat)),
            );
        let g = |l: int| self.arith.prod(xa[at3(pa, m, i, k, l)], xb[at3(pb, k, l, n, j)]);
        assert forall|l: int| 0 <= l < k implies #[trigger] g(l) == h(l) by {
            let ca = left_of(a.dims, c, l as nat);
            let cb = right_of(b.dims, c, l as nat);
            assert(head(ca) =~= under(la, hc));
            assert(head(cb) =~= under(lb, hc));
            assert(in_range(a.dims, ca)) by {
                assert forall|p: int| 0 <= p < a.dims.len() implies ca[p] < #[trigger] a.dims[p] by {
                    if p < r - 2 {
                        assert(under(la, hc)[p] < la[p]);
                    }
                }
            }
            assert(in_range(b.dims, cb)) by {
                assert forall|p: int| 0 <= p < b.dims.len() implies cb[p] < #[trigger] b.dims[p] by {
                    if p < r - 2 {
                        assert(under(lb, hc)[p] < lb[p]);
                    }
                }
            }
            lemma_in_stack(a.dims, ca);
            lemma_in_stack(b.dims, cb);
        }
        self.arith.lemma_tally_same(k, g, h);
        if expand {
            let wa = repeated_val(a, to);
            let wb = repeated_val(b, to);
            self.lemma_repeated(world, a, to);
            self.lemma_repeated(world, b, to);
            let one = seq![numel(to) as usize];
            assert(lead(wa.dims) =~= one);
            assert(lead(wb.dims) =~= one);
            lemma_low_rank(one);
            self.lemma_product(world, wa, wb, to, q, i, j);
            let (ya, yb) = (self.nums(world, wa), self.nums(world, wb));
            let qq: int = if numel(to) == 1 {
                0
            } else {
                q
            };
            assert(qq == q);
            let f = |l: int| self.arith.prod(ya[at3(q, m, i, k, l)], yb[at3(q, k, l, n, j)]);
            assert forall|l: int| 0 <= l < k implies #[trigger] f(l) == g(l) by {
                lemma_at2(i, k, l, m);
                lemma_at2(l, n, j, k);
                self.lemma_slice(q, m, i, k, l);
                self.lemma_slice(pa, m, i, k, l);
                self.lemma_slice(q, k, l, n, j);
                self.lemma_slice(pb, k, l, n, j);
                assert(0 <= i * k && 0 <= l * n) by (nonlinear_arith)
                    requires
                        i >= 0,
                        k >= 0,
                        l >= 0,
                        n >= 0,
                ;
                assert(ya[at2(q, m * k, at2(i, k, l))] == xa[at2(pa, m * k, at2(i, k, l))]);
                assert(yb[at2(q, k * n, at2(l, n, j))] == xb[at2(pb, k * n, at2(l, n, j))]);
            }
            self.arith.lemma_tally_same(k, f, g);
        } else {
            lemma_which(la, to, hc);
            lemma_which(lb, to, hc);
            self.lemma_product(world, a, b, to, q, i, j);
            assert(g =~= |l: int|
                self.arith.prod(xa[at3(pa, m, i, k, l)], xb[at3(pb, k, l, n, j)]));
        }
    }

    /// An element of a matrix of a stack, counted from the matrix.
    proof fn lemma_slice(self, q: int, m: int, i: int, k: int, l: int)
        ensures
            at3(q, m, i, k, l) == at2(q, m * k, at2(i, k, l)),
    {
        assert((q * m + i) * k + l == q * (m * k) + (i * k + l)) by (nonlinear_arith);
    }

    /// The product of two tensors: the leading axes are broadcast, and at every
    /// place of the result stands the sum over `l` of the left factor's element
    /// in that row and column `l` times the right factor's in row `l` and that
    /// column, read from the caller's own tensors.
    pub proof fn law_matmul_multiplies_rows_and_columns(self, world: World<T>, a: Val, b: Val)
        requires
            self.arith.exact(),
            span(a.dims) <= usize::MAX,
            span(b.dims) <= usize::MAX,
            matmul_countable(a.dims, b.dims),
            facing(a.dims, 0) <= i32::MAX,
            facing(a.dims, 1) <= i32::MAX,
            facing(b.dims, 0) <= i32::MAX,
        ensures
            matmul_val(a, b) matches Ok(y) ==> {
                let r = a.dims.len();
                &&& y.dims.len() == r
                &&& joins(stacks(a.dims), stacks(b.dims), stacks(y.dims))
                &&& facing(y.dims, 1) == facing(a.dims, 1)
                &&& facing(y.dims, 0) == facing(b.dims, 0)
                &&& numel(y.dims) > 0 ==> self.filled(world, y)
                &&& forall|c: Seq<nat>|
                    in_range(y.dims, c) ==> #[trigger] self.at(world, y, c) == self.arith.tally(
                        facing(a.dims, 0) as int,
                        |l: int|
                            self.arith.prod(
                                self.at(world, a, left_of(a.dims, c, l as nat)),
                                self.at(world, b, right_of(b.dims, c, l as nat)),
                            ),
                    )
            },
    {
        if matmul_val(a, b) is Ok {
            law_products_exist_where_shapes_fit(a, b);
            let y = matmul_val(a, b)->Ok_0;
            let r = a.dims.len() as int;
            let rb = b.dims.len() as int;
            let pad = (r - rb) as nat;
            let pb = right_padded(a.dims, b.dims);
            let w = Val { term: b.term, dims: pb };
            let to = product_lead(a.dims, b.dims);
            let expand = host_expands(a.dims, b.dims);
            lemma_padded(b.dims, pad);
            lemma_leads(a.dims, b.dims);
            law_operands_expand_to_joint_shape(lead(a.dims), lead(pb));
            assert(padded(lead(a.dims), 0) =~= lead(a.dims));
            assert(padded(lead(pb), 0) =~= lead(pb));
            let dims = to + seq![a.dims[r - 2], pb[r - 1]];
            lemma_numel_concat(to, seq![a.dims[r - 2], pb[r - 1]]);
            lemma_numel_le_span(to);
            lemma_numel_le_span(seq![a.dims[r - 2], pb[r - 1]]);
            let (u, v) = (span(to) as int, span(seq![a.dims[r - 2], pb[r - 1]]) as int);
            assert(u <= u * v) by (nonlinear_arith)
                requires
                    u >= 1,
                    v >= 1,
            ;
            assert(y.dims =~= dims);
            assert(stacks(y.dims) =~= to);
            assert forall|c: Seq<nat>| in_range(y.dims, c) implies #[trigger] self.at(world, y, c)
                == self.arith.tally(
                facing(a.dims, 0) as int,
                |l: int|
                    self.arith.prod(
                        self.at(world, a, left_of(a.dims, c, l as nat)),
                        self.at(world, b, right_of(b.dims, c, l as nat)),
                    ),
            ) by {
                self.lemma_stacked(world, a, w, to, expand, c);
                let k = a.dims[r - 1] as int;
                let f = |l: int|
                    self.arith.prod(
                        self.at(world, a, left_of(a.dims, c, l as nat)),
                        self.at(world, w, right_of(pb, c, l as nat)),
                    );
                let g = |l: int|
                    self.arith.prod(
                        self.at(world, a, left_of(a.dims, c, l as nat)),
                        self.at(world, b, right_of(b.dims, c, l as nat)),
                    );
                assert forall|l: int| 0 <= l < k implies #[trigger] f(l) == g(l) by {
                    let cb = right_of(pb, c, l as nat);
                    assert(in_range(pb, cb)) by {
                        assert forall|p: int| 0 <= p < pb.len() implies cb[p] < #[trigger] pb[p] by {
                            assert(c[p] < dims[p]);
                            if p < r - 2 {
                                assert(lead(pb)[p] == to[p] || lead(pb)[p] == 1);
                            }
                        }
                    }
                    lemma_padded_position(b.dims, pad, cb);
                    assert(cb.subrange(pad as int, cb.len() as int) =~= right_of(
                        b.dims,
                        c,
                        l as nat,
                    )) by {
                        assert forall|p: int| 0 <= p < rb implies cb[p + pad] == #[trigger] right_of(
                            b.dims,
                            c,
                            l as nat,
                        )[p] by {
                            assert(pb[p + pad] == b.dims[p]);
                        }
                    }
                }
                self.arith.lemma_tally_same(k, f, g);
            }
            if numel(y.dims) > 0 {
                let c = coords(y.dims, 0);
                lemma_position_of_coords(y.dims, 0);
                self.lemma_stacked(world, a, w, to, expand, c);
            }
        }
    }
}

/// The leading axes of a shape: all but the last two.
pub open spec fn stacks(s: Seq<usize>) -> Seq<usize> {
    if s.len() >= 2 {
        s.subrange(0, s.len() - 2)
    } else {
        Seq::empty()
    }
}

/// The leading axes that a product is broadcast over.
proof fn lemma_leads(a: Seq<usize>, b: Seq<usize>)
    requires
        a.len() >= 2,
        b.len() <= a.len(),
    ensures
        ({
            let pb = right_padded(a, b);
            &&& lead(pb).len() == lead(a).len()
            &&& first_clash(lead(a), lead(pb), 0) is None <==> joinable(stacks(a), stacks(b))
            &&& first_clash(lead(a), lead(pb), 0) is None <==> compatible(lead(a), lead(pb))
            &&& compatible(lead(a), lead(pb)) ==> joins(stacks(a), stacks(b), product_lead(a, b))
        }),
{
    let pb = right_padded(a, b);
    let pad = (a.len() - b.len()) as nat;
    lemma_padded(b, pad);
    let (x, y, z) = (lead(a), lead(pb), stacks(b));
    assert(aligned(x, y) =~= x);
    assert(aligned(y, x) =~= y);
    lemma_joinable(x, y);
    assert forall|k: int| 0 <= k < x.len() implies #[trigger] facing(y, k) == facing(z, k) by {
        let i = a.len() - 3 - k;
        assert(y[i] == pb[i]);
        if k < z.len() {
            assert(pb[i] == b[i - pad]);
        }
    }
    if joinable(x, y) {
        assert forall|k: int| 0 <= k < x.len() && k < z.len() implies #[trigger] facing(x, k)
            == facing(z, k) || facing(x, k) == 1 || facing(z, k) == 1 by {
            assert(facing(y, k) == facing(z, k));
        }
    }
    if joinable(x, z) {
        assert forall|k: int| 0 <= k < x.len() && k < y.len() implies #[trigger] facing(x, k)
            == facing(y, k) || facing(x, k) == 1 || facing(y, k) == 1 by {
            assert(facing(y, k) == facing(z, k));
            if k >= z.len() {
                assert(facing(z, k) == 1);
            }
        }
    }
    if compatible(x, y) {
        let d = product_lead(a, b);
        assert forall|k: int| 0 <= k < d.len() implies #[trigger] facing(d, k) == (if facing(x, k)
            == 1 {
            facing(z, k)
        } else {
            facing(x, k)
        }) by {
            assert(facing(y, k) == facing(z, k));
        }
    }
}

/// A product of two tensors exists exactly where the left one is at least a
/// matrix and the right one has no more axes, the inner extents agree, and the
/// leading axes can be broadcast.
pub proof fn law_products_exist_where_shapes_fit(a: Val, b: Val)
    requires
        span(a.dims) <= usize::MAX,
        span(b.dims) <= usize::MAX,
        matmul_countable(a.dims, b.dims),
    ensures
        matmul_val(a, b) is Ok <==> a.dims.len() >= 2 && b.dims.len() <= a.dims.len() && facing(
            a.dims,
            0,
        ) == facing(b.dims, 1) && joinable(stacks(a.dims), stacks(b.dims)),
{
    let r = a.dims.len() as int;
    if r >= 2 && b.dims.len() <= r {
        let pb = right_padded(a.dims, b.dims);
        let w = Val { term: b.term, dims: pb };
        let pad = (r - b.dims.len()) as nat;
        let to = product_lead(a.dims, b.dims);
        lemma_padded(b.dims, pad);
        lemma_leads(a.dims, b.dims);
        assert(pb[r - 2] == facing(b.dims, 1));
        assert(pb[r - 1] == facing(b.dims, 0));
        if compatible(lead(a.dims), lead(pb)) {
            lemma_span_run(a.dims, 0, r - 2);
            lemma_span_run(pb, 0, r - 2);
            lemma_numel_le_span(lead(a.dims));
            lemma_numel_le_span(lead(pb));
            let (wa, wb) = (repeated_val(a, to), repeated_val(w, to));
            let one = seq![numel(to) as usize];
            assert(lead(wa.dims) =~= one);
            assert(lead(wb.dims) =~= one);
            lemma_low_rank(one);
        }
    }
}

} // verus!
