//! What the operations that move elements leave, by coordinates.

use crate::broadcast::{narrowed_val, spread_val};
use crate::compound::{
    concat_dims, concat_val, dims_of, extents_of, lemma_concat_error, lemma_first_odd, shapes_of,
};
use crate::device::transposed_val;
use crate::host::{at2, at3, concat_at, lemma_at2, lemma_offset, offset_of};
use crate::index::{
    embedding_from, gather_from, lemma_at2_parts, lemma_parts_of_at3, transposed_from, Window,
};
use crate::kernels::{inner, outer, MAX_RANK};
use crate::launch::{first_long, Kernel};
use crate::meaning::{Datum, Machine, World};
use crate::ops::{lookup_val, pick_val, reshaped_val, window_val};
use crate::places::{
    after, before, lemma_axis, lemma_axis_update, lemma_low_positions,
};
use crate::program::{HostTaskView, Term, Val};
use crate::rows::{gather_last_val, gather_val, swapped_index_val};
use crate::rules::saved;
use crate::shape::{
    coords, in_range, law_transpose_reads_exchanged_coordinates, lemma_coords_of_position,
    lemma_low_rank, lemma_numel_axis, lemma_numel_le_span, lemma_numel_swapped,
    lemma_position_bound, lemma_positive, numel, position, regular, row_major, span, strided,
    swapped, tail,
};
use crate::tape::extent_sum;
use crate::tensor::CudaTensor;
use crate::values::{lemma_axis_counts, lemma_extents, lemma_window_counts};
use vstd::prelude::*;

verus! {

/// Exchanging two coordinates keeps them within the exchanged shape.
pub(crate) proof fn lemma_swapped_range(s: Seq<usize>, c: Seq<nat>, a: int, b: int)
    requires
        in_range(swapped(s, a, b), c),
        0 <= a < s.len(),
        0 <= b < s.len(),
    ensures
        in_range(s, swapped(c, a, b)),
        swapped(swapped(c, a, b), a, b) == c,
        swapped(swapped(s, a, b), a, b) == s,
{
    let out = swapped(s, a, b);
    let w = swapped(c, a, b);
    assert(c[a] < out[a] && c[b] < out[b]);
    assert forall|i: int| 0 <= i < s.len() implies w[i] < #[trigger] s[i] by {
        assert(c[i] < out[i]);
    }
    assert(swapped(w, a, b) =~= c);
    assert(swapped(out, a, b) =~= s);
}

impl<
    T: Copy,
    A: Fn(T, T) -> T,
    M: Fn(T, T) -> T,
    S: Fn(T, T) -> T,
    E: Fn(T) -> T,
    N: Fn(T) -> T,
    I: Fn(T) -> T,
    L: Fn(T) -> T,
    G: Fn(T, T) -> bool,
    P: Fn(T, T) -> T,
    R: Fn(T) -> T,
    D: Fn(T) -> T,
> Machine<T, A, M, S, E, N, I, L, G, P, R, D> {
    /// The indices of a tensor, in row-major order.
    pub open spec fn ids(self, world: World<T>, v: Val) -> Seq<i64> {
        self.data(world, v.term).indices()
    }

    /// Whether a tensor's buffer holds as many indices as its shape says.
    pub open spec fn indexed(self, world: World<T>, v: Val) -> bool {
        self.data(world, v.term) matches Datum::Indices(x) && x.len() == v.count()
    }

    /// What exchanging two axes leaves.
    pub(crate) proof fn lemma_transposed(
        self,
        world: World<T>,
        op: &'static str,
        v: Val,
        a: usize,
        b: usize,
    )
        requires
            self.filled(world, v),
            transposed_val(op, v, a, b) is Ok,
        ensures
            ({
                let y = transposed_val(op, v, a, b)->Ok_0;
                &&& a < v.dims.len() && b < v.dims.len()
                &&& y.dims == swapped(v.dims, a as int, b as int)
                &&& y.count() == v.count()
                &&& self.filled(world, y)
                &&& forall|c: Seq<nat>|
                    in_range(y.dims, c) ==> #[trigger] self.at(world, y, c) == self.at(
                        world,
                        v,
                        swapped(c, a as int, b as int),
                    )
            }),
    {
        let y = transposed_val(op, v, a, b)->Ok_0;
        let (p, q) = (a as int, b as int);
        let out = swapped(v.dims, p, q);
        lemma_numel_swapped(v.dims, p, q);
        if a == b {
            assert(out =~= v.dims);
        } else if v.dims.len() == 2 {
            self.lemma_flipped(world, op, v, a, b);
        } else {
            self.lemma_exchanged(world, op, v, a, b);
        }
        assert forall|c: Seq<nat>| in_range(y.dims, c) implies #[trigger] self.at(world, y, c)
            == self.at(world, v, swapped(c, p, q)) by {
            lemma_position_bound(out, c);
            let i = position(out, c);
            if a == b {
                assert(swapped(c, p, q) =~= c);
            } else if v.dims.len() == 2 {
                let (r, k) = (v.dims[0] as int, v.dims[1] as int);
                lemma_low_positions(out, c);
                assert(c[1] < out[1]);
                lemma_at2_parts(c[0] as int, r, c[1] as int);
                lemma_low_positions(v.dims, swapped(c, p, q));
                assert(transposed_from(i as int, r, k) == at2(c[1] as int, k, c[0] as int));
            } else {
                law_transpose_reads_exchanged_coordinates(v.dims, p, q, i);
                lemma_coords_of_position(out, c);
            }
        }
    }

    /// Exchanging two axes succeeds for two axes of a tensor that a kernel can
    /// index, and for no others, exchanges their extents, and puts at every
    /// place the element whose two coordinates are exchanged.
    pub proof fn law_transposition_exchanges_coordinates(
        self,
        world: World<T>,
        op: &'static str,
        v: Val,
        a: usize,
        b: usize,
    )
        requires
            self.filled(world, v),
            regular(v.dims),
            v.dims.len() <= MAX_RANK,
        ensures
            transposed_val(op, v, a, b) is Ok <==> a < v.dims.len() && b < v.dims.len(),
            transposed_val(op, v, a, b) matches Ok(y) ==> {
                &&& y.dims.len() == v.dims.len()
                &&& y.dims[a as int] == v.dims[b as int]
                &&& y.dims[b as int] == v.dims[a as int]
                &&& forall|k: int|
                    0 <= k < v.dims.len() && k != a && k != b ==> #[trigger] y.dims[k] == v.dims[k]
                &&& self.filled(world, y)
                &&& forall|c: Seq<nat>|
                    in_range(y.dims, c) ==> #[trigger] self.at(world, y, c) == self.at(
                        world,
                        v,
                        c.update(a as int, c[b as int]).update(b as int, c[a as int]),
                    )
            },
    {
        if a < v.dims.len() && b < v.dims.len() {
            if v.dims.len() == 2 {
                lemma_low_rank(v.dims);
                let (m, n) = (v.dims[0] as int, v.dims[1] as int);
                assert(v.dims[0] >= 1 && v.dims[1] >= 1);
                assert(m <= m * n && n <= m * n) by (nonlinear_arith)
                    requires
                        m >= 1,
                        n >= 1,
                ;
                reveal_with_fuel(first_long, 4);
                assert(first_long(seq![v.count() as usize, v.dims[0], v.dims[1]], 0) is None);
            }
            self.lemma_transposed(world, op, v, a, b);
        }
    }

    /// A tensor of another shape with as many elements holds the same numbers
    /// in the same order; any other shape is refused.
    pub proof fn law_reshaping_keeps_the_numbers(self, world: World<T>, x: Val, dims: Seq<usize>)
        ensures
            reshaped_val(x, dims) is Ok <==> numel(dims) == numel(x.dims),
            reshaped_val(x, dims) matches Ok(y) ==> {
                &&& y.dims == dims
                &&& self.nums(world, y) == self.nums(world, x)
                &&& self.filled(world, x) ==> self.filled(world, y)
            },
    {
    }

    /// What taking a window along an axis leaves.
    pub(crate) proof fn lemma_narrowed(
        self,
        world: World<T>,
        v: Val,
        dim: usize,
        start: usize,
        len: usize,
    )
        requires
            dim < v.dims.len(),
            start + len <= v.dims[dim as int],
            span(v.dims) <= usize::MAX,
            narrowed_val(v, dim, start, len) is Ok,
        ensures
            ({
                let y = narrowed_val(v, dim, start, len)->Ok_0;
                &&& y.dims == v.dims.update(dim as int, len)
                &&& self.filled(world, y)
                &&& forall|c: Seq<nat>|
                    in_range(y.dims, c) ==> #[trigger] self.at(world, y, c) == self.at(
                        world,
                        v,
                        c.update(dim as int, c[dim as int] + start as nat),
                    )
            }),
    {
        let y = narrowed_val(v, dim, start, len)->Ok_0;
        let d = dim as int;
        let e = v.dims[d];
        lemma_axis_counts(v.dims, d);
        let o = outer(v.dims, d);
        let r = inner(v.dims, d);
        crate::broadcast::lemma_window_dims(v.dims, d, len);
        lemma_numel_axis(y.dims, d);
        assert(y.dims.subrange(0, d) =~= v.dims.subrange(0, d));
        assert(tail(y.dims, d + 1) =~= tail(v.dims, d + 1));
        let l = len as int;
        assert(o * (l * r) == o * l * r) by (nonlinear_arith);
        let n = y.count();
        lemma_numel_le_span(y.dims);
        assert(n <= usize::MAX);
        reveal_with_fuel(first_long, 7);
        let lens = seq![n as usize, o as usize, e, len, start, r as usize];
        assert(first_long(lens, 0) is None);
        assert(lens[0] <= u32::MAX && lens[1] <= u32::MAX && lens[2] <= u32::MAX && lens[3]
            <= u32::MAX && lens[4] <= u32::MAX && lens[5] <= u32::MAX);
        let xs = self.nums(world, v);
        if let Term::Run { kernel, config, args } = y.term {
            self.lemma_arguments(world, args);
            let a = self.arguments(world, args);
            assert(a[0] == self.data(world, v.term));
            assert(a[1] == self.data(world, Term::Zeros(n)));
            let w = Window {
                outer: o as u32,
                axis: e as u32,
                len: len as u32,
                start: start as u32,
                inner: r as u32,
            };
            assert(a[2].word() == w.outer && a[3].word() == w.axis && a[4].word() == w.len
                && a[5].word() == w.start && a[6].word() == w.inner);
            assert(self.nums(world, y) =~= Seq::new(n, |i: int| xs[w.from(i)]));
            assert forall|c: Seq<nat>| in_range(y.dims, c) implies #[trigger] self.at(world, y, c)
                == self.at(world, v, c.update(d, c[d] + start as nat)) by {
                lemma_position_bound(y.dims, c);
                lemma_axis(y.dims, c, d);
                let (p, q) = (before(y.dims, c, d), after(y.dims, c, d));
                assert(c[d] < y.dims[d]);
                lemma_parts_of_at3(p, l, c[d] as int, r as int, q);
                lemma_axis_update(y.dims, c, d, e, c[d] + start as nat);
                assert(y.dims.update(d, e) =~= v.dims);
            }
        }
    }

    /// A window along an axis: it is refused where the axis or the window is out
    /// of range, and succeeds wherever else a kernel can index the tensor. It
    /// changes the extent of that axis only, and holds at every place the
    /// element that stands as many places further along the axis as the window
    /// begins.
    pub proof fn law_windows_hold_what_they_frame(
        self,
        world: World<T>,
        x: Val,
        dim: usize,
        start: usize,
        len: usize,
    )
        requires
            span(x.dims) <= usize::MAX,
        ensures
            window_val(x, dim, start, len) is Ok ==> dim < x.dims.len() && start + len
                <= x.dims[dim as int],
            regular(x.dims) && dim < x.dims.len() && start + len <= x.dims[dim as int]
                ==> window_val(x, dim, start, len) is Ok,
            window_val(x, dim, start, len) matches Ok(y) ==> {
                &&& y.dims == x.dims.update(dim as int, len)
                &&& self.filled(world, y)
                &&& forall|c: Seq<nat>|
                    in_range(y.dims, c) ==> #[trigger] self.at(world, y, c) == self.at(
                        world,
                        x,
                        c.update(dim as int, c[dim as int] + start as nat),
                    )
            },
    {
        if dim < x.dims.len() && start + len <= x.dims[dim as int] {
            let d = dim as int;
            if regular(x.dims) {
                lemma_axis_counts(x.dims, d);
                lemma_positive(x.dims);
                let (o, r) = (outer(x.dims, d) as int, inner(x.dims, d) as int);
                lemma_window_counts(
                    o,
                    x.dims[d] as int,
                    r,
                    len as int,
                    start as int,
                    x.count() as int,
                );
                reveal_with_fuel(first_long, 7);
                let n = (o * len * r) as usize;
                assert(first_long(
                    seq![n, o as usize, x.dims[d], len, start, r as usize],
                    0,
                ) is None);
            }
            if window_val(x, dim, start, len) is Ok {
                self.lemma_narrowed(world, x, dim, start, len);
            }
        }
    }

    /// What putting a window back into a tensor of zeros leaves.
    pub(crate) proof fn lemma_spread_out(
        self,
        world: World<T>,
        g: Val,
        dim: usize,
        start: usize,
        orig: Seq<usize>,
    )
        requires
            dim < orig.len(),
            g.dims.len() == orig.len(),
            g.dims == orig.update(dim as int, g.dims[dim as int]),
            start + g.dims[dim as int] <= orig[dim as int],
            span(orig) <= usize::MAX,
            spread_val(g, dim, start, orig) is Ok,
        ensures
            ({
                let y = spread_val(g, dim, start, orig)->Ok_0;
                let d = dim as int;
                &&& y.dims == orig
                &&& self.filled(world, y)
                &&& forall|c: Seq<nat>|
                    in_range(orig, c) ==> #[trigger] self.at(world, y, c) == (if start <= c[d]
                        < start + g.dims[d] {
                        self.at(world, g, c.update(d, (c[d] - start) as nat))
                    } else {
                        self.arith.zero
                    })
            }),
    {
        let y = spread_val(g, dim, start, orig)->Ok_0;
        let d = dim as int;
        let e = orig[d];
        let len = g.dims[d];
        lemma_axis_counts(orig, d);
        let o = outer(orig, d);
        let r = inner(orig, d);
        let n = numel(orig);
        reveal_with_fuel(first_long, 6);
        let lens = seq![n as usize, e, len, start, r as usize];
        assert(first_long(lens, 0) is None);
        assert(lens[0] <= u32::MAX && lens[1] <= u32::MAX && lens[2] <= u32::MAX && lens[3]
            <= u32::MAX && lens[4] <= u32::MAX);
        let xs = self.nums(world, g);
        if let Term::Run { kernel, config, args } = y.term {
            self.lemma_arguments(world, args);
            let a = self.arguments(world, args);
            assert(a[0] == self.data(world, g.term));
            assert(a[1] == self.data(world, Term::Zeros(n)));
            let w = Window {
                outer: 1,
                axis: e as u32,
                len: len as u32,
                start: start as u32,
                inner: r as u32,
            };
            assert(a[2].word() == w.axis && a[3].word() == w.len && a[4].word() == w.start
                && a[5].word() == w.inner);
            assert(self.nums(world, y) =~= self.looked_up(n, xs, |i: int| w.back(i)));
            assert forall|c: Seq<nat>| in_range(orig, c) implies #[trigger] self.at(world, y, c)
                == (if start <= c[d] < start + len {
                self.at(world, g, c.update(d, (c[d] - start) as nat))
            } else {
                self.arith.zero
            }) by {
                lemma_position_bound(orig, c);
                lemma_axis(orig, c, d);
                let (p, q) = (before(orig, c, d), after(orig, c, d));
                assert(c[d] < orig[d]);
                lemma_parts_of_at3(p, e as int, c[d] as int, r as int, q);
                if start <= c[d] < start + len {
                    lemma_axis_update(orig, c, d, len, (c[d] - start) as nat);
                }
            }
        }
    }

    /// Looking rows up in a table: it takes a table of two axes, adds the row's
    /// width to the shape of the indices, and puts at every place the element of
    /// the row that the index there names, and zero where it names none.
    pub proof fn law_lookups_copy_the_rows_named(
        self,
        world: World<T>,
        table: Val,
        idx: Val,
        c: Seq<nat>,
        j: nat,
    )
        requires
            self.indexed(world, idx),
            table.dims.len() == 2 ==> span(idx.dims.push(table.dims[1])) <= usize::MAX,
            span(idx.dims) <= usize::MAX,
        ensures
            lookup_val(table, idx) is Ok ==> table.dims.len() == 2,
            lookup_val(table, idx) matches Ok(y) ==> {
                &&& y.dims == idx.dims.push(table.dims[1])
                &&& self.filled(world, y)
                &&& in_range(idx.dims, c) && j < table.dims[1] ==> self.at(world, y, c.push(j)) == {
                    let id = self.ids(world, idx)[position(idx.dims, c) as int];
                    if 0 <= id < table.dims[0] {
                        self.at(world, table, seq![id as nat, j])
                    } else {
                        self.arith.zero
                    }
                }
            },
    {
        if let Ok(y) = lookup_val(table, idx) {
            let (vocab, width) = (table.dims[0], table.dims[1]);
            let count = idx.count();
            let s = idx.dims.push(width);
            let k = idx.dims.len() as int;
            lemma_numel_le_span(idx.dims);
            lemma_numel_le_span(s);
            lemma_numel_axis(s, k);
            assert(s.subrange(0, k) =~= idx.dims);
            lemma_low_rank(tail(s, k + 1));
            assert(numel(s) == count * width) by {
                assert(numel(s) == count * ((width as nat) * 1));
                assert((width as nat) * 1 == width as nat);
            }
            let n = numel(s);
            reveal_with_fuel(first_long, 5);
            let lens = seq![n as usize, count as usize, width, vocab];
            assert(first_long(lens, 0) is None);
            assert(lens[0] <= u32::MAX && lens[1] <= u32::MAX && lens[2] <= u32::MAX && lens[3]
                <= u32::MAX);
            if let Term::Run { kernel, config, args } = y.term {
                self.lemma_arguments(world, args);
                let a = self.arguments(world, args);
                assert(a[0] == self.data(world, table.term));
                assert(a[1] == self.data(world, idx.term));
                assert(a[2] == self.data(world, Term::Zeros(n)));
                assert(a[4].word() == width && a[5].word() == vocab);
                let ids = self.ids(world, idx);
                let xs = self.nums(world, table);
                let w = width as int;
                assert(self.nums(world, y) =~= self.looked_up(
                    n,
                    xs,
                    |i: int| embedding_from(i, ids[i / w] as int, w, vocab as int),
                ));
                if in_range(idx.dims, c) && j < width {
                    let cc = c.push(j);
                    assert(in_range(s, cc)) by {
                        assert forall|i: int| 0 <= i < s.len() implies cc[i] < #[trigger] s[i] by {
                            if i < k {
                                assert(c[i] < idx.dims[i]);
                            }
                        }
                    }
                    lemma_axis(s, cc, k);
                    lemma_position_bound(s, cc);
                    assert(cc.subrange(0, k) =~= c);
                    lemma_low_positions(tail(s, k + 1), cc.subrange(k + 1, cc.len() as int));
                    let p = position(idx.dims, c) as int;
                    assert(position(s, cc) == at2(p, w, j as int)) by {
                        assert((p * w + j) * 1 + 0 == p * w + j);
                    }
                    lemma_at2_parts(p, w, j as int);
                    let id = ids[p];
                    if 0 <= id < vocab {
                        lemma_low_positions(table.dims, seq![id as nat, j]);
                    }
                }
            }
        }
    }

    /// What picking along the last axis leaves.
    proof fn lemma_picked(self, world: World<T>, x: Val, idx: Val)
        requires
            self.indexed(world, idx),
            idx.dims.len() >= 1,
            x.dims.len() == idx.dims.len(),
            x.dims == idx.dims.update(idx.dims.len() - 1, x.dims[x.dims.len() - 1]),
            span(idx.dims) <= usize::MAX,
            gather_last_val(x, idx) is Ok,
        ensures
            ({
                let y = gather_last_val(x, idx)->Ok_0;
                let k = idx.dims.len() - 1;
                &&& y.dims == idx.dims
                &&& self.filled(world, y)
                &&& forall|c: Seq<nat>|
                    in_range(y.dims, c) ==> #[trigger] self.at(world, y, c) == {
                        let id = self.ids(world, idx)[position(idx.dims, c) as int];
                        if 0 <= id < x.dims[k] {
                            self.at(world, x, c.update(k, id as nat))
                        } else {
                            self.arith.zero
                        }
                    }
            }),
    {
        let y = gather_last_val(x, idx)->Ok_0;
        let k = idx.dims.len() - 1;
        let n = idx.count();
        lemma_numel_le_span(idx.dims);
        let (ls, li) = (x.dims[k], idx.dims[k]);
        reveal_with_fuel(first_long, 4);
        let lens = seq![n as usize, ls, li];
        assert(first_long(lens, 0) is None);
        assert(lens[0] <= u32::MAX && lens[1] <= u32::MAX && lens[2] <= u32::MAX);
        if let Term::Run { kernel, config, args } = y.term {
            self.lemma_arguments(world, args);
            let a = self.arguments(world, args);
            assert(a[0] == self.data(world, x.term));
            assert(a[1] == self.data(world, idx.term));
            assert(a[2] == self.data(world, Term::Zeros(n)));
            assert(a[4].word() == ls && a[5].word() == li);
            let ids = self.ids(world, idx);
            let xs = self.nums(world, x);
            assert(self.nums(world, y) =~= self.looked_up(
                n,
                xs,
                |i: int| gather_from(i, ids[i] as int, ls as int, li as int),
            ));
            assert forall|c: Seq<nat>| in_range(y.dims, c) implies #[trigger] self.at(world, y, c)
                == {
                let id = self.ids(world, idx)[position(idx.dims, c) as int];
                if 0 <= id < x.dims[k] {
                    self.at(world, x, c.update(k, id as nat))
                } else {
                    self.arith.zero
                }
            } by {
                lemma_position_bound(idx.dims, c);
                lemma_axis(idx.dims, c, k);
                let t = tail(idx.dims, k + 1);
                lemma_low_rank(t);
                lemma_low_positions(t, c.subrange(k + 1, c.len() as int));
                let p = before(idx.dims, c, k);
                assert(c[k] < idx.dims[k]);
                let q = c[k] as int;
                assert((p * li + q) * 1 + 0 == p * li + q);
                lemma_at2_parts(p, li as int, q);
                let id = ids[position(idx.dims, c) as int];
                if 0 <= id < ls {
                    lemma_axis_update(idx.dims, c, k, ls, id as nat);
                    assert((p * ls + id) * 1 + 0 == p * ls + id);
                }
            }
        }
    }

    /// What exchanging two axes of a tensor of indices gives.
    pub(crate) proof fn lemma_swapped_ids(self, world: World<T>, idx: Val, a: usize, b: usize)
        requires
            self.indexed(world, idx),
            a < idx.dims.len(),
            b < idx.dims.len(),
        ensures
            ({
                let y = swapped_index_val(idx, a, b);
                &&& y.dims == swapped(idx.dims, a as int, b as int)
                &&& self.indexed(world, y)
                &&& y.count() == idx.count()
                &&& span(y.dims) == span(idx.dims)
                &&& forall|c: Seq<nat>|
                    in_range(y.dims, c) ==> self.ids(world, y)[#[trigger] position(
                        y.dims,
                        c,
                    ) as int] == self.ids(world, idx)[position(
                        idx.dims,
                        swapped(c, a as int, b as int),
                    ) as int]
            }),
    {
        let y = swapped_index_val(idx, a, b);
        let terms = seq![idx.term];
        self.lemma_all_data(world, terms);
        lemma_numel_swapped(idx.dims, a as int, b as int);
        let ins = self.all_data(world, terms);
        assert(ins[0] == self.data(world, idx.term));
        assert forall|c: Seq<nat>| in_range(y.dims, c) implies self.ids(world, y)[#[trigger] position(
            y.dims,
            c,
        ) as int] == self.ids(world, idx)[position(
            idx.dims,
            swapped(c, a as int, b as int),
        ) as int] by {
            lemma_position_bound(y.dims, c);
            lemma_coords_of_position(y.dims, c);
        }
    }

    /// Picking along an axis by indices of the other axes' shape: at every place
    /// stands the element whose coordinate along that axis is the index there,
    /// and zero where the index names none.
    pub proof fn law_picks_follow_the_indices(self, world: World<T>, x: Val, idx: Val, dim: usize)
        requires
            self.filled(world, x),
            self.indexed(world, idx),
            dim < x.dims.len() && idx.dims.len() == x.dims.len() ==> x.dims == idx.dims.update(
                dim as int,
                x.dims[dim as int],
            ),
            span(idx.dims) <= usize::MAX,
            x.dims.len() <= usize::MAX,
        ensures
            pick_val(x, idx, dim) is Ok ==> dim < x.dims.len() && idx.dims.len() == x.dims.len(),
            pick_val(x, idx, dim) matches Ok(y) ==> {
                let d = dim as int;
                &&& y.dims == idx.dims
                &&& self.filled(world, y)
                &&& forall|c: Seq<nat>|
                    in_range(y.dims, c) ==> #[trigger] self.at(world, y, c) == {
                        let id = self.ids(world, idx)[position(idx.dims, c) as int];
                        if 0 <= id < x.dims[d] {
                            self.at(world, x, c.update(d, id as nat))
                        } else {
                            self.arith.zero
                        }
                    }
            },
    {
        if let Ok(y) = pick_val(x, idx, dim) {
            let d = dim as int;
            let last = (x.dims.len() - 1) as usize;
            let l = last as int;
            if dim == last {
                self.lemma_picked(world, x, idx);
            } else {
                let xt = transposed_val("transpose", x, dim, last)->Ok_0;
                let it = swapped_index_val(idx, dim, last);
                let yt = gather_last_val(xt, it)->Ok_0;
                self.lemma_transposed(world, "transpose", x, dim, last);
                self.lemma_swapped_ids(world, idx, dim, last);
                assert(xt.dims =~= it.dims.update(l, xt.dims[l]));
                self.lemma_picked(world, xt, it);
                self.lemma_transposed(world, "transpose", yt, dim, last);
                assert(swapped(it.dims, d, l) =~= idx.dims);
                assert forall|c: Seq<nat>| in_range(y.dims, c) implies #[trigger] self.at(
                    world,
                    y,
                    c,
                ) == {
                    let id = self.ids(world, idx)[position(idx.dims, c) as int];
                    if 0 <= id < x.dims[d] {
                        self.at(world, x, c.update(d, id as nat))
                    } else {
                        self.arith.zero
                    }
                } by {
                    let w = swapped(c, d, l);
                    lemma_swapped_range(it.dims, c, d, l);
                    assert(self.at(world, y, c) == self.at(world, yt, w));
                    let id = self.ids(world, idx)[position(idx.dims, c) as int];
                    assert(self.ids(world, it)[position(it.dims, w) as int] == id);
                    if 0 <= id < x.dims[d] {
                        let u = w.update(l, id as nat);
                        assert(in_range(xt.dims, u)) by {
                            assert forall|i: int| 0 <= i < u.len() implies u[i] < #[trigger] xt.dims[i] by {
                                assert(w[i] < it.dims[i]);
                            }
                        }
                        assert(swapped(u, d, l) =~= c.update(d, id as nat));
                    }
                }
            }
        }
    }

    /// A concatenation keeps the shape of its parts but for the axis, whose
    /// extents add up, and holds every element of every part, as far along the
    /// axis as the extents of the parts before it add up to.
    pub proof fn law_concatenations_lay_parts_end_to_end(
        self,
        world: World<T>,
        ts: Seq<CudaTensor>,
        dim: usize,
        k: int,
        c: Seq<nat>,
    )
        requires
            concat_val(ts, dim) is Ok,
            0 <= k < ts.len(),
            forall|i: int|
                0 <= i < ts.len() ==> (#[trigger] ts[i]).wf() && self.filled(world, saved(ts[i])),
            offset_of(extents_of(ts, dim as int), ts.len() as int) <= usize::MAX,
            span(
                ts[0].dims().update(
                    dim as int,
                    offset_of(extents_of(ts, dim as int), ts.len() as int) as usize,
                ),
            ) <= usize::MAX,
            in_range(ts[k].dims(), c),
        ensures
            ({
                let y = concat_val(ts, dim)->Ok_0;
                let d = dim as int;
                let lens = extents_of(ts, d);
                &&& dim < ts[k].dims().len()
                &&& y.dims == ts[k].dims().update(d, offset_of(lens, lens.len() as int) as usize)
                &&& self.at(world, y, c.update(d, (offset_of(lens, k) + c[d]) as nat)) == self.at(
                    world,
                    saved(ts[k]),
                    c,
                )
            }),
    {
        let y = concat_val(ts, dim)->Ok_0;
        let d = dim as int;
        let lens = extents_of(ts, d);
        let first = ts[0].dims();
        let len = lens[k];
        let t = offset_of(lens, lens.len() as int);
        lemma_extents(ts, d, ts.len() as int);
        lemma_offset(lens, 0, k);
        lemma_offset(lens, k + 1, lens.len() as int);
        assert(offset_of(lens, k + 1) == offset_of(lens, k) + len);
        assert(ts[k].dims() =~= first.update(d, len)) by {
            if k > 0 {
                lemma_concat_error(dims_of(ts), dim, 1, k);
                assert(dims_of(ts)[k] == ts[k].dims());
                assert(dims_of(ts)[0] == first);
                assert forall|j: int| 0 <= j < first.len() && j != d implies ts[k].dims()[j]
                    == first[j] by {
                    lemma_first_odd(first, ts[k].dims(), d, 0, j);
                }
            }
        }
        let part = ts[k].dims();
        assert(y.dims =~= part.update(d, t as usize));
        let o = outer(first, d) as int;
        let i = inner(first, d) as int;
        assert(part.subrange(0, d) =~= first.subrange(0, d));
        assert(tail(part, d + 1) =~= tail(first, d + 1));
        assert(ts[0].wf() && ts[k].wf());
        lemma_axis_counts(first, d);
        let all = Seq::new(ts.len(), |j: int| saved(ts[j]).term);
        let ins = self.all_data(world, all);
        self.lemma_all_data(world, all);
        let xs = Seq::new(ins.len(), |j: int| ins[j].numbers());
        self.lemma_concatenated(xs, o as usize, lens, i as usize);
        let task = HostTaskView::Concat { outer: o as usize, lens, inner: i as usize };
        let got = self.computed(task, xs);
        assert(self.data(world, y.term) == Datum::Numbers(got));
        assert(ins[k] == self.data(world, saved(ts[k]).term));
        lemma_axis(part, c, d);
        assert(c[d] < part[d]);
        let (p, q, a) = (before(part, c, d), after(part, c, d), c[d] as int);
        lemma_axis_update(part, c, d, t as usize, (offset_of(lens, k) + c[d]) as nat);
        let e = at2(a, i, q);
        lemma_at2(a, i, q, len as int);
        assert(0 <= a * i) by (nonlinear_arith)
            requires
                a >= 0,
                i >= 0,
        ;
        let s = offset_of(lens, k);
        assert(concat_at(lens, i, p, k, e) == at3(p, t, s + a, i, q)) by (nonlinear_arith)
            requires
                concat_at(lens, i, p, k, e) == (p * t + s) * i + e,
                at3(p, t, s + a, i, q) == (p * t + (s + a)) * i + q,
                e == a * i + q,
        ;
        assert(at2(p, len * i, e) == at3(p, len as int, a, i, q)) by (nonlinear_arith)
            requires
                at2(p, len * i, e) == p * (len * i) + e,
                at3(p, len as int, a, i, q) == (p * len + a) * i + q,
                e == a * i + q,
        ;
        assert(got[concat_at(lens, i, p, k, e)] == xs[k][at2(p, lens[k] * i, e)]);
    }
}

/// Exchanging two axes of indices puts every index where its coordinates are
/// exchanged.
pub proof fn law_index_swaps_exchange_coordinates<
    T,
    A: Fn(T, T) -> T,
    S: Fn(T, T) -> T,
    M: Fn(T, T) -> T,
>(
    shape: Seq<usize>,
    first: usize,
    second: usize,
    x: Seq<T>,
    zero: T,
    plus: A,
    minus: S,
    times: M,
    r: Seq<T>,
    c: Seq<nat>,
)
    requires
        first < shape.len(),
        second < shape.len(),
        x.len() == numel(shape),
        (HostTaskView::SwapIndexAxes { shape, first, second }).gives(
            seq![x],
            zero,
            plus,
            minus,
            times,
            r,
        ),
        in_range(shape, c),
    ensures
        r.len() == x.len(),
        r[position(
            swapped(shape, first as int, second as int),
            swapped(c, first as int, second as int),
        ) as int] == x[position(shape, c) as int],
{
    let (a, b) = (first as int, second as int);
    let out = swapped(shape, a, b);
    let w = swapped(c, a, b);
    assert(swapped(out, a, b) =~= shape);
    lemma_swapped_range(out, c, a, b);
    lemma_numel_swapped(shape, a, b);
    lemma_position_bound(out, w);
    lemma_coords_of_position(out, w);
    let p = position(out, w) as int;
    assert(seq![x][0] == x);
    assert(0 <= p < r.len());
    assert(r[p] == x[position(shape, swapped(coords(out, p as nat), a, b)) as int]);
}

} // verus!
