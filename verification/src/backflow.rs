//! What the gradient rules of the operations that move, sum or look up elements
//! give, by coordinates.

use crate::broadcast::{expanded_val, narrowed_val, spread_val};
use crate::device::{lemma_padded, padded, scalar_val, transposed_val};
use crate::host::{at2, at3};
use crate::index::{embedding_from, gather_from, lemma_at2_parts, lemma_parts_at2, lemma_row_bound};
use crate::kernels::{inner, outer, MAX_RANK};
use crate::launch::{first_long, Kernel, Real};
use crate::meaning::{listed, Datum, Machine, World};
use crate::moves::lemma_swapped_range;
use crate::places::{before, facing, lemma_axis, lemma_axis_update, lemma_low_positions, under};
use crate::program::{Term, Val};
use crate::rows::{
    embedding_grad_val, gather_grad_val, gather_last_grad_val, swapped_index_val,
};
use crate::rules::{part, saved};
use crate::scatter::collected;
use crate::shape::{
    coords, expands_to, in_range, lemma_coords_of_position, lemma_low_rank, lemma_numel_axis,
    lemma_numel_le_span, lemma_numel_swapped, lemma_position_bound, lemma_position_of_coords,
    lemma_positive, numel, position, regular, span, swapped, tail,
};
use crate::slopes::repeats_to;
use crate::sweeps::lemma_in_row;
use crate::tape::{extent_sum, TapeOp};
use crate::values::{lemma_axis_counts, lemma_window_counts};
use vstd::prelude::*;

verus! {

impl<
    T: Copy,
    A: Fn(T, T) -> T,
    M: Fn(T, T) -> T,
    S: Fn(T, T) -> T,
    E: Fn(T) -> T,
    N: Fn(T) -> T,
    I: Fn(T) -> T,
    L: Fn(T) -> T,
    G: Fn(T, T) -> bool,
    P: Fn(T, T) -> T,
    R: Fn(T) -> T,
    D: Fn(T) -> T,
> Machine<T, A, M, S, E, N, I, L, G, P, R, D> {
    /// The gradient of another shape's tensor has the first shape and the same
    /// numbers.
    pub proof fn law_reshape_gradients_keep_the_numbers(self, world: World<T>, op: TapeOp, g: Val)
        requires
            op is Reshape,
            self.filled(world, g),
            numel(op->Reshape_orig_shape@) == g.count(),
        ensures
            ({
                &&& part(op, 0, g) matches Ok(y)
                &&& y.dims == op->Reshape_orig_shape@
                &&& self.filled(world, y)
                &&& self.nums(world, y) == self.nums(world, g)
            }),
    {
    }

    /// The gradient of a transposition exchanges the coordinates back.
    pub proof fn law_transposition_gradients_exchange_back(
        self,
        world: World<T>,
        op: TapeOp,
        g: Val,
    )
        requires
            op is Transpose,
            self.filled(world, g),
            regular(g.dims),
            g.dims.len() <= MAX_RANK,
            op->Transpose_dim_a < g.dims.len(),
            op->Transpose_dim_b < g.dims.len(),
        ensures
            ({
                let (a, b) = (op->Transpose_dim_a as int, op->Transpose_dim_b as int);
                &&& part(op, 0, g) matches Ok(y)
                &&& y.dims == g.dims.update(a, g.dims[b]).update(b, g.dims[a])
                &&& self.filled(world, y)
                &&& forall|c: Seq<nat>|
                    in_range(y.dims, c) ==> #[trigger] self.at(world, y, c) == self.at(
                        world,
                        g,
                        c.update(a, c[b]).update(b, c[a]),
                    )
            }),
    {
        self.law_transposition_exchanges_coordinates(
            world,
            "transpose_inner",
            g,
            op->Transpose_dim_a,
            op->Transpose_dim_b,
        );
        let (a, b) = (op->Transpose_dim_a as int, op->Transpose_dim_b as int);
        let y = part(op, 0, g)->Ok_0;
        assert(y.dims =~= g.dims.update(a, g.dims[b]).update(b, g.dims[a]));
    }

    /// The gradient of a window is the window's gradient where the window was,
    /// and zero everywhere else.
    pub proof fn law_window_gradients_go_back_into_place(
        self,
        world: World<T>,
        op: TapeOp,
        g: Val,
    )
        requires
            op is Narrow,
            self.filled(world, g),
            regular(op->Narrow_orig_shape@),
            op->Narrow_dim < op->Narrow_orig_shape@.len(),
            op->Narrow_start + op->Narrow_len <= op->Narrow_orig_shape@[op->Narrow_dim as int],
            g.dims == op->Narrow_orig_shape@.update(op->Narrow_dim as int, op->Narrow_len),
        ensures
            ({
                let d = op->Narrow_dim as int;
                let start = op->Narrow_start;
                &&& part(op, 0, g) matches Ok(y)
                &&& y.dims == op->Narrow_orig_shape@
                &&& self.filled(world, y)
                &&& forall|c: Seq<nat>|
                    in_range(y.dims, c) ==> #[trigger] self.at(world, y, c) == (if start <= c[d]
                        < start + op->Narrow_len {
                        self.at(world, g, c.update(d, (c[d] - start) as nat))
                    } else {
                        self.arith.zero
                    })
            }),
    {
        self.lemma_window_back(
            world,
            g,
            op->Narrow_dim,
            op->Narrow_start,
            op->Narrow_orig_shape@,
        );
    }

    proof fn lemma_window_back(
        self,
        world: World<T>,
        g: Val,
        dim: usize,
        start: usize,
        orig: Seq<usize>,
    )
        requires
            regular(orig),
            dim < orig.len(),
            g.dims == orig.update(dim as int, g.dims[dim as int]),
            start + g.dims[dim as int] <= orig[dim as int],
        ensures
            ({
                let d = dim as int;
                &&& spread_val(g, dim, start, orig) matches Ok(y)
                &&& y.dims == orig
                &&& self.filled(world, y)
                &&& forall|c: Seq<nat>|
                    in_range(orig, c) ==> #[trigger] self.at(world, y, c) == (if start <= c[d]
                        < start + g.dims[d] {
                        self.at(world, g, c.update(d, (c[d] - start) as nat))
                    } else {
                        self.arith.zero
                    })
            }),
    {
        let d = dim as int;
        let len = g.dims[d];
        lemma_positive(orig);
        lemma_axis_counts(orig, d);
        lemma_numel_axis(g.dims, d);
        assert(g.dims.subrange(0, d) =~= orig.subrange(0, d));
        assert(tail(g.dims, d + 1) =~= tail(orig, d + 1));
        let (o, r, e) = (outer(orig, d) as int, inner(orig, d) as int, orig[d] as int);
        lemma_window_counts(o, e, r, len as int, start as int, numel(orig) as int);
        assert(o * (len * r) == o * len * r) by (nonlinear_arith);
        reveal_with_fuel(first_long, 6);
        let lens = seq![(o * e * r) as usize, orig[d], len, start, r as usize];
        assert(first_long(lens, 0) is None);
        self.lemma_spread_out(world, g, dim, start, orig);
    }

    /// The gradient of a repeated tensor is, at every place, the sum of the
    /// gradients of all its copies.
    pub proof fn law_repeat_gradients_sum_the_copies(self, world: World<T>, op: TapeOp, g: Val)
        requires
            self.arith.exact(),
            op is BroadcastAs,
            self.filled(world, g),
            regular(g.dims),
            expands_to(op->BroadcastAs_orig_shape@, g.dims),
        ensures
            ({
                let t = op->BroadcastAs_orig_shape@;
                &&& part(op, 0, g) matches Ok(y)
                &&& y.dims == t
                &&& self.filled(world, y)
                &&& forall|c: Seq<nat>|
                    in_range(t, c) ==> #[trigger] self.at(world, y, c) == self.gathered(
                        world,
                        g,
                        t,
                        c,
                    )
            }),
    {
        let t = op->BroadcastAs_orig_shape@;
        assert forall|k: int| 0 <= k < t.len() implies #[trigger] facing(t, k) == facing(g.dims, k)
            || facing(t, k) == 1 by {
            let i = t.len() - 1 - k;
            assert(t[i] == g.dims[i] || t[i] == 1);
        }
        self.law_summing_back_gathers_what_was_repeated(world, g, t);
    }

    /// Each part of a concatenation is handed the gradients of the places that
    /// it was laid at.
    pub proof fn law_concatenation_gradients_are_cut_apart(
        self,
        world: World<T>,
        op: TapeOp,
        g: Val,
        k: int,
    )
        requires
            op is Concat,
            self.filled(world, g),
            regular(g.dims),
            op->Concat_dim < g.dims.len(),
            0 <= k < op->Concat_input_shapes@.len(),
            extent_sum(op->Concat_input_shapes@, op->Concat_dim as int, k)
                + op->Concat_input_shapes@[k]@[op->Concat_dim as int]
                <= g.dims[op->Concat_dim as int],
            0 <= extent_sum(op->Concat_input_shapes@, op->Concat_dim as int, k),
        ensures
            ({
                let d = op->Concat_dim as int;
                let shapes = op->Concat_input_shapes@;
                &&& part(op, k, g) matches Ok(y)
                &&& y.dims == g.dims.update(d, shapes[k]@[d])
                &&& self.filled(world, y)
                &&& forall|c: Seq<nat>|
                    in_range(y.dims, c) ==> #[trigger] self.at(world, y, c) == self.at(
                        world,
                        g,
                        c.update(d, (c[d] + extent_sum(shapes, d, k)) as nat),
                    )
            }),
    {
        let d = op->Concat_dim as int;
        let shapes = op->Concat_input_shapes@;
        let start = extent_sum(shapes, d, k) as usize;
        lemma_positive(g.dims);
        self.law_windows_hold_what_they_frame(
            world,
            g,
            op->Concat_dim,
            start,
            shapes[k]@[d],
        );
    }

    /// The gradient of a running sum is, at every place, the sum of the
    /// gradients along the axis from there to the end.
    pub proof fn law_running_sum_gradients_add_what_comes_after(
        self,
        world: World<T>,
        op: TapeOp,
        g: Val,
    )
        requires
            op is Cumsum,
            self.filled(world, g),
            regular(g.dims),
            1 <= g.dims.len() <= usize::MAX,
        ensures
            part(op, 0, g) matches Ok(y) ==> {
                let k = op->Cumsum_dim as int;
                &&& k < g.dims.len()
                &&& y.dims == g.dims
                &&& self.filled(world, y)
                &&& forall|c: Seq<nat>|
                    in_range(y.dims, c) ==> #[trigger] self.at(world, y, c) == self.arith.tally(
                        g.dims[k] - c[k],
                        |a: int| self.at(world, g, c.update(k, (g.dims[k] - 1 - a) as nat)),
                    )
            },
    {
        self.lemma_back_sums(world, "transpose_inner", g, op->Cumsum_dim);
    }

    /// The gradient of a total is its one number at every place, and that of a
    /// mean this number times one over the count.
    pub proof fn law_total_gradients_are_spread_evenly(
        self,
        world: World<T>,
        op: TapeOp,
        g: Val,
        dims: Seq<usize>,
    )
        requires
            op is SumAll || op is MeanAll,
            op matches TapeOp::SumAll { input_shape, .. } ==> dims == input_shape@,
            op matches TapeOp::MeanAll { input_shape, numel: n, .. } ==> dims == input_shape@
                && n == numel(dims),
            self.filled(world, g),
            g.dims == seq![1usize],
            numel(dims) <= u32::MAX,
            dims.len() <= MAX_RANK,
        ensures
            ({
                &&& part(op, 0, g) matches Ok(y)
                &&& y.dims == dims
                &&& self.filled(world, y)
                &&& forall|i: int|
                    0 <= i < numel(dims) ==> #[trigger] self.nums(world, y)[i] == (if op is SumAll {
                        self.nums(world, g)[0]
                    } else {
                        self.arith.prod(
                            self.nums(world, g)[0],
                            (self.number)(Real::OneOver(numel(dims) as usize)),
                        )
                    })
            }),
    {
        lemma_low_rank(g.dims);
        let s = if op is SumAll {
            g
        } else {
            self.lemma_scaled(world, Kernel::MulScalar, g, Real::OneOver(numel(dims) as usize));
            scalar_val(Kernel::MulScalar, g, Real::OneOver(numel(dims) as usize))
        };
        let ones = padded(Seq::<usize>::empty(), dims.len());
        let w = Val { term: s.term, dims: ones };
        lemma_padded(Seq::<usize>::empty(), dims.len());
        assert(expands_to(ones, dims));
        let y = part(op, 0, g)->Ok_0;
        self.lemma_expanded(world, "broadcast_as_inner", w, dims);
        assert forall|i: int| 0 <= i < numel(dims) implies #[trigger] self.nums(world, y)[i]
            == self.nums(world, s)[0] by {
            let c = coords(dims, i as nat);
            lemma_position_of_coords(dims, i as nat);
            assert(self.at(world, y, c) == self.at(world, w, under(ones, c)));
            let u = under(ones, c);
            assert(in_range(ones, u));
            lemma_position_bound(ones, u);
        }
    }

    /// What adding back where elements were read from leaves.
    proof fn lemma_added(
        self,
        n: nat,
        g: Seq<T>,
        from: spec_fn(int) -> Option<int>,
        p: int,
    )
        requires
            self.arith.exact(),
            0 <= p < n,
            n <= usize::MAX,
            forall|i: int|
                0 <= i < g.len() ==> (#[trigger] from(i) matches Some(q) ==> 0 <= q < n),
        ensures
            ({
                let zeros = Seq::new(n, |i: int| self.arith.zero);
                self.added_back(zeros, g, from)[p] == self.arith.tally(
                    g.len() as int,
                    |i: int|
                        if from(i) == Some(p) {
                            g[i]
                        } else {
                            self.arith.zero
                        },
                )
            }),
    {
        let list = listed(g.len(), from);
        self.arith.lemma_collected_tally(g, list, p);
        let f = |i: int|
            if list[i] matches Some(q) && q == p {
                g[i]
            } else {
                self.arith.zero
            };
        let h = |i: int|
            if from(i) == Some(p) {
                g[i]
            } else {
                self.arith.zero
            };
        assert forall|i: int| 0 <= i < g.len() implies #[trigger] f(i) == h(i) by {
            if let Some(q) = from(i) {
                assert(list[i] == Some(q as usize));
            }
        }
        self.arith.lemma_tally_same(g.len() as int, f, h);
    }

    /// The gradient of a lookup: every element of the table is handed the sum of
    /// the gradients of its column at all places whose index names its row.
    pub proof fn law_lookup_gradients_go_to_the_rows_named(
        self,
        world: World<T>,
        op: TapeOp,
        g: Val,
        v: nat,
        j: nat,
    )
        requires
            self.arith.exact(),
            op is Embedding,
            self.filled(world, g),
            self.indexed(world, saved(op->Embedding_indices_val)),
            op->Embedding_table_shape@.len() == 2,
            g.dims == op->Embedding_indices_val.dims().push(op->Embedding_table_shape@[1]),
            span(g.dims) <= usize::MAX,
            span(op->Embedding_indices_val.dims()) <= usize::MAX,
            span(op->Embedding_table_shape@) <= usize::MAX,
            v < op->Embedding_table_shape@[0],
            j < op->Embedding_table_shape@[1],
        ensures
            part(op, 0, g) matches Ok(y) ==> {
                let idx = saved(op->Embedding_indices_val);
                let k = idx.dims.len() as int;
                &&& y.dims == op->Embedding_table_shape@
                &&& self.filled(world, y)
                &&& self.at(world, y, seq![v, j]) == self.arith.tally(
                    g.count() as int,
                    |i: int|
                        {
                            let e = coords(g.dims, i as nat);
                            if self.ids(world, idx)[position(idx.dims, e.subrange(0, k)) as int]
                                == v && e[k] == j {
                                self.nums(world, g)[i]
                            } else {
                                self.arith.zero
                            }
                        },
                )
            },
    {
        self.lemma_lookup_back(
            world,
            g,
            saved(op->Embedding_indices_val),
            op->Embedding_table_shape@,
            v,
            j,
        );
    }

    #[verifier::rlimit(60)]
    #[verifier::spinoff_prover]
    proof fn lemma_lookup_back(
        self,
        world: World<T>,
        g: Val,
        idx: Val,
        table: Seq<usize>,
        v: nat,
        j: nat,
    )
        requires
            self.arith.exact(),
            self.filled(world, g),
            self.indexed(world, idx),
            table.len() == 2,
            g.dims == idx.dims.push(table[1]),
            span(g.dims) <= usize::MAX,
            span(idx.dims) <= usize::MAX,
            span(table) <= usize::MAX,
            v < table[0],
            j < table[1],
        ensures
            embedding_grad_val(g, idx, table) matches Ok(y) ==> {
                let k = idx.dims.len() as int;
                &&& y.dims == table
                &&& self.filled(world, y)
                &&& self.at(world, y, seq![v, j]) == self.arith.tally(
                    g.count() as int,
                    |i: int|
                        {
                            let e = coords(g.dims, i as nat);
                            if self.ids(world, idx)[position(idx.dims, e.subrange(0, k)) as int]
                                == v && e[k] == j {
                                self.nums(world, g)[i]
                            } else {
                                self.arith.zero
                            }
                        },
                )
            },
    {
        if let Ok(y) = embedding_grad_val(g, idx, table) {
            let (vocab, width) = (table[0], table[1]);
            let w = width as int;
            let k = idx.dims.len() as int;
            let s = g.dims;
            lemma_numel_le_span(idx.dims);
            lemma_numel_le_span(s);
            lemma_numel_le_span(table);
            lemma_numel_axis(s, k);
            assert(s.subrange(0, k) =~= idx.dims);
            lemma_low_rank(tail(s, k + 1));
            lemma_low_rank(table);
            let count = idx.count();
            assert(numel(s) == count * width) by {
                assert((width as nat) * 1 == width as nat);
            }
            let n = numel(s);
            reveal_with_fuel(first_long, 5);
            let lens = seq![n as usize, count as usize, width, vocab];
            assert(first_long(lens, 0) is None);
            assert(lens[0] <= u32::MAX && lens[1] <= u32::MAX && lens[2] <= u32::MAX && lens[3]
                <= u32::MAX);
            if let Term::Run { kernel, config, args } = y.term {
                self.lemma_arguments(world, args);
                let a = self.arguments(world, args);
                assert(a[0] == self.data(world, Term::Zeros(numel(table))));
                assert(a[1] == self.data(world, idx.term));
                assert(a[2] == self.data(world, g.term));
                assert(a[4].word() == width && a[5].word() == vocab);
                let ids = self.ids(world, idx);
                let gs = self.nums(world, g);
                let zeros = Seq::new(numel(table), |i: int| self.arith.zero);
                assert(a[0].numbers() == zeros);
                let from = |i: int| embedding_from(i, ids[i / w] as int, w, vocab as int);
                assert(self.nums(world, y) == self.added_back(zeros, gs, from));
                let p = at2(v as int, w, j as int);
                lemma_low_positions(table, seq![v, j]);
                crate::host::lemma_at2(v as int, w, j as int, vocab as int);
                assert(0 <= v * w) by (nonlinear_arith)
                    requires
                        w >= 0,
                ;
                assert forall|i: int| 0 <= i < gs.len() implies (#[trigger] from(i) matches Some(q)
                    ==> 0 <= q < numel(table)) by {
                    let raw = ids[i / w] as int;
                    if 0 <= raw < vocab {
                        lemma_parts_at2(i, w);
                        crate::host::lemma_at2(raw, w, i % w, vocab as int);
                        assert(0 <= raw * w) by (nonlinear_arith)
                            requires
                                raw >= 0,
                                w >= 0,
                        ;
                    }
                }
                self.lemma_added(numel(table), gs, from, p);
                let f = |i: int|
                    if from(i) == Some(p) {
                        gs[i]
                    } else {
                        self.arith.zero
                    };
                let h = |i: int|
                    {
                        let e = coords(g.dims, i as nat);
                        if self.ids(world, idx)[position(idx.dims, e.subrange(0, k)) as int] == v
                            && e[k] == j {
                            self.nums(world, g)[i]
                        } else {
                            self.arith.zero
                        }
                    };
                assert forall|i: int| 0 <= i < n implies #[trigger] f(i) == h(i) by {
                    let e = coords(s, i as nat);
                    lemma_position_of_coords(s, i as nat);
                    lemma_in_row(s, e);
                    assert(before(s, e, k) == position(idx.dims, e.subrange(0, k)));
                    let raw = ids[i / w] as int;
                    if 0 <= raw < vocab {
                        lemma_at2_parts(raw, w, i % w);
                        lemma_at2_parts(v as int, w, j as int);
                    }
                }
                self.arith.lemma_tally_same(n as int, f, h);
            }
        }
    }

    /// What adding back where a pick along the last axis read leaves.
    proof fn lemma_put_back(self, world: World<T>, g: Val, idx: Val, dims: Seq<usize>)
        requires
            self.arith.exact(),
            self.filled(world, g),
            self.indexed(world, idx),
            g.dims == idx.dims,
            dims.len() >= 1,
            dims.len() == idx.dims.len(),
            dims == idx.dims.update(dims.len() - 1, dims[dims.len() - 1]),
            span(idx.dims) <= usize::MAX,
            span(dims) <= usize::MAX,
            gather_last_grad_val(g, idx, dims) is Ok,
        ensures
            ({
                let y = gather_last_grad_val(g, idx, dims)->Ok_0;
                &&& y.dims == dims
                &&& self.filled(world, y)
                &&& forall|c: Seq<nat>|
                    in_range(dims, c) ==> #[trigger] self.at(world, y, c) == self.returned(
                        world,
                        g,
                        idx,
                        dims,
                        dims.len() - 1,
                        c,
                    )
            }),
    {
        let y = gather_last_grad_val(g, idx, dims)->Ok_0;
        let k = dims.len() - 1;
        let n = g.count();
        lemma_numel_le_span(idx.dims);
        lemma_numel_le_span(dims);
        let (ls, li) = (dims[k], idx.dims[k]);
        reveal_with_fuel(first_long, 4);
        let lens = seq![n as usize, ls, li];
        assert(first_long(lens, 0) is None);
        assert(lens[0] <= u32::MAX && lens[1] <= u32::MAX && lens[2] <= u32::MAX);
        if let Term::Run { kernel, config, args } = y.term {
            self.lemma_arguments(world, args);
            let a = self.arguments(world, args);
            assert(a[0] == self.data(world, Term::Zeros(numel(dims))));
            assert(a[1] == self.data(world, idx.term));
            assert(a[2] == self.data(world, g.term));
            assert(a[4].word() == ls && a[5].word() == li);
            let ids = self.ids(world, idx);
            let gs = self.nums(world, g);
            let zeros = Seq::new(numel(dims), |i: int| self.arith.zero);
            assert(a[0].numbers() == zeros);
            let from = |i: int| gather_from(i, ids[i] as int, ls as int, li as int);
            assert(self.nums(world, y) == self.added_back(zeros, gs, from));
            assert forall|i: int| 0 <= i < n implies (#[trigger] from(i) matches Some(q) ==> 0 <= q
                < numel(dims) && q == position(
                dims,
                coords(g.dims, i as nat).update(k, ids[i] as nat),
            ) && in_range(dims, coords(g.dims, i as nat).update(k, ids[i] as nat))) by {
                let e = coords(g.dims, i as nat);
                lemma_position_of_coords(g.dims, i as nat);
                lemma_in_row(g.dims, e);
                let id = ids[i] as int;
                if 0 <= id < ls {
                    let u = e.update(k, id as nat);
                    lemma_axis_update(g.dims, e, k, ls, id as nat);
                    assert(g.dims.update(k, ls) =~= dims);
                    lemma_in_row(dims, u);
                    lemma_position_bound(dims, u);
                }
            }
            assert forall|c: Seq<nat>| in_range(dims, c) implies #[trigger] self.at(world, y, c)
                == self.returned(world, g, idx, dims, k, c) by {
                let p = position(dims, c) as int;
                lemma_position_bound(dims, c);
                lemma_coords_of_position(dims, c);
                self.lemma_added(numel(dims), gs, from, p);
                let f = |i: int|
                    if from(i) == Some(p) {
                        gs[i]
                    } else {
                        self.arith.zero
                    };
                let h = |i: int| self.returned_by(world, g, idx, dims, k, c, i);
                assert forall|i: int| 0 <= i < n implies #[trigger] f(i) == h(i) by {
                    let e = coords(g.dims, i as nat);
                    let id = ids[i] as int;
                    if let Some(q) = from(i) {
                        lemma_coords_of_position(dims, e.update(k, id as nat));
                    }
                }
                self.arith.lemma_tally_same(n as int, f, h);
            }
        }
    }

    /// The gradient of place `i`, if its index along axis `k` leads to `c`.
    pub open spec fn returned_by(
        self,
        world: World<T>,
        g: Val,
        idx: Val,
        dims: Seq<usize>,
        k: int,
        c: Seq<nat>,
        i: int,
    ) -> T {
        let e = coords(g.dims, i as nat);
        let id = self.ids(world, idx)[i];
        if 0 <= id < dims[k] && e.update(k, id as nat) == c {
            self.nums(world, g)[i]
        } else {
            self.arith.zero
        }
    }

    /// The sum of the gradients of all places whose index along axis `k` leads
    /// to `c`.
    pub open spec fn returned(
        self,
        world: World<T>,
        g: Val,
        idx: Val,
        dims: Seq<usize>,
        k: int,
        c: Seq<nat>,
    ) -> T {
        self.arith.tally(
            g.count() as int,
            |i: int| self.returned_by(world, g, idx, dims, k, c, i),
        )
    }

    /// The gradient of a pick along an axis: every element is handed the sum of
    /// the gradients of all places whose index leads to it.
    pub proof fn law_pick_gradients_go_where_the_indices_lead(
        self,
        world: World<T>,
        op: TapeOp,
        g: Val,
    )
        requires
            self.arith.exact(),
            op is Gather,
            self.filled(world, g),
            self.indexed(world, saved(op->Gather_indices_val)),
            g.dims == op->Gather_indices_val.dims(),
            1 <= g.dims.len() <= usize::MAX,
            op->Gather_dim < g.dims.len(),
            op->Gather_input_shape@ == g.dims.update(
                op->Gather_dim as int,
                op->Gather_input_shape@[op->Gather_dim as int],
            ),
            span(g.dims) <= usize::MAX,
            span(op->Gather_input_shape@) <= usize::MAX,
        ensures
            part(op, 0, g) matches Ok(y) ==> {
                let idx = saved(op->Gather_indices_val);
                let dims = op->Gather_input_shape@;
                &&& y.dims == dims
                &&& self.filled(world, y)
                &&& forall|c: Seq<nat>|
                    in_range(dims, c) ==> #[trigger] self.at(world, y, c) == self.returned(
                        world,
                        g,
                        idx,
                        dims,
                        op->Gather_dim as int,
                        c,
                    )
            },
    {
        self.lemma_pick_back(
            world,
            g,
            saved(op->Gather_indices_val),
            op->Gather_dim,
            op->Gather_input_shape@,
        );
    }

    #[verifier::rlimit(60)]
    #[verifier::spinoff_prover]
    proof fn lemma_pick_back(
        self,
        world: World<T>,
        g: Val,
        idx: Val,
        dim: usize,
        dims: Seq<usize>,
    )
        requires
            self.arith.exact(),
            self.filled(world, g),
            self.indexed(world, idx),
            g.dims == idx.dims,
            1 <= g.dims.len() <= usize::MAX,
            dim < g.dims.len(),
            dims == g.dims.update(dim as int, dims[dim as int]),
            span(g.dims) <= usize::MAX,
            span(dims) <= usize::MAX,
        ensures
            gather_grad_val(g, idx, dim, dims) matches Ok(y) ==> {
                &&& y.dims == dims
                &&& self.filled(world, y)
                &&& forall|c: Seq<nat>|
                    in_range(dims, c) ==> #[trigger] self.at(world, y, c) == self.returned(
                        world,
                        g,
                        idx,
                        dims,
                        dim as int,
                        c,
                    )
            },
    {
        let d = dim as int;
        if let Ok(y) = gather_grad_val(g, idx, dim, dims) {
            let last = (dims.len() - 1) as usize;
            let l = last as int;
            if dim == last {
                self.lemma_put_back(world, g, idx, dims);
            } else {
                let gt = transposed_val("transpose_inner", g, dim, last)->Ok_0;
                let it = swapped_index_val(idx, dim, last);
                let dt = swapped(dims, d, l);
                let yt = gather_last_grad_val(gt, it, dt)->Ok_0;
                self.lemma_transposed(world, "transpose_inner", g, dim, last);
                self.lemma_swapped_ids(world, idx, dim, last);
                lemma_numel_swapped(dims, d, l);
                assert(dt =~= it.dims.update(l, dt[l]));
                self.lemma_put_back(world, gt, it, dt);
                self.lemma_transposed(world, "transpose_inner", yt, dim, last);
                assert(swapped(dt, d, l) =~= dims);
                assert forall|c: Seq<nat>| in_range(dims, c) implies #[trigger] self.at(world, y, c)
                    == self.returned(world, g, idx, dims, d, c) by {
                    let w = swapped(c, d, l);
                    lemma_swapped_range(dt, c, d, l);
                    assert(self.at(world, y, c) == self.at(world, yt, w));
                    let n = g.count() as int;
                    let f = |i: int| self.returned_by(world, g, idx, dims, d, c, i);
                    let h = |i: int| self.returned_by(world, gt, it, dt, l, w, i);
                    let to = |i: int|
                        position(gt.dims, swapped(coords(g.dims, i as nat), d, l)) as int;
                    let back = |j: int|
                        position(g.dims, swapped(coords(gt.dims, j as nat), d, l)) as int;
                    assert(swapped(gt.dims, d, l) =~= g.dims);
                    assert forall|i: int| 0 <= i < n implies 0 <= #[trigger] to(i) < n && back(
                        to(i),
                    ) == i by {
                        let e = coords(g.dims, i as nat);
                        lemma_position_of_coords(g.dims, i as nat);
                        lemma_swapped_range(gt.dims, e, d, l);
                        lemma_position_bound(gt.dims, swapped(e, d, l));
                        lemma_coords_of_position(gt.dims, swapped(e, d, l));
                    }
                    assert forall|j: int| 0 <= j < n implies 0 <= #[trigger] back(j) < n && to(
                        back(j),
                    ) == j && f(back(j)) == h(j) by {
                        let e = coords(gt.dims, j as nat);
                        lemma_position_of_coords(gt.dims, j as nat);
                        lemma_swapped_range(g.dims, e, d, l);
                        let u = swapped(e, d, l);
                        lemma_position_bound(g.dims, u);
                        lemma_coords_of_position(g.dims, u);
                        assert(self.at(world, gt, e) == self.at(world, g, u));
                        assert(self.ids(world, it)[position(it.dims, e) as int] == self.ids(
                            world,
                            idx,
                        )[position(idx.dims, u) as int]);
                        let id = self.ids(world, it)[j];
                        if 0 <= id < dims[d] {
                            let (p, q) = (u.update(d, id as nat), e.update(l, id as nat));
                            assert(swapped(q, d, l) =~= p);
                            assert(swapped(p, d, l) =~= q);
                            if p == c {
                                assert(q =~= w);
                            }
                            if q == w {
                                assert(p =~= c) by {
                                    assert(swapped(w, d, l) =~= c);
                                }
                            }
                        }
                    }
                    self.arith.lemma_tally_permuted(n, f, to, back);
                    let moved = |j: int| f(back(j));
                    assert forall|j: int| 0 <= j < n implies #[trigger] moved(j) == h(j) by {
                        assert(0 <= back(j) < n);
                    }
                    self.arith.lemma_tally_same(n, moved, h);
                }
            }
        }
    }
}

} // verus!
