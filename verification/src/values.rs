//! What holds of the numbers that tensors hold.

use crate::compound::{
    concat_dims, concat_val, dims_of, extents_of, lemma_concat_error, lemma_first_odd, shapes_of,
};
use crate::device::transposed_val;
use crate::host::{at2, at3, concat_at, lemma_at2, lemma_at3, lemma_offset, offset_of};
use crate::index::{
    axis_parts, law_concatenation_keeps_its_parts, law_transposition_undoes_itself, lemma_at2_parts,
    lemma_parts_at2, lemma_parts_of_at3, lemma_row_bound, naturals, transposed_from, Window,
};
use crate::kernels::{inner, outer, table_of};
use crate::launch::{first_long, Kernel};
use crate::meaning::{Datum, Machine, World};
use crate::ops::window_val;
use crate::program::{HostTaskView, Term, TermArg, Val};
use crate::rows::scan_val;
use crate::rules::saved;
use crate::scan::{row_at, rows, scannable, Head, ScanSeqs};
use crate::shape::{
    law_transpose_is_self_inverse, law_transpose_reads_exchanged_coordinates, lemma_numel_axis,
    lemma_numel_le_span, lemma_numel_swapped, lemma_positive, lemma_span_run, numel, regular,
    row_major, span, strided, swapped, tail,
};
use crate::ssd::ScanDims;
use crate::tape::extent_sum;
use crate::tensor::CudaTensor;
use vstd::prelude::*;

verus! {

/// Strides that fit a kernel's words are what the kernel gets.
pub(crate) proof fn lemma_words(t: Seq<nat>)
    requires
        forall|i: int| 0 <= i < t.len() ==> #[trigger] t[i] <= u32::MAX,
    ensures
        naturals(table_of(t)) == t,
{
    assert(naturals(table_of(t)) =~= t);
}

/// The strides of a shape that is not empty are no larger than its count.
pub(crate) proof fn lemma_strides_fit(s: Seq<usize>)
    requires
        numel(s) > 0,
    ensures
        forall|i: int| 0 <= i < s.len() ==> #[trigger] row_major(s)[i] <= numel(s),
{
    assert forall|i: int| 0 <= i < s.len() implies #[trigger] row_major(s)[i] <= numel(s) by {
        lemma_numel_axis(s, i);
        let p = numel(s.subrange(0, i)) as int;
        let e = s[i] as int;
        let r = numel(tail(s, i + 1)) as int;
        assert(r <= p * (e * r)) by (nonlinear_arith)
            requires
                p * (e * r) > 0,
                p >= 0,
                e >= 0,
                r >= 0,
        ;
    }
}

/// The element that a transposition reads is one of the matrix.
proof fn lemma_transposed_bound(i: int, rows: int, cols: int)
    requires
        0 <= i < rows * cols,
        rows >= 0,
        cols >= 0,
    ensures
        0 <= transposed_from(i, rows, cols) < rows * cols,
{
    assert(i < cols * rows) by (nonlinear_arith)
        requires
            i < rows * cols,
    ;
    lemma_row_bound(i, cols, rows);
    lemma_parts_at2(i, rows);
    lemma_at2(i % rows, cols, i / rows, rows);
    assert(0 <= (i % rows) * cols) by (nonlinear_arith)
        requires
            0 <= i % rows,
            cols >= 0,
    ;
}

/// Which of the first `n` parts of a concatenation place `a` of the axis
/// belongs to.
spec fn part_at(lens: Seq<usize>, a: int, n: int) -> int
    decreases n,
{
    if n <= 1 {
        0
    } else if a >= offset_of(lens, n - 1) {
        n - 1
    } else {
        part_at(lens, a, n - 1)
    }
}

proof fn lemma_part_at(lens: Seq<usize>, a: int, k: int, n: int)
    requires
        0 <= k < n <= lens.len(),
        offset_of(lens, k) <= a < offset_of(lens, k + 1),
    ensures
        part_at(lens, a, n) == k,
    decreases n,
{
    if k < n - 1 {
        lemma_offset(lens, k + 1, n - 1);
        lemma_part_at(lens, a, k, n - 1);
    }
}

/// The numbers of a concatenation.
spec fn joined<T>(ins: Seq<Seq<T>>, outer: int, lens: Seq<usize>, inner: int) -> Seq<T> {
    let total = offset_of(lens, lens.len() as int);
    Seq::new(
        (outer * total * inner) as nat,
        |x: int|
            {
                let (o, a, i) = axis_parts(x, total, inner);
                let k = part_at(lens, a, lens.len() as int);
                ins[k][at3(o, lens[k] as int, a - offset_of(lens, k), inner, i)]
            },
    )
}

/// Every element of a part stands where a concatenation has it.
proof fn lemma_joined<T>(
    ins: Seq<Seq<T>>,
    outer: int,
    lens: Seq<usize>,
    inner: int,
    o: int,
    k: int,
    e: int,
)
    requires
        0 <= o < outer,
        0 <= k < lens.len(),
        inner >= 0,
        0 <= e < lens[k] * inner,
    ensures
        joined(ins, outer, lens, inner)[concat_at(lens, inner, o, k, e)] == ins[k][at2(
            o,
            lens[k] * inner,
            e,
        )],
{
    let t = offset_of(lens, lens.len() as int);
    let s = offset_of(lens, k);
    let l = lens[k] as int;
    lemma_row_bound(e, l, inner);
    lemma_parts_at2(e, inner);
    let a = e / inner;
    let i = e % inner;
    lemma_offset(lens, 0, k);
    lemma_offset(lens, k + 1, lens.len() as int);
    assert(offset_of(lens, k + 1) == s + l);
    let x = at3(o, t, s + a, inner, i);
    assert(concat_at(lens, inner, o, k, e) == x) by (nonlinear_arith)
        requires
            concat_at(lens, inner, o, k, e) == (o * t + s) * inner + e,
            x == (o * t + (s + a)) * inner + i,
            e == a * inner + i,
    ;
    lemma_at3(o, t, s + a, inner, i, outer);
    lemma_parts_of_at3(o, t, s + a, inner, i);
    lemma_part_at(lens, s + a, k, lens.len() as int);
    assert(at2(o, l * inner, e) == at3(o, l, a, inner, i)) by (nonlinear_arith)
        requires
            at2(o, l * inner, e) == o * (l * inner) + e,
            at3(o, l, a, inner, i) == (o * l + a) * inner + i,
            e == a * inner + i,
    ;
}

/// Adding extents up one way or the other.
pub(crate) proof fn lemma_extents(ts: Seq<CudaTensor>, dim: int, k: int)
    requires
        0 <= k <= ts.len(),
    ensures
        extent_sum(shapes_of(ts), dim, k) == offset_of(extents_of(ts, dim), k),
    decreases k,
{
    if k > 0 {
        lemma_extents(ts, dim, k - 1);
    }
}

/// The counts before and after an axis can be held.
pub(crate) proof fn lemma_axis_counts(s: Seq<usize>, k: int)
    requires
        0 <= k < s.len(),
        span(s) <= usize::MAX,
    ensures
        outer(s, k) <= usize::MAX,
        inner(s, k) <= usize::MAX,
        numel(s) == outer(s, k) * s[k] * inner(s, k),
        numel(s) <= usize::MAX,
{
    lemma_numel_axis(s, k);
    lemma_numel_le_span(s);
    lemma_span_run(s, 0, k);
    lemma_span_run(s, k + 1, s.len() as int);
    lemma_numel_le_span(s.subrange(0, k));
    lemma_numel_le_span(tail(s, k + 1));
    let o = outer(s, k) as int;
    let e = s[k] as int;
    let i = inner(s, k) as int;
    assert(o * (e * i) == o * e * i) by (nonlinear_arith);
}

impl<
    T: Copy,
    A: Fn(T, T) -> T,
    M: Fn(T, T) -> T,
    S: Fn(T, T) -> T,
    E: Fn(T) -> T,
    N: Fn(T) -> T,
    I: Fn(T) -> T,
    L: Fn(T) -> T,
    G: Fn(T, T) -> bool,
    P: Fn(T, T) -> T,
    R: Fn(T) -> T,
    D: Fn(T) -> T,
> Machine<T, A, M, S, E, N, I, L, G, P, R, D> {
    /// Whether a tensor's buffer holds as many numbers as its shape says.
    pub open spec fn filled(self, world: World<T>, v: Val) -> bool {
        self.data(world, v.term) matches Datum::Numbers(x) && x.len() == v.count()
    }

    /// The arguments of a kernel, one by one.
    pub(crate) proof fn lemma_arguments(self, world: World<T>, args: Seq<TermArg>)
        ensures
            self.arguments(world, args).len() == args.len(),
            forall|i: int|
                0 <= i < args.len() ==> #[trigger] self.arguments(world, args)[i] == (
                match args[i] {
                    TermArg::Value(v) => self.data(world, v),
                    TermArg::Word(w) => Datum::Word(w),
                    TermArg::Real(r) => Datum::Real(r),
                    TermArg::Table(t) => Datum::Table(t),
                }),
        decreases args.len(),
    {
        if args.len() > 0 {
            self.lemma_arguments(world, args.drop_last());
        }
    }

    /// Several buffers, one by one.
    pub(crate) proof fn lemma_all_data(self, world: World<T>, ts: Seq<Term>)
        ensures
            self.all_data(world, ts).len() == ts.len(),
            forall|i: int|
                0 <= i < ts.len() ==> #[trigger] self.all_data(world, ts)[i] == self.data(
                    world,
                    ts[i],
                ),
        decreases ts.len(),
    {
        if ts.len() > 0 {
            self.lemma_all_data(world, ts.drop_last());
        }
    }

    /// What a two-dimensional transposition leaves.
    pub(crate) proof fn lemma_flipped(self, world: World<T>, op: &'static str, v: Val, a: usize, b: usize)
        requires
            self.filled(world, v),
            v.dims.len() == 2,
            a < 2,
            b < 2,
            a != b,
            transposed_val(op, v, a, b) is Ok,
        ensures
            ({
                let y = transposed_val(op, v, a, b)->Ok_0;
                let x = self.data(world, v.term).numbers();
                let r = v.dims[0] as int;
                let c = v.dims[1] as int;
                &&& v.count() == r * c
                &&& self.data(world, y.term) == Datum::Numbers(
                    Seq::new(v.count(), |i: int| x[transposed_from(i, r, c)]),
                )
                &&& y.dims == swapped(v.dims, a as int, b as int)
                &&& first_long(
                    seq![v.count() as usize, v.dims[0], v.dims[1]],
                    0,
                ) is None
            }),
    {
        let n = v.count();
        let y = transposed_val(op, v, a, b)->Ok_0;
        let x = self.data(world, v.term).numbers();
        crate::shape::lemma_low_rank(v.dims);
        let lens = seq![n as usize, v.dims[0], v.dims[1]];
        reveal_with_fuel(first_long, 4);
        assert(lens[1] <= u32::MAX && lens[2] <= u32::MAX);
        if let Term::Run { kernel, config, args } = y.term {
            self.lemma_arguments(world, args);
            let d = self.arguments(world, args);
            assert(d[0] == self.data(world, v.term));
            assert(d[1] == self.data(world, Term::Zeros(n)));
            assert(d[1].numbers().len() == n);
            assert(d[2].word() == v.dims[0]);
            assert(d[3].word() == v.dims[1]);
            assert(self.left_by(kernel, config, d) =~= Seq::new(
                n,
                |i: int| x[transposed_from(i, v.dims[0] as int, v.dims[1] as int)],
            ));
        }
    }

    /// What a transposition of more axes leaves.
    pub(crate) proof fn lemma_exchanged(self, world: World<T>, op: &'static str, v: Val, a: usize, b: usize)
        requires
            self.filled(world, v),
            v.dims.len() != 2,
            a < v.dims.len(),
            b < v.dims.len(),
            a != b,
            transposed_val(op, v, a, b) is Ok,
        ensures
            ({
                let y = transposed_val(op, v, a, b)->Ok_0;
                let x = self.data(world, v.term).numbers();
                let out = swapped(v.dims, a as int, b as int);
                &&& self.data(world, y.term) == Datum::Numbers(
                    Seq::new(
                        v.count(),
                        |i: int|
                            x[strided(
                                i as nat,
                                row_major(out),
                                swapped(row_major(v.dims), a as int, b as int),
                            ) as int],
                    ),
                )
                &&& y.dims == out
            }),
    {
        let n = v.count();
        let y = transposed_val(op, v, a, b)->Ok_0;
        let x = self.data(world, v.term).numbers();
        let out = swapped(v.dims, a as int, b as int);
        let ins = swapped(row_major(v.dims), a as int, b as int);
        lemma_numel_swapped(v.dims, a as int, b as int);
        if let Term::Run { kernel, config, args } = y.term {
            self.lemma_arguments(world, args);
            let d = self.arguments(world, args);
            assert(d[0] == self.data(world, v.term));
            assert(d[1] == self.data(world, Term::Zeros(n)));
            assert(d[1].numbers().len() == n);
            if n > 0 {
                lemma_strides_fit(v.dims);
                lemma_strides_fit(out);
                assert forall|i: int| 0 <= i < ins.len() implies #[trigger] ins[i] <= u32::MAX by {
                    assert(row_major(v.dims)[i] <= n);
                    assert(row_major(v.dims)[a as int] <= n);
                    assert(row_major(v.dims)[b as int] <= n);
                }
                lemma_words(ins);
                lemma_words(row_major(out));
                assert(d[2].table() == ins);
                assert(d[3].table() == row_major(out));
            }
            assert(self.left_by(kernel, config, d) =~= Seq::new(
                n,
                |i: int| x[strided(i as nat, row_major(out), ins) as int],
            ));
        }
    }

    /// Exchanging two axes twice gives a tensor's shape and numbers back,
    /// whatever tensor `y` holds in between what the first exchange gave: its
    /// plan, or one that was run and committed.
    pub proof fn law_transposing_twice_gives_the_tensor_back(
        self,
        world: World<T>,
        after: World<T>,
        op: &'static str,
        v: Val,
        y: Val,
        a: usize,
        b: usize,
    )
        requires
            self.filled(world, v),
            transposed_val(op, v, a, b) is Ok,
            y.dims == transposed_val(op, v, a, b)->Ok_0.dims,
            self.data(after, y.term) == self.data(world, transposed_val(op, v, a, b)->Ok_0.term),
        ensures
            transposed_val(op, y, a, b) matches Ok(z) && z.dims == v.dims && self.data(after, z.term)
                == self.data(world, v.term),
    {
        let x = self.data(world, v.term).numbers();
        let n = v.count();
        if a != b {
            let out = swapped(v.dims, a as int, b as int);
            assert(swapped(out, a as int, b as int) =~= v.dims);
            lemma_numel_swapped(v.dims, a as int, b as int);
            if v.dims.len() == 2 {
                self.lemma_flipped(world, op, v, a, b);
                let r = v.dims[0] as int;
                let c = v.dims[1] as int;
                assert(out[0] == c && out[1] == r);
                reveal_with_fuel(first_long, 4);
                let lens = seq![n as usize, v.dims[0], v.dims[1]];
                let back = seq![n as usize, out[0], out[1]];
                assert(lens[0] <= u32::MAX && lens[1] <= u32::MAX && lens[2] <= u32::MAX);
                assert(first_long(back, 0) is None);
                self.lemma_flipped(after, op, y, a, b);
                let z = transposed_val(op, y, a, b)->Ok_0;
                let w = self.data(after, y.term).numbers();
                assert(self.data(after, z.term).numbers() =~= x) by {
                    assert forall|i: int| 0 <= i < n implies w[transposed_from(i, c, r)]
                        == x[i] by {
                        assert(c * r == r * c) by (nonlinear_arith);
                        lemma_transposed_bound(i, c, r);
                        law_transposition_undoes_itself(i, c, r);
                    }
                }
            } else {
                self.lemma_exchanged(world, op, v, a, b);
                self.lemma_exchanged(after, op, y, a, b);
                let z = transposed_val(op, y, a, b)->Ok_0;
                let w = self.data(after, y.term).numbers();
                assert(self.data(after, z.term).numbers() =~= x) by {
                    assert forall|i: int| 0 <= i < n implies self.data(
                        after,
                        z.term,
                    ).numbers()[i] == x[i] by {
                        law_transpose_is_self_inverse(v.dims, a as int, b as int, i as nat);
                        law_transpose_reads_exchanged_coordinates(
                            out,
                            a as int,
                            b as int,
                            i as nat,
                        );
                    }
                }
            }
        }
    }

    /// A concatenation holds what its step on the host says.
    pub(crate) proof fn lemma_concatenated(self, ins: Seq<Seq<T>>, rows: usize, lens: Seq<usize>, run: usize)
        requires
            ins.len() == lens.len(),
        ensures
            ({
                let task = HostTaskView::Concat { outer: rows, lens, inner: run };
                task.gives(
                    ins,
                    self.arith.zero,
                    self.arith.plus,
                    self.arith.minus,
                    self.arith.times,
                    self.computed(task, ins),
                )
            }),
    {
        let task = HostTaskView::Concat { outer: rows, lens, inner: run };
        let r = joined(ins, rows as int, lens, run as int);
        let t = offset_of(lens, lens.len() as int);
        lemma_offset(lens, 0, lens.len() as int);
        assert(rows * t * run >= 0) by (nonlinear_arith)
            requires
                t >= 0,
        ;
        assert(task.gives(
            ins,
            self.arith.zero,
            self.arith.plus,
            self.arith.minus,
            self.arith.times,
            r,
        )) by {
            assert forall|o: int, k: int, e: int|
                0 <= o < rows && 0 <= k < ins.len() && 0 <= e < lens[k] * run implies r[
            #[trigger] concat_at(lens, run as int, o, k, e)] == ins[k][at2(
                o,
                lens[k] * run,
                e,
            )] by {
                lemma_joined(ins, rows as int, lens, run as int, o, k, e);
            }
        }
    }

    /// The window of a concatenation that begins where a part begins, and is as
    /// long, has the shape and the numbers of that part, whatever tensor `y`
    /// holds the concatenation: its plan, or one that was run and committed.
    /// The window can be taken wherever a kernel can index the concatenation.
    pub proof fn law_window_of_a_concatenation_is_the_part(
        self,
        world: World<T>,
        after: World<T>,
        ts: Seq<CudaTensor>,
        y: Val,
        dim: usize,
        k: int,
    )
        requires
            concat_val(ts, dim) is Ok,
            0 <= k < ts.len(),
            forall|i: int|
                0 <= i < ts.len() ==> (#[trigger] ts[i]).wf() && self.filled(world, saved(ts[i])),
            extent_sum(shapes_of(ts), dim as int, ts.len() as int) <= usize::MAX,
            span(concat_dims(ts, dim as int)) <= usize::MAX,
            y.dims == concat_val(ts, dim)->Ok_0.dims,
            self.data(after, y.term) == self.data(world, concat_val(ts, dim)->Ok_0.term),
        ensures
            ({
                let start = extent_sum(shapes_of(ts), dim as int, k) as usize;
                let w = window_val(y, dim, start, ts[k].dims()[dim as int]);
                &&& w matches Ok(z) ==> z.dims == ts[k].dims() && self.data(after, z.term)
                    == self.data(world, saved(ts[k]).term)
                &&& regular(y.dims) ==> w is Ok
            }),
    {
        let d = dim as int;
        let lens = extents_of(ts, d);
        let first = ts[0].dims();
        let len = lens[k];
        let t = offset_of(lens, lens.len() as int);
        lemma_extents(ts, d, k);
        lemma_extents(ts, d, ts.len() as int);
        lemma_offset(lens, 0, k);
        lemma_offset(lens, k + 1, lens.len() as int);
        let start = extent_sum(shapes_of(ts), d, k) as usize;
        // the part's shape
        assert(ts[k].dims() =~= first.update(d, len)) by {
            if k > 0 {
                lemma_concat_error(dims_of(ts), dim, 1, k);
                assert(dims_of(ts)[k] == ts[k].dims());
                assert(dims_of(ts)[0] == first);
                assert forall|j: int| 0 <= j < first.len() && j != d implies ts[k].dims()[j]
                    == first[j] by {
                    lemma_first_odd(first, ts[k].dims(), d, 0, j);
                }
            }
        }
        let part = ts[k].dims();
        assert(y.dims == first.update(d, t as usize));
        assert(y.dims.subrange(0, d) =~= first.subrange(0, d));
        assert(part.subrange(0, d) =~= first.subrange(0, d));
        assert(tail(y.dims, d + 1) =~= tail(first, d + 1));
        assert(tail(part, d + 1) =~= tail(first, d + 1));
        assert(y.dims.update(d, len) =~= part);
        let o = outer(first, d) as int;
        let i = inner(first, d) as int;
        assert(ts[0].wf() && ts[k].wf());
        lemma_axis_counts(first, d);
        lemma_axis_counts(part, d);
        lemma_axis_counts(y.dims, d);
        let n = (o * len * i) as usize;
        let counts = seq![n, o as usize, y.dims[d], len, start, i as usize];
        reveal_with_fuel(first_long, 7);
        if regular(y.dims) {
            lemma_positive(y.dims);
            lemma_window_counts(o, t, i, len as int, start as int, numel(y.dims) as int);
            assert(first_long(counts, 0) is None);
        }
        let w = window_val(y, dim, start, len);
        if let Ok(z) = w {
            assert(first_long(counts, 0) is None);
            assert(counts[0] <= u32::MAX && counts[1] <= u32::MAX && counts[2] <= u32::MAX
                && counts[3] <= u32::MAX && counts[4] <= u32::MAX && counts[5] <= u32::MAX);
            let all = Seq::new(ts.len(), |j: int| saved(ts[j]).term);
            let ins = self.all_data(world, all);
            self.lemma_all_data(world, all);
            let xs = Seq::new(ins.len(), |j: int| ins[j].numbers());
            self.lemma_concatenated(xs, o as usize, lens, i as usize);
            let task = HostTaskView::Concat { outer: o as usize, lens, inner: i as usize };
            let c = self.computed(task, xs);
            assert(self.data(after, y.term) == Datum::Numbers(c));
            if let Term::Run { kernel, config, args } = z.term {
                self.lemma_arguments(after, args);
                let a = self.arguments(after, args);
                assert(a[0] == self.data(after, y.term));
                assert(a[1] == self.data(after, Term::Zeros(n as nat)));
                let v = Window {
                    outer: o as u32,
                    axis: y.dims[d] as u32,
                    len: len as u32,
                    start: start as u32,
                    inner: i as u32,
                };
                let x = self.data(world, saved(ts[k]).term).numbers();
                assert(ins[k] == self.data(world, saved(ts[k]).term));
                assert(xs[k] == x);
                assert(self.filled(world, saved(ts[k])));
                let out = self.left_by(kernel, config, a);
                assert(out.len() == n);
                assert(out =~= x) by {
                    assert forall|j: int| 0 <= j < n implies out[j] == x[j] by {
                        let run = len * i;
                        assert(j < o * run) by (nonlinear_arith)
                            requires
                                j < o * len * i,
                                run == len * i,
                        ;
                        assert(run >= 0) by (nonlinear_arith)
                            requires
                                run == len * i,
                                i >= 0,
                        ;
                        lemma_row_bound(j, o, run);
                        lemma_parts_at2(j, run);
                        law_concatenation_keeps_its_parts(lens, v, k, j / run, j % run);
                        assert(out[j] == c[v.from(j)]);
                        assert(c[concat_at(lens, i, j / run, k, j % run)] == xs[k][at2(
                            j / run,
                            lens[k] * i,
                            j % run,
                        )]);
                    }
                }
            }
        }
    }

    /// The tensor that a scan makes holds, for every batch entry, step, head
    /// and feature, the sum over all steps up to that one, in exact arithmetic.
    pub proof fn law_scan_tensor_holds_the_recurrence(
        self,
        world: World<T>,
        x: Val,
        a: Val,
        b: Val,
        c: Val,
        d: ScanDims,
        k: Head,
        t: int,
        p: int,
    )
        requires
            self.arith.exact(),
            scannable(d),
            scan_val(x, a, b, c, d) is Ok,
            x.count() == rows(d) * d.p_dim,
            k.within(d),
            0 <= t < d.t_len,
            0 <= p < d.p_dim,
        ensures
            ({
                let y = scan_val(x, a, b, c, d)->Ok_0;
                let s = ScanSeqs {
                    x: self.data(world, x.term).numbers(),
                    a: self.data(world, a.term).numbers(),
                    b: self.data(world, b.term).numbers(),
                    c: self.data(world, c.term).numbers(),
                };
                &&& y.dims == x.dims
                &&& self.data(world, y.term).numbers()[at2(
                    row_at(d, k.b as int, t, k.h as int),
                    d.p_dim as int,
                    p,
                )] == self.arith.recurrence(s, d, k, p, t)
            }),
    {
        let y = scan_val(x, a, b, c, d)->Ok_0;
        let s = ScanSeqs {
            x: self.data(world, x.term).numbers(),
            a: self.data(world, a.term).numbers(),
            b: self.data(world, b.term).numbers(),
            c: self.data(world, c.term).numbers(),
        };
        let line = at2(k.b as int, d.t_len as int, t);
        let row = row_at(d, k.b as int, t, k.h as int);
        let i = at2(row, d.p_dim as int, p);
        if let Term::Run { kernel, config, args } = y.term {
            self.lemma_arguments(world, args);
            let v = self.arguments(world, args);
            assert(v[0] == self.data(world, x.term));
            assert(v[1] == self.data(world, a.term));
            assert(v[2] == self.data(world, b.term));
            assert(v[3] == self.data(world, c.term));
            assert(v[4] == self.data(world, Term::Zeros(x.count())));
            assert(v[5].word() == d.batch && v[6].word() == d.t_len && v[7].word() == d.n_heads
                && v[8].word() == d.p_dim && v[9].word() == d.n_dim && v[10].word() == d.block_len);
            crate::scan::lemma_row(d, k.b as int, t, k.h as int);
            lemma_at2(row, d.p_dim as int, p, rows(d));
            let wide = d.p_dim as int;
            assert(0 <= row * wide) by (nonlinear_arith)
                requires
                    row >= 0,
                    wide >= 0,
            ;
            lemma_at2_parts(row, d.p_dim as int, p);
            lemma_at2_parts(line, d.n_heads as int, k.h as int);
            lemma_at2_parts(k.b as int, d.t_len as int, t);
            let scaled = kernel == Kernel::SsdScanChunkedP1;
            assert(self.left_by(kernel, config, v)[i] == self.arith.scanned(
                s,
                d,
                k,
                p,
                scaled,
                t,
            ));
            self.arith.law_scan_computes_recurrence(s, d, k, p, t);
        }
    }
}

/// The counts of a window within an axis are no larger than the whole.
pub(crate) proof fn lemma_window_counts(o: int, t: int, i: int, len: int, start: int, n: int)
    requires
        n == o * t * i,
        n >= 1,
        o >= 0,
        t >= 0,
        i >= 0,
        0 <= len <= t,
        0 <= start <= t,
    ensures
        o <= n,
        t <= n,
        i <= n,
        len <= n,
        start <= n,
        0 <= o * len * i <= n,
{
    assert(o >= 1 && t >= 1 && i >= 1) by (nonlinear_arith)
        requires
            o * t * i >= 1,
            o >= 0,
            t >= 0,
            i >= 0,
    ;
    assert(o <= o * t * i && t <= o * t * i && i <= o * t * i && 0 <= o * len * i <= o * t * i)
        by (nonlinear_arith)
        requires
            o >= 1,
            t >= 1,
            i >= 1,
            0 <= len <= t,
    ;
}

} // verus!
