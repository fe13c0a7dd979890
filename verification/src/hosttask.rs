//! What the host steps of a program compute, and on which data they can run.

use crate::conv::ConvDims;
use crate::host::{
    at2, at3, broadcast_apply, broadcast_expand_batch, concat_at, concat_runs, offset_of,
    read_at, swap_index_axes, take_columns, take_range,
};
use crate::hostconv::{
    add_bias, assemble_groups, channel, conv_bias_sum, conv_input_sum, conv_weight_sum,
    input_grad_of, summed, weight_grad_of, GradDims,
};
use crate::program::{HostTask, HostTaskView};
use crate::shape::{
    coords, element_count, expands_to, lemma_span_run, numel, position, span, swapped,
};
use vstd::prelude::*;

verus! {

/// The product of three counts, where it can be held.
pub(crate) fn product(a: usize, b: usize, c: usize) -> (r: Option<usize>)
    ensures
        match r {
            Some(n) => n == a * b * c,
            None => a * b * c > usize::MAX,
        },
{
    if c == 0 {
        assert(a * b * c == 0) by (nonlinear_arith)
            requires
                c == 0,
        ;
        return Some(0);
    }
    match a.checked_mul(b) {
        Some(ab) => ab.checked_mul(c),
        None => {
            assert(a * b * c >= a * b) by (nonlinear_arith)
                requires
                    c >= 1,
                    a >= 0,
                    b >= 0,
            ;
            None
        },
    }
}

/// Whether the product of three counts is `n`.
fn product_is(a: usize, b: usize, c: usize, n: usize) -> (r: bool)
    ensures
        r == (a * b * c == n),
{
    match product(a, b, c) {
        Some(m) => m == n,
        None => false,
    }
}

/// Whether a shape can be counted.
fn counts(s: &[usize]) -> (r: bool)
    ensures
        r == (span(s@) <= usize::MAX),
{
    let len: usize = s.len();
    let mut n: usize = 1;
    let mut i: usize = len;
    assert(s@.subrange(len as int, len as int) =~= Seq::<usize>::empty());
    while i > 0
        invariant
            i <= len,
            len == s@.len(),
            n == span(s@.subrange(i as int, len as int)),
        decreases i,
    {
        i = i - 1;
        let d: usize = if s[i] == 0 {
            1
        } else {
            s[i]
        };
        let ghost rest = s@.subrange(i as int, len as int);
        proof {
            assert(rest.drop_first() =~= s@.subrange(i + 1, len as int));
            assert(span(rest) == d * n);
        }
        match d.checked_mul(n) {
            Some(m) => {
                n = m;
            },
            None => {
                proof {
                    lemma_span_run(s@, i as int, len as int);
                }
                return false;
            },
        }
    }
    assert(s@.subrange(0, len as int) =~= s@);
    true
}

/// Whether a shape expands to another.
fn expands(a: &[usize], d: &[usize]) -> (r: bool)
    ensures
        r == expands_to(a@, d@),
{
    if a.len() != d.len() {
        return false;
    }
    let mut i: usize = 0;
    while i < a.len()
        invariant
            i <= a@.len(),
            a@.len() == d@.len(),
            forall|j: int| 0 <= j < i ==> #[trigger] a@[j] == d@[j] || a@[j] == 1,
        decreases a@.len() - i,
    {
        if a[i] != d[i] && a[i] != 1 {
            return false;
        }
        i = i + 1;
    }
    true
}

/// The extents of a convolution's gradients.
pub open spec fn grad_dims(dims: ConvDims, c_out: usize, groups: usize) -> GradDims {
    GradDims {
        dims,
        per_group: (dims.c_in as int / groups as int) as usize,
        out_per_group: (c_out as int / groups as int) as usize,
        groups,
    }
}

/// Whether channels and groups fit together and all counts can be held.
pub open spec fn grads_fit(dims: ConvDims, c_out: usize, groups: usize) -> bool {
    &&& groups > 0
    &&& grad_dims(dims, c_out, groups).ok()
    &&& grad_dims(dims, c_out, groups).c_out() == c_out
}

fn grads_can(dims: &ConvDims, c_out: usize, groups: usize) -> (r: Option<GradDims>)
    ensures
        r is Some == grads_fit(*dims, c_out, groups),
        r matches Some(d) ==> d == grad_dims(*dims, c_out, groups),
{
    if groups == 0 {
        return None;
    }
    let d = GradDims {
        dims: *dims,
        per_group: dims.c_in / groups,
        out_per_group: c_out / groups,
        groups,
    };
    let channels: bool = product_is(groups, d.per_group, 1, dims.c_in) && product_is(
        groups,
        d.out_per_group,
        1,
        c_out,
    );
    if !channels {
        return None;
    }
    let width: usize = match product(d.per_group, dims.k_size, 1) {
        Some(n) => n,
        None => {
            return None;
        },
    };
    let rest: bool = product(dims.batch, dims.t_out, 1).is_some() && product(
        c_out,
        width,
        1,
    ).is_some() && product(dims.c_in, dims.k_size, 1).is_some() && product(
        dims.batch,
        dims.c_in,
        dims.t_in,
    ).is_some() && dims.t_in < usize::MAX - dims.padding;
    if rest {
        Some(d)
    } else {
        None
    }
}

/// What the inputs of a step hold.
pub open spec fn contents<T>(ins: Seq<Vec<T>>) -> Seq<Seq<T>> {
    Seq::new(ins.len(), |k: int| ins[k]@)
}

/// Whether all parts have the lengths that a concatenation takes.
pub open spec fn parts_fit<T>(ins: Seq<Seq<T>>, outer: int, lens: Seq<usize>, inner: int) -> bool {
    &&& ins.len() == lens.len()
    &&& forall|k: int|
        0 <= k < ins.len() ==> (#[trigger] ins[k]).len() == outer * (lens[k] * inner)
}

fn parts_can<T>(ins: &Vec<Vec<T>>, outer: usize, lens: &[usize], inner: usize) -> (r: bool)
    ensures
        r == parts_fit(contents(ins@), outer as int, lens@, inner as int),
{
    if ins.len() != lens.len() {
        return false;
    }
    let mut k: usize = 0;
    while k < ins.len()
        invariant
            k <= ins@.len(),
            ins@.len() == lens@.len(),
            forall|j: int|
                0 <= j < k ==> (#[trigger] ins@[j])@.len() == outer * (lens@[j] * inner),
        decreases ins@.len() - k,
    {
        let (l, n): (usize, usize) = (lens[k], ins[k].len());
        assert(outer * (l * inner) == l * inner * outer) by (nonlinear_arith);
        if !product_is(l, inner, outer, n) {
            assert(contents(ins@)[k as int].len() != outer * (l * inner));
            return false;
        }
        k = k + 1;
    }
    true
}

/// Whether all outputs of groups have the same length.
pub open spec fn groups_fit<T>(outs: Seq<Seq<T>>, batch: int, per_group: int, t_out: int) -> bool {
    &&& per_group > 0
    &&& outs.len() * per_group <= usize::MAX
    &&& forall|g: int|
        0 <= g < outs.len() ==> (#[trigger] outs[g]).len() == per_group * batch * t_out
}

fn groups_can<T>(outs: &Vec<Vec<T>>, batch: usize, per_group: usize, t_out: usize) -> (r: bool)
    ensures
        r == groups_fit(contents(outs@), batch as int, per_group as int, t_out as int),
{
    if per_group == 0 || product(outs.len(), per_group, 1).is_none() {
        return false;
    }
    let mut g: usize = 0;
    while g < outs.len()
        invariant
            g <= outs@.len(),
            forall|j: int|
                0 <= j < g ==> (#[trigger] outs@[j])@.len() == per_group * batch * t_out,
        decreases outs@.len() - g,
    {
        if !product_is(per_group, batch, t_out, outs[g].len()) {
            assert(contents(outs@)[g as int].len() != per_group * batch * t_out);
            return false;
        }
        g = g + 1;
    }
    true
}

impl HostTaskView {
    /// Whether the step can run on the data `ins`.
    pub open spec fn fits<T>(self, ins: Seq<Seq<T>>) -> bool {
        match self {
            HostTaskView::Broadcast { a, b, out, .. } => {
                &&& ins.len() == 2
                &&& expands_to(a, out)
                &&& expands_to(b, out)
                &&& span(out) <= usize::MAX
                &&& span(a) <= usize::MAX
                &&& span(b) <= usize::MAX
                &&& ins[0].len() == numel(a)
                &&& ins[1].len() == numel(b)
            },
            HostTaskView::ExpandBatch { lead, wide, slice } => {
                &&& ins.len() == 1
                &&& expands_to(lead, wide)
                &&& span(lead) <= usize::MAX
                &&& span(wide) <= usize::MAX
                &&& ins[0].len() == numel(lead) * slice
                &&& numel(wide) * slice <= usize::MAX
            },
            HostTaskView::Concat { outer, lens, inner } => parts_fit(
                ins,
                outer as int,
                lens,
                inner as int,
            ),
            HostTaskView::SwapIndexAxes { shape, first, second } => {
                &&& ins.len() == 1
                &&& first < shape.len()
                &&& second < shape.len()
                &&& span(shape) <= usize::MAX
                &&& ins[0].len() == numel(shape)
            },
            HostTaskView::TakeColumns { rows, cols, from, width } => {
                &&& ins.len() == 1
                &&& ins[0].len() == rows * cols
                &&& from + width <= cols
            },
            HostTaskView::TakeRange { from, len } => {
                &&& ins.len() == 1
                &&& from + len <= ins[0].len()
            },
            HostTaskView::AssembleGroups { batch, per_group, t_out } => groups_fit(
                ins,
                batch as int,
                per_group as int,
                t_out as int,
            ),
            HostTaskView::AddBias { t_out, .. } => {
                &&& ins.len() == 2
                &&& ins[0].len() > 0 ==> t_out > 0 && ins[1].len() > 0
            },
            HostTaskView::ConvBiasGrad { batch, c_out, t_out } => {
                &&& ins.len() == 1
                &&& ins[0].len() == batch * c_out * t_out
                &&& batch * t_out <= usize::MAX
            },
            HostTaskView::ConvWeightGrad { dims, c_out, groups } => {
                let d = grad_dims(dims, c_out, groups);
                &&& ins.len() == 2
                &&& grads_fit(dims, c_out, groups)
                &&& ins[0].len() == dims.batch * c_out * dims.t_out
                &&& ins[1].len() == d.rows() * (dims.c_in * dims.k_size)
            },
            HostTaskView::ConvInputGrad { dims, c_out, groups } => {
                let d = grad_dims(dims, c_out, groups);
                &&& ins.len() == 2
                &&& grads_fit(dims, c_out, groups)
                &&& dims.stride > 0
                &&& ins[0].len() == dims.batch * c_out * dims.t_out
                &&& ins[1].len() == c_out * d.width()
            },
        }
    }

    /// Whether `r` can be what the step makes of the data `ins`.
    pub open spec fn gives<
        T,
        A: Fn(T, T) -> T,
        S: Fn(T, T) -> T,
        M: Fn(T, T) -> T,
    >(self, ins: Seq<Seq<T>>, zero: T, plus: A, minus: S, times: M, r: Seq<T>) -> bool {
        match self {
            HostTaskView::Broadcast { subtract, a, b, out } => {
                &&& r.len() == numel(out)
                &&& forall|i: int|
                    0 <= i < r.len() ==> {
                        let x = ins[0][read_at(a, out, i as nat) as int];
                        let y = ins[1][read_at(b, out, i as nat) as int];
                        if subtract {
                            minus.ensures((x, y), #[trigger] r[i])
                        } else {
                            plus.ensures((x, y), r[i])
                        }
                    }
            },
            HostTaskView::ExpandBatch { lead, wide, slice } => {
                &&& r.len() == numel(wide) * slice
                &&& forall|i: int, j: int|
                    0 <= i < numel(wide) && 0 <= j < slice ==> r[#[trigger] at2(i, slice as int, j)]
                        == ins[0][at2(read_at(lead, wide, i as nat) as int, slice as int, j)]
            },
            HostTaskView::Concat { outer, lens, inner } => {
                &&& r.len() == (outer * offset_of(lens, lens.len() as int)) * inner
                &&& forall|o: int, k: int, e: int|
                    0 <= o < outer && 0 <= k < ins.len() && 0 <= e < lens[k] * inner
                        ==> r[#[trigger] concat_at(lens, inner as int, o, k, e)] == ins[k][at2(
                        o,
                        lens[k] * inner,
                        e,
                    )]
            },
            HostTaskView::SwapIndexAxes { shape, first, second } => {
                &&& r.len() == ins[0].len()
                &&& forall|i: int|
                    0 <= i < r.len() ==> #[trigger] r[i] == ins[0][position(
                        shape,
                        swapped(
                            coords(swapped(shape, first as int, second as int), i as nat),
                            first as int,
                            second as int,
                        ),
                    ) as int]
            },
            HostTaskView::TakeColumns { rows, cols, from, width } => {
                &&& r.len() == rows * width
                &&& forall|i: int, j: int|
                    0 <= i < rows && 0 <= j < width ==> r[#[trigger] at2(i, width as int, j)]
                        == ins[0][at2(i, cols as int, from + j)]
            },
            HostTaskView::TakeRange { from, len } => r == ins[0].subrange(
                from as int,
                from + len,
            ),
            HostTaskView::AssembleGroups { batch, per_group, t_out } => {
                &&& r.len() == batch * (ins.len() * per_group) * t_out
                &&& forall|b: int, c: int, t: int|
                    0 <= b < batch && 0 <= c < ins.len() * per_group && 0 <= t < t_out
                        ==> r[#[trigger] at3(b, ins.len() * per_group, c, t_out as int, t)]
                        == ins[c / per_group as int][at3(
                        c % per_group as int,
                        batch as int,
                        b,
                        t_out as int,
                        t,
                    )]
            },
            HostTaskView::AddBias { t_out, .. } => {
                &&& r.len() == ins[0].len()
                &&& forall|i: int|
                    0 <= i < r.len() ==> plus.ensures(
                        (ins[0][i], ins[1][(i / t_out as int) % ins[1].len() as int]),
                        #[trigger] r[i],
                    )
            },
            HostTaskView::ConvBiasGrad { batch, c_out, t_out } => {
                &&& r.len() == c_out
                &&& forall|c: int|
                    0 <= c < c_out ==> summed(
                        plus,
                        zero,
                        channel(ins[0], batch as int, c_out as int, t_out as int, c),
                        #[trigger] r[c],
                    )
            },
            HostTaskView::ConvWeightGrad { dims, c_out, groups } => {
                let d = grad_dims(dims, c_out, groups);
                &&& r.len() == c_out * d.width()
                &&& forall|co: int, j: int|
                    0 <= co < c_out && 0 <= j < d.width() ==> weight_grad_of(
                        plus,
                        times,
                        zero,
                        ins[0],
                        ins[1],
                        d,
                        co,
                        j,
                        r[#[trigger] at2(co, d.width(), j)],
                    )
            },
            HostTaskView::ConvInputGrad { dims, c_out, groups } => {
                &&& r.len() == dims.batch * dims.c_in * dims.t_in
                &&& forall|b: int, c: int, i: int|
                    0 <= b < dims.batch && 0 <= c < dims.c_in && 0 <= i < dims.t_in
                        ==> input_grad_of(
                        plus,
                        times,
                        zero,
                        ins[0],
                        ins[1],
                        grad_dims(dims, c_out, groups),
                        b,
                        c,
                        i,
                        dims.t_out as int,
                        r[#[trigger] at3(b, dims.c_in as int, c, dims.t_in as int, i)],
                    )
            },
        }
    }
}

impl HostTask {
    /// Runs the step. There is a result exactly where the data fits.
    pub fn run<T: Copy, A: Fn(T, T) -> T, S: Fn(T, T) -> T, M: Fn(T, T) -> T>(
        &self,
        ins: &Vec<Vec<T>>,
        zero: T,
        plus: A,
        minus: S,
        times: M,
    ) -> (r: Option<Vec<T>>)
        requires
            forall|x: T, y: T| #[trigger] plus.requires((x, y)),
            forall|x: T, y: T| #[trigger] minus.requires((x, y)),
            forall|x: T, y: T| #[trigger] times.requires((x, y)),
        ensures
            r is Some == self@.fits(contents(ins@)),
            r matches Some(v) ==> self@.gives(contents(ins@), zero, plus, minus, times, v@),
    {
        match self {
            HostTask::Broadcast { subtract, a, b, out } => {
                if ins.len() != 2 {
                    return None;
                }
                let (sa, sb, so) = (a.as_slice(), b.as_slice(), out.as_slice());
                if !expands(sa, so) || !expands(sb, so) || !counts(so) || !counts(sa) || !counts(
                    sb,
                ) {
                    return None;
                }
                if ins[0].len() != element_count(sa) || ins[1].len() != element_count(sb) {
                    return None;
                }
                if *subtract {
                    Some(broadcast_apply(&ins[0], sa, &ins[1], sb, so, minus))
                } else {
                    Some(broadcast_apply(&ins[0], sa, &ins[1], sb, so, plus))
                }
            },
            HostTask::ExpandBatch { lead, wide, slice } => {
                if ins.len() != 1 {
                    return None;
                }
                let (sl, sw) = (lead.as_slice(), wide.as_slice());
                if !expands(sl, sw) || !counts(sl) || !counts(sw) {
                    return None;
                }
                if !product_is(element_count(sl), *slice, 1, ins[0].len()) {
                    return None;
                }
                if product(element_count(sw), *slice, 1).is_none() {
                    return None;
                }
                match broadcast_expand_batch(&ins[0], sl, sw, *slice) {
                    Ok(v) => Some(v),
                    Err(_) => None,
                }
            },
            HostTask::Concat { outer, lens, inner } => {
                if !parts_can(ins, *outer, lens.as_slice(), *inner) {
                    return None;
                }
                proof {
                    assert forall|k: int| 0 <= k < ins@.len() implies (#[trigger] ins@[k])@.len()
                        == *outer * (lens@[k] * *inner) by {
                        assert(contents(ins@)[k].len() == *outer * (lens@[k] * *inner));
                    }
                }
                Some(concat_runs(ins, *outer, lens.as_slice(), *inner))
            },
            HostTask::SwapIndexAxes { shape, first, second } => {
                let s = shape.as_slice();
                if ins.len() != 1 || *first >= s.len() || *second >= s.len() || !counts(s) {
                    return None;
                }
                if ins[0].len() != element_count(s) {
                    return None;
                }
                Some(swap_index_axes(&ins[0], s, *first, *second))
            },
            HostTask::TakeColumns { rows, cols, from, width } => {
                if ins.len() != 1 || !product_is(*rows, *cols, 1, ins[0].len()) {
                    return None;
                }
                if *from > *cols || *width > *cols - *from {
                    return None;
                }
                Some(take_columns(&ins[0], *rows, *cols, *from, *width))
            },
            HostTask::TakeRange { from, len } => {
                if ins.len() != 1 || *from > ins[0].len() || *len > ins[0].len() - *from {
                    return None;
                }
                Some(take_range(&ins[0], *from, *len))
            },
            HostTask::AssembleGroups { batch, per_group, t_out } => {
                if !groups_can(ins, *batch, *per_group, *t_out) {
                    return None;
                }
                proof {
                    assert forall|g: int| 0 <= g < ins@.len() implies (#[trigger] ins@[g])@.len()
                        == *per_group * *batch * *t_out by {
                        assert(contents(ins@)[g].len() == *per_group * *batch * *t_out);
                    }
                }
                let v = assemble_groups(ins, *batch, *per_group, *t_out);
                proof {
                    let n = ins@.len() as int;
                    let m = *per_group as int;
                    assert forall|b: int, c: int, t: int|
                        0 <= b < *batch && 0 <= c < n * m && 0 <= t < *t_out implies v@[
                    #[trigger] at3(b, n * m, c, *t_out as int, t)] == contents(ins@)[c / m][at3(
                        c % m,
                        *batch as int,
                        b,
                        *t_out as int,
                        t,
                    )] by {
                        crate::index::lemma_row_bound(c, n, m);
                    }
                }
                Some(v)
            },
            HostTask::AddBias { batch: _, c_out: _, t_out } => {
                if ins.len() != 2 {
                    return None;
                }
                if ins[0].len() > 0 && (*t_out == 0 || ins[1].len() == 0) {
                    return None;
                }
                Some(add_bias(&ins[0], &ins[1], *t_out, plus))
            },
            HostTask::ConvBiasGrad { batch, c_out, t_out } => {
                if ins.len() != 1 || !product_is(*batch, *c_out, *t_out, ins[0].len()) {
                    return None;
                }
                if product(*batch, *t_out, 1).is_none() {
                    return None;
                }
                Some(conv_bias_sum(&ins[0], *batch, *c_out, *t_out, zero, plus))
            },
            HostTask::ConvWeightGrad { dims, c_out, groups } => {
                if ins.len() != 2 {
                    return None;
                }
                let d = match grads_can(dims, *c_out, *groups) {
                    Some(d) => d,
                    None => {
                        return None;
                    },
                };
                let rows: usize = dims.batch * dims.t_out;
                let cols: usize = dims.c_in * dims.k_size;
                if !product_is(dims.batch, *c_out, dims.t_out, ins[0].len()) || !product_is(
                    rows,
                    cols,
                    1,
                    ins[1].len(),
                ) {
                    return None;
                }
                Some(conv_weight_sum(&ins[0], &ins[1], d, zero, plus, times))
            },
            HostTask::ConvInputGrad { dims, c_out, groups } => {
                if ins.len() != 2 || dims.stride == 0 {
                    return None;
                }
                let d = match grads_can(dims, *c_out, *groups) {
                    Some(d) => d,
                    None => {
                        return None;
                    },
                };
                let width: usize = d.per_group * dims.k_size;
                if !product_is(dims.batch, *c_out, dims.t_out, ins[0].len()) || !product_is(
                    *c_out,
                    width,
                    1,
                    ins[1].len(),
                ) {
                    return None;
                }
                Some(conv_input_sum(&ins[0], &ins[1], d, zero, plus, times))
            },
        }
    }
}

} // verus!
