//! What the launches of a computation are told of the tensors that they work
//! on: every launch has a thread for each element or row of its result, and the
//! extents that it is given are those of its operands.

use crate::broadcast::{broadcast_mul_val, expanded_val, narrowed_val, spread_val};
use crate::compound::ssd_val;
use crate::convolve::{
    columns_val, depthwise_input_grad_val, depthwise_val, depthwise_weight_grad_val,
    ConvSpec,
};
use crate::device::{binary_val, reduced_val, scalar_val, transposed_val, unary_val};
use crate::kernels::{inner, outer};
use crate::launch::{Kernel, Real};
use crate::program::{Term, TermArg, Val};
use crate::rows::{
    embedding_grad_val, embedding_val, gather_last_grad_val, gather_last_val, rmsnorm_grad_w_val,
    rmsnorm_grad_x_val, rmsnorm_val, row_val, sum_all_val,
};
use crate::shape::numel;
use crate::threads::{conv_words, running};
use vstd::prelude::*;

verus! {

/// Whether `args` ends with the words `w`.
pub open spec fn ends(args: Seq<TermArg>, w: Seq<int>) -> bool {
    &&& args.len() >= w.len()
    &&& forall|k: int|
        0 <= k < w.len() ==> (#[trigger] args[args.len() - w.len() + k] matches TermArg::Word(v)
            && v == w[k])
}

/// Whether a term is left by a launch that has a thread for each of `n` units
/// and is told `w` in its last words.
pub open spec fn worked(t: Term, n: int, w: Seq<int>) -> bool {
    t matches Term::Run { kernel, config, args } && ends(args, w) && (forall|i: int|
        0 <= i < n ==> #[trigger] running(config, i))
}

/// The same, for a launch whose last argument is a number.
pub open spec fn worked_with(t: Term, n: int, w: Seq<int>, r: Real) -> bool {
    t matches Term::Run { kernel, config, args } && args.len() > 0 && args.last()
        == TermArg::Real(r) && ends(args.drop_last(), w) && (forall|i: int|
        0 <= i < n ==> #[trigger] running(config, i))
}

/// Element-wise work touches every element.
pub proof fn law_elements_are_all_worked(kernel: Kernel, a: Val, b: Val, s: Real)
    requires
        a.count() <= u32::MAX,
    ensures
        worked(unary_val(kernel, a).term, a.count() as int, seq![a.count() as int]),
        worked(binary_val(kernel, a, b).term, a.count() as int, seq![a.count() as int]),
        worked(scalar_val(kernel, a, s).term, a.count() as int, seq![a.count() as int]),
{
}

/// Moving elements touches every element of the result.
pub proof fn law_moves_are_all_worked(
    op: &'static str,
    v: Val,
    g: Val,
    a: usize,
    b: usize,
    start: usize,
    len: usize,
    dims: Seq<usize>,
)
    requires
        v.count() <= usize::MAX,
        a < v.dims.len(),
        outer(v.dims, a as int) <= usize::MAX,
        inner(v.dims, a as int) <= usize::MAX,
        outer(v.dims, a as int) * len * inner(v.dims, a as int) <= usize::MAX,
        outer(v.dims, a as int) * v.dims[a as int] * inner(v.dims, a as int) <= usize::MAX,
    ensures
        a != b ==> (transposed_val(op, v, a, b) matches Ok(y) ==> (if v.dims.len() == 2 {
            worked(y.term, v.count() as int, seq![v.dims[0] as int, v.dims[1] as int])
        } else {
            worked(y.term, v.count() as int, seq![v.dims.len() as int, v.count() as int])
        })),
        narrowed_val(v, a, start, len) matches Ok(y) ==> ({
            let (o, i) = (outer(v.dims, a as int) as int, inner(v.dims, a as int) as int);
            worked(
                y.term,
                o * len * i,
                seq![o, v.dims[a as int] as int, len as int, start as int, i, o * len * i],
            )
        }),
        spread_val(g, a, start, v.dims) matches Ok(y) ==> ({
            let (o, i) = (outer(v.dims, a as int) as int, inner(v.dims, a as int) as int);
            let n = o * v.dims[a as int] * i;
            worked(
                y.term,
                n,
                seq![v.dims[a as int] as int, g.dims[a as int] as int, start as int, i, n],
            )
        }),
        expanded_val(op, v, dims) matches Ok(y) ==> worked(
            y.term,
            numel(dims) as int,
            seq![dims.len() as int, numel(dims) as int],
        ),
        broadcast_mul_val(v, g) matches Ok(y) ==> worked(
            y.term,
            y.count() as int,
            seq![y.dims.len() as int, y.count() as int],
        ),
{
    let (o, i) = (outer(v.dims, a as int) as usize, inner(v.dims, a as int) as usize);
    let extent = v.dims[a as int];
    crate::launch::lemma_first_long(seq![v.count() as usize, v.dims[0], v.dims[1]], 0);
    let s1 = seq![(o * len * i) as usize, o, extent, len, start, i];
    crate::launch::lemma_first_long(s1, 0);
    assert(s1[0] == (o * len * i) as usize && s1[1] == o && s1[2] == extent && s1[3] == len && s1[4]
        == start && s1[5] == i);
    let s2 = seq![(o * extent * i) as usize, extent, g.dims[a as int], start, i];
    crate::launch::lemma_first_long(s2, 0);
    assert(s2[0] == (o * extent * i) as usize && s2[1] == extent && s2[2] == g.dims[a as int]
        && s2[3] == start && s2[4] == i);
    if v.dims.len() == 2 {
        let s3 = seq![v.count() as usize, v.dims[0], v.dims[1]];
        assert(s3[0] == v.count() as usize && s3[1] == v.dims[0] && s3[2] == v.dims[1]);
    }
}

/// Work along rows touches every row, and the rows make up the tensor.
pub proof fn law_rows_are_all_worked(
    kernel: Kernel,
    x: Val,
    w: Val,
    g: Val,
    dims: Seq<usize>,
    eps: Real,
    rows: int,
)
    requires
        x.dims.len() > 0,
        x.dims.last() > 0,
        x.count() <= usize::MAX,
        0 <= rows,
        x.count() == rows * x.dims.last(),
    ensures
        row_val(kernel, x) matches Ok(y) ==> worked(
            y.term,
            rows,
            seq![rows, x.dims.last() as int],
        ),
        rmsnorm_val(x, w, eps) matches Ok(y) ==> worked_with(
            y.term,
            rows,
            seq![rows, x.dims.last() as int],
            eps,
        ),
        rmsnorm_grad_x_val(g, x, w, eps) matches Ok(y) ==> {
            &&& y.term matches Term::Run { kernel: k, config, args }
            &&& config.grid_dim.0 == rows && config.grid_dim.1 == 1 && config.grid_dim.2 == 1
            &&& config.shared_mem_bytes == 2 * 4 * config.block_dim.0
            &&& args.len() > 0 && args.last() == TermArg::Real(eps)
            &&& ends(args.drop_last(), seq![rows, x.dims.last() as int])
        },
        rmsnorm_grad_w_val(g, x, dims, eps) matches Ok(y) ==> {
            let d = x.dims.last() as int;
            &&& y.term matches Term::Run { kernel: k, config, args }
            &&& args.len() > 0
            &&& args[0] matches TermArg::Value(first)
            &&& first matches Term::Run { kernel: k1, config: c1, args: a1 }
            &&& c1.grid_dim.0 * c1.block_dim.0 >= d && c1.grid_dim.1 * 16 >= rows
            &&& (rows > 0 ==> (c1.grid_dim.1 - 1) * 16 < rows)
            &&& worked(y.term, d, seq![1, c1.grid_dim.1 as int, d])
            &&& a1.len() > 0 && a1.last() == TermArg::Real(eps)
            &&& ends(a1.drop_last(), seq![rows, d, 16, c1.grid_dim.1 as int])
        },
{
    let d = x.dims.last();
    vstd::arithmetic::div_mod::lemma_div_multiples_vanish(rows, d as int);
    assert(rows * d == d * rows) by (nonlinear_arith);
    assert(rows <= usize::MAX) by (nonlinear_arith)
        requires
            rows * d <= usize::MAX,
            d >= 1,
            rows >= 0,
    ;
    let r = (x.count() as usize / d) as usize;
    assert(r == rows);
    let s1 = seq![r, d];
    crate::launch::lemma_first_long(s1, 0);
    assert(s1[0] == r && s1[1] == d);
    let chunks = crate::reduce::row_chunks(r as nat) as usize;
    let s2 = seq![r, d, crate::reduce::ROWS_PER_CHUNK, chunks];
    crate::launch::lemma_first_long(s2, 0);
    assert(s2[0] == r && s2[1] == d && s2[3] == chunks);
}

/// Lookups touch every element that is read, and their gradients every element
/// of the gradient that comes back.
pub proof fn law_lookups_are_all_worked(table: Val, idx: Val, g: Val, dims: Seq<usize>)
    requires
        table.dims.len() == 2,
        dims.len() > 0,
        idx.dims.len() > 0,
        table.dims.len() > 0,
        idx.count() <= usize::MAX,
        g.count() <= usize::MAX,
        idx.count() * table.dims[1] <= usize::MAX,
    ensures
        ({
            let count = idx.count() as int;
            let (vocab, width) = (table.dims[0] as int, table.dims[1] as int);
            &&& embedding_val(table, idx) matches Ok(y) ==> worked(
                y.term,
                count * width,
                seq![count, width, vocab],
            )
            &&& embedding_grad_val(g, idx, table.dims) matches Ok(y) ==> worked(
                y.term,
                count * width,
                seq![count, width, vocab],
            )
            &&& gather_last_val(table, idx) matches Ok(y) ==> worked(
                y.term,
                count,
                seq![count, table.dims.last() as int, idx.dims.last() as int],
            )
            &&& gather_last_grad_val(g, idx, dims) matches Ok(y) ==> worked(
                y.term,
                g.count() as int,
                seq![g.count() as int, dims.last() as int, idx.dims.last() as int],
            )
        }),
{
    let count = idx.count() as usize;
    let (vocab, width) = (table.dims[0], table.dims[1]);
    let s1 = seq![(count * width) as usize, count, width, vocab];
    crate::launch::lemma_first_long(s1, 0);
    assert(s1[0] == (count * width) as usize && s1[1] == count && s1[2] == width && s1[3] == vocab);
    let s2 = seq![count, table.dims.last(), idx.dims.last()];
    crate::launch::lemma_first_long(s2, 0);
    assert(s2[0] == count && s2[1] == table.dims.last() && s2[2] == idx.dims.last());
    let s3 = seq![g.count() as usize, dims.last(), idx.dims.last()];
    crate::launch::lemma_first_long(s3, 0);
    assert(s3[0] == g.count() as usize && s3[1] == dims.last() && s3[2] == idx.dims.last());
}

/// Sums have a thread for each sum that they write, and a total is told how many
/// elements there are.
pub proof fn law_sums_are_all_worked(v: Val, k: int)
    requires
        0 <= k < v.dims.len(),
        outer(v.dims, k) <= usize::MAX,
        inner(v.dims, k) <= usize::MAX,
        outer(v.dims, k) * inner(v.dims, k) <= usize::MAX,
        v.count() <= usize::MAX,
    ensures
        reduced_val(v, k) matches Ok(y) ==> ({
            let (o, i) = (outer(v.dims, k) as int, inner(v.dims, k) as int);
            worked(y.term, o * i, seq![o, v.dims[k] as int, i])
        }),
        sum_all_val(v) matches Ok(y) ==> {
            &&& y.term matches Term::Run { kernel, config, args }
            &&& args.len() == 5
            &&& args[0] matches TermArg::Value(first)
            &&& first matches Term::Run { kernel: k1, config: c1, args: a1 }
            &&& a1.len() == 4
            &&& a1[3] matches TermArg::Word(chunks)
            &&& 1 <= chunks
            &&& worked(first, chunks as int, seq![v.count() as int, chunks as int])
            &&& worked(y.term, 1, seq![1, chunks as int, 1])
        },
{
    let (o, i) = (outer(v.dims, k) as usize, inner(v.dims, k) as usize);
    let s1 = seq![(o * i) as usize, o, v.dims[k], i];
    crate::launch::lemma_first_long(s1, 0);
    assert(s1[0] == (o * i) as usize && s1[1] == o && s1[2] == v.dims[k] && s1[3] == i);
    if sum_all_val(v) is Ok {
        crate::reductions::lemma_ceil_sqrt(v.count());
    }
}

/// The kernels of a convolution touch every column, every channel of every
/// batch entry, and every weight, and are told the extents.
pub proof fn law_filters_are_all_worked(
    x: Val,
    w: Val,
    bias: Option<Val>,
    g: Val,
    s: ConvSpec,
    dims: Seq<usize>,
)
    requires
        s.dims.columns_fit(),
        s.dims.batch * s.dims.c_in <= usize::MAX,
        s.dims.k_size <= 128,
    ensures
        columns_val(x, s.dims) matches Ok(y) ==> worked(
            y.term,
            s.dims.batch * s.dims.t_out * s.dims.c_in * s.dims.k_size,
            conv_words(s.dims).push(s.dims.batch * s.dims.t_out * s.dims.c_in * s.dims.k_size),
        ),
        depthwise_val(x, w, bias, s) matches Ok(y) ==> blocked(
            y.term,
            s.dims.batch * s.dims.c_in,
            1,
            4 * s.dims.k_size,
            conv_words(s.dims).push(
                if bias is Some {
                    1
                } else {
                    0
                },
            ),
        ),
        depthwise_input_grad_val(g, w, s.dims) matches Ok(y) ==> blocked(
            y.term,
            s.dims.batch * s.dims.c_in,
            1,
            4 * s.dims.k_size,
            conv_words(s.dims),
        ),
        depthwise_weight_grad_val(g, x, s.dims, dims) matches Ok(y) ==> blocked(
            y.term,
            s.dims.c_in as int,
            s.dims.k_size as int,
            512,
            conv_words(s.dims),
        ),
{
    let d = s.dims;
    let n = d.lens();
    crate::launch::lemma_first_long(n, 0);
    assert(n[0] == d.columns() as usize && n[1] == d.batch && n[2] == d.c_in && n[3] == d.t_in
        && n[4] == d.t_out && n[5] == d.k_size && n[6] == d.stride && n[7] == d.padding);
    let m = crate::conv::depthwise_lens(d);
    crate::launch::lemma_first_long(m, 0);
    assert(m[0] == (d.batch * d.c_in) as usize && m[1] == d.batch && m[2] == d.c_in && m[3]
        == d.t_in && m[4] == d.t_out && m[5] == d.k_size && m[6] == d.stride && m[7] == d.padding);
    let v = seq![d.c_in, d.k_size, d.batch, d.t_in, d.t_out, d.stride, d.padding];
    crate::launch::lemma_first_long(v, 0);
    assert(v[0] == d.c_in && v[1] == d.k_size && v[2] == d.batch && v[3] == d.t_in && v[4]
        == d.t_out && v[5] == d.stride && v[6] == d.padding);
    assert(d.batch * d.c_in >= 0) by (nonlinear_arith);
}

/// Whether a term is left by a launch with a grid of `m` by `n` blocks of 128
/// threads, with `bytes` of shared memory each, that is told `w`.
pub open spec fn blocked(t: Term, m: int, n: int, bytes: int, w: Seq<int>) -> bool {
    t matches Term::Run { kernel, config, args } && config.grid_dim.0 == m && config.grid_dim.1 == n
        && config.grid_dim.2 == 1 && config.block_dim == (128u32, 1u32, 1u32)
        && config.shared_mem_bytes == bytes && ends(args, w)
}

/// A scan touches every channel of every head of every batch entry, and is told
/// the extents of its operands.
pub proof fn law_scans_are_all_worked(x: Val, a: Val, b: Val, c: Val, block_len: usize)
    requires
        x.dims.len() == 4 ==> x.dims[0] * x.dims[2] <= usize::MAX && x.dims[0] * x.dims[2]
            * x.dims[3] <= usize::MAX,
    ensures
        ssd_val(x, a, b, c, block_len) matches Ok(Some(y)) ==> worked(
            y.term,
            x.dims[0] * x.dims[2] * x.dims[3],
            seq![
                x.dims[0] as int,
                x.dims[1] as int,
                x.dims[2] as int,
                x.dims[3] as int,
                b.dims[3] as int,
                block_len as int,
            ],
        ),
{
    if ssd_val(x, a, b, c, block_len) matches Ok(Some(_)) {
        let z = crate::launch::Slice { id: crate::launch::Buffer::Global(0), len: 0 };
        let d = crate::compound::scan_dims(x.dims, b.dims, block_len);
        crate::threads::law_scans_serve_every_channel(z, z, z, z, z, d);
        let w = seq![d.batch, d.t_len, d.n_heads, d.p_dim, d.n_dim, d.block_len];
        assert(w[0] == d.batch && w[1] == d.t_len && w[2] == d.n_heads && w[3] == d.p_dim && w[4]
            == d.n_dim && w[5] == d.block_len);
    }
}

} // verus!
