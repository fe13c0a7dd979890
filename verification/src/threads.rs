//! Every launch has the threads that its kernel needs, and is told the extents
//! of the buffers that it was planned for.

use crate::conv::{
    col2im_plan, depthwise_bwd_w_plan, depthwise_bwd_x_plan, depthwise_fwd_plan, im2col_plan,
    ConvDims,
};
use crate::kernels::{
    binary_plan, binary_view, broadcast_copy_plan, broadcast_mul_plan, embedding_plan,
    gather_plan, inner, narrow_backward_plan, narrow_copy_plan, outer, rmsnorm_plan, row_plan,
    scalar_plan, scalar_view, scatter_add_embedding_plan, scatter_add_gather_plan,
    transpose_2d_plan, transpose_nd_plan, unary_plan, unary_view,
};
use crate::launch::{first_long, lemma_first_long, ArgView, Kernel, LaunchConfig, LaunchView, Real, Slice};
use crate::reduce::{
    reduce_sum_plan, rmsnorm_backward_w_partial_plan, rmsnorm_backward_x_plan, sum_partial_plan,
};
use crate::shape::numel;
use crate::ssd::{scan_plan, ScanDims};
use vstd::prelude::*;

verus! {

/// Whether thread `i` of a launch in one dimension is in its grid.
pub open spec fn running(c: LaunchConfig, i: int) -> bool {
    &&& c.grid_dim.1 == 1 && c.grid_dim.2 == 1
    &&& c.block_dim.1 == 1 && c.block_dim.2 == 1
    &&& 0 < c.block_dim.0 <= 1024
    &&& 0 <= i < c.grid_dim.0 * c.block_dim.0
}

/// Whether a launch in one dimension has a thread for each of `n` units.
pub open spec fn serves(l: LaunchView, n: int) -> bool {
    forall|i: int| 0 <= i < n ==> #[trigger] running(l.config, i)
}

/// Whether the launch is told `w` in its last arguments.
pub open spec fn told(l: LaunchView, w: Seq<int>) -> bool {
    &&& l.args.len() >= w.len()
    &&& forall|k: int|
        0 <= k < w.len() ==> (#[trigger] l.args[l.args.len() - w.len() + k] matches ArgView::Word(v)
            && v == w[k])
}

/// Counts that fit a kernel's words.
pub open spec fn words_hold(s: Seq<usize>) -> bool {
    forall|k: int| 0 <= k < s.len() ==> #[trigger] s[k] <= u32::MAX
}

/// An element-wise launch without error writes each of the elements that its
/// buffers have in common, and it is refused exactly where they have not the
/// same number of elements or more than a word counts.
pub proof fn law_element_launches_serve_every_element(
    kernel: Kernel,
    a: Slice,
    b: Slice,
    s: Real,
    c: Slice,
)
    ensures
        unary_plan(kernel, a, c) is Ok <==> a.len == c.len && c.len <= u32::MAX,
        binary_plan(kernel, a, b, c) is Ok <==> a.len == c.len && b.len == c.len && c.len
            <= u32::MAX,
        scalar_plan(kernel, a, s, c) is Ok <==> a.len == c.len && c.len <= u32::MAX,
        unary_plan(kernel, a, c) matches Ok(l) ==> serves(l, c.len as int) && told(
            l,
            seq![c.len as int],
        ) && l.dst == c.id && l.kernel == kernel,
        binary_plan(kernel, a, b, c) matches Ok(l) ==> serves(l, c.len as int) && told(
            l,
            seq![c.len as int],
        ) && l.dst == c.id && l.kernel == kernel,
        scalar_plan(kernel, a, s, c) matches Ok(l) ==> serves(l, c.len as int) && told(
            l,
            seq![c.len as int],
        ) && l.dst == c.id && l.kernel == kernel,
        a.len == c.len && a.len <= u32::MAX ==> serves(unary_view(kernel, a, c), c.len as int)
            && told(unary_view(kernel, a, c), seq![c.len as int]),
        a.len == c.len && b.len == c.len && a.len <= u32::MAX ==> serves(
            binary_view(kernel, a, b, c),
            c.len as int,
        ) && told(binary_view(kernel, a, b, c), seq![c.len as int]),
        a.len == c.len && a.len <= u32::MAX ==> serves(
            scalar_view(kernel, a, s, c),
            c.len as int,
        ) && told(scalar_view(kernel, a, s, c), seq![c.len as int]),
{
}

/// A launch that moves elements writes every element of its destination, and is
/// refused exactly where the destination has another number of elements than
/// the move gives, or a count does not fit a word.
pub proof fn law_moves_serve_every_element(
    src: Slice,
    dst: Slice,
    rows: usize,
    cols: usize,
    s: Seq<usize>,
    axis: usize,
    start: usize,
    len: usize,
)
    requires
        rows * cols <= usize::MAX,
        axis < s.len(),
        outer(s, axis as int) * s[axis as int] * inner(s, axis as int) <= usize::MAX,
        outer(s, axis as int) * len * inner(s, axis as int) <= usize::MAX,
        outer(s, axis as int) <= usize::MAX,
        inner(s, axis as int) <= usize::MAX,
    ensures
        transpose_2d_plan(src, dst, rows, cols) is Ok <==> dst.len == rows * cols && words_hold(
            seq![dst.len, rows, cols],
        ),
        transpose_2d_plan(src, dst, rows, cols) matches Ok(l) ==> serves(l, dst.len as int) && told(
            l,
            seq![rows as int, cols as int],
        ) && l.dst == dst.id,
        ({
            let (o, i) = (outer(s, axis as int), inner(s, axis as int));
            &&& narrow_copy_plan(src, dst, s, axis, start, len) is Ok <==> dst.len == o * len * i
                && words_hold(
                seq![dst.len, o as usize, s[axis as int], len, start, i as usize],
            )
            &&& narrow_copy_plan(src, dst, s, axis, start, len) matches Ok(l) ==> serves(
                l,
                dst.len as int,
            ) && told(
                l,
                seq![
                    o as int,
                    s[axis as int] as int,
                    len as int,
                    start as int,
                    i as int,
                    dst.len as int,
                ],
            ) && l.dst == dst.id
            &&& narrow_backward_plan(src, dst, s, axis, start, len) is Ok <==> dst.len == o
                * s[axis as int] * i && src.len == o * len * i && words_hold(
                seq![dst.len, s[axis as int], len, start, i as usize],
            )
            &&& narrow_backward_plan(src, dst, s, axis, start, len) matches Ok(l) ==> serves(
                l,
                dst.len as int,
            ) && told(
                l,
                seq![
                    s[axis as int] as int,
                    len as int,
                    start as int,
                    i as int,
                    dst.len as int,
                ],
            ) && l.dst == dst.id
        }),
{
    let (o, i) = (outer(s, axis as int), inner(s, axis as int));
    let n = (rows * cols) as usize;
    lemma_first_long(seq![n, rows, cols], 0);
    lemma_first_long(
        seq![
            (o as usize * len * i as usize) as usize,
            o as usize,
            s[axis as int],
            len,
            start,
            i as usize,
        ],
        0,
    );
    lemma_first_long(
        seq![
            (o as usize * s[axis as int] * i as usize) as usize,
            s[axis as int],
            len,
            start,
            i as usize,
        ],
        0,
    );
}

/// A strided launch writes every element of its destination, and is refused
/// exactly where ranks or lengths do not agree, the rank is above eight, or a
/// word cannot count the elements.
pub proof fn law_strided_launches_serve_every_element(
    a: Slice,
    b: Slice,
    dst: Slice,
    sa: Seq<usize>,
    sb: Seq<usize>,
    d: Seq<usize>,
    ins: Seq<u32>,
    outs: Seq<u32>,
)
    requires
        numel(sa) <= usize::MAX,
        numel(sb) <= usize::MAX,
        numel(d) <= usize::MAX,
    ensures
        transpose_nd_plan(a, dst, ins, outs) is Ok <==> dst.len == a.len && ins.len() == outs.len()
            && ins.len() <= 8 && dst.len <= u32::MAX,
        transpose_nd_plan(a, dst, ins, outs) matches Ok(l) ==> serves(l, dst.len as int) && told(
            l,
            seq![ins.len() as int, dst.len as int],
        ) && l.dst == dst.id,
        broadcast_copy_plan(a, dst, sa, d) is Ok <==> sa.len() == d.len() && d.len() <= 8 && dst.len
            == numel(d) && dst.len <= u32::MAX,
        broadcast_copy_plan(a, dst, sa, d) matches Ok(l) ==> serves(l, dst.len as int) && told(
            l,
            seq![d.len() as int, dst.len as int],
        ) && l.dst == dst.id,
        broadcast_mul_plan(a, b, dst, sa, sb, d) is Ok <==> sa.len() == d.len() && sb.len()
            == d.len() && d.len() <= 8 && dst.len == numel(d) && a.len == numel(sa) && b.len
            == numel(sb) && dst.len <= u32::MAX,
        broadcast_mul_plan(a, b, dst, sa, sb, d) matches Ok(l) ==> serves(l, dst.len as int)
            && told(l, seq![d.len() as int, dst.len as int]) && l.dst == dst.id,
{
}

/// A launch over rows has a thread for every row and is told how many rows
/// there are and how long they are; all rows together are the whole buffer.
pub proof fn law_row_launches_serve_every_row(
    kernel: Kernel,
    x: Slice,
    w: Slice,
    dst: Slice,
    shape: Seq<usize>,
    eps: Real,
    rows: usize,
    d: usize,
)
    requires
        shape.len() > 0,
        shape.last() == d,
        d > 0,
        x.len == rows * d,
    ensures
        row_plan(kernel, x, dst, shape) is Ok <==> dst.len == x.len && words_hold(seq![rows, d]),
        row_plan(kernel, x, dst, shape) matches Ok(l) ==> serves(l, rows as int) && told(
            l,
            seq![rows as int, d as int],
        ) && l.dst == dst.id && l.kernel == kernel,
        row_plan(kernel, x, dst, Seq::empty()) is Err,
        rmsnorm_plan(x, w, dst, shape, eps) is Ok <==> dst.len == x.len && w.len == d && words_hold(
            seq![rows, d],
        ),
        rmsnorm_plan(x, w, dst, shape, eps) matches Ok(l) ==> serves(l, rows as int) && l.dst
            == dst.id && l.args.len() >= 3 && told(
            LaunchView { args: l.args.drop_last(), ..l },
            seq![rows as int, d as int],
        ) && l.args.last() == ArgView::Real(eps),
        rmsnorm_plan(x, w, dst, Seq::empty(), eps) is Err,
{
    vstd::arithmetic::div_mod::lemma_div_multiples_vanish(rows as int, d as int);
    assert(rows * d == d * rows) by (nonlinear_arith);
    assert((x.len / d) as usize == rows);
    lemma_first_long(seq![rows, d], 0);
}

/// A lookup writes every element of its output, and the gradient of a lookup
/// reads every element of the gradient that it is given.
pub proof fn law_lookups_serve_every_element(
    table: Slice,
    ids: Slice,
    out: Slice,
    count: usize,
    width: usize,
    vocab: usize,
)
    requires
        count * width <= usize::MAX,
    ensures
        embedding_plan(table, ids, out, count, width, vocab) is Ok <==> out.len == count * width
            && words_hold(seq![out.len, count, width, vocab]),
        embedding_plan(table, ids, out, count, width, vocab) matches Ok(l) ==> serves(
            l,
            out.len as int,
        ) && told(l, seq![count as int, width as int, vocab as int]) && l.dst == out.id,
        scatter_add_embedding_plan(table, ids, out, count, width, vocab) is Ok <==> words_hold(
            seq![(count * width) as usize, count, width, vocab],
        ),
        scatter_add_embedding_plan(table, ids, out, count, width, vocab) matches Ok(l) ==> serves(
            l,
            count * width,
        ) && told(l, seq![count as int, width as int, vocab as int]) && l.dst == table.id,
        gather_plan(table, ids, out, vocab, width) is Ok <==> ids.len == out.len && words_hold(
            seq![out.len, vocab, width],
        ),
        gather_plan(table, ids, out, vocab, width) matches Ok(l) ==> serves(l, out.len as int)
            && told(l, seq![out.len as int, vocab as int, width as int]) && l.dst == out.id,
        scatter_add_gather_plan(table, ids, out, vocab, width) is Ok <==> words_hold(
            seq![out.len, vocab, width],
        ),
        scatter_add_gather_plan(table, ids, out, vocab, width) matches Ok(l) ==> serves(
            l,
            out.len as int,
        ) && told(l, seq![out.len as int, vocab as int, width as int]) && l.dst == table.id,
{
    lemma_first_long(seq![(count * width) as usize, count, width, vocab], 0);
    lemma_first_long(seq![out.len, vocab, width], 0);
}

/// A reduction has a thread for every sum that it writes.
pub proof fn law_reductions_serve_every_sum(
    src: Slice,
    dst: Slice,
    outer: usize,
    axis: usize,
    inner: usize,
    count: usize,
    chunks: usize,
)
    requires
        outer * inner <= usize::MAX,
    ensures
        reduce_sum_plan(src, dst, outer, axis, inner) is Ok <==> dst.len == outer * inner
            && words_hold(seq![dst.len, outer, axis, inner]),
        reduce_sum_plan(src, dst, outer, axis, inner) matches Ok(l) ==> serves(l, dst.len as int)
            && told(l, seq![outer as int, axis as int, inner as int]) && l.dst == dst.id,
        sum_partial_plan(src, dst, count, chunks) is Ok <==> dst.len == chunks && words_hold(
            seq![count, chunks],
        ),
        sum_partial_plan(src, dst, count, chunks) matches Ok(l) ==> serves(l, dst.len as int)
            && told(l, seq![count as int, chunks as int]) && l.dst == dst.id,
{
    lemma_first_long(seq![(outer * inner) as usize, outer, axis, inner], 0);
    lemma_first_long(seq![count, chunks], 0);
}

/// The normalisation's input gradient has a block for every row, with room for
/// two numbers per thread; the weight gradient's first stage has a thread for
/// every column of every chunk of rows.
pub proof fn law_norm_gradients_serve_every_row(
    gx: Slice,
    g: Slice,
    x: Slice,
    w: Slice,
    shape: Seq<usize>,
    eps: Real,
    rows: usize,
    d: usize,
    chunks: usize,
)
    requires
        shape.len() > 0,
        shape.last() == d,
        d > 0,
        x.len == rows * d,
    ensures
        rmsnorm_backward_x_plan(gx, g, x, w, shape, eps) is Ok <==> gx.len == x.len && g.len
            == x.len && words_hold(seq![rows, d]),
        rmsnorm_backward_x_plan(gx, g, x, w, shape, eps) matches Ok(l) ==> {
            &&& l.config.grid_dim == (rows as u32, 1u32, 1u32)
            &&& 0 < l.config.block_dim.0 <= 1024
            &&& l.config.block_dim.1 == 1 && l.config.block_dim.2 == 1
            &&& l.config.shared_mem_bytes == 2 * 4 * l.config.block_dim.0
            &&& l.dst == gx.id
            &&& told(
                LaunchView { args: l.args.drop_last(), ..l },
                seq![rows as int, d as int],
            )
        },
        rmsnorm_backward_w_partial_plan(gx, g, x, rows, d, chunks, eps) is Ok <==> words_hold(
            seq![rows, d, chunks],
        ),
        rmsnorm_backward_w_partial_plan(gx, g, x, rows, d, chunks, eps) matches Ok(l) ==> {
            &&& l.config.grid_dim.1 == chunks
            &&& l.config.grid_dim.2 == 1
            &&& l.config.grid_dim.0 * l.config.block_dim.0 >= d
            &&& l.config.block_dim == (256u32, 1u32, 1u32)
            &&& l.dst == gx.id
        },
{
    vstd::arithmetic::div_mod::lemma_div_multiples_vanish(rows as int, d as int);
    assert(rows * d == d * rows) by (nonlinear_arith);
    assert((x.len / d) as usize == rows);
    lemma_first_long(seq![rows, d], 0);
    let four = seq![rows, d, crate::reduce::ROWS_PER_CHUNK, chunks];
    lemma_first_long(four, 0);
    assert(seq![rows, d, chunks][0] == rows && seq![rows, d, chunks][1] == d && seq![
        rows,
        d,
        chunks,
    ][2] == chunks);
    assert(four[0] == rows && four[1] == d && four[3] == chunks);
}

/// The kernels of a convolution: a thread for every unfolded element, a block
/// for every channel of every batch entry, with room for its filter, and a
/// block for every weight.
pub proof fn law_convolutions_serve_every_element(
    a: Slice,
    b: Slice,
    bias: Slice,
    has_bias: bool,
    c: Slice,
    d: ConvDims,
)
    requires
        d.columns_fit(),
        d.batch * d.c_in <= usize::MAX,
    ensures
        im2col_plan(a, c, d) is Ok <==> c.len == d.batch * d.t_out * d.c_in * d.k_size
            && words_hold(
            seq![c.len, d.batch, d.c_in, d.t_in, d.t_out, d.k_size, d.stride, d.padding],
        ),
        im2col_plan(a, c, d) matches Ok(l) ==> serves(l, c.len as int) && told(
            l,
            conv_words(d).push(c.len as int),
        ) && l.dst == c.id,
        col2im_plan(c, a, d) is Ok <==> a.len == d.batch * d.t_out * d.c_in * d.k_size
            && words_hold(
            seq![a.len, d.batch, d.c_in, d.t_in, d.t_out, d.k_size, d.stride, d.padding],
        ),
        col2im_plan(c, a, d) matches Ok(l) ==> serves(l, a.len as int) && told(
            l,
            conv_words(d).push(a.len as int),
        ) && l.dst == c.id,
        depthwise_fwd_plan(a, b, bias, has_bias, c, d) is Ok <==> d.k_size <= 128 && words_hold(
            seq![
                (d.batch * d.c_in) as usize,
                d.batch,
                d.c_in,
                d.t_in,
                d.t_out,
                d.k_size,
                d.stride,
                d.padding,
            ],
        ),
        depthwise_fwd_plan(a, b, bias, has_bias, c, d) matches Ok(l) ==> one_block_each(
            l,
            d.batch * d.c_in,
            4 * d.k_size,
        ) && told(
            l,
            conv_words(d).push(
                if has_bias {
                    1
                } else {
                    0
                },
            ),
        ) && l.dst == c.id,
        depthwise_bwd_x_plan(a, b, c, d) is Ok <==> depthwise_fwd_plan(
            a,
            b,
            bias,
            has_bias,
            c,
            d,
        ) is Ok,
        depthwise_bwd_x_plan(a, b, c, d) matches Ok(l) ==> one_block_each(
            l,
            d.batch * d.c_in,
            4 * d.k_size,
        ) && told(l, conv_words(d)) && l.dst == c.id,
        depthwise_bwd_w_plan(a, b, c, d) is Ok <==> words_hold(
            seq![d.batch, d.c_in, d.t_in, d.t_out, d.k_size, d.stride, d.padding],
        ),
        depthwise_bwd_w_plan(a, b, c, d) matches Ok(l) ==> {
            &&& l.config.grid_dim == (d.c_in as u32, d.k_size as u32, 1u32)
            &&& 0 < l.config.block_dim.0 <= 1024
            &&& l.config.block_dim.1 == 1 && l.config.block_dim.2 == 1
            &&& l.config.shared_mem_bytes == 4 * l.config.block_dim.0
            &&& told(l, conv_words(d))
            &&& l.dst == c.id
        },
{
    lemma_first_long(d.lens(), 0);
    lemma_first_long(crate::conv::depthwise_lens(d), 0);
    let w = seq![d.c_in, d.k_size, d.batch, d.t_in, d.t_out, d.stride, d.padding];
    lemma_first_long(w, 0);
    let v = seq![d.batch, d.c_in, d.t_in, d.t_out, d.k_size, d.stride, d.padding];
    assert(w[0] == v[1] && w[1] == v[4] && w[2] == v[0] && w[3] == v[2] && w[4] == v[3] && w[5]
        == v[5] && w[6] == v[6]);
}

/// The extents of a convolution, as its kernels take them.
pub open spec fn conv_words(d: ConvDims) -> Seq<int> {
    seq![
        d.batch as int,
        d.c_in as int,
        d.t_in as int,
        d.t_out as int,
        d.k_size as int,
        d.stride as int,
        d.padding as int,
    ]
}

/// Whether a launch has one block for each of `n` units, with `bytes` of shared
/// memory in each.
pub open spec fn one_block_each(l: LaunchView, n: int, bytes: int) -> bool {
    &&& l.config.grid_dim.0 == n
    &&& l.config.grid_dim.1 == 1 && l.config.grid_dim.2 == 1
    &&& 0 < l.config.block_dim.0 <= 1024
    &&& l.config.block_dim.1 == 1 && l.config.block_dim.2 == 1
    &&& l.config.shared_mem_bytes == bytes
}

/// A scan has a thread for every channel of every head of every batch entry,
/// and runs exactly where whole blocks make up its length and words hold its
/// extents.
pub proof fn law_scans_serve_every_channel(
    x: Slice,
    a: Slice,
    b: Slice,
    c: Slice,
    y: Slice,
    d: ScanDims,
)
    requires
        d.batch * d.n_heads <= usize::MAX,
        d.batch * d.n_heads * d.p_dim <= usize::MAX,
    ensures
        scan_plan(x, a, b, c, y, d) is Ok ==> d.block_len > 0 && d.t_len > 0 && d.t_len
            % d.block_len == 0 && words_hold(
            seq![d.batch, d.t_len, d.n_heads, d.p_dim, d.n_dim, d.block_len],
        ),
        d.block_len > 0 && d.t_len > 0 && d.t_len % d.block_len == 0 && words_hold(
            seq![d.batch, d.t_len, d.n_heads, d.p_dim, d.n_dim, d.block_len],
        ) && d.batch * d.n_heads * d.p_dim <= u32::MAX ==> scan_plan(x, a, b, c, y, d) is Ok,
        scan_plan(x, a, b, c, y, d) matches Ok(l) ==> serves(l, d.batch * d.n_heads * d.p_dim)
            && told(
            l,
            seq![
                d.batch as int,
                d.t_len as int,
                d.n_heads as int,
                d.p_dim as int,
                d.n_dim as int,
                d.block_len as int,
            ],
        ) && l.dst == y.id,
{
    let w = seq![d.batch, d.t_len, d.n_heads, d.p_dim, d.n_dim, d.block_len];
    assert(w[0] == d.batch && w[1] == d.t_len && w[2] == d.n_heads && w[3] == d.p_dim && w[4]
        == d.n_dim && w[5] == d.block_len);
    if d.is_p1() {
        let n = d.batch * d.n_heads;
        assert(n >= 0) by (nonlinear_arith)
            requires
                n == d.batch * d.n_heads,
        ;
        assert(n * d.p_dim == n * 64);
    }
}

} // verus!
