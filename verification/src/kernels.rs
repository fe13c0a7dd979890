//! One planner per kernel: checks the lengths it is given and lays out the
//! launch.

use crate::error::{CudaError, ShapeError};
use crate::launch::{
    binary_length_error, check_binary_lengths, check_unary_lengths, element_config, first_long,
    last_dim_or_err, launch_cfg, seen, too_long, u32_len, words, Kernel, Launch, LaunchView, Real,
    Slice,
};
use crate::shape::{
    element_count, expanded_strides, lemma_span_run, numel, row_major, row_major_strides, span,
    stride_at, tail,
};
use vstd::prelude::*;

verus! {

/// The error for a buffer of another length than the kernel works on.
pub open spec fn wrong_length(op: &'static str, len: usize, expected: usize) -> CudaError {
    CudaError::Shape(ShapeError::BufferLength { op, len, expected })
}

/// Launch of a kernel `c[i] = f(a[i], b[i])`.
pub open spec fn binary_view(kernel: Kernel, a: Slice, b: Slice, c: Slice) -> LaunchView {
    let n = a.len as u32;
    LaunchView::start(kernel, element_config(n), c.id).src(a.id).src(b.id).dst().word(n)
}

/// Launch of a kernel `c[i] = f(a[i])`.
pub open spec fn unary_view(kernel: Kernel, a: Slice, c: Slice) -> LaunchView {
    let n = a.len as u32;
    LaunchView::start(kernel, element_config(n), c.id).src(a.id).dst().word(n)
}

/// Launch of a kernel `c[i] = f(a[i], scalar)`.
pub open spec fn scalar_view(kernel: Kernel, a: Slice, scalar: Real, c: Slice) -> LaunchView {
    let n = a.len as u32;
    LaunchView::start(kernel, element_config(n), c.id).src(a.id).float(scalar).dst().word(n)
}

fn same_length_binary(kernel: Kernel, a: Slice, b: Slice, c: Slice) -> (l: Launch)
    requires
        a.len == b.len,
        a.len == c.len,
        a.len <= u32::MAX,
    ensures
        l@ == binary_view(kernel, a, b, c),
{
    let n: u32 = a.len as u32;
    Launch::new(kernel, launch_cfg(n), c.id).src(a.id).src(b.id).dst().word(n)
}

/// `c = a + b`, element by element.
pub fn add_f32(a: Slice, b: Slice, c: Slice) -> (l: Launch)
    requires
        a.len == b.len,
        a.len == c.len,
        a.len <= u32::MAX,
    ensures
        l@ == binary_view(Kernel::Add, a, b, c),
{
    same_length_binary(Kernel::Add, a, b, c)
}

/// `c = a - b`, element by element.
pub fn sub_f32(a: Slice, b: Slice, c: Slice) -> (l: Launch)
    requires
        a.len == b.len,
        a.len == c.len,
        a.len <= u32::MAX,
    ensures
        l@ == binary_view(Kernel::Sub, a, b, c),
{
    same_length_binary(Kernel::Sub, a, b, c)
}

/// `c = a * b`, element by element.
pub fn mul_f32(a: Slice, b: Slice, c: Slice) -> (l: Launch)
    requires
        a.len == b.len,
        a.len == c.len,
        a.len <= u32::MAX,
    ensures
        l@ == binary_view(Kernel::Mul, a, b, c),
{
    same_length_binary(Kernel::Mul, a, b, c)
}

/// `c = -a`, element by element.
pub fn neg_f32(a: Slice, c: Slice) -> (l: Launch)
    requires
        a.len == c.len,
        a.len <= u32::MAX,
    ensures
        l@ == unary_view(Kernel::Neg, a, c),
{
    let n: u32 = a.len as u32;
    Launch::new(Kernel::Neg, launch_cfg(n), c.id).src(a.id).dst().word(n)
}

/// Outcome of planning a one-operand element-wise launch.
pub open spec fn unary_plan(kernel: Kernel, a: Slice, c: Slice) -> Result<LaunchView, CudaError> {
    if a.len != c.len {
        Err(wrong_length(kernel.name(), c.len, a.len))
    } else if a.len > u32::MAX {
        Err(too_long(kernel.name(), a.len))
    } else {
        Ok(unary_view(kernel, a, c))
    }
}

pub fn launch_unary(kernel: Kernel, a: Slice, c: Slice) -> (r: Result<Launch, CudaError>)
    ensures
        seen(r) == unary_plan(kernel, a, c),
{
    check_unary_lengths(a.len, c.len, kernel.symbol())?;
    let n: u32 = u32_len(a.len, kernel.symbol())?;
    Ok(Launch::new(kernel, launch_cfg(n), c.id).src(a.id).dst().word(n))
}

/// Outcome of planning a two-operand element-wise launch.
pub open spec fn binary_plan(kernel: Kernel, a: Slice, b: Slice, c: Slice) -> Result<
    LaunchView,
    CudaError,
> {
    match binary_length_error(a.len, b.len, c.len, kernel.name()) {
        Some(e) => Err(e),
        None => if a.len > u32::MAX {
            Err(too_long(kernel.name(), a.len))
        } else {
            Ok(binary_view(kernel, a, b, c))
        },
    }
}

pub fn launch_binary(kernel: Kernel, a: Slice, b: Slice, c: Slice) -> (r: Result<Launch, CudaError>)
    ensures
        seen(r) == binary_plan(kernel, a, b, c),
{
    check_binary_lengths(a.len, b.len, c.len, kernel.symbol())?;
    let n: u32 = u32_len(a.len, kernel.symbol())?;
    Ok(Launch::new(kernel, launch_cfg(n), c.id).src(a.id).src(b.id).dst().word(n))
}

/// Outcome of planning an element-wise launch with a scalar operand.
pub open spec fn scalar_plan(kernel: Kernel, a: Slice, scalar: Real, c: Slice) -> Result<
    LaunchView,
    CudaError,
> {
    if a.len != c.len {
        Err(wrong_length(kernel.name(), c.len, a.len))
    } else if a.len > u32::MAX {
        Err(too_long(kernel.name(), a.len))
    } else {
        Ok(scalar_view(kernel, a, scalar, c))
    }
}

pub fn launch_unary_scalar(kernel: Kernel, a: Slice, scalar: Real, c: Slice) -> (r: Result<
    Launch,
    CudaError,
>)
    ensures
        seen(r) == scalar_plan(kernel, a, scalar, c),
{
    check_unary_lengths(a.len, c.len, kernel.symbol())?;
    let n: u32 = u32_len(a.len, kernel.symbol())?;
    Ok(Launch::new(kernel, launch_cfg(n), c.id).src(a.id).float(scalar).dst().word(n))
}

pub fn exp_f32(a: Slice, c: Slice) -> (r: Result<Launch, CudaError>)
    ensures
        seen(r) == unary_plan(Kernel::Exp, a, c),
{
    launch_unary(Kernel::Exp, a, c)
}

pub fn sqrt_f32(a: Slice, c: Slice) -> (r: Result<Launch, CudaError>)
    ensures
        seen(r) == unary_plan(Kernel::Sqrt, a, c),
{
    launch_unary(Kernel::Sqrt, a, c)
}

pub fn div_f32(a: Slice, b: Slice, c: Slice) -> (r: Result<Launch, CudaError>)
    ensures
        seen(r) == binary_plan(Kernel::Div, a, b, c),
{
    launch_binary(Kernel::Div, a, b, c)
}

pub fn mul_scalar_f32(a: Slice, scalar: Real, c: Slice) -> (r: Result<Launch, CudaError>)
    ensures
        seen(r) == scalar_plan(Kernel::MulScalar, a, scalar, c),
{
    launch_unary_scalar(Kernel::MulScalar, a, scalar, c)
}

pub fn add_scalar_f32(a: Slice, scalar: Real, c: Slice) -> (r: Result<Launch, CudaError>)
    ensures
        seen(r) == scalar_plan(Kernel::AddScalar, a, scalar, c),
{
    launch_unary_scalar(Kernel::AddScalar, a, scalar, c)
}

pub fn sigmoid_f32(a: Slice, c: Slice) -> (r: Result<Launch, CudaError>)
    ensures
        seen(r) == unary_plan(Kernel::Sigmoid, a, c),
{
    launch_unary(Kernel::Sigmoid, a, c)
}

pub fn silu_f32(a: Slice, c: Slice) -> (r: Result<Launch, CudaError>)
    ensures
        seen(r) == unary_plan(Kernel::Silu, a, c),
{
    launch_unary(Kernel::Silu, a, c)
}

pub fn softplus_f32(a: Slice, c: Slice) -> (r: Result<Launch, CudaError>)
    ensures
        seen(r) == unary_plan(Kernel::Softplus, a, c),
{
    launch_unary(Kernel::Softplus, a, c)
}

/// Outcome of planning the transposition of a `rows` by `cols` matrix.
pub open spec fn transpose_2d_plan(src: Slice, dst: Slice, rows: usize, cols: usize) -> Result<
    LaunchView,
    CudaError,
> {
    let op = "transpose_2d_f32";
    let n = (rows * cols) as usize;
    if n != dst.len {
        Err(wrong_length(op, dst.len, n))
    } else {
        match first_long(seq![n, rows, cols], 0) {
            Some(len) => Err(too_long(op, len)),
            None => Ok(
                LaunchView::start(Kernel::Transpose2d, element_config(n as u32), dst.id).src(src.id).dst().word(rows as u32).word(cols as u32),
            ),
        }
    }
}

pub fn transpose_2d_f32(src: Slice, dst: Slice, rows: usize, cols: usize) -> (r: Result<
    Launch,
    CudaError,
>)
    requires
        rows * cols <= usize::MAX,
    ensures
        seen(r) == transpose_2d_plan(src, dst, rows, cols),
{
    let n: usize = rows * cols;
    check_unary_lengths(n, dst.len, "transpose_2d_f32")?;
    let w = words(&vec![n, rows, cols], "transpose_2d_f32")?;
    Ok(Launch::new(Kernel::Transpose2d, launch_cfg(w[0]), dst.id).src(src.id).dst().word(w[1]).word(w[2]))
}

/// Greatest rank of the strided kernels.
pub const MAX_RANK: usize = 8;

/// Outcome of planning a strided gather of `src` into `dst`.
pub open spec fn transpose_nd_plan(
    src: Slice,
    dst: Slice,
    in_strides: Seq<u32>,
    out_strides: Seq<u32>,
) -> Result<LaunchView, CudaError> {
    let op = "transpose_nd_f32";
    let n = src.len;
    let rank = in_strides.len();
    if n != dst.len {
        Err(wrong_length(op, dst.len, n))
    } else if in_strides.len() != out_strides.len() {
        Err(
            CudaError::Shape(
                ShapeError::RankMismatch {
                    op,
                    lhs: in_strides.len() as usize,
                    rhs: out_strides.len() as usize,
                },
            ),
        )
    } else if rank > MAX_RANK {
        Err(CudaError::Shape(ShapeError::RankAbove { op, rank: rank as usize, limit: MAX_RANK }))
    } else if n > u32::MAX {
        Err(too_long(op, n))
    } else {
        Ok(
            LaunchView::start(Kernel::TransposeNd, element_config(n as u32), dst.id).src(src.id).dst().table(in_strides).table(out_strides).word(rank as u32).word(n as u32),
        )
    }
}

pub fn transpose_nd_f32(
    src: Slice,
    dst: Slice,
    in_strides: Vec<u32>,
    out_strides: Vec<u32>,
) -> (r: Result<Launch, CudaError>)
    ensures
        seen(r) == transpose_nd_plan(src, dst, in_strides@, out_strides@),
{
    let op: &'static str = "transpose_nd_f32";
    let n: usize = src.len;
    check_unary_lengths(n, dst.len, op)?;
    if in_strides.len() != out_strides.len() {
        return Err(
            CudaError::Shape(
                ShapeError::RankMismatch { op, lhs: in_strides.len(), rhs: out_strides.len() },
            ),
        );
    }
    let rank: usize = in_strides.len();
    if rank > MAX_RANK {
        return Err(CudaError::Shape(ShapeError::RankAbove { op, rank, limit: MAX_RANK }));
    }
    let w: u32 = u32_len(n, op)?;
    Ok(
        Launch::new(Kernel::TransposeNd, launch_cfg(w), dst.id).src(src.id).dst().table(
            in_strides,
        ).table(out_strides).word(rank as u32).word(w),
    )
}

/// The extents before `axis`, as one count.
pub open spec fn outer(s: Seq<usize>, axis: int) -> nat {
    numel(s.subrange(0, axis))
}

/// The extents after `axis`, as one count.
pub open spec fn inner(s: Seq<usize>, axis: int) -> nat {
    numel(tail(s, axis + 1))
}

/// Splits a shape at an axis: the counts before it, of it, and after it.
pub fn split_axis(shape: &[usize], axis: usize) -> (r: (usize, usize, usize))
    requires
        axis < shape.len(),
        span(shape@) <= usize::MAX,
    ensures
        r.0 == outer(shape@, axis as int),
        r.1 == shape@[axis as int],
        r.2 == inner(shape@, axis as int),
        (if r.0 == 0 { 1int } else { r.0 as int }) * ((if r.1 == 0 { 1int } else { r.1 as int }) * (
        if r.2 == 0 { 1int } else { r.2 as int })) <= span(shape@),
        r.0 * (r.1 * r.2) == numel(shape@),
{
    let head = vstd::slice::slice_subrange(shape, 0, axis);
    let rest = vstd::slice::slice_subrange(shape, axis + 1, shape.len());
    proof {
        crate::shape::lemma_span_run(shape@, 0, axis as int);
        crate::shape::lemma_span_run(shape@, axis + 1, shape@.len() as int);
        crate::shape::lemma_numel_axis(shape@, axis as int);
        crate::shape::lemma_numel_le_span(head@);
        crate::shape::lemma_numel_le_span(rest@);
        let a = span(head@) as int;
        let x = if numel(head@) == 0 { 1int } else { numel(head@) as int };
        let b = if shape@[axis as int] == 0 { 1int } else { shape@[axis as int] as int };
        let c = span(rest@) as int;
        let z = if numel(rest@) == 0 { 1int } else { numel(rest@) as int };
        assert(x * (b * z) <= a * (b * c)) by (nonlinear_arith)
            requires
                1 <= x <= a,
                1 <= b,
                1 <= z <= c,
        ;
    }
    (element_count(head), shape[axis], element_count(rest))
}

/// Outcome of planning the copy of a window of `src` into `dst`.
pub open spec fn narrow_copy_plan(
    src: Slice,
    dst: Slice,
    s: Seq<usize>,
    axis: usize,
    start: usize,
    len: usize,
) -> Result<LaunchView, CudaError> {
    let op = "narrow_copy_f32";
    let o = outer(s, axis as int) as usize;
    let i = inner(s, axis as int) as usize;
    let n = (o * len * i) as usize;
    if dst.len != n {
        Err(wrong_length(op, dst.len, n))
    } else {
        match first_long(seq![n, o, s[axis as int], len, start, i], 0) {
            Some(bad) => Err(too_long(op, bad)),
            None => Ok(
                LaunchView::start(Kernel::NarrowCopy, element_config(n as u32), dst.id).src(src.id).dst().word(o as u32).word(s[axis as int] as u32).word(len as u32).word(start as u32).word(i as u32).word(n as u32),
            ),
        }
    }
}

pub fn narrow_copy_f32(
    src: Slice,
    dst: Slice,
    src_shape: &[usize],
    axis: usize,
    start: usize,
    len: usize,
) -> (r: Result<Launch, CudaError>)
    requires
        axis < src_shape.len(),
        span(src_shape@) <= usize::MAX,
        outer(src_shape@, axis as int) * len <= usize::MAX,
        outer(src_shape@, axis as int) * len * inner(src_shape@, axis as int) <= usize::MAX,
    ensures
        seen(r) == narrow_copy_plan(src, dst, src_shape@, axis, start, len),
{
    let op: &'static str = "narrow_copy_f32";
    let (o, extent, i) = split_axis(src_shape, axis);
    let n: usize = o * len * i;
    if dst.len != n {
        return Err(CudaError::Shape(ShapeError::BufferLength { op, len: dst.len, expected: n }));
    }
    let w = words(&vec![n, o, extent, len, start, i], op)?;
    Ok(
        Launch::new(Kernel::NarrowCopy, launch_cfg(w[0]), dst.id).src(src.id).dst().word(w[1]).word(
            w[2],
        ).word(w[3]).word(w[4]).word(w[5]).word(w[0]),
    )
}

/// Outcome of planning the spread of a window's gradient over the whole axis.
pub open spec fn narrow_backward_plan(
    grad_out: Slice,
    dst: Slice,
    s: Seq<usize>,
    axis: usize,
    start: usize,
    len: usize,
) -> Result<LaunchView, CudaError> {
    let op = "narrow_backward_f32";
    let o = outer(s, axis as int) as usize;
    let i = inner(s, axis as int) as usize;
    let extent = s[axis as int];
    let n = (o * extent * i) as usize;
    let g = (o * len * i) as usize;
    if dst.len != n {
        Err(wrong_length(op, dst.len, n))
    } else if grad_out.len != g {
        Err(wrong_length(op, grad_out.len, g))
    } else {
        match first_long(seq![n, extent, len, start, i], 0) {
            Some(bad) => Err(too_long(op, bad)),
            None => Ok(
                LaunchView::start(Kernel::NarrowBackward, element_config(n as u32), dst.id).src(grad_out.id).dst().word(extent as u32).word(len as u32).word(start as u32).word(i as u32).word(n as u32),
            ),
        }
    }
}

pub fn narrow_backward_f32(
    grad_out: Slice,
    dst: Slice,
    orig_shape: &[usize],
    dim: usize,
    start: usize,
    len: usize,
) -> (r: Result<Launch, CudaError>)
    requires
        dim < orig_shape.len(),
        span(orig_shape@) <= usize::MAX,
        outer(orig_shape@, dim as int) * len <= usize::MAX,
        outer(orig_shape@, dim as int) * len * inner(orig_shape@, dim as int) <= usize::MAX,
    ensures
        seen(r) == narrow_backward_plan(grad_out, dst, orig_shape@, dim, start, len),
{
    let op: &'static str = "narrow_backward_f32";
    let (o, extent, i) = split_axis(orig_shape, dim);
    proof {
        let x = o as int;
        let y = extent as int;
        let z = i as int;
        let x1 = if x == 0 { 1int } else { x };
        let y1 = if y == 0 { 1int } else { y };
        let z1 = if z == 0 { 1int } else { z };
        assert(x * y <= x1 * (y1 * z1) && (x * y) * z <= x1 * (y1 * z1)) by (nonlinear_arith)
            requires
                0 <= x <= x1,
                0 <= y <= y1,
                0 <= z <= z1,
                x1 >= 1,
                y1 >= 1,
                z1 >= 1,
        ;
    }
    let n: usize = o * extent * i;
    if dst.len != n {
        return Err(CudaError::Shape(ShapeError::BufferLength { op, len: dst.len, expected: n }));
    }
    let g: usize = o * len * i;
    if grad_out.len != g {
        return Err(
            CudaError::Shape(ShapeError::BufferLength { op, len: grad_out.len, expected: g }),
        );
    }
    let w = words(&vec![n, extent, len, start, i], op)?;
    Ok(
        Launch::new(Kernel::NarrowBackward, launch_cfg(w[0]), dst.id).src(grad_out.id).dst().word(
            w[1],
        ).word(w[2]).word(w[3]).word(w[4]).word(w[0]),
    )
}

/// A list of counts as kernel words.
pub open spec fn table_of(t: Seq<nat>) -> Seq<u32> {
    Seq::new(t.len(), |i: int| t[i] as u32)
}

/// Row-major strides as a kernel table.
pub fn stride_words(shape: &[usize]) -> (t: Vec<u32>)
    requires
        span(shape@) <= u32::MAX,
    ensures
        t@ == table_of(row_major(shape@)),
        forall|i: int| 0 <= i < shape.len() ==> #[trigger] t[i] == stride_at(shape@, i),
{
    let strides = row_major_strides(shape);
    let mut t: Vec<u32> = Vec::new();
    let mut i: usize = 0;
    while i < shape.len()
        invariant
            i <= shape.len(),
            t.len() == i,
            span(shape@) <= u32::MAX,
            strides.len() == shape.len(),
            forall|k: int| 0 <= k < shape.len() ==> #[trigger] strides[k] == stride_at(shape@, k),
            forall|k: int| 0 <= k < i ==> #[trigger] t[k] == stride_at(shape@, k),
        decreases shape.len() - i,
    {
        proof {
            lemma_span_run(shape@, i + 1, shape@.len() as int);
        }
        t.push(strides[i] as u32);
        i = i + 1;
    }
    assert(t@ =~= table_of(row_major(shape@)));
    t
}

/// Strides of a broadcast operand as a kernel table: zero on every axis of
/// extent one.
pub fn broadcast_strides(shape: &[usize], rank: usize) -> (t: Vec<u32>)
    requires
        rank == shape.len(),
        rank >= 1,
        span(shape@) <= u32::MAX,
    ensures
        t@ == table_of(expanded_strides(shape@)),
        forall|i: int|
            0 <= i < shape.len() ==> #[trigger] t[i] == expanded_strides(shape@)[i],
{
    let strides = stride_words(shape);
    let mut t: Vec<u32> = Vec::new();
    let mut i: usize = 0;
    while i < rank
        invariant
            i <= rank,
            rank == shape.len(),
            t.len() == i,
            strides.len() == shape.len(),
            forall|k: int| 0 <= k < shape.len() ==> #[trigger] strides[k] == stride_at(shape@, k),
            forall|k: int| 0 <= k < i ==> #[trigger] t[k] == expanded_strides(shape@)[k],
        decreases rank - i,
    {
        if shape[i] == 1 {
            t.push(0);
        } else {
            t.push(strides[i]);
        }
        i = i + 1;
    }
    assert(t@ =~= table_of(expanded_strides(shape@)));
    t
}

/// Whether the strided kernels can address a shape: its strides fit a word
/// whenever its element count does.
pub open spec fn addressable(s: Seq<usize>) -> bool {
    &&& span(s) <= usize::MAX
    &&& numel(s) <= u32::MAX ==> span(s) <= u32::MAX
}

/// Outcome of planning the expansion of `src` into `dst`.
pub open spec fn broadcast_copy_plan(
    src: Slice,
    dst: Slice,
    s: Seq<usize>,
    d: Seq<usize>,
) -> Result<LaunchView, CudaError> {
    let op = "broadcast_copy_f32";
    let rank = d.len();
    let n = numel(d) as usize;
    if s.len() != rank {
        Err(
            CudaError::Shape(
                ShapeError::RankMismatch { op, lhs: s.len() as usize, rhs: rank as usize },
            ),
        )
    } else if rank > MAX_RANK {
        Err(CudaError::Shape(ShapeError::RankAbove { op, rank: rank as usize, limit: MAX_RANK }))
    } else if dst.len != n {
        Err(wrong_length(op, dst.len, n))
    } else if n > u32::MAX {
        Err(too_long(op, n))
    } else {
        Ok(
            LaunchView::start(Kernel::BroadcastCopy, element_config(n as u32), dst.id).src(
                src.id,
            ).dst().table(table_of(expanded_strides(s))).table(table_of(row_major(d))).word(
                rank as u32,
            ).word(n as u32),
        )
    }
}

pub fn broadcast_copy_f32(src: Slice, dst: Slice, src_shape: &[usize], dst_shape: &[usize]) -> (r:
    Result<Launch, CudaError>)
    requires
        dst_shape.len() >= 1,
        addressable(dst_shape@),
        numel(dst_shape@) <= u32::MAX ==> span(src_shape@) <= u32::MAX,
    ensures
        seen(r) == broadcast_copy_plan(src, dst, src_shape@, dst_shape@),
{
    let op: &'static str = "broadcast_copy_f32";
    let rank: usize = dst_shape.len();
    if src_shape.len() != rank {
        return Err(
            CudaError::Shape(ShapeError::RankMismatch { op, lhs: src_shape.len(), rhs: rank }),
        );
    }
    if rank > MAX_RANK {
        return Err(CudaError::Shape(ShapeError::RankAbove { op, rank, limit: MAX_RANK }));
    }
    let n: usize = element_count(dst_shape);
    if dst.len != n {
        return Err(CudaError::Shape(ShapeError::BufferLength { op, len: dst.len, expected: n }));
    }
    let w: u32 = u32_len(n, op)?;
    let out_strides = stride_words(dst_shape);
    let src_strides = broadcast_strides(src_shape, rank);
    Ok(
        Launch::new(Kernel::BroadcastCopy, launch_cfg(w), dst.id).src(src.id).dst().table(
            src_strides,
        ).table(out_strides).word(rank as u32).word(w),
    )
}

/// Outcome of planning a broadcast product.
pub open spec fn broadcast_mul_plan(
    a: Slice,
    b: Slice,
    dst: Slice,
    sa: Seq<usize>,
    sb: Seq<usize>,
    d: Seq<usize>,
) -> Result<LaunchView, CudaError> {
    let op = "broadcast_mul_f32";
    let rank = d.len();
    let n = numel(d) as usize;
    let na = numel(sa) as usize;
    let nb = numel(sb) as usize;
    if sa.len() != rank {
        Err(
            CudaError::Shape(
                ShapeError::RankMismatch { op, lhs: sa.len() as usize, rhs: rank as usize },
            ),
        )
    } else if sb.len() != rank {
        Err(
            CudaError::Shape(
                ShapeError::RankMismatch { op, lhs: sb.len() as usize, rhs: rank as usize },
            ),
        )
    } else if rank > MAX_RANK {
        Err(CudaError::Shape(ShapeError::RankAbove { op, rank: rank as usize, limit: MAX_RANK }))
    } else if dst.len != n {
        Err(wrong_length(op, dst.len, n))
    } else if a.len != na {
        Err(wrong_length(op, a.len, na))
    } else if b.len != nb {
        Err(wrong_length(op, b.len, nb))
    } else if n > u32::MAX {
        Err(too_long(op, n))
    } else {
        Ok(
            LaunchView::start(Kernel::BroadcastMul, element_config(n as u32), dst.id).src(a.id).src(
                b.id,
            ).dst().table(table_of(expanded_strides(sa))).table(
                table_of(expanded_strides(sb)),
            ).table(table_of(row_major(d))).word(rank as u32).word(n as u32),
        )
    }
}

pub fn broadcast_mul_f32(
    a: Slice,
    b: Slice,
    dst: Slice,
    a_shape: &[usize],
    b_shape: &[usize],
    dst_shape: &[usize],
) -> (r: Result<Launch, CudaError>)
    requires
        dst_shape.len() >= 1,
        addressable(dst_shape@),
        span(a_shape@) <= usize::MAX,
        span(b_shape@) <= usize::MAX,
        numel(dst_shape@) <= u32::MAX ==> span(a_shape@) <= u32::MAX && span(b_shape@) <= u32::MAX,
    ensures
        seen(r) == broadcast_mul_plan(a, b, dst, a_shape@, b_shape@, dst_shape@),
{
    let op: &'static str = "broadcast_mul_f32";
    let rank: usize = dst_shape.len();
    if a_shape.len() != rank {
        return Err(
            CudaError::Shape(ShapeError::RankMismatch { op, lhs: a_shape.len(), rhs: rank }),
        );
    }
    if b_shape.len() != rank {
        return Err(
            CudaError::Shape(ShapeError::RankMismatch { op, lhs: b_shape.len(), rhs: rank }),
        );
    }
    if rank > MAX_RANK {
        return Err(CudaError::Shape(ShapeError::RankAbove { op, rank, limit: MAX_RANK }));
    }
    let n: usize = element_count(dst_shape);
    if dst.len != n {
        return Err(CudaError::Shape(ShapeError::BufferLength { op, len: dst.len, expected: n }));
    }
    let na: usize = element_count(a_shape);
    let nb: usize = element_count(b_shape);
    if a.len != na {
        return Err(CudaError::Shape(ShapeError::BufferLength { op, len: a.len, expected: na }));
    }
    if b.len != nb {
        return Err(CudaError::Shape(ShapeError::BufferLength { op, len: b.len, expected: nb }));
    }
    let w: u32 = u32_len(n, op)?;
    let out_strides = stride_words(dst_shape);
    let a_strides = broadcast_strides(a_shape, rank);
    let b_strides = broadcast_strides(b_shape, rank);
    Ok(
        Launch::new(Kernel::BroadcastMul, launch_cfg(w), dst.id).src(a.id).src(b.id).dst().table(
            a_strides,
        ).table(b_strides).table(out_strides).word(rank as u32).word(w),
    )
}

/// Outcome of planning a kernel with one thread per row along the last axis.
pub open spec fn row_plan(kernel: Kernel, src: Slice, dst: Slice, shape: Seq<usize>) -> Result<
    LaunchView,
    CudaError,
> {
    let op = kernel.name();
    if src.len != dst.len {
        Err(wrong_length(op, dst.len, src.len))
    } else if shape.len() == 0 {
        Err(CudaError::Shape(ShapeError::Empty { op }))
    } else {
        let last = shape.last();
        let rows = (src.len / last) as usize;
        match first_long(seq![rows, last], 0) {
            Some(bad) => Err(too_long(op, bad)),
            None => Ok(
                LaunchView::start(kernel, element_config(rows as u32), dst.id).src(
                    src.id,
                ).dst().word(rows as u32).word(last as u32),
            ),
        }
    }
}

fn launch_rows(kernel: Kernel, src: Slice, dst: Slice, shape: &[usize]) -> (r: Result<
    Launch,
    CudaError,
>)
    requires
        src.len == dst.len && shape.len() > 0 ==> shape@.last() > 0,
    ensures
        seen(r) == row_plan(kernel, src, dst, shape@),
{
    let op: &'static str = kernel.symbol();
    check_unary_lengths(src.len, dst.len, op)?;
    let last: usize = last_dim_or_err(shape, op)?;
    let rows: usize = src.len / last;
    let w = words(&vec![rows, last], op)?;
    Ok(Launch::new(kernel, launch_cfg(w[0]), dst.id).src(src.id).dst().word(w[0]).word(w[1]))
}

/// Inclusive prefix sums of every row.
pub fn cumsum_lastdim_f32(src: Slice, dst: Slice, shape: &[usize]) -> (r: Result<Launch, CudaError>)
    requires
        src.len == dst.len && shape.len() > 0 ==> shape@.last() > 0,
    ensures
        seen(r) == row_plan(Kernel::CumsumLastdim, src, dst, shape@),
{
    launch_rows(Kernel::CumsumLastdim, src, dst, shape)
}

/// Inclusive suffix sums of every row.
pub fn reverse_cumsum_lastdim_f32(src: Slice, dst: Slice, shape: &[usize]) -> (r: Result<
    Launch,
    CudaError,
>)
    requires
        src.len == dst.len && shape.len() > 0 ==> shape@.last() > 0,
    ensures
        seen(r) == row_plan(Kernel::ReverseCumsumLastdim, src, dst, shape@),
{
    launch_rows(Kernel::ReverseCumsumLastdim, src, dst, shape)
}

/// Logarithm of the softmax of every row.
pub fn log_softmax_lastdim_f32(src: Slice, dst: Slice, shape: &[usize]) -> (r: Result<
    Launch,
    CudaError,
>)
    requires
        src.len == dst.len && shape.len() > 0 ==> shape@.last() > 0,
    ensures
        seen(r) == row_plan(Kernel::LogSoftmaxLastdim, src, dst, shape@),
{
    launch_rows(Kernel::LogSoftmaxLastdim, src, dst, shape)
}

/// Outcome of planning a root-mean-square normalisation of every row.
pub open spec fn rmsnorm_plan(
    x: Slice,
    weight: Slice,
    out: Slice,
    shape: Seq<usize>,
    eps: Real,
) -> Result<LaunchView, CudaError> {
    let op = "rmsnorm_f32";
    if x.len != out.len {
        Err(wrong_length(op, out.len, x.len))
    } else if shape.len() == 0 {
        Err(CudaError::Shape(ShapeError::Empty { op }))
    } else {
        let d = shape.last();
        let rows = (x.len / d) as usize;
        if weight.len != d {
            Err(wrong_length(op, weight.len, d))
        } else {
            match first_long(seq![rows, d], 0) {
                Some(bad) => Err(too_long(op, bad)),
                None => Ok(
                    LaunchView::start(Kernel::RmsNorm, element_config(rows as u32), out.id).src(
                        x.id,
                    ).src(weight.id).dst().word(rows as u32).word(d as u32).float(eps),
                ),
            }
        }
    }
}

pub fn rmsnorm_f32(x: Slice, weight: Slice, out: Slice, shape: &[usize], eps: Real) -> (r: Result<
    Launch,
    CudaError,
>)
    requires
        x.len == out.len && shape.len() > 0 && weight.len == shape@.last() ==> shape@.last() > 0,
    ensures
        seen(r) == rmsnorm_plan(x, weight, out, shape@, eps),
{
    let op: &'static str = "rmsnorm_f32";
    check_unary_lengths(x.len, out.len, op)?;
    let d: usize = last_dim_or_err(shape, op)?;
    if weight.len != d {
        return Err(CudaError::Shape(ShapeError::BufferLength { op, len: weight.len, expected: d }));
    }
    let rows: usize = x.len / d;
    let w = words(&vec![rows, d], op)?;
    Ok(
        Launch::new(Kernel::RmsNorm, launch_cfg(w[0]), out.id).src(x.id).src(weight.id).dst().word(
            w[0],
        ).word(w[1]).float(eps),
    )
}

/// Outcome of planning a row lookup: one thread per output element.
pub open spec fn embedding_plan(
    table: Slice,
    indices: Slice,
    out: Slice,
    indices_len: usize,
    embed_dim: usize,
    vocab_size: usize,
) -> Result<LaunchView, CudaError> {
    let op = "embedding_f32";
    let n = (indices_len * embed_dim) as usize;
    if out.len != n {
        Err(wrong_length(op, out.len, n))
    } else {
        match first_long(seq![n, indices_len, embed_dim, vocab_size], 0) {
            Some(bad) => Err(too_long(op, bad)),
            None => Ok(
                LaunchView::start(Kernel::Embedding, element_config(n as u32), out.id).src(
                    table.id,
                ).src(indices.id).dst().word(indices_len as u32).word(embed_dim as u32).word(
                    vocab_size as u32,
                ),
            ),
        }
    }
}

pub fn embedding_f32(
    table: Slice,
    indices: Slice,
    out: Slice,
    indices_len: usize,
    embed_dim: usize,
    vocab_size: usize,
) -> (r: Result<Launch, CudaError>)
    requires
        indices_len * embed_dim <= usize::MAX,
    ensures
        seen(r) == embedding_plan(table, indices, out, indices_len, embed_dim, vocab_size),
{
    let op: &'static str = "embedding_f32";
    let n: usize = indices_len * embed_dim;
    if out.len != n {
        return Err(CudaError::Shape(ShapeError::BufferLength { op, len: out.len, expected: n }));
    }
    let w = words(&vec![n, indices_len, embed_dim, vocab_size], op)?;
    Ok(
        Launch::new(Kernel::Embedding, launch_cfg(w[0]), out.id).src(table.id).src(
            indices.id,
        ).dst().word(w[1]).word(w[2]).word(w[3]),
    )
}

/// Outcome of planning the gradient of a row lookup: rows are added onto the
/// table's gradient.
pub open spec fn scatter_add_embedding_plan(
    table_grad: Slice,
    indices: Slice,
    grad_out: Slice,
    indices_len: usize,
    embed_dim: usize,
    vocab_size: usize,
) -> Result<LaunchView, CudaError> {
    let op = "scatter_add_embedding_f32";
    let n = (indices_len * embed_dim) as usize;
    match first_long(seq![n, indices_len, embed_dim, vocab_size], 0) {
        Some(bad) => Err(too_long(op, bad)),
        None => Ok(
            LaunchView::start(
                Kernel::ScatterAddEmbedding,
                element_config(n as u32),
                table_grad.id,
            ).dst().src(indices.id).src(grad_out.id).word(indices_len as u32).word(
                embed_dim as u32,
            ).word(vocab_size as u32),
        ),
    }
}

pub fn scatter_add_embedding_f32(
    table_grad: Slice,
    indices: Slice,
    grad_out: Slice,
    indices_len: usize,
    embed_dim: usize,
    vocab_size: usize,
) -> (r: Result<Launch, CudaError>)
    requires
        indices_len * embed_dim <= usize::MAX,
    ensures
        seen(r) == scatter_add_embedding_plan(
            table_grad,
            indices,
            grad_out,
            indices_len,
            embed_dim,
            vocab_size,
        ),
{
    let n: usize = indices_len * embed_dim;
    let w = words(&vec![n, indices_len, embed_dim, vocab_size], "scatter_add_embedding_f32")?;
    Ok(
        Launch::new(Kernel::ScatterAddEmbedding, launch_cfg(w[0]), table_grad.id).dst().src(
            indices.id,
        ).src(grad_out.id).word(w[1]).word(w[2]).word(w[3]),
    )
}

/// Outcome of planning a gather along the last axis.
pub open spec fn gather_plan(
    src: Slice,
    indices: Slice,
    out: Slice,
    last_src: usize,
    last_idx: usize,
) -> Result<LaunchView, CudaError> {
    let op = "gather_lastdim_f32";
    let n = out.len;
    if indices.len != n {
        Err(wrong_length(op, indices.len, n))
    } else {
        match first_long(seq![n, last_src, last_idx], 0) {
            Some(bad) => Err(too_long(op, bad)),
            None => Ok(
                LaunchView::start(Kernel::GatherLastdim, element_config(n as u32), out.id).src(
                    src.id,
                ).src(indices.id).dst().word(n as u32).word(last_src as u32).word(last_idx as u32),
            ),
        }
    }
}

pub fn gather_lastdim_f32(
    src: Slice,
    indices: Slice,
    out: Slice,
    last_dim_src: usize,
    last_dim_idx: usize,
) -> (r: Result<Launch, CudaError>)
    ensures
        seen(r) == gather_plan(src, indices, out, last_dim_src, last_dim_idx),
{
    let op: &'static str = "gather_lastdim_f32";
    let n: usize = out.len;
    if indices.len != n {
        return Err(CudaError::Shape(ShapeError::BufferLength { op, len: indices.len, expected: n }));
    }
    let w = words(&vec![n, last_dim_src, last_dim_idx], op)?;
    Ok(
        Launch::new(Kernel::GatherLastdim, launch_cfg(w[0]), out.id).src(src.id).src(
            indices.id,
        ).dst().word(w[0]).word(w[1]).word(w[2]),
    )
}

/// Outcome of planning the gradient of a gather along the last axis.
pub open spec fn scatter_add_gather_plan(
    x_grad: Slice,
    indices: Slice,
    grad_out: Slice,
    last_src: usize,
    last_idx: usize,
) -> Result<LaunchView, CudaError> {
    let n = grad_out.len;
    match first_long(seq![n, last_src, last_idx], 0) {
        Some(bad) => Err(too_long("scatter_add_gather_lastdim_f32", bad)),
        None => Ok(
            LaunchView::start(
                Kernel::ScatterAddGatherLastdim,
                element_config(n as u32),
                x_grad.id,
            ).dst().src(indices.id).src(grad_out.id).word(n as u32).word(last_src as u32).word(
                last_idx as u32,
            ),
        ),
    }
}

pub fn scatter_add_gather_lastdim_f32(
    x_grad: Slice,
    indices: Slice,
    grad_out: Slice,
    last_dim_src: usize,
    last_dim_idx: usize,
) -> (r: Result<Launch, CudaError>)
    ensures
        seen(r) == scatter_add_gather_plan(x_grad, indices, grad_out, last_dim_src, last_dim_idx),
{
    let w = words(
        &vec![grad_out.len, last_dim_src, last_dim_idx],
        "scatter_add_gather_lastdim_f32",
    )?;
    Ok(
        Launch::new(Kernel::ScatterAddGatherLastdim, launch_cfg(w[0]), x_grad.id).dst().src(
            indices.id,
        ).src(grad_out.id).word(w[0]).word(w[1]).word(w[2]),
    )
}

} // verus!
