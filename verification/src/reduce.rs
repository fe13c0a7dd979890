//! Planners for the summing kernels and the gradient of the
//! root-mean-square normalisation.

use crate::error::{CudaError, ShapeError};
use crate::kernels::wrong_length;
use crate::launch::{
    blocks, blocks_for, check_unary_lengths, element_config, first_long, last_dim_or_err,
    launch_cfg, seen, too_long, words, Kernel, Launch, LaunchConfig, LaunchView, Real, Slice,
};
use vstd::prelude::*;

verus! {

/// Outcome of planning the sum over the middle of three axes.
pub open spec fn reduce_sum_plan(
    src: Slice,
    dst: Slice,
    outer: usize,
    axis_len: usize,
    inner: usize,
) -> Result<LaunchView, CudaError> {
    let op = "reduce_sum_dim_keepdim_f32";
    let n = (outer * inner) as usize;
    if dst.len != n {
        Err(wrong_length(op, dst.len, n))
    } else {
        match first_long(seq![n, outer, axis_len, inner], 0) {
            Some(bad) => Err(too_long(op, bad)),
            None => Ok(
                LaunchView::start(
                    Kernel::ReduceSumDimKeepdim,
                    element_config(n as u32),
                    dst.id,
                ).src(src.id).dst().word(outer as u32).word(axis_len as u32).word(inner as u32),
            ),
        }
    }
}

pub fn reduce_sum_dim_keepdim_f32(
    src: Slice,
    dst: Slice,
    outer: usize,
    axis_len: usize,
    inner: usize,
) -> (r: Result<Launch, CudaError>)
    requires
        outer * inner <= usize::MAX,
    ensures
        seen(r) == reduce_sum_plan(src, dst, outer, axis_len, inner),
{
    let op: &'static str = "reduce_sum_dim_keepdim_f32";
    let n: usize = outer * inner;
    if dst.len != n {
        return Err(CudaError::Shape(ShapeError::BufferLength { op, len: dst.len, expected: n }));
    }
    let w = words(&vec![n, outer, axis_len, inner], op)?;
    Ok(
        Launch::new(Kernel::ReduceSumDimKeepdim, launch_cfg(w[0]), dst.id).src(src.id).dst().word(
            w[1],
        ).word(w[2]).word(w[3]),
    )
}

/// Outcome of planning the partial sums of a buffer, one per chunk.
pub open spec fn sum_partial_plan(
    src: Slice,
    partial: Slice,
    count: usize,
    n_chunks: usize,
) -> Result<LaunchView, CudaError> {
    let op = "sum_reduce_partial_f32";
    if partial.len != n_chunks {
        Err(wrong_length(op, partial.len, n_chunks))
    } else {
        match first_long(seq![count, n_chunks], 0) {
            Some(bad) => Err(too_long(op, bad)),
            None => Ok(
                LaunchView::start(
                    Kernel::SumReducePartial,
                    element_config(n_chunks as u32),
                    partial.id,
                ).src(src.id).dst().word(count as u32).word(n_chunks as u32),
            ),
        }
    }
}

pub fn sum_reduce_partial_f32(src: Slice, partial: Slice, numel: usize, n_chunks: usize) -> (r:
    Result<Launch, CudaError>)
    ensures
        seen(r) == sum_partial_plan(src, partial, numel, n_chunks),
{
    let op: &'static str = "sum_reduce_partial_f32";
    if partial.len != n_chunks {
        return Err(
            CudaError::Shape(ShapeError::BufferLength { op, len: partial.len, expected: n_chunks }),
        );
    }
    let w = words(&vec![numel, n_chunks], op)?;
    Ok(
        Launch::new(Kernel::SumReducePartial, launch_cfg(w[1]), partial.id).src(src.id).dst().word(
            w[0],
        ).word(w[1]),
    )
}

/// Whether `c` is the square root of `n`, rounded up.
pub open spec fn is_ceil_sqrt(n: nat, c: nat) -> bool {
    &&& n <= c * c
    &&& c >= 1
    &&& (c - 1) * (c - 1) < n
}

/// The square root of a count, rounded up.
pub fn ceil_sqrt(n: u32) -> (c: u32)
    requires
        n >= 1,
    ensures
        is_ceil_sqrt(n as nat, c as nat),
        1 <= c <= n,
{
    let m: u64 = n as u64;
    let mut lo: u64 = 0;
    let mut hi: u64 = 65536;
    while hi - lo > 1
        invariant
            lo < hi <= 65536,
            lo * lo < m,
            m <= hi * hi,
            m == n,
        decreases hi - lo,
    {
        let mid: u64 = lo + (hi - lo) / 2;
        assert(mid * mid <= 65536 * 65536) by (nonlinear_arith)
            requires
                mid <= 65536,
        ;
        if mid * mid < m {
            lo = mid;
        } else {
            hi = mid;
        }
    }
    assert(hi <= m) by (nonlinear_arith)
        requires
            (hi - 1) * (hi - 1) < m,
            hi >= 1,
            m >= 1,
    ;
    hi as u32
}

/// The rounded-up square root is unique.
pub proof fn law_ceil_sqrt_is_unique(n: nat, c: nat, d: nat)
    requires
        is_ceil_sqrt(n, c),
        is_ceil_sqrt(n, d),
    ensures
        c == d,
{
    if c < d {
        assert(c * c <= (d - 1) * (d - 1)) by (nonlinear_arith)
            requires
                0 <= c <= d - 1,
        ;
    } else if d < c {
        assert(d * d <= (c - 1) * (c - 1)) by (nonlinear_arith)
            requires
                0 <= d <= c - 1,
        ;
    }
}

/// How many of the elements `0..count` fall to chunk `chunk` when each chunk
/// takes every `n_chunks`-th element: those of the form
/// `chunk + k * n_chunks`.
pub open spec fn chunk_of(i: nat, n_chunks: nat) -> nat {
    i % n_chunks
}

/// The elements that thread `chunk` sums, in the order in which it sums them:
/// `chunk`, `chunk + n_chunks`, and so on below `count`.
pub open spec fn chunk_elements(chunk: nat, n_chunks: nat, count: nat) -> Seq<nat>
    decreases (if chunk < count { count - chunk } else { 0 }),
{
    if chunk >= count || n_chunks == 0 {
        Seq::empty()
    } else {
        seq![chunk] + chunk_elements(chunk + n_chunks, n_chunks, count)
    }
}

proof fn lemma_chunk_elements(start: nat, n_chunks: nat, count: nat, i: nat)
    requires
        n_chunks > 0,
    ensures
        chunk_elements(start, n_chunks, count).contains(i) <==> (start <= i < count && (i - start)
            % (n_chunks as int) == 0),
    decreases (if start < count { count - start } else { 0 }),
{
    let s = chunk_elements(start, n_chunks, count);
    if start < count {
        let rest = chunk_elements(start + n_chunks, n_chunks, count);
        lemma_chunk_elements(start + n_chunks, n_chunks, count, i);
        assert(s =~= seq![start] + rest);
        if s.contains(i) {
            let k = choose|k: int| 0 <= k < s.len() && s[k] == i;
            if k > 0 {
                assert(rest[k - 1] == i);
                assert(rest.contains(i));
                vstd::arithmetic::div_mod::lemma_mod_add_multiples_vanish(
                    i - start - n_chunks,
                    n_chunks as int,
                );
            }
        }
        if start <= i < count && (i - start) % (n_chunks as int) == 0 {
            if i == start {
                assert(s[0] == i);
            } else {
                if i - start < n_chunks {
                    vstd::arithmetic::div_mod::lemma_small_mod(
                        (i - start) as nat,
                        n_chunks,
                    );
                }
                vstd::arithmetic::div_mod::lemma_mod_add_multiples_vanish(
                    i - start - n_chunks,
                    n_chunks as int,
                );
                assert(rest.contains(i));
                let k = choose|k: int| 0 <= k < rest.len() && rest[k] == i;
                assert(s[k + 1] == i);
            }
        }
    }
}

/// Every element is summed by exactly one chunk.
pub proof fn law_every_element_is_summed_once(n_chunks: nat, count: nat, i: nat, chunk: nat)
    requires
        0 < n_chunks,
        i < count,
        chunk < n_chunks,
    ensures
        chunk_elements(chunk, n_chunks, count).contains(i) <==> chunk == chunk_of(i, n_chunks),
        chunk_of(i, n_chunks) < n_chunks,
{
    lemma_chunk_elements(chunk, n_chunks, count, i);
    vstd::arithmetic::div_mod::lemma_mod_bound(i as int, n_chunks as int);
    vstd::arithmetic::div_mod::lemma_fundamental_div_mod(i as int, n_chunks as int);
    let q = i / n_chunks;
    let r = i % n_chunks;
    if chunk == r {
        assert(r <= i) by (nonlinear_arith)
            requires
                i == n_chunks * q + r,
                q >= 0,
                n_chunks > 0,
        ;
        vstd::arithmetic::div_mod::lemma_fundamental_div_mod_converse(
            i - r,
            n_chunks as int,
            q as int,
            0,
        );
    }
    if chunk <= i && (i - chunk) % (n_chunks as int) == 0 {
        let p = (i - chunk) / (n_chunks as int);
        vstd::arithmetic::div_mod::lemma_fundamental_div_mod(i - chunk, n_chunks as int);
        vstd::arithmetic::div_mod::lemma_fundamental_div_mod_converse(
            i as int,
            n_chunks as int,
            p,
            chunk as int,
        );
    }
}

/// Rows that one thread of the weight-gradient kernel folds.
pub const ROWS_PER_CHUNK: usize = 16;

/// Number of row chunks: at least one.
pub open spec fn row_chunks(rows: nat) -> nat {
    if rows == 0 {
        1
    } else {
        blocks(rows, ROWS_PER_CHUNK as nat)
    }
}

pub fn row_chunk_count(rows: usize) -> (n: usize)
    ensures
        n == row_chunks(rows as nat),
        1 <= n,
        rows >= 1 ==> n <= rows,
{
    if rows == 0 {
        1
    } else if rows % ROWS_PER_CHUNK == 0 {
        rows / ROWS_PER_CHUNK
    } else {
        rows / ROWS_PER_CHUNK + 1
    }
}

/// Every row is folded by exactly one chunk.
pub proof fn law_every_row_is_folded_once(rows: nat, row: nat, chunk: nat)
    requires
        row < rows,
        chunk < row_chunks(rows),
    ensures
        row / (ROWS_PER_CHUNK as nat) < row_chunks(rows),
        chunk * ROWS_PER_CHUNK <= row < (chunk + 1) * ROWS_PER_CHUNK <==> chunk == row / (
        ROWS_PER_CHUNK as nat),
{
}

/// Outcome of planning the input gradient: one block of threads per row.
pub open spec fn rmsnorm_backward_x_plan(
    grad_x: Slice,
    grad_out: Slice,
    x: Slice,
    weight: Slice,
    shape: Seq<usize>,
    eps: Real,
) -> Result<LaunchView, CudaError> {
    let op = "rmsnorm_backward_x_f32";
    if x.len != grad_x.len {
        Err(wrong_length(op, grad_x.len, x.len))
    } else if x.len != grad_out.len {
        Err(wrong_length(op, grad_out.len, x.len))
    } else if shape.len() == 0 {
        Err(CudaError::Shape(ShapeError::Empty { op }))
    } else {
        let d = shape.last();
        let rows = (x.len / d) as usize;
        match first_long(seq![rows, d], 0) {
            Some(bad) => Err(too_long(op, bad)),
            None => Ok(
                LaunchView::start(
                    Kernel::RmsNormBackwardX,
                    LaunchConfig {
                        grid_dim: (rows as u32, 1, 1),
                        block_dim: (256, 1, 1),
                        shared_mem_bytes: 2048,
                    },
                    grad_x.id,
                ).dst().src(grad_out.id).src(x.id).src(weight.id).word(rows as u32).word(
                    d as u32,
                ).float(eps),
            ),
        }
    }
}

pub fn rmsnorm_backward_x_f32(
    grad_x: Slice,
    grad_out: Slice,
    x: Slice,
    weight: Slice,
    shape: &[usize],
    eps: Real,
) -> (r: Result<Launch, CudaError>)
    requires
        shape.len() > 0 ==> shape@.last() > 0,
    ensures
        seen(r) == rmsnorm_backward_x_plan(grad_x, grad_out, x, weight, shape@, eps),
{
    let op: &'static str = "rmsnorm_backward_x_f32";
    check_unary_lengths(x.len, grad_x.len, op)?;
    check_unary_lengths(x.len, grad_out.len, op)?;
    let d: usize = last_dim_or_err(shape, op)?;
    let rows: usize = x.len / d;
    let w = words(&vec![rows, d], op)?;
    let config = LaunchConfig {
        grid_dim: (w[0], 1, 1),
        block_dim: (256, 1, 1),
        shared_mem_bytes: 2048,
    };
    Ok(
        Launch::new(Kernel::RmsNormBackwardX, config, grad_x.id).dst().src(grad_out.id).src(
            x.id,
        ).src(weight.id).word(w[0]).word(w[1]).float(eps),
    )
}

/// Outcome of planning the first stage of the weight gradient: one partial
/// row of sums per chunk of rows.
pub open spec fn rmsnorm_backward_w_partial_plan(
    partial: Slice,
    grad_out: Slice,
    x: Slice,
    rows: usize,
    d: usize,
    n_chunks: usize,
    eps: Real,
) -> Result<LaunchView, CudaError> {
    match first_long(seq![rows, d, ROWS_PER_CHUNK, n_chunks], 0) {
        Some(bad) => Err(too_long("rmsnorm_backward_w_f32", bad)),
        None => Ok(
            LaunchView::start(
                Kernel::RmsNormBackwardWPartial,
                LaunchConfig {
                    grid_dim: (blocks(d as nat, 256) as u32, n_chunks as u32, 1),
                    block_dim: (256, 1, 1),
                    shared_mem_bytes: 0,
                },
                partial.id,
            ).dst().src(grad_out.id).src(x.id).word(rows as u32).word(d as u32).word(
                ROWS_PER_CHUNK as u32,
            ).word(n_chunks as u32).float(eps),
        ),
    }
}

pub fn rmsnorm_backward_w_partial_f32(
    partial: Slice,
    grad_out: Slice,
    x: Slice,
    rows: usize,
    d: usize,
    n_chunks: usize,
    eps: Real,
) -> (r: Result<Launch, CudaError>)
    ensures
        seen(r) == rmsnorm_backward_w_partial_plan(partial, grad_out, x, rows, d, n_chunks, eps),
{
    let w = words(&vec![rows, d, ROWS_PER_CHUNK, n_chunks], "rmsnorm_backward_w_f32")?;
    let config = LaunchConfig {
        grid_dim: (blocks_for(w[1], 256), w[3], 1),
        block_dim: (256, 1, 1),
        shared_mem_bytes: 0,
    };
    Ok(
        Launch::new(Kernel::RmsNormBackwardWPartial, config, partial.id).dst().src(grad_out.id).src(
            x.id,
        ).word(w[0]).word(w[1]).word(w[2]).word(w[3]).float(eps),
    )
}

} // verus!
