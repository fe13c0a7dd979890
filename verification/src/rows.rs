//! Operations along the last axis, lookups, total sums and the scan.

use crate::device::{each, made, run, scalar_val, swapped_shape, transposed_val};
use crate::error::{CudaError, ShapeError};
use crate::kernels::{
    addressable, embedding_f32, gather_lastdim_f32, rmsnorm_f32, scatter_add_embedding_f32,
    scatter_add_gather_lastdim_f32,
};
use crate::kernels::{cumsum_lastdim_f32, log_softmax_lastdim_f32, reverse_cumsum_lastdim_f32};
use crate::launch::{
    blocks, first_long, lemma_first_long, too_long, Buffer, Kernel, LaunchConfig, Real, Slice,
};
use crate::program::{held_all, held_args, HostTask, HostTaskView, Program, Term, TermArg, Val};
use crate::reduce::{
    ceil_sqrt, is_ceil_sqrt, law_ceil_sqrt_is_unique, reduce_sum_dim_keepdim_f32,
    rmsnorm_backward_w_partial_f32, rmsnorm_backward_x_f32, row_chunk_count, row_chunks,
    sum_reduce_partial_f32, ROWS_PER_CHUNK,
};
use crate::shape::{
    element_count, lemma_low_rank, lemma_numel_concat, lemma_numel_le_span, lemma_numel_swapped,
    numel, span, swapped,
};
use crate::ssd::{scan_plan, ssd_scan_chunked_with_context, ScanDims};
use crate::tensor::{CudaTensor, Shape};
use std::sync::Arc;
use vstd::prelude::*;

verus! {

/// `kernel` applied to every row of `v` along its last axis.
pub open spec fn row_val(kernel: Kernel, v: Val) -> Result<Val, CudaError> {
    let n = v.count();
    let last = v.dims.last();
    let rows = (n as usize / last) as usize;
    match first_long(seq![rows, last], 0) {
        Some(bad) => Err(too_long(kernel.name(), bad)),
        None => Ok(
            Val {
                term: each(
                    kernel,
                    rows as nat,
                    seq![
                        TermArg::Value(v.term),
                        TermArg::Value(Term::Zeros(n)),
                        TermArg::Word(rows as u32),
                        TermArg::Word(last as u32),
                    ],
                ),
                dims: v.dims,
            },
        ),
    }
}

/// `kernel` applied along the axis `dim`: directly where that is the last
/// axis, and between two transpositions where it is not.
pub open spec fn along_val(op: &'static str, kernel: Kernel, v: Val, dim: usize) -> Result<
    Val,
    CudaError,
> {
    let last = (v.dims.len() - 1) as usize;
    if dim == last {
        row_val(kernel, v)
    } else {
        match transposed_val(op, v, dim, last) {
            Err(e) => Err(e),
            Ok(w) => match row_val(kernel, w) {
                Err(e) => Err(e),
                Ok(y) => transposed_val(op, y, dim, last),
            },
        }
    }
}

/// Root-mean-square normalisation of every row.
pub open spec fn rmsnorm_val(x: Val, w: Val, eps: Real) -> Result<Val, CudaError> {
    let op = "rmsnorm_f32";
    if x.dims.len() == 0 {
        Err(CudaError::Shape(ShapeError::Empty { op }))
    } else {
        let d = x.dims.last();
        let n = x.count();
        let rows = (n as usize / d) as usize;
        if w.count() != d {
            Err(
                CudaError::Shape(
                    ShapeError::BufferLength { op, len: w.count() as usize, expected: d },
                ),
            )
        } else {
            match first_long(seq![rows, d], 0) {
                Some(bad) => Err(too_long(op, bad)),
                None => Ok(
                    Val {
                        term: each(
                            Kernel::RmsNorm,
                            rows as nat,
                            seq![
                                TermArg::Value(x.term),
                                TermArg::Value(w.term),
                                TermArg::Value(Term::Zeros(n)),
                                TermArg::Word(rows as u32),
                                TermArg::Word(d as u32),
                                TermArg::Real(eps),
                            ],
                        ),
                        dims: x.dims,
                    },
                ),
            }
        }
    }
}

/// Gradient of the normalisation with respect to its input.
pub open spec fn rmsnorm_grad_x_val(g: Val, x: Val, w: Val, eps: Real) -> Result<Val, CudaError> {
    let n = x.count();
    let d = x.dims.last();
    let rows = (n as usize / d) as usize;
    match first_long(seq![rows, d], 0) {
        Some(bad) => Err(too_long("rmsnorm_backward_x_f32", bad)),
        None => Ok(
            Val {
                term: run(
                    Kernel::RmsNormBackwardX,
                    LaunchConfig {
                        grid_dim: (rows as u32, 1, 1),
                        block_dim: (256, 1, 1),
                        shared_mem_bytes: 2048,
                    },
                    seq![
                        TermArg::Value(Term::Zeros(n)),
                        TermArg::Value(g.term),
                        TermArg::Value(x.term),
                        TermArg::Value(w.term),
                        TermArg::Word(rows as u32),
                        TermArg::Word(d as u32),
                        TermArg::Real(eps),
                    ],
                ),
                dims: x.dims,
            },
        ),
    }
}

/// Gradient of the normalisation with respect to its weight, of shape `dims`:
/// partial sums over chunks of rows, then the sum over the chunks.
pub open spec fn rmsnorm_grad_w_val(g: Val, x: Val, dims: Seq<usize>, eps: Real) -> Result<
    Val,
    CudaError,
> {
    let n = x.count();
    let d = x.dims.last();
    let rows = (n as usize / d) as usize;
    let chunks = row_chunks(rows as nat) as usize;
    match first_long(seq![rows, d, ROWS_PER_CHUNK, chunks], 0) {
        Some(bad) => Err(too_long("rmsnorm_backward_w_f32", bad)),
        None => {
            let partial = run(
                Kernel::RmsNormBackwardWPartial,
                LaunchConfig {
                    grid_dim: (blocks(d as nat, 256) as u32, chunks as u32, 1),
                    block_dim: (256, 1, 1),
                    shared_mem_bytes: 0,
                },
                seq![
                    TermArg::Value(Term::Zeros((chunks * d) as nat)),
                    TermArg::Value(g.term),
                    TermArg::Value(x.term),
                    TermArg::Word(rows as u32),
                    TermArg::Word(d as u32),
                    TermArg::Word(ROWS_PER_CHUNK as u32),
                    TermArg::Word(chunks as u32),
                    TermArg::Real(eps),
                ],
            );
            Ok(
                Val {
                    term: each(
                        Kernel::ReduceSumDimKeepdim,
                        d as nat,
                        seq![
                            TermArg::Value(partial),
                            TermArg::Value(Term::Zeros(d as nat)),
                            TermArg::Word(1),
                            TermArg::Word(chunks as u32),
                            TermArg::Word(d as u32),
                        ],
                    ),
                    dims,
                },
            )
        },
    }
}

/// The rows of `table` that `idx` names.
pub open spec fn embedding_val(table: Val, idx: Val) -> Result<Val, CudaError> {
    let vocab = table.dims[0];
    let width = table.dims[1];
    let count = idx.count() as usize;
    let n = (count * width) as usize;
    match first_long(seq![n, count, width, vocab], 0) {
        Some(bad) => Err(too_long("embedding_f32", bad)),
        None => Ok(
            Val {
                term: each(
                    Kernel::Embedding,
                    n as nat,
                    seq![
                        TermArg::Value(table.term),
                        TermArg::Value(idx.term),
                        TermArg::Value(Term::Zeros(n as nat)),
                        TermArg::Word(count as u32),
                        TermArg::Word(width as u32),
                        TermArg::Word(vocab as u32),
                    ],
                ),
                dims: idx.dims.push(width),
            },
        ),
    }
}

/// Gradient of a table of shape `table` from which the rows `idx` were read.
pub open spec fn embedding_grad_val(g: Val, idx: Val, table: Seq<usize>) -> Result<
    Val,
    CudaError,
> {
    let vocab = table[0];
    let width = table[1];
    let count = idx.count() as usize;
    let n = (count * width) as usize;
    match first_long(seq![n, count, width, vocab], 0) {
        Some(bad) => Err(too_long("scatter_add_embedding_f32", bad)),
        None => Ok(
            Val {
                term: each(
                    Kernel::ScatterAddEmbedding,
                    n as nat,
                    seq![
                        TermArg::Value(Term::Zeros(numel(table))),
                        TermArg::Value(idx.term),
                        TermArg::Value(g.term),
                        TermArg::Word(count as u32),
                        TermArg::Word(width as u32),
                        TermArg::Word(vocab as u32),
                    ],
                ),
                dims: table,
            },
        ),
    }
}

/// The elements of `x` that `idx` names along the last axis.
pub open spec fn gather_last_val(x: Val, idx: Val) -> Result<Val, CudaError> {
    let n = idx.count();
    let ls = x.dims.last();
    let li = idx.dims.last();
    match first_long(seq![n as usize, ls, li], 0) {
        Some(bad) => Err(too_long("gather_lastdim_f32", bad)),
        None => Ok(
            Val {
                term: each(
                    Kernel::GatherLastdim,
                    n,
                    seq![
                        TermArg::Value(x.term),
                        TermArg::Value(idx.term),
                        TermArg::Value(Term::Zeros(n)),
                        TermArg::Word(n as u32),
                        TermArg::Word(ls as u32),
                        TermArg::Word(li as u32),
                    ],
                ),
                dims: idx.dims,
            },
        ),
    }
}

/// Gradient of a tensor of shape `dims` from which `idx` was gathered along
/// the last axis.
pub open spec fn gather_last_grad_val(g: Val, idx: Val, dims: Seq<usize>) -> Result<
    Val,
    CudaError,
> {
    let n = g.count();
    let ls = dims.last();
    let li = idx.dims.last();
    match first_long(seq![n as usize, ls, li], 0) {
        Some(bad) => Err(too_long("scatter_add_gather_lastdim_f32", bad)),
        None => Ok(
            Val {
                term: each(
                    Kernel::ScatterAddGatherLastdim,
                    n,
                    seq![
                        TermArg::Value(Term::Zeros(numel(dims))),
                        TermArg::Value(idx.term),
                        TermArg::Value(g.term),
                        TermArg::Word(n as u32),
                        TermArg::Word(ls as u32),
                        TermArg::Word(li as u32),
                    ],
                ),
                dims,
            },
        ),
    }
}

/// An index tensor with two axes exchanged, on the host.
pub open spec fn swapped_index_val(idx: Val, a: usize, b: usize) -> Val {
    Val {
        term: Term::Host {
            task: HostTaskView::SwapIndexAxes { shape: idx.dims, first: a, second: b },
            inputs: seq![idx.term],
        },
        dims: swapped(idx.dims, a as int, b as int),
    }
}

/// The elements of `x` that `idx` names along the axis `dim`.
pub open spec fn gather_val(x: Val, idx: Val, dim: usize) -> Result<Val, CudaError> {
    let last = (x.dims.len() - 1) as usize;
    if dim == last {
        gather_last_val(x, idx)
    } else {
        match transposed_val("transpose", x, dim, last) {
            Err(e) => Err(e),
            Ok(xt) => match gather_last_val(xt, swapped_index_val(idx, dim, last)) {
                Err(e) => Err(e),
                Ok(y) => transposed_val("transpose", y, dim, last),
            },
        }
    }
}

/// Gradient of a tensor of shape `dims` from which `idx` was gathered along
/// the axis `dim`.
pub open spec fn gather_grad_val(g: Val, idx: Val, dim: usize, dims: Seq<usize>) -> Result<
    Val,
    CudaError,
> {
    let last = (dims.len() - 1) as usize;
    if dim == last {
        gather_last_grad_val(g, idx, dims)
    } else {
        match transposed_val("transpose_inner", g, dim, last) {
            Err(e) => Err(e),
            Ok(gt) => match gather_last_grad_val(
                gt,
                swapped_index_val(idx, dim, last),
                swapped(dims, dim as int, last as int),
            ) {
                Err(e) => Err(e),
                Ok(y) => transposed_val("transpose_inner", y, dim, last),
            },
        }
    }
}

/// The square root of a count, rounded up.
pub open spec fn chunk_count(n: nat) -> nat {
    choose|c: nat| is_ceil_sqrt(n, c)
}

/// The sum of all elements, as a tensor with one element: partial sums over
/// interleaved chunks, then the sum over the chunks.
pub open spec fn sum_all_val(v: Val) -> Result<Val, CudaError> {
    let n = v.count();
    let one = seq![1usize];
    if n == 0 {
        Err(CudaError::Shape(ShapeError::Empty { op: "sum_all_f32" }))
    } else if n > u32::MAX {
        Err(too_long("sum_reduce_partial_f32", n as usize))
    } else {
        let c = chunk_count(n);
        let partial = each(
            Kernel::SumReducePartial,
            c,
            seq![
                TermArg::Value(v.term),
                TermArg::Value(Term::Zeros(c)),
                TermArg::Word(n as u32),
                TermArg::Word(c as u32),
            ],
        );
        Ok(
            Val {
                term: each(
                    Kernel::ReduceSumDimKeepdim,
                    1,
                    seq![
                        TermArg::Value(partial),
                        TermArg::Value(Term::Zeros(1)),
                        TermArg::Word(1),
                        TermArg::Word(c as u32),
                        TermArg::Word(1),
                    ],
                ),
                dims: one,
            },
        )
    }
}

/// The mean of all elements, as a tensor with one element.
pub open spec fn mean_all_val(v: Val) -> Result<Val, CudaError> {
    match sum_all_val(v) {
        Err(e) => Err(e),
        Ok(s) => Ok(scalar_val(Kernel::MulScalar, s, Real::OneOver(v.count() as usize))),
    }
}

/// The chunked scan.
pub open spec fn scan_val(x: Val, a: Val, b: Val, c: Val, d: ScanDims) -> Result<Val, CudaError> {
    let z = Slice { id: Buffer::Global(0), len: 0 };
    let n = numel(x.dims);
    match scan_plan(z, z, z, z, z, d) {
        Err(e) => Err(e),
        Ok(l) => Ok(
            Val {
                term: run(
                    l.kernel,
                    l.config,
                    seq![
                        TermArg::Value(x.term),
                        TermArg::Value(a.term),
                        TermArg::Value(b.term),
                        TermArg::Value(c.term),
                        TermArg::Value(Term::Zeros(n)),
                        TermArg::Word(d.batch as u32),
                        TermArg::Word(d.t_len as u32),
                        TermArg::Word(d.n_heads as u32),
                        TermArg::Word(d.p_dim as u32),
                        TermArg::Word(d.n_dim as u32),
                        TermArg::Word(d.block_len as u32),
                    ],
                ),
                dims: x.dims,
            },
        ),
    }
}

/// A positive last extent divides the element count.
pub proof fn lemma_rows(s: Seq<usize>)
    requires
        s.len() >= 1,
        s.last() > 0,
    ensures
        numel(s) == numel(s.subrange(0, s.len() - 1)) * s.last(),
        numel(s) / (s.last() as nat) == numel(s.subrange(0, s.len() - 1)),
{
    let k = s.len() - 1;
    crate::shape::lemma_split(s, k);
    let t = crate::shape::tail(s, k);
    lemma_low_rank(t);
    let h = numel(s.subrange(0, k)) as int;
    let d = s.last() as int;
    vstd::arithmetic::div_mod::lemma_div_multiples_vanish(h, d);
    vstd::arithmetic::mul::lemma_mul_is_commutative(h, d);
}

impl Program {
    /// `kernel` applied to every row of `x`.
    pub fn row_op(&mut self, kernel: Kernel, x: &CudaTensor) -> (r: Result<CudaTensor, CudaError>)
        requires
            old(self).wf(),
            old(self).holds_f32(*x),
            kernel is CumsumLastdim || kernel is ReverseCumsumLastdim || kernel
                is LogSoftmaxLastdim,
            x.dims().len() > 0,
            x.dims().last() > 0,
        ensures
            made(*old(self), *final(self), r, row_val(kernel, old(self).val(*x))),
    {
        let ghost base = *self;
        let n: usize = x.numel();
        let buf = self.zeros(n);
        let dst = Slice { id: *buf, len: n };
        let l = match kernel {
            Kernel::CumsumLastdim => cumsum_lastdim_f32(x.slice(), dst, x.shape())?,
            Kernel::ReverseCumsumLastdim => reverse_cumsum_lastdim_f32(x.slice(), dst, x.shape())?,
            _ => log_softmax_lastdim_f32(x.slice(), dst, x.shape())?,
        };
        let ghost m = self.state();
        let ghost lv = l@;
        self.launch(l, Ghost(base));
        proof {
            assert(held_args(m, lv.dst, lv.args) =~= seq![
                TermArg::Value(base.val(*x).term),
                TermArg::Value(Term::Zeros(n as nat)),
                TermArg::Word((n / x.dims().last()) as u32),
                TermArg::Word(x.dims().last() as u32),
            ]);
        }
        Ok(CudaTensor::new(buf, x.shape.clone()))
    }

    /// `kernel` applied along the axis `dim`.
    pub fn along_op(&mut self, op: &'static str, kernel: Kernel, x: &CudaTensor, dim: usize) -> (r:
        Result<CudaTensor, CudaError>)
        requires
            old(self).wf(),
            old(self).holds_f32(*x),
            addressable(x.dims()),
            kernel is CumsumLastdim || kernel is ReverseCumsumLastdim || kernel
                is LogSoftmaxLastdim,
            x.dims().len() > 0,
            dim < x.dims().len() ==> x.dims()[dim as int] > 0,
        ensures
            made(*old(self), *final(self), r, along_val(op, kernel, old(self).val(*x), dim)),
    {
        let last: usize = x.shape.len() - 1;
        if dim == last {
            self.row_op(kernel, x)
        } else {
            let xt = self.transpose_op(op, x, dim, last)?;
            proof {
                lemma_numel_swapped(x.dims(), dim as int, last as int);
            }
            let yt = self.row_op(kernel, &xt)?;
            self.transpose_op(op, &yt, dim, last)
        }
    }

    /// Root-mean-square normalisation of every row.
    pub fn rmsnorm_op(&mut self, x: &CudaTensor, w: &CudaTensor, eps: Real) -> (r: Result<
        CudaTensor,
        CudaError,
    >)
        requires
            old(self).wf(),
            old(self).holds_f32(*x),
            old(self).holds_f32(*w),
            x.dims().len() > 0 && numel(w.dims()) == x.dims().last() ==> x.dims().last() > 0,
        ensures
            made(
                *old(self),
                *final(self),
                r,
                rmsnorm_val(old(self).val(*x), old(self).val(*w), eps),
            ),
    {
        let ghost base = *self;
        let n: usize = x.numel();
        let buf = self.zeros(n);
        let l = rmsnorm_f32(x.slice(), w.slice(), Slice { id: *buf, len: n }, x.shape(), eps)?;
        let ghost m = self.state();
        let ghost lv = l@;
        self.launch(l, Ghost(base));
        proof {
            assert(held_args(m, lv.dst, lv.args) =~= seq![
                TermArg::Value(base.val(*x).term),
                TermArg::Value(base.val(*w).term),
                TermArg::Value(Term::Zeros(n as nat)),
                TermArg::Word((n / x.dims().last()) as u32),
                TermArg::Word(x.dims().last() as u32),
                TermArg::Real(eps),
            ]);
        }
        Ok(CudaTensor::new(buf, x.shape.clone()))
    }

    /// Gradient of the normalisation with respect to its input.
    pub fn rmsnorm_grad_x(&mut self, g: &CudaTensor, x: &CudaTensor, w: &CudaTensor, eps: Real) -> (r:
        Result<CudaTensor, CudaError>)
        requires
            old(self).wf(),
            old(self).holds_f32(*g),
            old(self).holds_f32(*x),
            old(self).holds_f32(*w),
            x.dims().len() > 0,
            x.dims().last() > 0,
            numel(g.dims()) == numel(x.dims()),
        ensures
            made(
                *old(self),
                *final(self),
                r,
                rmsnorm_grad_x_val(
                    old(self).val(*g),
                    old(self).val(*x),
                    old(self).val(*w),
                    eps,
                ),
            ),
    {
        let ghost base = *self;
        let n: usize = x.numel();
        let buf = self.zeros(n);
        let l = rmsnorm_backward_x_f32(
            Slice { id: *buf, len: n },
            g.slice(),
            x.slice(),
            w.slice(),
            x.shape(),
            eps,
        )?;
        let ghost m = self.state();
        let ghost lv = l@;
        self.launch(l, Ghost(base));
        proof {
            assert(held_args(m, lv.dst, lv.args) =~= seq![
                TermArg::Value(Term::Zeros(n as nat)),
                TermArg::Value(base.val(*g).term),
                TermArg::Value(base.val(*x).term),
                TermArg::Value(base.val(*w).term),
                TermArg::Word((n / x.dims().last()) as u32),
                TermArg::Word(x.dims().last() as u32),
                TermArg::Real(eps),
            ]);
        }
        Ok(CudaTensor::new(buf, x.shape.clone()))
    }

    /// Gradient of the normalisation with respect to its weight.
    pub fn rmsnorm_backward_w_f32(&mut self, g: &CudaTensor, x: &CudaTensor, dims: &Shape, eps: Real) -> (r:
        Result<CudaTensor, CudaError>)
        requires
            old(self).wf(),
            old(self).holds_f32(*g),
            old(self).holds_f32(*x),
            x.dims().len() > 0,
            x.dims().last() > 0,
            numel(x.dims()) > 0,
            numel(dims@) == x.dims().last(),
            span(dims@) <= usize::MAX,
            numel(g.dims()) == numel(x.dims()),
        ensures
            made(
                *old(self),
                *final(self),
                r,
                rmsnorm_grad_w_val(old(self).val(*g), old(self).val(*x), dims@, eps),
            ),
    {
        let ghost base = *self;
        let n: usize = x.numel();
        let d: usize = x.shape[x.shape.len() - 1];
        proof {
            lemma_rows(x.dims());
        }
        let rows: usize = n / d;
        let chunks: usize = row_chunk_count(rows);
        proof {
            let h = numel(x.dims().subrange(0, x.dims().len() - 1)) as int;
            let di = d as int;
            let ci = chunks as int;
            assert(h >= 1) by (nonlinear_arith)
                requires
                    h * di >= 1,
                    h >= 0,
                    di >= 1,
            ;
            assert(ci * di <= h * di) by (nonlinear_arith)
                requires
                    ci <= h,
                    di >= 1,
            ;
        }
        let out = self.zeros(d);
        let partial = self.zeros(chunks * d);
        let pslice = Slice { id: *partial, len: chunks * d };
        let l1 = rmsnorm_backward_w_partial_f32(pslice, g.slice(), x.slice(), rows, d, chunks, eps)?;
        let ghost m1 = self.state();
        let ghost v1 = l1@;
        self.launch(l1, Ghost(base));
        proof {
            assert(held_args(m1, v1.dst, v1.args) =~= seq![
                TermArg::Value(Term::Zeros((chunks * d) as nat)),
                TermArg::Value(base.val(*g).term),
                TermArg::Value(base.val(*x).term),
                TermArg::Word(rows as u32),
                TermArg::Word(d as u32),
                TermArg::Word(ROWS_PER_CHUNK as u32),
                TermArg::Word(chunks as u32),
                TermArg::Real(eps),
            ]);
        }
        proof {
            lemma_first_long(seq![rows, d, ROWS_PER_CHUNK, chunks], 0);
            assert(seq![rows, d, ROWS_PER_CHUNK, chunks][1] <= u32::MAX);
            assert(seq![rows, d, ROWS_PER_CHUNK, chunks][3] <= u32::MAX);
            lemma_first_long(seq![d, 1, chunks, d], 0);
        }
        let l2 = reduce_sum_dim_keepdim_f32(pslice, Slice { id: *out, len: d }, 1, chunks, d)?;
        let ghost m2 = self.state();
        let ghost v2 = l2@;
        self.launch(l2, Ghost(base));
        proof {
            assert(held_args(m2, v2.dst, v2.args) =~= seq![
                TermArg::Value(
                    run(
                        Kernel::RmsNormBackwardWPartial,
                        v1.config,
                        held_args(m1, v1.dst, v1.args),
                    ),
                ),
                TermArg::Value(Term::Zeros(d as nat)),
                TermArg::Word(1),
                TermArg::Word(chunks as u32),
                TermArg::Word(d as u32),
            ]);
        }
        Ok(CudaTensor::new(out, dims.clone()))
    }

    /// The rows of `table` that `idx` names.
    pub fn embedding_op(&mut self, table: &CudaTensor, idx: &CudaTensor) -> (r: Result<
        CudaTensor,
        CudaError,
    >)
        requires
            old(self).wf(),
            old(self).holds_f32(*table),
            old(self).holds(*idx),
            idx.storage is I64,
            table.dims().len() == 2,
            span(idx.dims().push(table.dims()[1])) <= usize::MAX,
        ensures
            made(
                *old(self),
                *final(self),
                r,
                embedding_val(old(self).val(*table), old(self).val(*idx)),
            ),
    {
        let ghost base = *self;
        let vocab: usize = table.shape[0];
        let width: usize = table.shape[1];
        let count: usize = idx.numel();
        let mut v: Vec<usize> = crate::device::vec_of(idx.shape());
        v.push(width);
        let dims: Shape = Arc::new(v);
        proof {
            assert(dims@ =~= idx.dims() + seq![width]);
            lemma_numel_concat(idx.dims(), seq![width]);
            lemma_low_rank(seq![width]);
            lemma_numel_le_span(dims@);
        }
        let n: usize = count * width;
        let buf = self.zeros(n);
        let l = embedding_f32(
            table.slice(),
            idx.slice(),
            Slice { id: *buf, len: n },
            count,
            width,
            vocab,
        )?;
        let ghost m = self.state();
        let ghost lv = l@;
        self.launch(l, Ghost(base));
        proof {
            assert(held_args(m, lv.dst, lv.args) =~= seq![
                TermArg::Value(base.val(*table).term),
                TermArg::Value(base.val(*idx).term),
                TermArg::Value(Term::Zeros(n as nat)),
                TermArg::Word(count as u32),
                TermArg::Word(width as u32),
                TermArg::Word(vocab as u32),
            ]);
        }
        Ok(CudaTensor::new(buf, dims))
    }

    /// Gradient of a table from which the rows `idx` were read.
    pub fn embedding_grad(&mut self, g: &CudaTensor, idx: &CudaTensor, table: &Shape) -> (r: Result<
        CudaTensor,
        CudaError,
    >)
        requires
            old(self).wf(),
            old(self).holds_f32(*g),
            old(self).holds(*idx),
            idx.storage is I64,
            table@.len() == 2,
            span(table@) <= usize::MAX,
            numel(idx.dims()) * table@[1] <= usize::MAX,
        ensures
            made(
                *old(self),
                *final(self),
                r,
                embedding_grad_val(old(self).val(*g), old(self).val(*idx), table@),
            ),
    {
        let ghost base = *self;
        let vocab: usize = table[0];
        let width: usize = table[1];
        let count: usize = idx.numel();
        let n: usize = element_count(table.as_slice());
        let buf = self.zeros(n);
        let l = scatter_add_embedding_f32(
            Slice { id: *buf, len: n },
            idx.slice(),
            g.slice(),
            count,
            width,
            vocab,
        )?;
        let ghost m = self.state();
        let ghost lv = l@;
        self.launch(l, Ghost(base));
        proof {
            assert(held_args(m, lv.dst, lv.args) =~= seq![
                TermArg::Value(Term::Zeros(n as nat)),
                TermArg::Value(base.val(*idx).term),
                TermArg::Value(base.val(*g).term),
                TermArg::Word(count as u32),
                TermArg::Word(width as u32),
                TermArg::Word(vocab as u32),
            ]);
        }
        Ok(CudaTensor::new(buf, table.clone()))
    }

    /// The elements of `x` that `idx` names along the last axis.
    fn gather_last(&mut self, x: &CudaTensor, idx: &CudaTensor) -> (r: Result<
        CudaTensor,
        CudaError,
    >)
        requires
            old(self).wf(),
            old(self).holds_f32(*x),
            old(self).holds(*idx),
            idx.storage is I64,
            x.dims().len() > 0,
            idx.dims().len() > 0,
        ensures
            made(
                *old(self),
                *final(self),
                r,
                gather_last_val(old(self).val(*x), old(self).val(*idx)),
            ),
    {
        let ghost base = *self;
        let ls: usize = x.shape[x.shape.len() - 1];
        let li: usize = idx.shape[idx.shape.len() - 1];
        let n: usize = idx.numel();
        let buf = self.zeros(n);
        let l = gather_lastdim_f32(x.slice(), idx.slice(), Slice { id: *buf, len: n }, ls, li)?;
        let ghost m = self.state();
        let ghost lv = l@;
        self.launch(l, Ghost(base));
        proof {
            assert(held_args(m, lv.dst, lv.args) =~= seq![
                TermArg::Value(base.val(*x).term),
                TermArg::Value(base.val(*idx).term),
                TermArg::Value(Term::Zeros(n as nat)),
                TermArg::Word(n as u32),
                TermArg::Word(ls as u32),
                TermArg::Word(li as u32),
            ]);
        }
        Ok(CudaTensor::new(buf, idx.shape.clone()))
    }

    /// Gradient of a tensor from which `idx` was gathered along the last axis.
    fn gather_last_grad(&mut self, g: &CudaTensor, idx: &CudaTensor, dims: &Shape) -> (r: Result<
        CudaTensor,
        CudaError,
    >)
        requires
            old(self).wf(),
            old(self).holds_f32(*g),
            old(self).holds(*idx),
            idx.storage is I64,
            dims@.len() > 0,
            idx.dims().len() > 0,
            span(dims@) <= usize::MAX,
        ensures
            made(
                *old(self),
                *final(self),
                r,
                gather_last_grad_val(old(self).val(*g), old(self).val(*idx), dims@),
            ),
    {
        let ghost base = *self;
        let ls: usize = dims[dims.len() - 1];
        let li: usize = idx.shape[idx.shape.len() - 1];
        let n: usize = element_count(dims.as_slice());
        let buf = self.zeros(n);
        let l = scatter_add_gather_lastdim_f32(
            Slice { id: *buf, len: n },
            idx.slice(),
            g.slice(),
            ls,
            li,
        )?;
        let ghost m = self.state();
        let ghost lv = l@;
        self.launch(l, Ghost(base));
        proof {
            assert(held_args(m, lv.dst, lv.args) =~= seq![
                TermArg::Value(Term::Zeros(n as nat)),
                TermArg::Value(base.val(*idx).term),
                TermArg::Value(base.val(*g).term),
                TermArg::Word(numel(g.dims()) as u32),
                TermArg::Word(ls as u32),
                TermArg::Word(li as u32),
            ]);
        }
        Ok(CudaTensor::new(buf, dims.clone()))
    }

    /// An index tensor with two axes exchanged, on the host.
    fn swap_index(&mut self, idx: &CudaTensor, a: usize, b: usize) -> (t: CudaTensor)
        requires
            old(self).wf(),
            old(self).holds(*idx),
            idx.storage is I64,
            a < idx.dims().len(),
            b < idx.dims().len(),
        ensures
            final(self).extends(*old(self)),
            final(self).holds(t),
            t.storage is I64,
            final(self).val(t) == swapped_index_val(old(self).val(*idx), a, b),
    {
        let ghost base = *self;
        let mut inputs: Vec<Buffer> = Vec::new();
        inputs.push(idx.slice().id);
        let ghost ids = inputs@;
        let buf = self.host(
            HostTask::SwapIndexAxes { shape: idx.shape.clone(), first: a, second: b },
            inputs,
        );
        proof {
            assert(held_all(base.state(), ids) =~= seq![base.val(*idx).term]);
            lemma_numel_swapped(idx.dims(), a as int, b as int);
        }
        CudaTensor::new_i64(buf, swapped_shape(&idx.shape, a, b))
    }

    /// The elements of `x` that `idx` names along the axis `dim`.
    pub fn gather_op(&mut self, x: &CudaTensor, idx: &CudaTensor, dim: usize) -> (r: Result<
        CudaTensor,
        CudaError,
    >)
        requires
            old(self).wf(),
            old(self).holds_f32(*x),
            old(self).holds(*idx),
            idx.storage is I64,
            dim < x.dims().len(),
            idx.dims().len() == x.dims().len(),
            addressable(x.dims()),
            addressable(idx.dims()),
        ensures
            made(
                *old(self),
                *final(self),
                r,
                gather_val(old(self).val(*x), old(self).val(*idx), dim),
            ),
    {
        let last: usize = x.shape.len() - 1;
        if dim == last {
            self.gather_last(x, idx)
        } else {
            let xt = self.transpose_op("transpose", x, dim, last)?;
            let it = self.swap_index(idx, dim, last);
            let yt = self.gather_last(&xt, &it)?;
            proof {
                lemma_numel_swapped(idx.dims(), dim as int, last as int);
            }
            self.transpose_op("transpose", &yt, dim, last)
        }
    }

    /// Gradient of a tensor from which `idx` was gathered along `dim`.
    pub fn gather_grad(&mut self, g: &CudaTensor, idx: &CudaTensor, dim: usize, dims: &Shape) -> (r:
        Result<CudaTensor, CudaError>)
        requires
            old(self).wf(),
            old(self).holds_f32(*g),
            old(self).holds(*idx),
            idx.storage is I64,
            dim < dims@.len(),
            idx.dims().len() == dims@.len(),
            g.dims().len() == dims@.len(),
            addressable(dims@),
            addressable(g.dims()),
        ensures
            made(
                *old(self),
                *final(self),
                r,
                gather_grad_val(old(self).val(*g), old(self).val(*idx), dim, dims@),
            ),
    {
        let last: usize = dims.len() - 1;
        if dim == last {
            self.gather_last_grad(g, idx, dims)
        } else {
            let gt = self.transpose_op("transpose_inner", g, dim, last)?;
            let wide = swapped_shape(dims, dim, last);
            proof {
                lemma_numel_swapped(dims@, dim as int, last as int);
            }
            let it = self.swap_index(idx, dim, last);
            let yt = self.gather_last_grad(&gt, &it, &wide)?;
            self.transpose_op("transpose_inner", &yt, dim, last)
        }
    }

    /// The sum of all elements.
    pub fn sum_all_f32(&mut self, x: &CudaTensor) -> (r: Result<CudaTensor, CudaError>)
        requires
            old(self).wf(),
            old(self).holds_f32(*x),
        ensures
            made(*old(self), *final(self), r, sum_all_val(old(self).val(*x))),
    {
        let ghost base = *self;
        let n: usize = x.numel();
        if n == 0 {
            return Err(CudaError::Shape(ShapeError::Empty { op: "sum_all_f32" }));
        }
        let w: u32 = crate::launch::u32_len(n, "sum_reduce_partial_f32")?;
        let c: usize = ceil_sqrt(w) as usize;
        proof {
            let k = chunk_count(n as nat);
            assert(is_ceil_sqrt(n as nat, k));
            law_ceil_sqrt_is_unique(n as nat, k, c as nat);
        }
        let partial = self.zeros(c);
        let pslice = Slice { id: *partial, len: c };
        proof {
            lemma_first_long(seq![n, c], 0);
            lemma_first_long(seq![1, 1, c, 1], 0);
        }
        let l1 = sum_reduce_partial_f32(x.slice(), pslice, n, c)?;
        let ghost m1 = self.state();
        let ghost v1 = l1@;
        self.launch(l1, Ghost(base));
        proof {
            assert(held_args(m1, v1.dst, v1.args) =~= seq![
                TermArg::Value(base.val(*x).term),
                TermArg::Value(Term::Zeros(c as nat)),
                TermArg::Word(n as u32),
                TermArg::Word(c as u32),
            ]);
        }
        let out = self.zeros(1);
        let l2 = reduce_sum_dim_keepdim_f32(pslice, Slice { id: *out, len: 1 }, 1, c, 1)?;
        let ghost m2 = self.state();
        let ghost v2 = l2@;
        self.launch(l2, Ghost(base));
        proof {
            assert(held_args(m2, v2.dst, v2.args) =~= seq![
                TermArg::Value(
                    run(Kernel::SumReducePartial, v1.config, held_args(m1, v1.dst, v1.args)),
                ),
                TermArg::Value(Term::Zeros(1)),
                TermArg::Word(1),
                TermArg::Word(c as u32),
                TermArg::Word(1),
            ]);
        }
        let dims: Vec<usize> = vec![1];
        proof {
            assert(dims@ =~= seq![1usize]);
            crate::shape::lemma_positive(dims@);
            lemma_low_rank(dims@);
        }
        Ok(CudaTensor::new(out, Arc::new(dims)))
    }

    /// The mean of all elements.
    pub fn mean_all_op(&mut self, x: &CudaTensor) -> (r: Result<CudaTensor, CudaError>)
        requires
            old(self).wf(),
            old(self).holds_f32(*x),
        ensures
            made(*old(self), *final(self), r, mean_all_val(old(self).val(*x))),
    {
        let n: usize = x.numel();
        let s = self.sum_all_f32(x)?;
        proof {
            lemma_low_rank(s.dims());
        }
        self.scalar_op(Kernel::MulScalar, &s, Real::OneOver(n))
    }

    /// The chunked scan.
    pub fn scan_op(
        &mut self,
        x: &CudaTensor,
        a: &CudaTensor,
        b: &CudaTensor,
        c: &CudaTensor,
        d: ScanDims,
    ) -> (r: Result<CudaTensor, CudaError>)
        requires
            old(self).wf(),
            old(self).holds_f32(*x),
            old(self).holds_f32(*a),
            old(self).holds_f32(*b),
            old(self).holds_f32(*c),
            d.batch * d.n_heads <= usize::MAX,
            d.lanes() <= usize::MAX,
        ensures
            made(
                *old(self),
                *final(self),
                r,
                scan_val(
                    old(self).val(*x),
                    old(self).val(*a),
                    old(self).val(*b),
                    old(self).val(*c),
                    d,
                ),
            ),
    {
        let ghost base = *self;
        let n: usize = x.numel();
        let buf = self.zeros(n);
        let l = ssd_scan_chunked_with_context(
            x.slice(),
            a.slice(),
            b.slice(),
            c.slice(),
            Slice { id: *buf, len: n },
            d,
        )?;
        let ghost m = self.state();
        let ghost lv = l@;
        self.launch(l, Ghost(base));
        proof {
            assert(held_args(m, lv.dst, lv.args) =~= seq![
                TermArg::Value(base.val(*x).term),
                TermArg::Value(base.val(*a).term),
                TermArg::Value(base.val(*b).term),
                TermArg::Value(base.val(*c).term),
                TermArg::Value(Term::Zeros(n as nat)),
                TermArg::Word(d.batch as u32),
                TermArg::Word(d.t_len as u32),
                TermArg::Word(d.n_heads as u32),
                TermArg::Word(d.p_dim as u32),
                TermArg::Word(d.n_dim as u32),
                TermArg::Word(d.block_len as u32),
            ]);
        }
        Ok(CudaTensor::new(buf, x.shape.clone()))
    }
}

} // verus!
