//! Matrix products as calls of a column-major BLAS.

use crate::error::{CudaError, ShapeError};
use crate::host::at2;
use crate::launch::{Buffer, Slice};
use crate::shape::{element_count, numel, span};
use vstd::prelude::*;

verus! {

/// One column-major product `C = op(A) * op(B)`, unscaled and not added onto
/// what `C` held.
#[derive(Clone, Copy, Debug, PartialEq, Eq, Structural)]
pub struct GemmConfig {
    pub trans_a: bool,
    pub trans_b: bool,
    pub m: i32,
    pub n: i32,
    pub k: i32,
    pub lda: i32,
    pub ldb: i32,
    pub ldc: i32,
}

impl GemmConfig {
    /// Where the left factor's element in row `i` and column `l` lies.
    pub open spec fn left_at(self, i: int, l: int) -> int {
        if self.trans_a {
            i * self.lda + l
        } else {
            l * self.lda + i
        }
    }

    /// Where the right factor's element in row `l` and column `j` lies.
    pub open spec fn right_at(self, l: int, j: int) -> int {
        if self.trans_b {
            l * self.ldb + j
        } else {
            j * self.ldb + l
        }
    }

    /// Where the product's element in row `i` and column `j` lies.
    pub open spec fn product_at(self, i: int, j: int) -> int {
        j * self.ldc + i
    }
}

/// How far apart the matrices of a batch lie; zero repeats one matrix.
#[derive(Clone, Copy, Debug, PartialEq, Eq, Structural)]
pub struct Batching {
    pub batch_size: i32,
    pub stride_a: i64,
    pub stride_b: i64,
    pub stride_c: i64,
}

/// A product of two buffers into the buffer `dst`.
#[derive(Clone, Copy, Debug, PartialEq, Eq, Structural)]
pub struct Gemm {
    pub config: GemmConfig,
    pub batching: Option<Batching>,
    pub a: Buffer,
    pub b: Buffer,
    pub dst: Buffer,
}

/// A row-major product of an `m` by `k` and a `k` by `n` matrix is the
/// column-major product of the two in exchanged order.
pub open spec fn row_major_config(m: usize, k: usize, n: usize) -> GemmConfig {
    GemmConfig {
        trans_a: false,
        trans_b: false,
        m: n as i32,
        n: m as i32,
        k: k as i32,
        lda: n as i32,
        ldb: k as i32,
        ldc: n as i32,
    }
}

/// Number of matrices of a stack.
pub open spec fn stack(s: Seq<usize>) -> nat {
    numel(s.subrange(0, s.len() - 2))
}

/// How the product of two stacks of matrices is laid out. Where one stack
/// holds a single matrix it is used for all of the other.
pub open spec fn matmul_config(sa: Seq<usize>, sb: Seq<usize>) -> Result<
    (GemmConfig, Option<Batching>),
    CudaError,
> {
    let op = "matmul";
    let rank = sa.len() as int;
    if rank < 2 || sb.len() != rank {
        Err(
            CudaError::Shape(
                ShapeError::RankMismatch { op, lhs: rank as usize, rhs: sb.len() as usize },
            ),
        )
    } else {
        let m = sa[rank - 2];
        let k = sa[rank - 1];
        let n = sb[rank - 1];
        if k != sb[rank - 2] {
            Err(
                CudaError::Shape(
                    ShapeError::ExtentMismatch {
                        op,
                        axis: (rank - 2) as usize,
                        lhs: k,
                        rhs: sb[rank - 2],
                    },
                ),
            )
        } else if rank == 2 {
            Ok((row_major_config(m, k, n), None))
        } else {
            let na = stack(sa) as usize;
            let nb = stack(sb) as usize;
            if na != nb && na != 1 && nb != 1 {
                Err(CudaError::Shape(ShapeError::OperandLength { op, lhs: na, rhs: nb }))
            } else {
                Ok(
                    (
                        row_major_config(m, k, n),
                        Some(
                            Batching {
                                batch_size: (if na >= nb {
                                    na
                                } else {
                                    nb
                                }) as i32,
                                stride_a: if nb == 1 {
                                    0
                                } else {
                                    ((k * n) as usize) as i64
                                },
                                stride_b: if na == 1 {
                                    0
                                } else {
                                    ((m * k) as usize) as i64
                                },
                                stride_c: ((m * n) as usize) as i64,
                            },
                        ),
                    ),
                )
            }
        }
    }
}

/// Outcome of planning the product of two stacks of matrices.
pub open spec fn matmul_plan(a: Slice, sa: Seq<usize>, b: Slice, sb: Seq<usize>, out: Slice) -> Result<
    Gemm,
    CudaError,
> {
    match matmul_config(sa, sb) {
        Err(e) => Err(e),
        Ok((config, batching)) => Ok(Gemm { config, batching, a: b.id, b: a.id, dst: out.id }),
    }
}

/// Plans the product of two equal-rank stacks of row-major matrices.
pub fn matmul_f32(a: Slice, a_shape: &[usize], b: Slice, b_shape: &[usize], out: Slice) -> (r:
    Result<Gemm, CudaError>)
    requires
        span(a_shape@) <= usize::MAX,
        span(b_shape@) <= usize::MAX,
        a_shape.len() >= 2 && b_shape.len() >= 2 ==> a_shape[a_shape.len() - 2]
            * b_shape[b_shape.len() - 1] <= usize::MAX,
    ensures
        r == matmul_plan(a, a_shape@, b, b_shape@, out),
{
    let op: &'static str = "matmul";
    let rank: usize = a_shape.len();
    if rank < 2 || b_shape.len() != rank {
        return Err(
            CudaError::Shape(ShapeError::RankMismatch { op, lhs: rank, rhs: b_shape.len() }),
        );
    }
    let m: usize = a_shape[rank - 2];
    let k: usize = a_shape[rank - 1];
    let k2: usize = b_shape[rank - 2];
    let n: usize = b_shape[rank - 1];
    if k != k2 {
        return Err(
            CudaError::Shape(ShapeError::ExtentMismatch { op, axis: rank - 2, lhs: k, rhs: k2 }),
        );
    }
    let config = GemmConfig {
        trans_a: false,
        trans_b: false,
        m: n as i32,
        n: m as i32,
        k: k as i32,
        lda: n as i32,
        ldb: k as i32,
        ldc: n as i32,
    };
    if rank == 2 {
        return Ok(Gemm { config, batching: None, a: b.id, b: a.id, dst: out.id });
    }
    proof {
        crate::shape::lemma_span_run(a_shape@, 0, rank - 2);
        crate::shape::lemma_span_run(b_shape@, 0, rank - 2);
        lemma_last_pair(a_shape@);
        lemma_last_pair(b_shape@);
    }
    let na: usize = element_count(vstd::slice::slice_subrange(a_shape, 0, rank - 2));
    let nb: usize = element_count(vstd::slice::slice_subrange(b_shape, 0, rank - 2));
    if na != nb && na != 1 && nb != 1 {
        return Err(CudaError::Shape(ShapeError::OperandLength { op, lhs: na, rhs: nb }));
    }
    let batch: usize = if na >= nb {
        na
    } else {
        nb
    };
    let stride_a: i64 = if nb == 1 {
        0
    } else {
        (k * n) as i64
    };
    let stride_b: i64 = if na == 1 {
        0
    } else {
        (m * k) as i64
    };
    let stride_c: i64 = (m * n) as i64;
    Ok(
        Gemm {
            config,
            batching: Some(Batching { batch_size: batch as i32, stride_a, stride_b, stride_c }),
            a: b.id,
            b: a.id,
            dst: out.id,
        },
    )
}

/// The call that multiplies row-major matrices writes element `(i, j)` of the
/// row-major product, and sums over `l` what it reads as element `(i, l)` of
/// the row-major left factor and `(l, j)` of the right one.
pub proof fn law_exchanged_factors_make_the_row_major_product(
    m: usize,
    k: usize,
    n: usize,
    i: int,
    j: int,
    l: int,
)
    requires
        m <= i32::MAX,
        k <= i32::MAX,
        n <= i32::MAX,
        0 <= i < m,
        0 <= j < n,
        0 <= l < k,
    ensures
        ({
            let c = row_major_config(m, k, n);
            &&& c.m == n && c.n == m && c.k == k
            &&& c.product_at(j, i) == at2(i, n as int, j)
            &&& c.right_at(l, i) == at2(i, k as int, l)
            &&& c.left_at(j, l) == at2(l, n as int, j)
        }),
{
}

/// The `q`-th product of two stacks reads the `q`-th matrix of each, or the
/// only one, and goes to the `q`-th place.
pub proof fn law_stacks_are_multiplied_matrix_by_matrix(sa: Seq<usize>, sb: Seq<usize>, q: int)
    requires
        matmul_config(sa, sb) matches Ok((_, Some(_))),
        span(sa) <= usize::MAX && span(sa) <= i64::MAX,
        span(sb) <= usize::MAX && span(sb) <= i64::MAX,
        sa[sa.len() - 2] * sb[sb.len() - 1] <= usize::MAX,
        sa[sa.len() - 2] * sb[sb.len() - 1] <= i64::MAX,
    ensures
        ({
            let r = sa.len() as int;
            let x = matmul_config(sa, sb)->Ok_0.1->0;
            let (m, k, n) = (sa[r - 2], sa[r - 1], sb[r - 1]);
            &&& q * x.stride_b == (if stack(sa) == 1 {
                0
            } else {
                q * (m * k)
            })
            &&& q * x.stride_a == (if stack(sb) == 1 {
                0
            } else {
                q * (k * n)
            })
            &&& q * x.stride_c == q * (m * n)
        }),
{
    lemma_last_pair(sa);
    lemma_last_pair(sb);
    crate::shape::lemma_span_run(sa, 0, sa.len() - 2);
    crate::shape::lemma_span_run(sb, 0, sb.len() - 2);
    crate::shape::lemma_numel_le_span(sa.subrange(0, sa.len() - 2));
    crate::shape::lemma_numel_le_span(sb.subrange(0, sb.len() - 2));
    let r = sa.len() as int;
    let (m, k, n) = (sa[r - 2], sa[r - 1], sb[r - 1]);
    assert(k == sb[r - 2]);
    assert(k * n == sb[r - 2] * sb[r - 1]);
    assert(m * k <= i64::MAX && k * n <= i64::MAX);
    assert(0 <= m * k && 0 <= k * n && 0 <= m * n) by (nonlinear_arith);
    assert(q * 0 == 0);
}

/// The product of the last two extents is bounded by the span.
pub proof fn lemma_last_pair(s: Seq<usize>)
    requires
        s.len() >= 2,
    ensures
        s[s.len() - 2] * s[s.len() - 1] <= span(s),
        numel(s) == stack(s) * (s[s.len() - 2] * s[s.len() - 1]),
{
    let k = s.len() - 2;
    let t = s.subrange(k, s.len() as int);
    crate::shape::lemma_span_run(s, k, s.len() as int);
    crate::shape::lemma_split(s, k);
    let last = t.drop_first();
    assert(last.drop_first() =~= Seq::<usize>::empty());
    assert(numel(last.drop_first()) == 1);
    assert(last[0] == s[s.len() - 1]);
    assert(numel(last) == s[s.len() - 1] * 1);
    assert(t =~= crate::shape::tail(s, k));
}

} // verus!
