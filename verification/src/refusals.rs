//! What is refused, and why: every error states a fact about the operands that
//! it was given, and comes exactly where that fact holds.

use crate::broadcast::{aligned, first_clash};
use crate::compound::{
    concat_error, concat_val, conv1d_val, dims_of, first_odd, matmul_val, ssd_val,
};
use crate::device::{lemma_padded, transposed_val};
use crate::error::{CudaError, ShapeError};
use crate::launch::{Kernel, Real};
use crate::ops::{
    axis_val, broadcast_as_val, first_stuck, lookup_val, pick_val, quotient_val, reshaped_val,
    sum_val, total_val, window_val,
};
use crate::param::stepped_val;
use crate::places::facing;
use crate::program::Val;
use crate::rows::rmsnorm_val;
use crate::rules::times;
use crate::shape::numel;
use crate::tensor::CudaTensor;
use vstd::prelude::*;

verus! {

/// Whether a result is refused with this error.
pub open spec fn refused<V>(r: Result<V, CudaError>, e: ShapeError) -> bool {
    r == Err::<V, CudaError>(CudaError::Shape(e))
}

/// Whether an axis of a joint shape of rank `n` is the first along which two
/// shapes cannot be broadcast.
pub open spec fn clashes_at(a: Seq<usize>, b: Seq<usize>, n: int, axis: int) -> bool {
    &&& 0 <= axis < n
    &&& facing(a, n - 1 - axis) != facing(b, n - 1 - axis)
    &&& facing(a, n - 1 - axis) != 1
    &&& facing(b, n - 1 - axis) != 1
    &&& forall|i: int|
        0 <= i < axis ==> #[trigger] facing(a, n - 1 - i) == facing(b, n - 1 - i) || facing(
            a,
            n - 1 - i,
        ) == 1 || facing(b, n - 1 - i) == 1
}

proof fn lemma_first_clash_is_first(a: Seq<usize>, b: Seq<usize>, i: int, axis: int)
    requires
        a.len() == b.len(),
        0 <= i <= axis < a.len(),
        a[axis] != b[axis] && a[axis] != 1 && b[axis] != 1,
        forall|j: int| 0 <= j < axis ==> #[trigger] a[j] == b[j] || a[j] == 1 || b[j] == 1,
    ensures
        first_clash(a, b, i) == Some(axis),
    decreases axis - i,
{
    if i < axis {
        assert(a[i] == b[i] || a[i] == 1 || b[i] == 1);
        lemma_first_clash_is_first(a, b, i + 1, axis);
    }
}

/// Shapes that cannot be broadcast together are refused with the first axis of
/// the joint shape along which they clash, and the two extents there.
pub proof fn law_clashing_shapes_are_named(subtract: bool, a: Val, b: Val, n: int, axis: int)
    requires
        a.dims.len() <= n <= usize::MAX,
        b.dims.len() <= n,
        n == a.dims.len() || n == b.dims.len(),
        clashes_at(a.dims, b.dims, n, axis),
    ensures
        ({
            let e = ShapeError::ExtentMismatch {
                op: "broadcast",
                axis: axis as usize,
                lhs: facing(a.dims, n - 1 - axis),
                rhs: facing(b.dims, n - 1 - axis),
            };
            &&& refused(sum_val(subtract, a, b), e)
            &&& refused(times(a, b), e)
        }),
{
    let (pa, pb) = (aligned(a.dims, b.dims), aligned(b.dims, a.dims));
    lemma_padded(a.dims, (n - a.dims.len()) as nat);
    lemma_padded(b.dims, (n - b.dims.len()) as nat);
    assert forall|i: int| 0 <= i < n implies #[trigger] pa[i] == facing(a.dims, n - 1 - i) && pb[i]
        == facing(b.dims, n - 1 - i) by {}
    assert forall|i: int| 0 <= i < axis implies #[trigger] pa[i] == pb[i] || pa[i] == 1 || pb[i]
        == 1 by {
        assert(facing(a.dims, n - 1 - i) == facing(b.dims, n - 1 - i) || facing(a.dims, n - 1 - i)
            == 1 || facing(b.dims, n - 1 - i) == 1);
        assert(pa[i] == facing(a.dims, n - 1 - i));
    }
    assert(pa[axis] == facing(a.dims, n - 1 - axis));
    lemma_first_clash_is_first(pa, pb, 0, axis);
}

/// Exchanging axes that a tensor does not have, windows that leave an axis, and
/// views with another number of elements are refused with what was asked for
/// and what there is.
pub proof fn law_moves_out_of_range_are_refused(
    x: Val,
    a: usize,
    b: usize,
    dim: usize,
    start: usize,
    len: usize,
    dims: Seq<usize>,
)
    requires
        x.dims.len() <= usize::MAX,
    ensures
        ({
            let rank = x.dims.len() as usize;
            &&& a >= rank ==> refused(
                transposed_val("transpose", x, a, b),
                ShapeError::AxisOutOfRange { op: "transpose", axis: a, rank },
            )
            &&& a < rank && b >= rank ==> refused(
                transposed_val("transpose", x, a, b),
                ShapeError::AxisOutOfRange { op: "transpose", axis: b, rank },
            )
            &&& dim >= rank ==> refused(
                window_val(x, dim, start, len),
                ShapeError::AxisOutOfRange { op: "narrow", axis: dim, rank },
            )
            &&& dim < rank && start + len > x.dims[dim as int] ==> refused(
                window_val(x, dim, start, len),
                ShapeError::WindowOutOfRange {
                    op: "narrow",
                    start,
                    len,
                    extent: x.dims[dim as int],
                },
            )
            &&& numel(x.dims) != numel(dims) ==> refused(
                reshaped_val(x, dims),
                ShapeError::CountMismatch {
                    op: "reshape",
                    from: numel(x.dims) as usize,
                    to: numel(dims) as usize,
                },
            )
        }),
{
}

/// A tensor is not repeated to a shape of another rank, nor along an axis whose
/// extent is neither one nor the one asked for: the first such axis is named.
pub proof fn law_repeating_is_refused_along_the_first_axis(x: Val, dims: Seq<usize>, axis: int)
    requires
        x.dims.len() <= usize::MAX,
        dims.len() <= usize::MAX,
    ensures
        x.dims.len() != dims.len() ==> refused(
            broadcast_as_val(x, dims),
            ShapeError::RankMismatch {
                op: "broadcast_as",
                lhs: x.dims.len() as usize,
                rhs: dims.len() as usize,
            },
        ),
        x.dims.len() == dims.len() && 0 <= axis < dims.len() && x.dims[axis] != 1 && x.dims[axis]
            != dims[axis] && (forall|i: int|
            0 <= i < axis ==> #[trigger] x.dims[i] == 1 || x.dims[i] == dims[i]) ==> refused(
            broadcast_as_val(x, dims),
            ShapeError::ExtentMismatch {
                op: "broadcast_as",
                axis: axis as usize,
                lhs: x.dims[axis],
                rhs: dims[axis],
            },
        ),
{
    if x.dims.len() == dims.len() && 0 <= axis < dims.len() && x.dims[axis] != 1 && x.dims[axis]
        != dims[axis] && (forall|i: int|
        0 <= i < axis ==> #[trigger] x.dims[i] == 1 || x.dims[i] == dims[i]) {
        lemma_first_stuck_is_first(x.dims, dims, 0, axis);
    }
}

proof fn lemma_first_stuck_is_first(s: Seq<usize>, d: Seq<usize>, i: int, axis: int)
    requires
        s.len() == d.len(),
        0 <= i <= axis < s.len(),
        s[axis] != 1 && s[axis] != d[axis],
        forall|k: int| 0 <= k < axis ==> #[trigger] s[k] == 1 || s[k] == d[k],
    ensures
        first_stuck(s, d, i) == Some(axis),
    decreases axis - i,
{
    if i < axis {
        assert(s[i] == 1 || s[i] == d[i]);
        lemma_first_stuck_is_first(s, d, i + 1, axis);
    }
}

/// Operations that need tensors of one shape, elements, or a certain rank are
/// refused without them.
pub proof fn law_unfit_operands_are_refused(
    a: Val,
    b: Val,
    lr: Real,
    eps: Real,
    dim: usize,
    mean: bool,
)
    requires
        a.dims.len() <= usize::MAX,
        b.dims.len() <= usize::MAX,
    ensures
        a.dims != b.dims ==> refused(
            quotient_val(a, b),
            ShapeError::ShapesDiffer { op: "div" },
        ) && refused(stepped_val(a, b, lr), ShapeError::ShapesDiffer { op: "sgd_step" }),
        a.count() == 0 ==> refused(
            total_val(mean, a),
            ShapeError::Empty {
                op: if mean {
                    "mean_all"
                } else {
                    "sum_all"
                },
            },
        ),
        a.dims.len() != 2 ==> refused(
            lookup_val(a, b),
            ShapeError::WrongRank { op: "embedding", rank: a.dims.len() as usize, expected: 2 },
        ),
        a.dims.len() == 0 ==> refused(
            axis_val("cumsum", Kernel::CumsumLastdim, a, dim),
            ShapeError::Empty { op: "cumsum" },
        ) && refused(
            axis_val("log_softmax", Kernel::LogSoftmaxLastdim, a, dim),
            ShapeError::Empty { op: "log_softmax" },
        ) && refused(rmsnorm_val(a, b, eps), ShapeError::Empty { op: "rmsnorm_f32" }) && refused(
            pick_val(a, b, dim),
            ShapeError::Empty { op: "gather" },
        ),
        a.dims.len() > 0 && dim >= a.dims.len() ==> refused(
            axis_val("cumsum", Kernel::CumsumLastdim, a, dim),
            ShapeError::AxisOutOfRange { op: "transpose", axis: dim, rank: a.dims.len() as usize },
        ) && refused(
            axis_val("log_softmax", Kernel::LogSoftmaxLastdim, a, dim),
            ShapeError::AxisOutOfRange { op: "transpose", axis: dim, rank: a.dims.len() as usize },
        ) && refused(
            pick_val(a, b, dim),
            ShapeError::AxisOutOfRange { op: "gather", axis: dim, rank: a.dims.len() as usize },
        ),
        dim < a.dims.len() && b.dims.len() != a.dims.len() ==> refused(
            pick_val(a, b, dim),
            ShapeError::RankMismatch {
                op: "gather",
                lhs: b.dims.len() as usize,
                rhs: a.dims.len() as usize,
            },
        ),
        a.dims.len() > 0 && b.count() <= usize::MAX && b.count() != a.dims.last() ==> refused(
            rmsnorm_val(a, b, eps),
            ShapeError::BufferLength {
                op: "rmsnorm_f32",
                len: b.count() as usize,
                expected: a.dims.last(),
            },
        ),
        a.dims.len() < 2 ==> matmul_val(a, b) == Err::<Val, CudaError>(
            CudaError::Unsupported("matmul: inputs must be at least rank-2"),
        ),
        2 <= a.dims.len() < b.dims.len() ==> refused(
            matmul_val(a, b),
            ShapeError::RankMismatch {
                op: "matmul",
                lhs: a.dims.len() as usize,
                rhs: b.dims.len() as usize,
            },
        ),
{
}

/// A convolution is refused where an operand has not three axes, the stride is
/// zero, the window is wider than the padded input, the channels do not make up
/// the groups, or the filters cannot be shared out among the groups: in this
/// order.
pub proof fn law_unfit_convolutions_are_refused(
    x: Val,
    w: Val,
    bias: Option<Val>,
    stride: usize,
    padding: usize,
    groups: usize,
)
    requires
        x.dims.len() <= usize::MAX,
        w.dims.len() <= usize::MAX,
        x.dims.len() == 3 ==> x.dims[2] + 2 * padding <= usize::MAX,
    ensures
        ({
            let r = conv1d_val(x, w, bias, stride, padding, groups);
            if x.dims.len() != 3 {
                refused(
                    r,
                    ShapeError::WrongRank {
                        op: "conv1d",
                        rank: x.dims.len() as usize,
                        expected: 3,
                    },
                )
            } else if w.dims.len() != 3 {
                refused(
                    r,
                    ShapeError::WrongRank {
                        op: "conv1d",
                        rank: w.dims.len() as usize,
                        expected: 3,
                    },
                )
            } else if stride == 0 {
                refused(r, ShapeError::MustBePositive { op: "conv1d" })
            } else if w.dims[2] > x.dims[2] + 2 * padding {
                refused(
                    r,
                    ShapeError::WindowTooWide {
                        op: "conv1d",
                        padded: (x.dims[2] + 2 * padding) as usize,
                        window: w.dims[2],
                    },
                )
            } else if w.dims[1] * groups != x.dims[1] {
                refused(
                    r,
                    ShapeError::Groups {
                        op: "conv1d_f32",
                        channels: x.dims[1],
                        per_group: w.dims[1],
                        groups,
                    },
                )
            } else {
                groups > 0 && w.dims[0] % groups != 0 ==> refused(
                    r,
                    ShapeError::NotMultiple { op: "conv1d_f32", len: w.dims[0], unit: groups },
                )
            }
        }),
{
}

/// A scan is refused where its operands do not share their batch, steps and
/// heads, or where states or blocks are longer than the kernels hold.
pub proof fn law_unfit_scans_are_refused(x: Val, a: Val, b: Val, c: Val, block_len: usize)
    requires
        x.dims.len() <= usize::MAX,
    ensures
        ({
            let r = ssd_val(x, a, b, c, block_len);
            if x.dims.len() != 4 {
                refused(
                    r,
                    ShapeError::WrongRank {
                        op: "ssd_scan",
                        rank: x.dims.len() as usize,
                        expected: 4,
                    },
                )
            } else if a.dims != x.dims.take(3) {
                refused(r, ShapeError::ShapesDiffer { op: "ssd_scan: a" })
            } else if b.dims.len() != 4 || b.dims.take(3) != x.dims.take(3) {
                refused(r, ShapeError::ShapesDiffer { op: "ssd_scan: b" })
            } else if c.dims != b.dims {
                refused(r, ShapeError::ShapesDiffer { op: "ssd_scan: c" })
            } else if x.dims[1] > 0 && block_len > 0 && x.dims[1] % block_len == 0 {
                &&& b.dims[3] > 128 ==> refused(
                    r,
                    ShapeError::AboveLimit { op: "ssd_scan: n_dim", size: b.dims[3], limit: 128 },
                )
                &&& b.dims[3] <= 128 && block_len > 128 ==> refused(
                    r,
                    ShapeError::AboveLimit {
                        op: "ssd_scan: block_len",
                        size: block_len,
                        limit: 128,
                    },
                )
            } else {
                r == Ok::<Option<Val>, CudaError>(None)
            }
        }),
{
    if x.dims.len() == 4 {
        let three = seq![x.dims[0], x.dims[1], x.dims[2]];
        assert(x.dims.take(3) =~= three);
        if b.dims.len() == 4 {
            let other = seq![b.dims[0], b.dims[1], b.dims[2]];
            assert(b.dims.take(3) =~= other);
            if other == three {
                assert(other[0] == three[0] && other[1] == three[1] && other[2] == three[2]);
            }
        }
    }
}

/// Whether two shapes agree on every axis but `dim`.
pub open spec fn alike(a: Seq<usize>, b: Seq<usize>, dim: int) -> bool {
    a.len() == b.len() && forall|d: int| 0 <= d < a.len() && d != dim ==> #[trigger] a[d] == b[d]
}

proof fn lemma_first_odd_is_first(a: Seq<usize>, b: Seq<usize>, dim: int, i: int, axis: int)
    requires
        a.len() == b.len(),
        0 <= i <= axis <= a.len(),
        axis < a.len() ==> axis != dim && a[axis] != b[axis],
        forall|d: int| 0 <= d < axis && d != dim ==> #[trigger] a[d] == b[d],
    ensures
        first_odd(a, b, dim, i) == (if axis < a.len() {
            Some(axis)
        } else {
            None
        }),
    decreases axis - i,
{
    if i < axis {
        if i != dim {
            assert(a[i] == b[i]);
        }
        lemma_first_odd_is_first(a, b, dim, i + 1, axis);
    }
}

proof fn lemma_concat_error_is_first(shapes: Seq<Seq<usize>>, dim: usize, i: int, k: int)
    requires
        1 <= i <= k <= shapes.len(),
        forall|j: int| 1 <= j < k ==> alike(shapes[0], #[trigger] shapes[j], dim as int),
    ensures
        concat_error(shapes, dim, i) == concat_error(shapes, dim, k),
    decreases k - i,
{
    if i < k {
        assert(alike(shapes[0], shapes[i], dim as int));
        lemma_first_odd_is_first(
            shapes[0],
            shapes[i],
            dim as int,
            0,
            shapes[0].len() as int,
        );
        lemma_concat_error_is_first(shapes, dim, i + 1, k);
    }
}

/// Tensors are laid end to end where all agree with the first one but for the
/// axis. Otherwise the first that does not is named, with its rank or with the
/// first axis along which it differs; no tensors at all, or an axis that the
/// first one does not have, are refused as such.
pub proof fn law_concatenations_are_refused_at_the_first_odd_part(
    ts: Seq<CudaTensor>,
    dim: usize,
    k: int,
    axis: int,
)
    requires
        ts.len() <= usize::MAX,
        forall|i: int| 0 <= i < ts.len() ==> (#[trigger] ts[i]).dims().len() <= usize::MAX,
        1 <= k <= ts.len() || ts.len() == 0,
        forall|i: int| 1 <= i < k ==> alike(ts[0].dims(), (#[trigger] ts[i]).dims(), dim as int),
    ensures
        ts.len() == 0 ==> refused(concat_val(ts, dim), ShapeError::Empty { op: "concat" }),
        ts.len() > 0 && dim >= ts[0].dims().len() ==> refused(
            concat_val(ts, dim),
            ShapeError::AxisOutOfRange {
                op: "concat",
                axis: dim,
                rank: ts[0].dims().len() as usize,
            },
        ),
        ts.len() > 0 && dim < ts[0].dims().len() ==> {
            &&& k == ts.len() ==> concat_val(ts, dim) is Ok
            &&& k < ts.len() && ts[k].dims().len() != ts[0].dims().len() ==> refused(
                concat_val(ts, dim),
                ShapeError::ListRank {
                    op: "concat",
                    index: k as usize,
                    rank: ts[k].dims().len() as usize,
                    expected: ts[0].dims().len() as usize,
                },
            )
            &&& k < ts.len() && ts[k].dims().len() == ts[0].dims().len() && 0 <= axis
                < ts[0].dims().len() && axis != dim && ts[k].dims()[axis] != ts[0].dims()[axis] && (
            forall|d: int|
                0 <= d < axis && d != dim ==> #[trigger] ts[0].dims()[d] == ts[k].dims()[d])
                ==> refused(
                concat_val(ts, dim),
                ShapeError::ListExtent {
                    op: "concat",
                    index: k as usize,
                    axis: axis as usize,
                    extent: ts[k].dims()[axis],
                    expected: ts[0].dims()[axis],
                },
            )
        },
{
    if ts.len() > 0 {
        let shapes = dims_of(ts);
        let first = shapes[0];
        assert(first == ts[0].dims());
        assert forall|j: int| 1 <= j < k implies alike(first, #[trigger] shapes[j], dim as int) by {
            assert(alike(ts[0].dims(), ts[j].dims(), dim as int));
        }
        lemma_concat_error_is_first(shapes, dim, 1, k);
        if k < ts.len() && ts[k].dims().len() == first.len() && 0 <= axis < first.len() && axis
            != dim && ts[k].dims()[axis] != first[axis] && (forall|d: int|
            0 <= d < axis && d != dim ==> #[trigger] ts[0].dims()[d] == ts[k].dims()[d]) {
            assert forall|d: int| 0 <= d < axis && d != dim implies #[trigger] first[d]
                == shapes[k][d] by {
                assert(ts[0].dims()[d] == ts[k].dims()[d]);
            }
            lemma_first_odd_is_first(first, shapes[k], dim as int, 0, axis);
        }
    }
}

} // verus!
