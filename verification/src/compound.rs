//! Matrix products, convolutions, concatenations and scans.

use crate::backend::{CudaBackend, Draft, Planned};
use crate::broadcast::{aligned, first_clash, joint, joint_dims, law_operands_expand_to_joint_shape};
use crate::conv::ConvDims;
use crate::convolve::{conv_dims, conv_spec, conv_steps, conv_val, ConvSpec};
use crate::device::{lemma_padded, padded, padded_shape};
use crate::error::{CudaError, ShapeError};
use crate::gemm::{matmul_config, stack};
use crate::kernels::{inner, outer, split_axis};
use crate::launch::Buffer;
use crate::matrix::{lead, stacked_val};
use crate::ops::{plans, records_only};
use crate::parts::lemma_extent_sum;
use crate::program::{held, held_all, HostTask, HostTaskView, Program, Term, Val};
use crate::rows::scan_val;
use crate::rules::saved;
use crate::shape::{element_count, lemma_low_rank, lemma_numel_le_span, lemma_span_run, numel, span};
use crate::ssd::{ScanDims, MAX_BLOCK_LEN, MAX_N_DIM};
use crate::tape::{extent_sum, matmul_fits, saved_f32, SsdScanData, TapeOp};
use crate::tensor::{same_shape, CudaTensor, NodeId, Shape};
use std::sync::Arc;
use vstd::prelude::*;

verus! {

/// The right factor of a product with leading extents of one up to the rank
/// of the left.
pub open spec fn right_padded(a: Seq<usize>, b: Seq<usize>) -> Seq<usize> {
    padded(b, (a.len() - b.len()) as nat)
}

/// The leading axes of a product.
pub open spec fn product_lead(a: Seq<usize>, b: Seq<usize>) -> Seq<usize> {
    joint_dims(lead(a), lead(right_padded(a, b)))
}

/// Whether the factors have to be repeated on the host: one of them is
/// broadcast without being a single matrix.
pub open spec fn host_expands(a: Seq<usize>, b: Seq<usize>) -> bool {
    let pb = right_padded(a, b);
    let j = product_lead(a, b);
    (lead(a) != j && stack(a) != 1) || (lead(pb) != j && stack(pb) != 1)
}

/// A matrix product, broadcasting over the leading axes.
pub open spec fn matmul_val(a: Val, b: Val) -> Result<Val, CudaError> {
    let op = "matmul";
    let rank = a.dims.len();
    let pb = right_padded(a.dims, b.dims);
    if rank < 2 {
        Err(CudaError::Unsupported("matmul: inputs must be at least rank-2"))
    } else if b.dims.len() > rank {
        Err(
            CudaError::Shape(
                ShapeError::RankMismatch { op, lhs: rank as usize, rhs: b.dims.len() as usize },
            ),
        )
    } else {
        match first_clash(lead(a.dims), lead(pb), 0) {
            Some(i) => Err(
                CudaError::Shape(
                    ShapeError::ExtentMismatch {
                        op,
                        axis: i as usize,
                        lhs: a.dims[i],
                        rhs: pb[i],
                    },
                ),
            ),
            None => stacked_val(
                a,
                Val { term: b.term, dims: pb },
                product_lead(a.dims, b.dims),
                host_expands(a.dims, b.dims),
            ),
        }
    }
}

/// Whether the product, and the factors repeated for it, can be counted.
pub open spec fn matmul_countable(a: Seq<usize>, b: Seq<usize>) -> bool {
    let r = a.len() as int;
    let pb = right_padded(a, b);
    let j = product_lead(a, b);
    r >= 2 && b.len() <= r ==> {
        &&& span(j + seq![a[r - 2], pb[r - 1]]) <= usize::MAX
        &&& span(seq![numel(j) as usize, a[r - 2], a[r - 1]]) <= usize::MAX
        &&& span(seq![numel(j) as usize, pb[r - 2], pb[r - 1]]) <= usize::MAX
    }
}

/// The first axis other than `dim`, from `d` on, along which `s` differs from
/// `first`.
pub open spec fn first_odd(first: Seq<usize>, s: Seq<usize>, dim: int, d: int) -> Option<int>
    decreases first.len() - d,
{
    if d < 0 || d >= first.len() {
        None
    } else if d != dim && first[d] != s[d] {
        Some(d)
    } else {
        first_odd(first, s, dim, d + 1)
    }
}

/// Why the tensors from the `i`-th on cannot follow the first.
pub open spec fn concat_error(shapes: Seq<Seq<usize>>, dim: usize, i: int) -> Option<CudaError>
    decreases shapes.len() - i,
{
    let op = "concat";
    let first = shapes[0];
    if i < 0 || i >= shapes.len() {
        None
    } else if shapes[i].len() != first.len() {
        Some(
            CudaError::Shape(
                ShapeError::ListRank {
                    op,
                    index: i as usize,
                    rank: shapes[i].len() as usize,
                    expected: first.len() as usize,
                },
            ),
        )
    } else {
        match first_odd(first, shapes[i], dim as int, 0) {
            Some(d) => Some(
                CudaError::Shape(
                    ShapeError::ListExtent {
                        op,
                        index: i as usize,
                        axis: d as usize,
                        extent: shapes[i][d],
                        expected: first[d],
                    },
                ),
            ),
            None => concat_error(shapes, dim, i + 1),
        }
    }
}

/// The shapes of several tensors.
pub open spec fn dims_of(ts: Seq<CudaTensor>) -> Seq<Seq<usize>> {
    Seq::new(ts.len(), |i: int| ts[i].dims())
}

/// The same, as recorded.
pub open spec fn shapes_of(ts: Seq<CudaTensor>) -> Seq<Shape> {
    Seq::new(ts.len(), |i: int| ts[i].shape)
}

/// The extents of several tensors along an axis.
pub open spec fn extents_of(ts: Seq<CudaTensor>, dim: int) -> Seq<usize> {
    Seq::new(ts.len(), |i: int| ts[i].dims()[dim])
}

/// The shape of a concatenation.
pub open spec fn concat_dims(ts: Seq<CudaTensor>, dim: int) -> Seq<usize> {
    ts[0].dims().update(dim, extent_sum(shapes_of(ts), dim, ts.len() as int) as usize)
}

/// Tensors one after the other along an axis.
pub open spec fn concat_val(ts: Seq<CudaTensor>, dim: usize) -> Result<Val, CudaError> {
    let op = "concat";
    if ts.len() == 0 {
        Err(CudaError::Shape(ShapeError::Empty { op }))
    } else {
        let rank = ts[0].dims().len();
        if dim >= rank {
            Err(CudaError::Shape(ShapeError::AxisOutOfRange { op, axis: dim, rank: rank as usize }))
        } else {
            match concat_error(dims_of(ts), dim, 1) {
                Some(e) => Err(e),
                None => Ok(
                    Val {
                        term: Term::Host {
                            task: HostTaskView::Concat {
                                outer: outer(ts[0].dims(), dim as int) as usize,
                                lens: extents_of(ts, dim as int),
                                inner: inner(ts[0].dims(), dim as int) as usize,
                            },
                            inputs: Seq::new(ts.len(), |i: int| saved(ts[i]).term),
                        },
                        dims: concat_dims(ts, dim as int),
                    },
                ),
            }
        }
    }
}

/// A convolution: the operands' ranks, stride and window are checked first.
pub open spec fn conv1d_val(
    x: Val,
    w: Val,
    bias: Option<Val>,
    stride: usize,
    padding: usize,
    groups: usize,
) -> Result<Val, CudaError> {
    let op = "conv1d";
    if x.dims.len() != 3 {
        Err(
            CudaError::Shape(
                ShapeError::WrongRank { op, rank: x.dims.len() as usize, expected: 3 },
            ),
        )
    } else if w.dims.len() != 3 {
        Err(
            CudaError::Shape(
                ShapeError::WrongRank { op, rank: w.dims.len() as usize, expected: 3 },
            ),
        )
    } else if stride == 0 {
        Err(CudaError::Shape(ShapeError::MustBePositive { op }))
    } else if x.dims[2] + 2 * padding < w.dims[2] {
        Err(
            CudaError::Shape(
                ShapeError::WindowTooWide {
                    op,
                    padded: (x.dims[2] + 2 * padding) as usize,
                    window: w.dims[2],
                },
            ),
        )
    } else {
        conv_val(x, w, bias, full_spec(x.dims, w.dims, stride, padding, groups))
    }
}

/// The extents of a convolution, its output steps among them.
pub open spec fn full_spec(
    x: Seq<usize>,
    w: Seq<usize>,
    stride: usize,
    padding: usize,
    groups: usize,
) -> ConvSpec {
    conv_spec(
        x,
        w,
        conv_steps(x[2], w[2], stride, padding) as usize,
        stride,
        padding,
        groups,
    )
}

/// What the counts of a convolution must not exceed. A convolution of no
/// channels in no groups has no meaning.
pub open spec fn conv_countable(
    x: Seq<usize>,
    w: Seq<usize>,
    stride: usize,
    padding: usize,
    groups: usize,
) -> bool {
    x.len() == 3 && w.len() == 3 ==> {
        &&& x[2] + 2 * padding < usize::MAX
        &&& stride >= 1 && w[2] <= x[2] + 2 * padding ==> {
            let s = full_spec(x, w, stride, padding, groups);
            &&& s.per_group * s.groups <= usize::MAX
            &&& s.dims.c_in == s.per_group * s.groups ==> s.groups >= 1
            &&& span(conv_dims(s)) <= usize::MAX
            &&& s.grouped() && !s.depthwise() ==> s.fits()
        }
    }
}

/// What a scan turns out to be.
#[derive(Debug)]
pub enum ScanOutcome {
    /// One kernel launch.
    Kernel(Planned),
    /// Blocks that do not divide the sequence: to be composed of other
    /// operations.
    Compose,
}

/// A scan by kernel, or its composition of other operations where the blocks
/// do not divide the sequence.
pub open spec fn ssd_val(x: Val, a: Val, b: Val, c: Val, block_len: usize) -> Result<
    Option<Val>,
    CudaError,
> {
    if x.dims.len() != 4 {
        Err(
            CudaError::Shape(
                ShapeError::WrongRank { op: "ssd_scan", rank: x.dims.len() as usize, expected: 4 },
            ),
        )
    } else if a.dims != seq![x.dims[0], x.dims[1], x.dims[2]] {
        Err(CudaError::Shape(ShapeError::ShapesDiffer { op: "ssd_scan: a" }))
    } else if b.dims.len() != 4 || b.dims[0] != x.dims[0] || b.dims[1] != x.dims[1] || b.dims[2]
        != x.dims[2] {
        Err(CudaError::Shape(ShapeError::ShapesDiffer { op: "ssd_scan: b" }))
    } else if c.dims != b.dims {
        Err(CudaError::Shape(ShapeError::ShapesDiffer { op: "ssd_scan: c" }))
    } else if x.dims[1] == 0 || block_len == 0 || x.dims[1] % block_len != 0 {
        Ok(None)
    } else if b.dims[3] > MAX_N_DIM {
        Err(
            CudaError::Shape(
                ShapeError::AboveLimit { op: "ssd_scan: n_dim", size: b.dims[3], limit: MAX_N_DIM },
            ),
        )
    } else if block_len > MAX_BLOCK_LEN {
        Err(
            CudaError::Shape(
                ShapeError::AboveLimit {
                    op: "ssd_scan: block_len",
                    size: block_len,
                    limit: MAX_BLOCK_LEN,
                },
            ),
        )
    } else {
        match scan_val(x, a, b, c, scan_dims(x.dims, b.dims, block_len)) {
            Err(e) => Err(e),
            Ok(v) => Ok(Some(v)),
        }
    }
}

/// The extents of a scan.
pub open spec fn scan_dims(x: Seq<usize>, b: Seq<usize>, block_len: usize) -> ScanDims {
    ScanDims {
        batch: x[0],
        t_len: x[1],
        n_heads: x[2],
        p_dim: x[3],
        n_dim: b[3],
        block_len,
    }
}

pub(crate) proof fn lemma_first_odd(first: Seq<usize>, s: Seq<usize>, dim: int, d: int, k: int)
    requires
        first.len() == s.len(),
        first_odd(first, s, dim, d) is None,
        0 <= d <= k < first.len(),
        k != dim,
    ensures
        first[k] == s[k],
    decreases first.len() - d,
{
    if d < k {
        lemma_first_odd(first, s, dim, d + 1, k);
    }
}

pub(crate) proof fn lemma_concat_error(shapes: Seq<Seq<usize>>, dim: usize, i: int, k: int)
    requires
        concat_error(shapes, dim, i) is None,
        1 <= i <= k < shapes.len(),
    ensures
        shapes[k].len() == shapes[0].len(),
        first_odd(shapes[0], shapes[k], dim as int, 0) is None,
    decreases shapes.len() - i,
{
    if i < k {
        lemma_concat_error(shapes, dim, i + 1, k);
    }
}

/// Two tensors as operands.
fn list_of(x: &CudaTensor, y: &CudaTensor) -> (v: Vec<CudaTensor>)
    ensures
        v@ == seq![*x, *y],
{
    let mut v: Vec<CudaTensor> = Vec::new();
    v.push(x.clone());
    v.push(y.clone());
    assert(v@ =~= seq![*x, *y]);
    v
}

impl CudaBackend {
    /// `a @ b`, broadcasting over the leading axes.
    pub fn matmul(&self, a: &CudaTensor, b: &CudaTensor) -> (r: Result<Planned, CudaError>)
        requires
            saved_f32(*a),
            saved_f32(*b),
            matmul_countable(a.dims(), b.dims()),
        ensures
            plans(r, matmul_val(saved(*a), saved(*b))),
            records_only(
                r,
                TapeOp::MatMul { a: None, b: None, a_val: *a, b_val: *b },
                seq![*a, *b],
            ),
    {
        let op: &'static str = "matmul";
        let rank: usize = a.shape.len();
        if rank < 2 {
            return Err(CudaError::Unsupported("matmul: inputs must be at least rank-2"));
        }
        if b.shape.len() > rank {
            return Err(
                CudaError::Shape(ShapeError::RankMismatch { op, lhs: rank, rhs: b.shape.len() }),
            );
        }
        let wide = padded_shape(b.shape(), rank - b.shape.len());
        let ghost la = lead(a.dims());
        let ghost lb = lead(wide@);
        proof {
            lemma_padded(b.dims(), (rank - b.dims().len()) as nat);
            assert(aligned(la, lb) =~= la);
            assert(aligned(lb, la) =~= lb);
        }
        let mut v: Vec<usize> = Vec::new();
        let mut needs_a: bool = false;
        let mut needs_b: bool = false;
        let mut i: usize = 0;
        while i < rank - 2
            invariant
                i <= rank - 2,
                rank >= 2,
                op == "matmul",
                rank == a.dims().len(),
                rank == wide@.len(),
                la == lead(a.dims()),
                lb == lead(wide@),
                wide@ == right_padded(a.dims(), b.dims()),
                b.dims().len() <= rank,
                first_clash(la, lb, 0) == first_clash(la, lb, i as int),
                v@.len() == i,
                forall|k: int| 0 <= k < i ==> #[trigger] v@[k] == joint(la[k], lb[k]),
                needs_a == exists|k: int| 0 <= k < i && #[trigger] la[k] != v@[k],
                needs_b == exists|k: int| 0 <= k < i && #[trigger] lb[k] != v@[k],
            decreases rank - i,
        {
            let da: usize = a.shape[i];
            let db: usize = wide[i];
            let ghost before = v@;
            assert(la[i as int] == da && lb[i as int] == db);
            if da == db {
                v.push(da);
            } else if da == 1 {
                v.push(db);
                needs_a = true;
            } else if db == 1 {
                v.push(da);
                needs_b = true;
            } else {
                return Err(
                    CudaError::Shape(
                        ShapeError::ExtentMismatch { op, axis: i, lhs: da, rhs: db },
                    ),
                );
            }
            proof {
                assert forall|k: int| 0 <= k < i implies v@[k] == before[k] by {
                }
                if needs_a {
                    if da == 1 && da != db {
                        assert(la[i as int] != v@[i as int]);
                    } else {
                        let k = choose|k: int| 0 <= k < i && #[trigger] la[k] != before[k];
                        assert(la[k] != v@[k]);
                    }
                }
                if needs_b {
                    if db == 1 && da != db && da != 1 {
                        assert(lb[i as int] != v@[i as int]);
                    } else {
                        let k = choose|k: int| 0 <= k < i && #[trigger] lb[k] != before[k];
                        assert(lb[k] != v@[k]);
                    }
                }
            }
            i = i + 1;
        }
        let to: Shape = Arc::new(v);
        proof {
            assert(to@ =~= product_lead(a.dims(), b.dims()));
            law_operands_expand_to_joint_shape(la, lb);
            if la != to@ {
                assert(needs_a) by {
                    if forall|k: int| 0 <= k < la.len() ==> #[trigger] la[k] == to@[k] {
                        assert(la =~= to@);
                    }
                }
            }
            if lb != to@ {
                assert(needs_b) by {
                    if forall|k: int| 0 <= k < lb.len() ==> #[trigger] lb[k] == to@[k] {
                        assert(lb =~= to@);
                    }
                }
            }
            lemma_span_run(a.dims(), 0, rank - 2);
            lemma_span_run(wide@, 0, rank - 2);
        }
        let na: usize = element_count(vstd::slice::slice_subrange(a.shape(), 0, rank - 2));
        let nb: usize = element_count(vstd::slice::slice_subrange(wide.as_slice(), 0, rank - 2));
        let expand: bool = (needs_a && na != 1) || (needs_b && nb != 1);
        let bw = CudaTensor::new(b.storage(), wide);
        let mut program = Program::new();
        let out = program.stacked_product(a, &bw, &to, expand)?;
        proof {
            lemma_matmul_fits(a.dims(), b.dims(), expand);
        }
        let entry = TapeOp::MatMul { a: None, b: None, a_val: a.clone(), b_val: b.clone() };
        let d = Draft { op: entry, early: Vec::new(), operands: list_of(a, b), dims: out.shape.clone() };
        assert(d.early@ =~= Seq::<CudaTensor>::empty());
        Ok(Planned { program, out, before: None, record: Some(d) })
    }

    /// One-dimensional convolution.
    pub fn conv1d(
        &self,
        x: &CudaTensor,
        weight: &CudaTensor,
        bias: Option<&CudaTensor>,
        stride: usize,
        padding: usize,
        groups: usize,
    ) -> (r: Result<Planned, CudaError>)
        requires
            saved_f32(*x),
            saved_f32(*weight),
            bias matches Some(b) ==> saved_f32(*b),
            conv_countable(x.dims(), weight.dims(), stride, padding, groups),
        ensures
            plans(
                r,
                conv1d_val(
                    saved(*x),
                    saved(*weight),
                    match bias {
                        Some(b) => Some(saved(*b)),
                        None => None,
                    },
                    stride,
                    padding,
                    groups,
                ),
            ),
            r matches Ok(p) ==> {
                &&& p.before is None
                &&& p.record matches Some(d)
                &&& d.op == (TapeOp::Conv1d {
                    x: None,
                    w: None,
                    bias_node: match bias {
                        Some(_) => Some(None),
                        None => None,
                    },
                    x_val: *x,
                    w_val: *weight,
                    stride,
                    padding,
                    groups,
                })
                &&& d.early@ == (match bias {
                    Some(b) => if x.in_graph() {
                        seq![*x, *b]
                    } else {
                        Seq::empty()
                    },
                    None => Seq::empty(),
                })
                &&& d.operands@ == (match bias {
                    Some(b) => seq![*x, *weight, *b],
                    None => seq![*x, *weight],
                })
                &&& d.dims@ == p.out.dims()
            },
    {
        let op: &'static str = "conv1d";
        if x.shape.len() != 3 {
            return Err(
                CudaError::Shape(ShapeError::WrongRank { op, rank: x.shape.len(), expected: 3 }),
            );
        }
        if weight.shape.len() != 3 {
            return Err(
                CudaError::Shape(
                    ShapeError::WrongRank { op, rank: weight.shape.len(), expected: 3 },
                ),
            );
        }
        if stride == 0 {
            return Err(CudaError::Shape(ShapeError::MustBePositive { op }));
        }
        let t_in: usize = x.shape[2];
        let k: usize = weight.shape[2];
        let long: usize = t_in + 2 * padding;
        if long < k {
            return Err(
                CudaError::Shape(ShapeError::WindowTooWide { op, padded: long, window: k }),
            );
        }
        proof {
            let a = (long - k) as int;
            let b = stride as int;
            assert(0 <= a / b <= a) by (nonlinear_arith)
                requires
                    a >= 0,
                    b >= 1,
            ;
        }
        let t_out: usize = (long - k) / stride + 1;
        let s = ConvSpec {
            dims: ConvDims {
                batch: x.shape[0],
                c_in: x.shape[1],
                t_in,
                t_out,
                k_size: k,
                stride,
                padding,
            },
            c_out: weight.shape[0],
            per_group: weight.shape[1],
            groups,
        };
        proof {
            assert(s == full_spec(x.dims(), weight.dims(), stride, padding, groups));
            lemma_pair_bound(x.dims());
        }
        let mut program = Program::new();
        let out = program.conv1d_f32(x, weight, bias, s)?;
        let mut operands: Vec<CudaTensor> = list_of(x, weight);
        let mut early: Vec<CudaTensor> = Vec::new();
        let bias_node: Option<Option<NodeId>> = match bias {
            Some(b) => {
                operands.push(b.clone());
                if x.origin.is_some() || x.node_id.is_some() {
                    early.push(x.clone());
                    early.push(b.clone());
                    assert(early@ =~= seq![*x, *b]);
                } else {
                    assert(early@ =~= Seq::<CudaTensor>::empty());
                }
                assert(operands@ =~= seq![*x, *weight, *b]);
                Some(None)
            },
            None => {
                assert(early@ =~= Seq::<CudaTensor>::empty());
                None
            },
        };
        let entry = TapeOp::Conv1d {
            x: None,
            w: None,
            bias_node,
            x_val: x.clone(),
            w_val: weight.clone(),
            stride,
            padding,
            groups,
        };
        let d = Draft { op: entry, early, operands, dims: out.shape.clone() };
        Ok(Planned { program, out, before: None, record: Some(d) })
    }

    /// The tensors one after the other along the axis `dim`.
    pub fn concat(&self, tensors: &Vec<CudaTensor>, dim: usize) -> (r: Result<Planned, CudaError>)
        requires
            forall|i: int| 0 <= i < tensors@.len() ==> saved_f32(#[trigger] tensors@[i]),
            concat_val(tensors@, dim) is Ok ==> extent_sum(
                shapes_of(tensors@),
                dim as int,
                tensors@.len() as int,
            ) <= usize::MAX && span(concat_dims(tensors@, dim as int)) <= usize::MAX,
        ensures
            plans(r, concat_val(tensors@, dim)),
            r matches Ok(p) ==> {
                &&& p.before is None
                &&& p.record matches Some(d)
                &&& d.op matches TapeOp::Concat { inputs, dim: e, input_shapes }
                &&& e == dim
                &&& input_shapes@ == shapes_of(tensors@)
                &&& inputs@ == Seq::new(tensors@.len(), |i: int| None::<NodeId>)
                &&& d.early@ == Seq::<CudaTensor>::empty()
                &&& d.operands@ == tensors@
                &&& d.dims@ == p.out.dims()
            },
    {
        let op: &'static str = "concat";
        if tensors.len() == 0 {
            return Err(CudaError::Shape(ShapeError::Empty { op }));
        }
        let rank: usize = tensors[0].shape.len();
        if dim >= rank {
            return Err(CudaError::Shape(ShapeError::AxisOutOfRange { op, axis: dim, rank }));
        }
        let mut i: usize = 1;
        while i < tensors.len()
            invariant
                1 <= i <= tensors@.len(),
                op == "concat",
                rank == tensors@[0].dims().len(),
                dim < rank,
                concat_error(dims_of(tensors@), dim, 1) == concat_error(
                    dims_of(tensors@),
                    dim,
                    i as int,
                ),
            decreases tensors@.len() - i,
        {
            let s = &tensors[i].shape;
            if s.len() != rank {
                return Err(
                    CudaError::Shape(
                        ShapeError::ListRank { op, index: i, rank: s.len(), expected: rank },
                    ),
                );
            }
            let mut d: usize = 0;
            while d < rank
                invariant
                    d <= rank,
                    dim < rank,
                    1 <= i < tensors@.len(),
                    op == "concat",
                    *s == tensors@[i as int].shape,
                    s@.len() == rank,
                    rank == tensors@[0].dims().len(),
                    concat_error(dims_of(tensors@), dim, 1) == concat_error(
                        dims_of(tensors@),
                        dim,
                        i as int,
                    ),
                    first_odd(tensors@[0].dims(), s@, dim as int, 0) == first_odd(
                        tensors@[0].dims(),
                        s@,
                        dim as int,
                        d as int,
                    ),
                decreases rank - d,
            {
                let want: usize = tensors[0].shape[d];
                let got: usize = s[d];
                if d != dim && want != got {
                    return Err(
                        CudaError::Shape(
                            ShapeError::ListExtent {
                                op,
                                index: i,
                                axis: d,
                                extent: got,
                                expected: want,
                            },
                        ),
                    );
                }
                d = d + 1;
            }
            i = i + 1;
        }
        proof {
            assert forall|k: int| 0 <= k < tensors@.len() implies (
            #[trigger] tensors@[k]).dims().len() == rank && forall|d: int|
                0 <= d < rank && d != dim ==> #[trigger] tensors@[k].dims()[d]
                    == tensors@[0].dims()[d] by {
                if k > 0 {
                    lemma_concat_error(dims_of(tensors@), dim, 1, k);
                    assert(dims_of(tensors@)[k] == tensors@[k].dims());
                    assert(dims_of(tensors@)[0] == tensors@[0].dims());
                    assert forall|d: int| 0 <= d < rank && d != dim implies
                        #[trigger] tensors@[k].dims()[d] == tensors@[0].dims()[d] by {
                        lemma_first_odd(
                            tensors@[0].dims(),
                            tensors@[k].dims(),
                            dim as int,
                            0,
                            d,
                        );
                    }
                }
            }
        }
        let mut total: usize = 0;
        let mut lens: Vec<usize> = Vec::new();
        let mut shapes: Vec<Shape> = Vec::new();
        let mut nodes: Vec<Option<NodeId>> = Vec::new();
        let mut inputs: Vec<Buffer> = Vec::new();
        let mut operands: Vec<CudaTensor> = Vec::new();
        let mut j: usize = 0;
        while j < tensors.len()
            invariant
                j <= tensors@.len(),
                dim < rank,
                forall|k: int| 0 <= k < tensors@.len() ==> saved_f32(#[trigger] tensors@[k]),
                forall|k: int|
                    0 <= k < tensors@.len() ==> (#[trigger] tensors@[k]).dims().len() == rank,
                extent_sum(shapes_of(tensors@), dim as int, tensors@.len() as int) <= usize::MAX,
                total == extent_sum(shapes_of(tensors@), dim as int, j as int),
                lens@ == extents_of(tensors@, dim as int).subrange(0, j as int),
                shapes@ == shapes_of(tensors@).subrange(0, j as int),
                nodes@ == Seq::new(j as nat, |i: int| None::<NodeId>),
                operands@ == tensors@.subrange(0, j as int),
                inputs@.len() == j,
                forall|k: int| 0 <= k < j ==> #[trigger] inputs@[k] == tensors@[k].buffer(),
            decreases tensors@.len() - j,
        {
            let t = &tensors[j];
            proof {
                lemma_extent_sum(
                    shapes_of(tensors@),
                    dim as int,
                    j + 1,
                    tensors@.len() as int,
                );
            }
            total = total + t.shape[dim];
            lens.push(t.shape[dim]);
            shapes.push(t.shape.clone());
            nodes.push(None);
            inputs.push(t.slice().id);
            operands.push(t.clone());
            j = j + 1;
            proof {
                assert(lens@ =~= extents_of(tensors@, dim as int).subrange(0, j as int));
                assert(shapes@ =~= shapes_of(tensors@).subrange(0, j as int));
                assert(nodes@ =~= Seq::new(j as nat, |i: int| None::<NodeId>));
                assert(operands@ =~= tensors@.subrange(0, j as int));
            }
        }
        proof {
            assert(lens@ =~= extents_of(tensors@, dim as int));
            assert(shapes@ =~= shapes_of(tensors@));
            assert(operands@ =~= tensors@);
        }
        let (o, _, n) = split_axis(tensors[0].shape(), dim);
        let dims = crate::device::resized_shape(&tensors[0].shape, dim, total);
        let mut program = Program::new();
        let ghost base = program;
        let ghost ids = inputs@;
        let buf = program.host(
            HostTask::Concat { outer: o, lens: Arc::new(lens), inner: n },
            inputs,
        );
        proof {
            assert(held_all(base.state(), ids) =~= Seq::new(
                tensors@.len(),
                |i: int| saved(tensors@[i]).term,
            )) by {
                assert forall|k: int| 0 <= k < ids.len() implies held(base.state(), ids[k])
                    == saved(tensors@[k]).term by {
                    assert(saved_f32(tensors@[k]));
                }
            }
        }
        let out = CudaTensor::new(buf, dims.clone());
        let entry = TapeOp::Concat { inputs: nodes, dim, input_shapes: shapes };
        proof {
            assert forall|k: int| 0 <= k < shapes@.len() implies (#[trigger] shapes@[k])@.len()
                == dims@.len() && shapes@[k]@ == dims@.update(
                dim as int,
                shapes@[k]@[dim as int],
            ) by {
                assert(shapes@[k] == tensors@[k].shape);
                assert(tensors@[k].dims().len() == rank);
                assert(shapes@[k]@ =~= dims@.update(dim as int, shapes@[k]@[dim as int]));
            }
        }
        let d = Draft { op: entry, early: Vec::new(), operands, dims };
        assert(d.early@ =~= Seq::<CudaTensor>::empty());
        Ok(Planned { program, out, before: None, record: Some(d) })
    }

    /// The chunked scan of `x` under decay `a` with input and output
    /// projections `b` and `c`.
    pub fn ssd_scan(
        &self,
        x: &CudaTensor,
        a: &CudaTensor,
        b: &CudaTensor,
        c: &CudaTensor,
        block_len: usize,
    ) -> (r: Result<ScanOutcome, CudaError>)
        requires
            saved_f32(*x),
            saved_f32(*a),
            saved_f32(*b),
            saved_f32(*c),
        ensures
            match ssd_val(saved(*x), saved(*a), saved(*b), saved(*c), block_len) {
                Err(e) => r == Err::<ScanOutcome, CudaError>(e),
                Ok(None) => r matches Ok(ScanOutcome::Compose),
                Ok(Some(v)) => {
                    &&& r matches Ok(ScanOutcome::Kernel(p))
                    &&& plans(Ok(p), Ok(v))
                    &&& p.before is None
                    &&& p.record matches Some(d)
                    &&& d.op matches TapeOp::SsdScan(e)
                    &&& *e == (SsdScanData {
                        x: None,
                        a: None,
                        b: None,
                        c: None,
                        x_val: *x,
                        a_val: *a,
                        b_val: *b,
                        c_val: *c,
                        block_len,
                    })
                    &&& d.early@ == Seq::<CudaTensor>::empty()
                    &&& d.operands@ == seq![*x, *a, *b, *c]
                    &&& d.dims@ == p.out.dims()
                },
            },
    {
        let rank: usize = x.shape.len();
        if rank != 4 {
            return Err(
                CudaError::Shape(ShapeError::WrongRank { op: "ssd_scan", rank, expected: 4 }),
            );
        }
        let batch: usize = x.shape[0];
        let t_len: usize = x.shape[1];
        let n_heads: usize = x.shape[2];
        let p_dim: usize = x.shape[3];
        if a.shape.len() != 3 || a.shape[0] != batch || a.shape[1] != t_len || a.shape[2]
            != n_heads {
            return Err(CudaError::Shape(ShapeError::ShapesDiffer { op: "ssd_scan: a" }));
        }
        assert(a.dims() =~= seq![batch, t_len, n_heads]);
        if b.shape.len() != 4 || b.shape[0] != batch || b.shape[1] != t_len || b.shape[2]
            != n_heads {
            return Err(CudaError::Shape(ShapeError::ShapesDiffer { op: "ssd_scan: b" }));
        }
        if !same_shape(c.shape(), b.shape()) {
            return Err(CudaError::Shape(ShapeError::ShapesDiffer { op: "ssd_scan: c" }));
        }
        let n_dim: usize = b.shape[3];
        if t_len == 0 || block_len == 0 || t_len % block_len != 0 {
            return Ok(ScanOutcome::Compose);
        }
        if n_dim > MAX_N_DIM {
            return Err(
                CudaError::Shape(
                    ShapeError::AboveLimit {
                        op: "ssd_scan: n_dim",
                        size: n_dim,
                        limit: MAX_N_DIM,
                    },
                ),
            );
        }
        if block_len > MAX_BLOCK_LEN {
            return Err(
                CudaError::Shape(
                    ShapeError::AboveLimit {
                        op: "ssd_scan: block_len",
                        size: block_len,
                        limit: MAX_BLOCK_LEN,
                    },
                ),
            );
        }
        let d = ScanDims { batch, t_len, n_heads, p_dim, n_dim, block_len };
        proof {
            lemma_lanes(x.dims(), d);
        }
        let mut program = Program::new();
        let out = program.scan_op(x, a, b, c, d)?;
        let mut operands: Vec<CudaTensor> = Vec::new();
        operands.push(x.clone());
        operands.push(a.clone());
        operands.push(b.clone());
        operands.push(c.clone());
        assert(operands@ =~= seq![*x, *a, *b, *c]);
        let entry = TapeOp::SsdScan(
            Box::new(
                SsdScanData {
                    x: None,
                    a: None,
                    b: None,
                    c: None,
                    x_val: x.clone(),
                    a_val: a.clone(),
                    b_val: b.clone(),
                    c_val: c.clone(),
                    block_len,
                },
            ),
        );
        let rec = Draft { op: entry, early: Vec::new(), operands, dims: out.shape.clone() };
        assert(rec.early@ =~= Seq::<CudaTensor>::empty());
        Ok(ScanOutcome::Kernel(Planned { program, out, before: None, record: Some(rec) }))
    }
}

/// A product that could be planned has factors that fit together.
proof fn lemma_matmul_fits(a: Seq<usize>, b: Seq<usize>, expand: bool)
    requires
        a.len() >= 2,
        b.len() <= a.len(),
        first_clash(lead(a), lead(right_padded(a, b)), 0) is None,
        ({
            let r = a.len() as int;
            let pb = right_padded(a, b);
            let j = numel(product_lead(a, b)) as usize;
            if expand {
                matmul_config(seq![j, a[r - 2], a[r - 1]], seq![j, pb[r - 2], pb[r - 1]]) is Ok
            } else {
                matmul_config(a, pb) is Ok
            }
        }),
    ensures
        matmul_fits(
            a,
            b,
            product_lead(a, b) + seq![a[a.len() - 2], right_padded(a, b)[a.len() - 1]],
        ),
{
    let r = a.len() as int;
    let pb = right_padded(a, b);
    lemma_padded(b, (r - b.len()) as nat);
    assert(aligned(lead(a), lead(pb)) =~= lead(a));
    assert(aligned(lead(pb), lead(a)) =~= lead(pb));
}

/// The first two extents of a shape of three multiply to a countable number.
proof fn lemma_pair_bound(s: Seq<usize>)
    requires
        s.len() == 3,
        span(s) <= usize::MAX,
    ensures
        s[0] * s[1] <= usize::MAX,
{
    lemma_span_run(s, 0, 2);
    lemma_low_rank(s.subrange(0, 2));
}

/// The lanes of a scan are bounded by its elements.
proof fn lemma_lanes(x: Seq<usize>, d: ScanDims)
    requires
        x.len() == 4,
        span(x) <= usize::MAX,
        d.batch == x[0],
        d.t_len == x[1],
        d.n_heads == x[2],
        d.p_dim == x[3],
        d.t_len >= 1,
    ensures
        d.batch * d.n_heads <= usize::MAX,
        d.lanes() <= usize::MAX,
{
    lemma_numel_le_span(x);
    crate::shape::lemma_split(x, 2);
    let h = x.subrange(0, 2);
    let t = crate::shape::tail(x, 2);
    lemma_numel_le_span(h);
    lemma_numel_le_span(t);
    lemma_low_rank(h);
    lemma_low_rank(t);
    let b = d.batch as int;
    let l = d.t_len as int;
    let n = d.n_heads as int;
    let p = d.p_dim as int;
    let sh = span(h) as int;
    let st = span(t) as int;
    let u = t.drop_first();
    lemma_numel_le_span(u);
    assert(t[0] == x[2] && t[1] == x[3] && h[0] == x[0] && h[1] == x[1]);
    assert(st >= n) by {
        let su = span(u) as int;
        let m = if n == 0 { 1int } else { n };
        assert(st == m * su);
        assert(m * su >= n) by (nonlinear_arith)
            requires
                m >= n,
                m >= 1,
                su >= 1,
        ;
    }
    assert(b <= b * l) by (nonlinear_arith)
        requires
            b >= 0,
            l >= 1,
    ;
    assert(b * n <= sh * st) by (nonlinear_arith)
        requires
            0 <= b <= sh,
            0 <= n <= st,
    ;
    assert(n * p <= st);
    assert(b * n * p <= sh * st) by (nonlinear_arith)
        requires
            0 <= b <= sh,
            0 <= n * p <= st,
            n >= 0,
            p >= 0,
    ;
}

} // verus!
