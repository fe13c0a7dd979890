//! The tensor operations: checks, the program to run, and what to record.

use crate::backend::{CudaBackend, Draft, Planned};
use crate::broadcast::{
    compatible, expanded_val, host_broadcast_val, joint_dims,
    law_equal_shapes_broadcast_to_themselves, narrowed_val,
};
use crate::device::{
    binary_val, if_short, ones_val, scalar_val, transposed_val, unary_val, zeros_val,
};
use crate::error::{CudaError, ShapeError};
use crate::kernels::addressable;
use crate::launch::{Kernel, Real};
use crate::program::{Program, Term, Val};
use crate::rows::{
    along_val, embedding_val, gather_val, mean_all_val, rmsnorm_val, sum_all_val,
};
use crate::rules::{saved, times};
use crate::shape::{element_count, numel, span, swapped};
use crate::tape::{saved_f32, saved_i64, TapeOp};
use crate::tensor::{same_shape, CudaTensor, Dtype, Shape};
use vstd::prelude::*;

verus! {

/// Whether `r` is a plan for a tensor `v`.
pub open spec fn plans(r: Result<Planned, CudaError>, v: Result<Val, CudaError>) -> bool {
    match v {
        Err(e) => r == Err::<Planned, CudaError>(e),
        Ok(v) => {
            &&& r matches Ok(p)
            &&& p.ok()
            &&& p.program.wf()
            &&& p.program.holds_f32(p.out)
            &&& p.program.val(p.out) == v
        },
    }
}

/// Whether `d` records `op` with the given inputs and the output `out`.
pub open spec fn drafts(
    d: Option<Draft>,
    op: TapeOp,
    operands: Seq<CudaTensor>,
    out: Seq<usize>,
) -> bool {
    &&& d matches Some(x)
    &&& x.op == op
    &&& x.early@ == Seq::<CudaTensor>::empty()
    &&& x.operands@ == operands
    &&& x.dims@ == out
}

/// Whether a plan, where there is one, records exactly `op`.
pub open spec fn records_only(
    r: Result<Planned, CudaError>,
    op: TapeOp,
    operands: Seq<CudaTensor>,
) -> bool {
    r matches Ok(p) ==> p.before is None && drafts(p.record, op, operands, p.out.dims())
}

/// A draft without tensors to ask for first.
fn draft(op: TapeOp, operands: Vec<CudaTensor>, dims: &Shape) -> (d: Draft)
    ensures
        drafts(Some(d), op, operands@, dims@),
{
    let d = Draft { op, early: Vec::new(), operands, dims: dims.clone() };
    assert(d.early@ =~= Seq::<CudaTensor>::empty());
    d
}

fn one(x: &CudaTensor) -> (v: Vec<CudaTensor>)
    ensures
        v@ == seq![*x],
{
    let mut v: Vec<CudaTensor> = Vec::new();
    v.push(x.clone());
    assert(v@ =~= seq![*x]);
    v
}

fn two(x: &CudaTensor, y: &CudaTensor) -> (v: Vec<CudaTensor>)
    ensures
        v@ == seq![*x, *y],
{
    let mut v: Vec<CudaTensor> = Vec::new();
    v.push(x.clone());
    v.push(y.clone());
    assert(v@ =~= seq![*x, *y]);
    v
}

/// A plan that records one operation.
fn plan(program: Program, out: CudaTensor, d: Draft) -> (p: Planned)
    ensures
        p == (Planned { program, out, before: None, record: Some(d) }),
{
    Planned { program, out, before: None, record: Some(d) }
}

/// A sum or difference.
pub open spec fn sum_val(subtract: bool, a: Val, b: Val) -> Result<Val, CudaError> {
    if a.dims == b.dims {
        Ok(binary_val(if subtract { Kernel::Sub } else { Kernel::Add }, a, b))
    } else {
        host_broadcast_val(subtract, a, b)
    }
}

/// Whether two operands can be added: those of one shape must not have more
/// elements than a kernel can index, and the joint shape must be countable.
pub open spec fn addable(a: Seq<usize>, b: Seq<usize>) -> bool {
    if a == b {
        numel(a) <= u32::MAX
    } else {
        compatible(a, b) ==> span(joint_dims(a, b)) <= usize::MAX
    }
}

/// Whether two operands can be multiplied.
pub open spec fn multipliable(a: Seq<usize>, b: Seq<usize>) -> bool {
    if a == b {
        numel(a) <= u32::MAX
    } else {
        compatible(a, b) ==> addressable(joint_dims(a, b))
    }
}

/// A view of the same elements under another shape.
pub open spec fn reshaped_val(x: Val, dims: Seq<usize>) -> Result<Val, CudaError> {
    if x.count() != numel(dims) {
        Err(
            CudaError::Shape(
                ShapeError::CountMismatch {
                    op: "reshape",
                    from: x.count() as usize,
                    to: numel(dims) as usize,
                },
            ),
        )
    } else {
        Ok(Val { term: x.term, dims })
    }
}

/// A window along an axis.
pub open spec fn window_val(x: Val, dim: usize, start: usize, len: usize) -> Result<
    Val,
    CudaError,
> {
    let op = "narrow";
    let rank = x.dims.len();
    if dim >= rank {
        Err(CudaError::Shape(ShapeError::AxisOutOfRange { op, axis: dim, rank: rank as usize }))
    } else if start + len > x.dims[dim as int] {
        Err(
            CudaError::Shape(
                ShapeError::WindowOutOfRange { op, start, len, extent: x.dims[dim as int] },
            ),
        )
    } else {
        narrowed_val(x, dim, start, len)
    }
}

/// The first axis from `i` on along which `s` cannot be repeated to `d`.
pub open spec fn first_stuck(s: Seq<usize>, d: Seq<usize>, i: int) -> Option<int>
    decreases s.len() - i,
{
    if i < 0 || i >= s.len() {
        None
    } else if s[i] != 1 && s[i] != d[i] {
        Some(i)
    } else {
        first_stuck(s, d, i + 1)
    }
}

/// A tensor repeated along its axes of extent one.
pub open spec fn broadcast_as_val(x: Val, dims: Seq<usize>) -> Result<Val, CudaError> {
    let op = "broadcast_as";
    if x.dims.len() != dims.len() {
        Err(
            CudaError::Shape(
                ShapeError::RankMismatch { op, lhs: x.dims.len() as usize, rhs: dims.len() as usize },
            ),
        )
    } else {
        match first_stuck(x.dims, dims, 0) {
            Some(i) => Err(
                CudaError::Shape(
                    ShapeError::ExtentMismatch {
                        op,
                        axis: i as usize,
                        lhs: x.dims[i],
                        rhs: dims[i],
                    },
                ),
            ),
            None => expanded_val(op, x, dims),
        }
    }
}

/// Rows of a table.
pub open spec fn lookup_val(table: Val, idx: Val) -> Result<Val, CudaError> {
    if table.dims.len() != 2 {
        Err(
            CudaError::Shape(
                ShapeError::WrongRank {
                    op: "embedding",
                    rank: table.dims.len() as usize,
                    expected: 2,
                },
            ),
        )
    } else {
        embedding_val(table, idx)
    }
}

/// A function applied along an axis.
pub open spec fn axis_val(op: &'static str, kernel: Kernel, x: Val, dim: usize) -> Result<
    Val,
    CudaError,
> {
    if x.dims.len() == 0 {
        Err(CudaError::Shape(ShapeError::Empty { op }))
    } else {
        along_val("transpose", kernel, x, dim)
    }
}

/// Elements picked along an axis.
pub open spec fn pick_val(x: Val, idx: Val, dim: usize) -> Result<Val, CudaError> {
    let op = "gather";
    let rank = x.dims.len();
    if rank == 0 {
        Err(CudaError::Shape(ShapeError::Empty { op }))
    } else if dim >= rank {
        Err(CudaError::Shape(ShapeError::AxisOutOfRange { op, axis: dim, rank: rank as usize }))
    } else if idx.dims.len() != rank {
        Err(
            CudaError::Shape(
                ShapeError::RankMismatch {
                    op,
                    lhs: idx.dims.len() as usize,
                    rhs: rank as usize,
                },
            ),
        )
    } else {
        gather_val(x, idx, dim)
    }
}

/// A total of all elements.
pub open spec fn total_val(mean: bool, x: Val) -> Result<Val, CudaError> {
    if x.count() == 0 {
        Err(
            CudaError::Shape(
                ShapeError::Empty {
                    op: if mean {
                        "mean_all"
                    } else {
                        "sum_all"
                    },
                },
            ),
        )
    } else if mean {
        mean_all_val(x)
    } else {
        sum_all_val(x)
    }
}

/// A quotient.
pub open spec fn quotient_val(a: Val, b: Val) -> Result<Val, CudaError> {
    if a.dims != b.dims {
        Err(CudaError::Shape(ShapeError::ShapesDiffer { op: "div" }))
    } else {
        if_short(Kernel::Div, a.count(), binary_val(Kernel::Div, a, b))
    }
}

proof fn lemma_first_stuck(s: Seq<usize>, d: Seq<usize>, i: int, k: int)
    requires
        s.len() == d.len(),
        first_stuck(s, d, i) is None,
        0 <= i <= k < s.len(),
    ensures
        s[k] == d[k] || s[k] == 1,
    decreases s.len() - i,
{
    if i < k {
        lemma_first_stuck(s, d, i + 1, k);
    }
}

impl CudaBackend {
    /// A tensor of zeros.
    pub fn zeros(&self, shape: &Shape, dtype: Dtype) -> (r: Result<Planned, CudaError>)
        requires
            span(shape@) <= usize::MAX,
        ensures
            plans(
                r,
                if dtype == Dtype::F32 {
                    Ok(zeros_val(shape@))
                } else {
                    Err(
                        CudaError::Unsupported(
                            "zeros: only Dtype::F32 is supported in B4; bf16/f16/i64 land later",
                        ),
                    )
                },
            ),
            r matches Ok(p) ==> p.before is None && p.record is None,
    {
        if dtype != Dtype::F32 {
            return Err(
                CudaError::Unsupported(
                    "zeros: only Dtype::F32 is supported in B4; bf16/f16/i64 land later",
                ),
            );
        }
        let mut program = Program::new();
        let out = program.zeros_tensor(shape);
        Ok(Planned { program, out, before: None, record: None })
    }

    /// A tensor of ones.
    pub fn ones(&self, shape: &Shape, dtype: Dtype) -> (r: Result<Planned, CudaError>)
        requires
            span(shape@) <= usize::MAX,
        ensures
            plans(
                r,
                if dtype == Dtype::F32 {
                    Ok(ones_val(shape@))
                } else {
                    Err(CudaError::Unsupported("ones: only Dtype::F32 supported in B4"))
                },
            ),
            r matches Ok(p) ==> p.before is None && p.record is None,
    {
        if dtype != Dtype::F32 {
            return Err(CudaError::Unsupported("ones: only Dtype::F32 supported in B4"));
        }
        let mut program = Program::new();
        let out = program.ones_tensor(shape);
        Ok(Planned { program, out, before: None, record: None })
    }

    /// A tensor of `len` floats of the caller's.
    pub fn from_slice_f32(&self, len: usize, shape: &Shape) -> (p: Planned)
        requires
            span(shape@) <= usize::MAX,
            len == numel(shape@),
        ensures
            plans(Ok(p), Ok(Val { term: Term::Upload(len as nat), dims: shape@ })),
            p.before is None,
            p.record is None,
    {
        let mut program = Program::new();
        let b = program.upload(len);
        let out = CudaTensor::new(b, shape.clone());
        Planned { program, out, before: None, record: None }
    }

    /// A tensor of `len` indices of the caller's.
    pub fn from_slice_i64(&self, len: usize, shape: &Shape) -> (r: Result<Planned, CudaError>)
        requires
            span(shape@) <= usize::MAX,
        ensures
            match r {
                Err(e) => len != numel(shape@) && e == CudaError::Shape(
                    ShapeError::BufferLength {
                        op: "from_slice_i64",
                        len,
                        expected: numel(shape@) as usize,
                    },
                ),
                Ok(p) => {
                    &&& len == numel(shape@)
                    &&& p.ok()
                    &&& p.program.wf()
                    &&& p.program.holds(p.out)
                    &&& p.out.storage is I64
                    &&& p.program.val(p.out) == (Val {
                        term: Term::Upload(len as nat),
                        dims: shape@,
                    })
                    &&& p.before is None
                    &&& p.record is None
                },
            },
    {
        let n: usize = element_count(shape.as_slice());
        if len != n {
            return Err(
                CudaError::Shape(
                    ShapeError::BufferLength { op: "from_slice_i64", len, expected: n },
                ),
            );
        }
        let mut program = Program::new();
        let b = program.upload(len);
        let out = CudaTensor::new_i64(b, shape.clone());
        Ok(Planned { program, out, before: None, record: None })
    }

    /// The same tensor, where it already has the element type.
    pub fn to_dtype(&self, t: &CudaTensor, dtype: Dtype) -> (r: Result<CudaTensor, CudaError>)
        ensures
            r == (if (t.storage is F32 && dtype == Dtype::F32) || (t.storage is I64 && dtype
                == Dtype::I64) {
                Ok::<CudaTensor, CudaError>(*t)
            } else {
                Err(
                    CudaError::Unsupported(
                        "to_dtype: pm-cuda only stores Dtype::F32 (and I64 for indices) today; the bf16 mixed-precision compute path is Candle-only for now",
                    ),
                )
            }),
    {
        if t.dtype() == dtype {
            return Ok(t.clone());
        }
        Err(
            CudaError::Unsupported(
                "to_dtype: pm-cuda only stores Dtype::F32 (and I64 for indices) today; the bf16 mixed-precision compute path is Candle-only for now",
            ),
        )
    }

    /// `a + b`, broadcasting where the shapes differ.
    pub fn add(&self, a: &CudaTensor, b: &CudaTensor) -> (r: Result<Planned, CudaError>)
        requires
            saved_f32(*a),
            saved_f32(*b),
            addable(a.dims(), b.dims()),
        ensures
            plans(r, sum_val(false, saved(*a), saved(*b))),
            records_only(
                r,
                TapeOp::Add { lhs: None, rhs: None, lhs_shape: a.shape, rhs_shape: b.shape },
                seq![*a, *b],
            ),
    {
        let mut program = Program::new();
        let out = if same_shape(a.shape(), b.shape()) {
            proof {
                law_equal_shapes_broadcast_to_themselves(a.dims());
            }
            program.add_inner(a, b)
        } else {
            program.broadcast_binary_op(false, a, b)?
        };
        let op = TapeOp::Add {
            lhs: None,
            rhs: None,
            lhs_shape: a.shape.clone(),
            rhs_shape: b.shape.clone(),
        };
        let d = draft(op, two(a, b), &out.shape);
        Ok(plan(program, out, d))
    }

    /// `a - b`, broadcasting where the shapes differ.
    pub fn sub(&self, a: &CudaTensor, b: &CudaTensor) -> (r: Result<Planned, CudaError>)
        requires
            saved_f32(*a),
            saved_f32(*b),
            addable(a.dims(), b.dims()),
        ensures
            plans(r, sum_val(true, saved(*a), saved(*b))),
            records_only(
                r,
                TapeOp::Sub { lhs: None, rhs: None, lhs_shape: a.shape, rhs_shape: b.shape },
                seq![*a, *b],
            ),
    {
        let mut program = Program::new();
        let out = if same_shape(a.shape(), b.shape()) {
            proof {
                law_equal_shapes_broadcast_to_themselves(a.dims());
            }
            program.sub_inner(a, b)
        } else {
            program.broadcast_binary_op(true, a, b)?
        };
        let op = TapeOp::Sub {
            lhs: None,
            rhs: None,
            lhs_shape: a.shape.clone(),
            rhs_shape: b.shape.clone(),
        };
        let d = draft(op, two(a, b), &out.shape);
        Ok(plan(program, out, d))
    }

    /// `a * b`, broadcasting where the shapes differ.
    pub fn mul(&self, a: &CudaTensor, b: &CudaTensor) -> (r: Result<Planned, CudaError>)
        requires
            saved_f32(*a),
            saved_f32(*b),
            multipliable(a.dims(), b.dims()),
        ensures
            plans(r, times(saved(*a), saved(*b))),
            records_only(
                r,
                TapeOp::Mul { lhs: None, rhs: None, lhs_val: *a, rhs_val: *b },
                seq![*a, *b],
            ),
    {
        let mut program = Program::new();
        proof {
            law_equal_shapes_broadcast_to_themselves(a.dims());
        }
        let out = program.times_op(a, b)?;
        let op = TapeOp::Mul { lhs: None, rhs: None, lhs_val: a.clone(), rhs_val: b.clone() };
        let d = draft(op, two(a, b), &out.shape);
        Ok(plan(program, out, d))
    }

    /// `-a`.
    pub fn neg(&self, a: &CudaTensor) -> (p: Planned)
        requires
            saved_f32(*a),
            numel(a.dims()) <= u32::MAX,
        ensures
            plans(Ok(p), Ok(unary_val(Kernel::Neg, saved(*a)))),
            records_only(Ok(p), TapeOp::Neg { input: None }, seq![*a]),
    {
        let mut program = Program::new();
        let out = program.neg_inner(a);
        let d = draft(TapeOp::Neg { input: None }, one(a), &out.shape);
        plan(program, out, d)
    }

    /// Root-mean-square normalisation of every row, scaled by `weight`.
    pub fn rmsnorm(&self, x: &CudaTensor, weight: &CudaTensor, eps: Real) -> (r: Result<
        Planned,
        CudaError,
    >)
        requires
            saved_f32(*x),
            saved_f32(*weight),
            x.dims().len() > 0 && numel(weight.dims()) == x.dims().last() ==> x.dims().last() > 0,
        ensures
            plans(r, rmsnorm_val(saved(*x), saved(*weight), eps)),
            records_only(
                r,
                TapeOp::RmsNorm { x: None, w: None, x_val: *x, w_val: *weight, eps },
                seq![*x, *weight],
            ),
    {
        let mut program = Program::new();
        let out = program.rmsnorm_op(x, weight, eps)?;
        let op = TapeOp::RmsNorm {
            x: None,
            w: None,
            x_val: x.clone(),
            w_val: weight.clone(),
            eps,
        };
        let d = draft(op, two(x, weight), &out.shape);
        Ok(plan(program, out, d))
    }

    /// `x * sigmoid(x)`.
    pub fn silu(&self, x: &CudaTensor) -> (r: Result<Planned, CudaError>)
        requires
            saved_f32(*x),
        ensures
            plans(
                r,
                if_short(Kernel::Silu, numel(x.dims()), unary_val(Kernel::Silu, saved(*x))),
            ),
            records_only(r, TapeOp::Silu { input: None, input_val: *x }, seq![*x]),
    {
        let mut program = Program::new();
        let out = program.unary_op(Kernel::Silu, x)?;
        let d = draft(TapeOp::Silu { input: None, input_val: x.clone() }, one(x), &out.shape);
        Ok(plan(program, out, d))
    }

    /// `log(1 + exp(x))`.
    pub fn softplus(&self, x: &CudaTensor) -> (r: Result<Planned, CudaError>)
        requires
            saved_f32(*x),
        ensures
            plans(
                r,
                if_short(Kernel::Softplus, numel(x.dims()), unary_val(Kernel::Softplus, saved(*x))),
            ),
            records_only(r, TapeOp::Softplus { input: None, input_val: *x }, seq![*x]),
    {
        let mut program = Program::new();
        let out = program.unary_op(Kernel::Softplus, x)?;
        let d = draft(TapeOp::Softplus { input: None, input_val: x.clone() }, one(x), &out.shape);
        Ok(plan(program, out, d))
    }

    /// `1 / (1 + exp(-x))`.
    pub fn sigmoid(&self, x: &CudaTensor) -> (r: Result<Planned, CudaError>)
        requires
            saved_f32(*x),
        ensures
            plans(
                r,
                if_short(Kernel::Sigmoid, numel(x.dims()), unary_val(Kernel::Sigmoid, saved(*x))),
            ),
            r matches Ok(p) ==> records_only(
                r,
                TapeOp::Sigmoid { input: None, out_val: p.out },
                seq![*x],
            ),
    {
        let mut program = Program::new();
        let out = program.unary_op(Kernel::Sigmoid, x)?;
        let d = draft(TapeOp::Sigmoid { input: None, out_val: out.clone() }, one(x), &out.shape);
        Ok(plan(program, out, d))
    }

    /// `exp(x)`.
    pub fn exp(&self, x: &CudaTensor) -> (r: Result<Planned, CudaError>)
        requires
            saved_f32(*x),
        ensures
            plans(r, if_short(Kernel::Exp, numel(x.dims()), unary_val(Kernel::Exp, saved(*x)))),
            r matches Ok(p) ==> records_only(
                r,
                TapeOp::Exp { input: None, out_val: p.out },
                seq![*x],
            ),
    {
        let mut program = Program::new();
        let out = program.unary_op(Kernel::Exp, x)?;
        let d = draft(TapeOp::Exp { input: None, out_val: out.clone() }, one(x), &out.shape);
        Ok(plan(program, out, d))
    }

    /// The square root.
    pub fn sqrt(&self, x: &CudaTensor) -> (r: Result<Planned, CudaError>)
        requires
            saved_f32(*x),
        ensures
            plans(r, if_short(Kernel::Sqrt, numel(x.dims()), unary_val(Kernel::Sqrt, saved(*x)))),
            r matches Ok(p) ==> records_only(
                r,
                TapeOp::Sqrt { input: None, out_val: p.out },
                seq![*x],
            ),
    {
        let mut program = Program::new();
        let out = program.unary_op(Kernel::Sqrt, x)?;
        let d = draft(TapeOp::Sqrt { input: None, out_val: out.clone() }, one(x), &out.shape);
        Ok(plan(program, out, d))
    }

    /// `x * scale`.
    pub fn mul_scalar(&self, x: &CudaTensor, scale: Real) -> (r: Result<Planned, CudaError>)
        requires
            saved_f32(*x),
        ensures
            plans(
                r,
                if_short(
                    Kernel::MulScalar,
                    numel(x.dims()),
                    scalar_val(Kernel::MulScalar, saved(*x), scale),
                ),
            ),
            records_only(r, TapeOp::MulScalar { input: None, scale }, seq![*x]),
    {
        let mut program = Program::new();
        let out = program.scalar_op(Kernel::MulScalar, x, scale)?;
        let d = draft(TapeOp::MulScalar { input: None, scale }, one(x), &out.shape);
        Ok(plan(program, out, d))
    }

    /// `x + scalar`.
    pub fn add_scalar(&self, x: &CudaTensor, scalar: Real) -> (r: Result<Planned, CudaError>)
        requires
            saved_f32(*x),
        ensures
            plans(
                r,
                if_short(
                    Kernel::AddScalar,
                    numel(x.dims()),
                    scalar_val(Kernel::AddScalar, saved(*x), scalar),
                ),
            ),
            records_only(r, TapeOp::AddScalar { input: None }, seq![*x]),
    {
        let mut program = Program::new();
        let out = program.scalar_op(Kernel::AddScalar, x, scalar)?;
        let d = draft(TapeOp::AddScalar { input: None }, one(x), &out.shape);
        Ok(plan(program, out, d))
    }

    /// `a / b` of two tensors of one shape.
    pub fn div(&self, a: &CudaTensor, b: &CudaTensor) -> (r: Result<Planned, CudaError>)
        requires
            saved_f32(*a),
            saved_f32(*b),
        ensures
            plans(r, quotient_val(saved(*a), saved(*b))),
            r matches Ok(p) ==> records_only(
                r,
                TapeOp::Div { lhs: None, rhs: None, rhs_val: *b, out_val: p.out },
                seq![*a, *b],
            ),
    {
        if !same_shape(a.shape(), b.shape()) {
            return Err(CudaError::Shape(ShapeError::ShapesDiffer { op: "div" }));
        }
        let mut program = Program::new();
        let out = program.div_op(a, b)?;
        let op = TapeOp::Div { lhs: None, rhs: None, rhs_val: b.clone(), out_val: out.clone() };
        let d = draft(op, two(a, b), &out.shape);
        Ok(plan(program, out, d))
    }

    /// The window `start..start + len` along the axis `dim`.
    pub fn narrow(&self, x: &CudaTensor, dim: usize, start: usize, len: usize) -> (r: Result<
        Planned,
        CudaError,
    >)
        requires
            saved_f32(*x),
            start + len <= usize::MAX,
        ensures
            plans(r, window_val(saved(*x), dim, start, len)),
            records_only(
                r,
                TapeOp::Narrow { input: None, dim, start, len, orig_shape: x.shape },
                seq![*x],
            ),
    {
        let op: &'static str = "narrow";
        let rank: usize = x.shape.len();
        if dim >= rank {
            return Err(CudaError::Shape(ShapeError::AxisOutOfRange { op, axis: dim, rank }));
        }
        if start + len > x.shape[dim] {
            return Err(
                CudaError::Shape(
                    ShapeError::WindowOutOfRange { op, start, len, extent: x.shape[dim] },
                ),
            );
        }
        let mut program = Program::new();
        let out = program.narrow_op(x, dim, start, len)?;
        let entry = TapeOp::Narrow { input: None, dim, start, len, orig_shape: x.shape.clone() };
        let d = draft(entry, one(x), &out.shape);
        Ok(plan(program, out, d))
    }

    /// The same elements under another shape.
    pub fn reshape(&self, x: &CudaTensor, shape: &Shape) -> (r: Result<Planned, CudaError>)
        requires
            saved_f32(*x),
            span(shape@) <= usize::MAX,
        ensures
            plans(r, reshaped_val(saved(*x), shape@)),
            records_only(r, TapeOp::Reshape { input: None, orig_shape: x.shape }, seq![*x]),
    {
        let from: usize = x.numel();
        let to: usize = element_count(shape.as_slice());
        if from != to {
            return Err(
                CudaError::Shape(ShapeError::CountMismatch { op: "reshape", from, to }),
            );
        }
        let program = Program::new();
        let out = x.with_shape(shape.clone());
        let entry = TapeOp::Reshape { input: None, orig_shape: x.shape.clone() };
        let d = draft(entry, one(x), &out.shape);
        Ok(plan(program, out, d))
    }

    /// `x` with two axes exchanged. Equal axes give a copy.
    pub fn transpose(&self, x: &CudaTensor, dim_a: usize, dim_b: usize) -> (r: Result<
        Planned,
        CudaError,
    >)
        requires
            saved_f32(*x),
            addressable(x.dims()),
        ensures
            plans(r, transposed_val("transpose", saved(*x), dim_a, dim_b)),
            records_only(r, TapeOp::Transpose { input: None, dim_a, dim_b }, seq![*x]),
    {
        let mut program = Program::new();
        let out = program.transpose_op("transpose", x, dim_a, dim_b)?;
        proof {
            crate::parts::lemma_swap_back(x.dims(), dim_a as int, dim_b as int);
            if dim_a == dim_b {
                assert(crate::shape::swapped(x.dims(), dim_a as int, dim_b as int) =~= x.dims());
            }
        }
        let d = draft(TapeOp::Transpose { input: None, dim_a, dim_b }, one(x), &out.shape);
        Ok(plan(program, out, d))
    }

    /// `x` repeated along its axes of extent one.
    pub fn broadcast_as(&self, x: &CudaTensor, shape: &Shape) -> (r: Result<Planned, CudaError>)
        requires
            saved_f32(*x),
            shape@.len() >= 1,
            addressable(shape@),
        ensures
            plans(r, broadcast_as_val(saved(*x), shape@)),
            records_only(
                r,
                TapeOp::BroadcastAs { input: None, orig_shape: x.shape, target_shape: *shape },
                seq![*x],
            ),
    {
        let op: &'static str = "broadcast_as";
        let rank: usize = shape.len();
        if x.shape.len() != rank {
            return Err(
                CudaError::Shape(ShapeError::RankMismatch { op, lhs: x.shape.len(), rhs: rank }),
            );
        }
        let mut i: usize = 0;
        while i < rank
            invariant
                i <= rank,
                rank == shape@.len(),
                rank == x.dims().len(),
                op == "broadcast_as",
                first_stuck(x.dims(), shape@, 0) == first_stuck(x.dims(), shape@, i as int),
            decreases rank - i,
        {
            let s: usize = x.shape[i];
            let t: usize = shape[i];
            if s != 1 && s != t {
                return Err(
                    CudaError::Shape(ShapeError::ExtentMismatch { op, axis: i, lhs: s, rhs: t }),
                );
            }
            i = i + 1;
        }
        proof {
            assert forall|k: int| 0 <= k < x.dims().len() implies #[trigger] x.dims()[k]
                == shape@[k] || x.dims()[k] == 1 by {
                lemma_first_stuck(x.dims(), shape@, 0, k);
            }
            crate::broadcast::lemma_span_expand(x.dims(), shape@);
        }
        let mut program = Program::new();
        let out = program.broadcast_as_op(op, x, shape)?;
        let entry = TapeOp::BroadcastAs {
            input: None,
            orig_shape: x.shape.clone(),
            target_shape: shape.clone(),
        };
        let d = draft(entry, one(x), &out.shape);
        Ok(plan(program, out, d))
    }

    /// The rows of `table` that `indices` names.
    pub fn embedding(&self, table: &CudaTensor, indices: &CudaTensor) -> (r: Result<
        Planned,
        CudaError,
    >)
        requires
            saved_f32(*table),
            saved_i64(*indices),
            table.dims().len() == 2 ==> span(indices.dims().push(table.dims()[1])) <= usize::MAX,
        ensures
            plans(r, lookup_val(saved(*table), saved(*indices))),
            records_only(
                r,
                TapeOp::Embedding {
                    table: None,
                    indices_val: *indices,
                    table_shape: table.shape,
                },
                seq![*table],
            ),
    {
        let rank: usize = table.shape.len();
        if rank != 2 {
            return Err(
                CudaError::Shape(ShapeError::WrongRank { op: "embedding", rank, expected: 2 }),
            );
        }
        let mut program = Program::new();
        let out = program.embedding_op(table, indices)?;
        let entry = TapeOp::Embedding {
            table: None,
            indices_val: indices.clone(),
            table_shape: table.shape.clone(),
        };
        let d = draft(entry, one(table), &out.shape);
        Ok(plan(program, out, d))
    }

    /// What a function along an axis other than the last records first: the
    /// transposition that brings the axis to the end.
    fn turned(x: &CudaTensor, dim: usize) -> (d: Option<Draft>)
        requires
            x.dims().len() > 0,
            dim < x.dims().len(),
        ensures
            dim == x.dims().len() - 1 ==> d is None,
            dim != x.dims().len() - 1 ==> drafts(
                d,
                TapeOp::Transpose {
                    input: None,
                    dim_a: dim,
                    dim_b: (x.dims().len() - 1) as usize,
                },
                seq![*x],
                swapped(x.dims(), dim as int, x.dims().len() - 1),
            ) && d->0.ok(),
    {
        let last: usize = x.shape.len() - 1;
        if dim == last {
            return None;
        }
        proof {
            crate::parts::lemma_swap_back(x.dims(), dim as int, last as int);
        }
        let dims = crate::device::swapped_shape(&x.shape, dim, last);
        Some(draft(TapeOp::Transpose { input: None, dim_a: dim, dim_b: last }, one(x), &dims))
    }

    /// Inclusive prefix sums along the axis `dim`.
    pub fn cumsum(&self, x: &CudaTensor, dim: usize) -> (r: Result<Planned, CudaError>)
        requires
            saved_f32(*x),
            addressable(x.dims()),
            dim < x.dims().len() ==> x.dims()[dim as int] > 0,
        ensures
            plans(r, axis_val("cumsum", Kernel::CumsumLastdim, saved(*x), dim)),
            r matches Ok(p) ==> drafts(
                p.record,
                TapeOp::Cumsum { input: None, dim, input_shape: x.shape },
                seq![*x],
                p.out.dims(),
            ) && turned_first(p, *x, dim),
    {
        if x.shape.len() == 0 {
            return Err(CudaError::Shape(ShapeError::Empty { op: "cumsum" }));
        }
        let mut program = Program::new();
        let out = program.along_op("transpose", Kernel::CumsumLastdim, x, dim)?;
        proof {
            crate::parts::lemma_swap_back(x.dims(), dim as int, x.dims().len() - 1);
        }
        let before = Self::turned(x, dim);
        let entry = TapeOp::Cumsum { input: None, dim, input_shape: x.shape.clone() };
        let d = draft(entry, one(x), &out.shape);
        Ok(Planned { program, out, before, record: Some(d) })
    }

    /// Logarithm of the softmax along the axis `dim`.
    pub fn log_softmax(&self, x: &CudaTensor, dim: usize) -> (r: Result<Planned, CudaError>)
        requires
            saved_f32(*x),
            addressable(x.dims()),
            dim < x.dims().len() ==> x.dims()[dim as int] > 0,
        ensures
            plans(r, axis_val("log_softmax", Kernel::LogSoftmaxLastdim, saved(*x), dim)),
            r matches Ok(p) ==> drafts(
                p.record,
                TapeOp::LogSoftmax { input: None, dim, out_val: p.out },
                seq![*x],
                p.out.dims(),
            ) && turned_first(p, *x, dim),
    {
        if x.shape.len() == 0 {
            return Err(CudaError::Shape(ShapeError::Empty { op: "log_softmax" }));
        }
        let mut program = Program::new();
        let out = program.along_op("transpose", Kernel::LogSoftmaxLastdim, x, dim)?;
        proof {
            crate::parts::lemma_swap_back(x.dims(), dim as int, x.dims().len() - 1);
        }
        let before = Self::turned(x, dim);
        let entry = TapeOp::LogSoftmax { input: None, dim, out_val: out.clone() };
        let d = draft(entry, one(x), &out.shape);
        Ok(Planned { program, out, before, record: Some(d) })
    }

    /// The elements of `x` that `indices` names along the axis `dim`.
    pub fn gather(&self, x: &CudaTensor, indices: &CudaTensor, dim: usize) -> (r: Result<
        Planned,
        CudaError,
    >)
        requires
            saved_f32(*x),
            saved_i64(*indices),
            addressable(x.dims()),
            addressable(indices.dims()),
        ensures
            plans(r, pick_val(saved(*x), saved(*indices), dim)),
            r matches Ok(p) ==> drafts(
                p.record,
                TapeOp::Gather { input: None, indices_val: *indices, dim, input_shape: x.shape },
                seq![*x],
                p.out.dims(),
            ) && turned_first(p, *x, dim),
    {
        let op: &'static str = "gather";
        let rank: usize = x.shape.len();
        if rank == 0 {
            return Err(CudaError::Shape(ShapeError::Empty { op }));
        }
        if dim >= rank {
            return Err(CudaError::Shape(ShapeError::AxisOutOfRange { op, axis: dim, rank }));
        }
        if indices.shape.len() != rank {
            return Err(
                CudaError::Shape(
                    ShapeError::RankMismatch { op, lhs: indices.shape.len(), rhs: rank },
                ),
            );
        }
        let mut program = Program::new();
        let out = program.gather_op(x, indices, dim)?;
        proof {
            crate::parts::lemma_swap_back(indices.dims(), dim as int, rank - 1);
        }
        let before = Self::turned(x, dim);
        let entry = TapeOp::Gather {
            input: None,
            indices_val: indices.clone(),
            dim,
            input_shape: x.shape.clone(),
        };
        let d = draft(entry, one(x), &out.shape);
        Ok(Planned { program, out, before, record: Some(d) })
    }

    /// The mean of all elements.
    pub fn mean_all(&self, x: &CudaTensor) -> (r: Result<Planned, CudaError>)
        requires
            saved_f32(*x),
        ensures
            plans(r, total_val(true, saved(*x))),
            records_only(
                r,
                TapeOp::MeanAll {
                    input: None,
                    numel: numel(x.dims()) as usize,
                    input_shape: x.shape,
                },
                seq![*x],
            ),
    {
        let n: usize = x.numel();
        if n == 0 {
            return Err(CudaError::Shape(ShapeError::Empty { op: "mean_all" }));
        }
        let mut program = Program::new();
        let out = program.mean_all_op(x)?;
        let entry = TapeOp::MeanAll { input: None, numel: n, input_shape: x.shape.clone() };
        let d = draft(entry, one(x), &out.shape);
        Ok(plan(program, out, d))
    }

    /// The sum of all elements.
    pub fn sum_all(&self, x: &CudaTensor) -> (r: Result<Planned, CudaError>)
        requires
            saved_f32(*x),
        ensures
            plans(r, total_val(false, saved(*x))),
            records_only(r, TapeOp::SumAll { input: None, input_shape: x.shape }, seq![*x]),
    {
        let n: usize = x.numel();
        if n == 0 {
            return Err(CudaError::Shape(ShapeError::Empty { op: "sum_all" }));
        }
        let mut program = Program::new();
        let out = program.sum_all_f32(x)?;
        let entry = TapeOp::SumAll { input: None, input_shape: x.shape.clone() };
        let d = draft(entry, one(x), &out.shape);
        Ok(plan(program, out, d))
    }
}

/// Whether a plan first records the transposition that brings the axis `dim`
/// to the end, where it is not there already.
pub open spec fn turned_first(p: Planned, x: CudaTensor, dim: usize) -> bool {
    let last = (x.dims().len() - 1) as usize;
    if dim == last {
        p.before is None
    } else {
        drafts(
            p.before,
            TapeOp::Transpose { input: None, dim_a: dim, dim_b: last },
            seq![x],
            swapped(x.dims(), dim as int, last as int),
        )
    }
}

} // verus!
