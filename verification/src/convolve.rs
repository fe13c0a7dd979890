//! One-dimensional convolution and its gradients as device programs.

use crate::conv::{
    conv1d_depthwise_bwd_w_gpu, conv1d_depthwise_bwd_x_gpu, conv1d_depthwise_fwd_gpu,
    depthwise_config, depthwise_lens, im2col_f32, ConvDims, DEPTHWISE_MAX_K,
};
use crate::device::{each, made, reduced_val, run};
use crate::error::{CudaError, ShapeError};
use crate::gemm::{Gemm, GemmConfig};
use crate::host::at2;
use crate::launch::{first_long, too_long, Buffer, Kernel, LaunchConfig, Slice};
use crate::program::{held, held_all, held_args, HostTask, HostTaskView, Program, Term, TermArg, Val};
use crate::shape::{numel, span};
use crate::tensor::{CudaTensor, Shape};
use std::sync::Arc;
use vstd::prelude::*;

verus! {

/// Extents and parameters of a convolution.
#[derive(Clone, Copy, Debug, PartialEq, Eq, Structural)]
pub struct ConvSpec {
    pub dims: ConvDims,
    pub c_out: usize,
    pub per_group: usize,
    pub groups: usize,
}

impl ConvSpec {
    /// Whether the depthwise kernels apply: every channel has one filter of
    /// its own, and they can hold the window.
    pub open spec fn depthwise(self) -> bool {
        &&& self.groups == self.dims.c_in
        &&& self.c_out == self.dims.c_in
        &&& self.per_group == 1
        &&& self.dims.k_size <= DEPTHWISE_MAX_K
    }

    /// The same, decided.
    pub fn is_depthwise(&self) -> (b: bool)
        ensures
            b == self.depthwise(),
    {
        self.groups == self.dims.c_in && self.c_out == self.dims.c_in && self.per_group == 1
            && self.dims.k_size <= DEPTHWISE_MAX_K
    }

    /// Whether channels and groups fit together.
    pub open spec fn grouped(self) -> bool {
        &&& self.groups >= 1
        &&& self.dims.c_in == self.per_group * self.groups
        &&& self.c_out % self.groups == 0
    }

    /// Output channels of one group.
    pub open spec fn out_per_group(self) -> int {
        self.c_out as int / self.groups as int
    }

    /// Rows of the unfolded input.
    pub open spec fn rows(self) -> int {
        self.dims.batch * self.dims.t_out
    }

    /// Columns of the unfolded input.
    pub open spec fn cols(self) -> int {
        self.dims.c_in * self.dims.k_size
    }

    /// Columns of the unfolded input that one group sees.
    pub open spec fn group_cols(self) -> int {
        self.per_group * self.dims.k_size
    }

    /// Whether every count of the general path fits.
    pub open spec fn fits(self) -> bool {
        &&& self.dims.columns_fit()
        &&& self.cols() <= usize::MAX
        &&& self.c_out * self.group_cols() <= usize::MAX
        &&& self.c_out * self.rows() <= usize::MAX
    }
}

/// The extents that operands of rank three and the parameters give.
pub open spec fn conv_spec(
    x: Seq<usize>,
    w: Seq<usize>,
    t_out: usize,
    stride: usize,
    padding: usize,
    groups: usize,
) -> ConvSpec {
    ConvSpec {
        dims: ConvDims {
            batch: x[0],
            c_in: x[1],
            t_in: x[2],
            t_out,
            k_size: w[2],
            stride,
            padding,
        },
        c_out: w[0],
        per_group: w[1],
        groups,
    }
}

/// Number of output steps.
pub open spec fn conv_steps(t_in: usize, k: usize, stride: usize, padding: usize) -> int {
    (t_in + 2 * padding - k) / (stride as int) + 1
}

/// The unfolded input.
pub open spec fn columns_val(x: Val, d: ConvDims) -> Result<Val, CudaError> {
    let n = d.columns() as usize;
    match first_long(d.lens(), 0) {
        Some(bad) => Err(too_long("im2col_f32", bad)),
        None => Ok(
            Val {
                term: each(
                    Kernel::Im2col,
                    n as nat,
                    seq![
                        TermArg::Value(x.term),
                        TermArg::Value(Term::Zeros(n as nat)),
                        TermArg::Word(d.batch as u32),
                        TermArg::Word(d.c_in as u32),
                        TermArg::Word(d.t_in as u32),
                        TermArg::Word(d.t_out as u32),
                        TermArg::Word(d.k_size as u32),
                        TermArg::Word(d.stride as u32),
                        TermArg::Word(d.padding as u32),
                        TermArg::Word(n as u32),
                    ],
                ),
                dims: seq![n],
            },
        ),
    }
}

/// The product of a group's weight with its columns, `n` columns wide: the
/// columns are taken transposed.
pub open spec fn group_config(m: usize, n: usize, k: usize) -> GemmConfig {
    GemmConfig {
        trans_a: true,
        trans_b: false,
        m: n as i32,
        n: m as i32,
        k: k as i32,
        lda: k as i32,
        ldb: k as i32,
        ldc: n as i32,
    }
}

/// The product of a group writes channel `i`, row `j`, and sums over `l` the
/// group's weight of channel `i` at `l` times row `j` of its columns at `l`.
pub proof fn law_groups_multiply_weights_and_columns(
    m: usize,
    n: usize,
    k: usize,
    i: int,
    j: int,
    l: int,
)
    requires
        m <= i32::MAX,
        k <= i32::MAX,
        n <= i32::MAX,
        0 <= i < m,
        0 <= j < n,
        0 <= l < k,
    ensures
        ({
            let c = group_config(m, n, k);
            &&& c.m == n && c.n == m && c.k == k
            &&& c.product_at(j, i) == at2(i, n as int, j)
            &&& c.right_at(l, i) == at2(i, k as int, l)
            &&& c.left_at(j, l) == at2(j, k as int, l)
        }),
{
}

/// The output of group `g`.
pub open spec fn group_term(col: Term, w: Term, s: ConvSpec, g: int) -> Term {
    let width = s.group_cols() as usize;
    let m = s.out_per_group() as usize;
    let rows = s.rows() as usize;
    Term::Product {
        gemm: group_config(m, rows, width),
        batching: None,
        a: Box::new(
            Term::Host {
                task: HostTaskView::TakeColumns {
                    rows,
                    cols: s.cols() as usize,
                    from: (g * s.group_cols()) as usize,
                    width,
                },
                inputs: seq![col],
            },
        ),
        b: Box::new(
            Term::Host {
                task: HostTaskView::TakeRange {
                    from: (g * s.out_per_group() * s.group_cols()) as usize,
                    len: (s.out_per_group() * s.group_cols()) as usize,
                },
                inputs: seq![w],
            },
        ),
        onto: Box::new(Term::Zeros((s.out_per_group() * s.rows()) as nat)),
    }
}

/// The outputs of all groups, in order.
pub open spec fn group_terms(col: Term, w: Term, s: ConvSpec) -> Seq<Term> {
    Seq::new(s.groups as nat, |g: int| group_term(col, w, s, g))
}

/// The shape of a convolution's output.
pub open spec fn conv_dims(s: ConvSpec) -> Seq<usize> {
    seq![s.dims.batch, s.c_out, s.dims.t_out]
}

/// The convolution by the depthwise kernel.
pub open spec fn depthwise_val(x: Val, w: Val, bias: Option<Val>, s: ConvSpec) -> Result<
    Val,
    CudaError,
> {
    let d = s.dims;
    let dims = conv_dims(s);
    match first_long(depthwise_lens(d), 0) {
        Some(bad) => Err(too_long("conv1d_depthwise_fwd_gpu", bad)),
        None => Ok(
            Val {
                term: run(
                    Kernel::DepthwiseConv1dFwd,
                    depthwise_config(d),
                    seq![
                        TermArg::Value(x.term),
                        TermArg::Value(w.term),
                        TermArg::Value(
                            match bias {
                                Some(b) => b.term,
                                None => Term::Zeros(1),
                            },
                        ),
                        TermArg::Value(Term::Zeros(numel(dims))),
                        TermArg::Word(d.batch as u32),
                        TermArg::Word(d.c_in as u32),
                        TermArg::Word(d.t_in as u32),
                        TermArg::Word(d.t_out as u32),
                        TermArg::Word(d.k_size as u32),
                        TermArg::Word(d.stride as u32),
                        TermArg::Word(d.padding as u32),
                        TermArg::Word(
                            if bias is Some {
                                1
                            } else {
                                0
                            },
                        ),
                    ],
                ),
                dims,
            },
        ),
    }
}

/// The convolution group by group: the unfolded input times the weights.
pub open spec fn grouped_val(x: Val, w: Val, bias: Option<Val>, s: ConvSpec) -> Result<
    Val,
    CudaError,
> {
    let op = "conv1d_f32";
    let d = s.dims;
    let dims = conv_dims(s);
    match columns_val(x, d) {
        Err(e) => Err(e),
        Ok(col) => {
            let y = Term::Host {
                task: HostTaskView::AssembleGroups {
                    batch: d.batch,
                    per_group: s.out_per_group() as usize,
                    t_out: d.t_out,
                },
                inputs: group_terms(col.term, w.term, s),
            };
            match bias {
                None => Ok(Val { term: y, dims }),
                Some(b) => if b.count() != s.c_out {
                    Err(
                        CudaError::Shape(
                            ShapeError::BufferLength {
                                op,
                                len: b.count() as usize,
                                expected: s.c_out,
                            },
                        ),
                    )
                } else {
                    Ok(
                        Val {
                            term: Term::Host {
                                task: HostTaskView::AddBias {
                                    batch: d.batch,
                                    c_out: s.c_out,
                                    t_out: d.t_out,
                                },
                                inputs: seq![y, b.term],
                            },
                            dims,
                        },
                    )
                },
            }
        },
    }
}

/// The convolution of `x` with `w`, by kernel where the depthwise kernels
/// apply, and group by group where they do not.
pub open spec fn conv_val(x: Val, w: Val, bias: Option<Val>, s: ConvSpec) -> Result<
    Val,
    CudaError,
> {
    let op = "conv1d_f32";
    let d = s.dims;
    if d.c_in != s.per_group * s.groups {
        Err(
            CudaError::Shape(
                ShapeError::Groups {
                    op,
                    channels: d.c_in,
                    per_group: s.per_group,
                    groups: s.groups,
                },
            ),
        )
    } else if s.c_out % s.groups != 0 {
        Err(CudaError::Shape(ShapeError::NotMultiple { op, len: s.c_out, unit: s.groups }))
    } else if s.depthwise() {
        depthwise_val(x, w, bias, s)
    } else {
        grouped_val(x, w, bias, s)
    }
}

/// Gradient of the bias on the general path.
pub open spec fn conv_bias_grad_val(g: Val, s: ConvSpec) -> Val {
    Val {
        term: Term::Host {
            task: HostTaskView::ConvBiasGrad {
                batch: s.dims.batch,
                c_out: s.c_out,
                t_out: s.dims.t_out,
            },
            inputs: seq![g.term],
        },
        dims: seq![s.c_out],
    }
}

/// Gradient of the weight on the general path.
pub open spec fn conv_weight_grad_val(g: Val, col: Val, s: ConvSpec, dims: Seq<usize>) -> Val {
    Val {
        term: Term::Host {
            task: HostTaskView::ConvWeightGrad { dims: s.dims, c_out: s.c_out, groups: s.groups },
            inputs: seq![g.term, col.term],
        },
        dims,
    }
}

/// Gradient of the input on the general path.
pub open spec fn conv_input_grad_val(g: Val, w: Val, s: ConvSpec, dims: Seq<usize>) -> Val {
    Val {
        term: Term::Host {
            task: HostTaskView::ConvInputGrad { dims: s.dims, c_out: s.c_out, groups: s.groups },
            inputs: seq![g.term, w.term],
        },
        dims,
    }
}

/// Gradient of the bias on the depthwise path: sums over time, then over the
/// batch.
pub open spec fn depthwise_bias_grad_val(g: Val, channels: usize) -> Result<Val, CudaError> {
    match reduced_val(g, 2) {
        Err(e) => Err(e),
        Ok(t) => match reduced_val(t, 0) {
            Err(e) => Err(e),
            Ok(b) => Ok(Val { term: b.term, dims: seq![channels] }),
        },
    }
}

/// Gradient of the input on the depthwise path.
pub open spec fn depthwise_input_grad_val(g: Val, w: Val, d: ConvDims) -> Result<Val, CudaError> {
    let dims = seq![d.batch, d.c_in, d.t_in];
    match first_long(depthwise_lens(d), 0) {
        Some(bad) => Err(too_long("conv1d_depthwise_bwd_x_gpu", bad)),
        None => Ok(
            Val {
                term: run(
                    Kernel::DepthwiseConv1dBwdX,
                    depthwise_config(d),
                    seq![
                        TermArg::Value(g.term),
                        TermArg::Value(w.term),
                        TermArg::Value(Term::Zeros(numel(dims))),
                        TermArg::Word(d.batch as u32),
                        TermArg::Word(d.c_in as u32),
                        TermArg::Word(d.t_in as u32),
                        TermArg::Word(d.t_out as u32),
                        TermArg::Word(d.k_size as u32),
                        TermArg::Word(d.stride as u32),
                        TermArg::Word(d.padding as u32),
                    ],
                ),
                dims,
            },
        ),
    }
}

/// Gradient of the weight on the depthwise path.
pub open spec fn depthwise_weight_grad_val(g: Val, x: Val, d: ConvDims, dims: Seq<usize>) -> Result<
    Val,
    CudaError,
> {
    let lens = seq![d.c_in, d.k_size, d.batch, d.t_in, d.t_out, d.stride, d.padding];
    match first_long(lens, 0) {
        Some(bad) => Err(too_long("conv1d_depthwise_bwd_w_gpu", bad)),
        None => Ok(
            Val {
                term: run(
                    Kernel::DepthwiseConv1dBwdW,
                    LaunchConfig {
                        grid_dim: (d.c_in as u32, d.k_size as u32, 1),
                        block_dim: (128, 1, 1),
                        shared_mem_bytes: 512,
                    },
                    seq![
                        TermArg::Value(g.term),
                        TermArg::Value(x.term),
                        TermArg::Value(Term::Zeros((d.c_in * d.k_size) as nat)),
                        TermArg::Word(d.batch as u32),
                        TermArg::Word(d.c_in as u32),
                        TermArg::Word(d.t_in as u32),
                        TermArg::Word(d.t_out as u32),
                        TermArg::Word(d.k_size as u32),
                        TermArg::Word(d.stride as u32),
                        TermArg::Word(d.padding as u32),
                    ],
                ),
                dims,
            },
        ),
    }
}

/// The counts of one group are bounded by those of the whole.
proof fn lemma_group_bounds(s: ConvSpec, g: int)
    requires
        s.grouped(),
        s.fits(),
        0 <= g < s.groups,
    ensures
        s.group_cols() <= usize::MAX,
        0 <= s.group_cols(),
        0 <= s.rows(),
        s.out_per_group() <= s.c_out,
        s.out_per_group() * s.rows() <= usize::MAX,
        s.out_per_group() * s.group_cols() <= usize::MAX,
        g * s.group_cols() <= usize::MAX,
        g * s.group_cols() + s.group_cols() <= s.cols(),
        g * s.out_per_group() <= s.c_out,
        g * s.out_per_group() * s.group_cols() <= usize::MAX,
        g * s.out_per_group() * s.group_cols() + s.out_per_group() * s.group_cols() <= s.c_out
            * s.group_cols(),
        s.rows() * s.group_cols() <= s.dims.columns(),
{
    let m = s.out_per_group();
    let n = s.groups as int;
    let c = s.c_out as int;
    let w = s.group_cols();
    let p = s.per_group as int;
    let k = s.dims.k_size as int;
    let r = s.rows();
    vstd::arithmetic::div_mod::lemma_fundamental_div_mod(c, n);
    assert(c == n * m);
    assert(w >= 0 && r >= 0 && m >= 0) by (nonlinear_arith)
        requires
            w == p * k,
            p >= 0,
            k >= 0,
            r == s.dims.batch * s.dims.t_out,
            m == c / n,
            c >= 0,
            n >= 1,
    ;
    assert(s.cols() == n * w) by (nonlinear_arith)
        requires
            s.cols() == (p * n) * k,
            w == p * k,
    ;
    assert(w <= n * w && g * w + w <= n * w && m <= n * m && g * m + m <= n * m) by (nonlinear_arith)
        requires
            n >= 1,
            0 <= g < n,
            w >= 0,
            m >= 0,
    ;
    assert(m * r <= c * r && m * w <= c * w) by (nonlinear_arith)
        requires
            0 <= m <= c,
            r >= 0,
            w >= 0,
    ;
    assert((g * m) * w + m * w <= c * w && (g * m) * w >= 0 && g * w >= 0) by (nonlinear_arith)
        requires
            g * m + m <= c,
            w >= 0,
            g >= 0,
            m >= 0,
    ;
    assert(r * w <= s.dims.columns()) by (nonlinear_arith)
        requires
            s.dims.columns() == r * s.dims.c_in * k,
            s.dims.c_in == p * n,
            w == p * k,
            n >= 1,
            p >= 0,
            k >= 0,
            r >= 0,
    ;
}

impl Program {
    /// The unfolded input, as a tensor with one axis.
    pub fn conv_columns(&mut self, x: &CudaTensor, d: ConvDims) -> (r: Result<CudaTensor, CudaError>)
        requires
            old(self).wf(),
            old(self).holds_f32(*x),
            d.columns_fit(),
        ensures
            made(*old(self), *final(self), r, columns_val(old(self).val(*x), d)),
    {
        let ghost base = *self;
        proof {
            let a = d.batch as int;
            let b = d.t_out as int;
            let c = d.c_in as int;
            let e = d.k_size as int;
            assert(a * b * c * e >= 0) by (nonlinear_arith)
                requires
                    a >= 0,
                    b >= 0,
                    c >= 0,
                    e >= 0,
            ;
        }
        let n: usize = d.batch * d.t_out * d.c_in * d.k_size;
        let buf = self.zeros(n);
        let l = im2col_f32(x.slice(), Slice { id: *buf, len: n }, d)?;
        let ghost m = self.state();
        let ghost lv = l@;
        self.launch(l, Ghost(base));
        proof {
            assert(held_args(m, lv.dst, lv.args) =~= seq![
                TermArg::Value(base.val(*x).term),
                TermArg::Value(Term::Zeros(n as nat)),
                TermArg::Word(d.batch as u32),
                TermArg::Word(d.c_in as u32),
                TermArg::Word(d.t_in as u32),
                TermArg::Word(d.t_out as u32),
                TermArg::Word(d.k_size as u32),
                TermArg::Word(d.stride as u32),
                TermArg::Word(d.padding as u32),
                TermArg::Word(n as u32),
            ]);
        }
        let dims: Vec<usize> = vec![n];
        proof {
            assert(dims@ =~= seq![n]);
            lemma_one(n);
        }
        Ok(CudaTensor::new(buf, Arc::new(dims)))
    }

    /// The output of one group.
    fn conv_group(&mut self, col: Buffer, w: Buffer, s: ConvSpec, g: usize) -> (b: Arc<Buffer>)
        requires
            old(self).wf(),
            s.grouped(),
            s.fits(),
            g < s.groups,
            match col {
                Buffer::Global(_) => true,
                Buffer::Local(i) => old(self).state().contains_key(i as int),
            },
            match w {
                Buffer::Global(_) => true,
                Buffer::Local(i) => old(self).state().contains_key(i as int),
            },
        ensures
            final(self).extends(*old(self)),
            *b matches Buffer::Local(i) && final(self).state().contains_key(i as int),
            held(final(self).state(), *b) == group_term(
                held(old(self).state(), col),
                held(old(self).state(), w),
                s,
                g as int,
            ),
    {
        let ghost base = *self;
        proof {
            lemma_group_bounds(s, g as int);
        }
        let width: usize = s.per_group * s.dims.k_size;
        let rows: usize = s.dims.batch * s.dims.t_out;
        let cols: usize = s.dims.c_in * s.dims.k_size;
        let m: usize = s.c_out / s.groups;
        let mut first: Vec<Buffer> = Vec::new();
        first.push(col);
        let ghost i1 = first@;
        let ca = self.host(
            HostTask::TakeColumns { rows, cols, from: g * width, width },
            first,
        );
        assert(held_all(base.state(), i1) =~= seq![held(base.state(), col)]);
        let mut second: Vec<Buffer> = Vec::new();
        second.push(w);
        let ghost i2 = second@;
        let ghost mid = *self;
        let wa = self.host(
            HostTask::TakeRange { from: g * m * width, len: m * width },
            second,
        );
        assert(held_all(mid.state(), i2) =~= seq![held(mid.state(), w)]);
        let out = self.zeros(m * rows);
        let config = GemmConfig {
            trans_a: true,
            trans_b: false,
            m: rows as i32,
            n: m as i32,
            k: width as i32,
            lda: width as i32,
            ldb: width as i32,
            ldc: rows as i32,
        };
        self.gemm(Gemm { config, batching: None, a: *ca, b: *wa, dst: *out }, Ghost(base));
        out
    }

    /// The convolution of `x` with `w`.
    pub fn conv1d_f32(
        &mut self,
        x: &CudaTensor,
        w: &CudaTensor,
        bias: Option<&CudaTensor>,
        s: ConvSpec,
    ) -> (r: Result<CudaTensor, CudaError>)
        requires
            old(self).wf(),
            old(self).holds_f32(*x),
            old(self).holds_f32(*w),
            bias matches Some(b) ==> old(self).holds_f32(*b),
            s.per_group * s.groups <= usize::MAX,
            s.dims.batch * s.dims.c_in <= usize::MAX,
            s.dims.c_in == s.per_group * s.groups ==> s.groups >= 1,
            span(conv_dims(s)) <= usize::MAX,
            s.grouped() && !s.depthwise() ==> s.fits(),
        ensures
            made(
                *old(self),
                *final(self),
                r,
                conv_val(
                    old(self).val(*x),
                    old(self).val(*w),
                    match bias {
                        Some(b) => Some(old(self).val(*b)),
                        None => None,
                    },
                    s,
                ),
            ),
    {
        let op: &'static str = "conv1d_f32";
        let ghost base = *self;
        let ghost bv: Option<Val> = match bias {
            Some(b) => Some(base.val(*b)),
            None => None,
        };
        let d = s.dims;
        if d.c_in != s.per_group * s.groups {
            return Err(
                CudaError::Shape(
                    ShapeError::Groups {
                        op,
                        channels: d.c_in,
                        per_group: s.per_group,
                        groups: s.groups,
                    },
                ),
            );
        }
        if s.c_out % s.groups != 0 {
            return Err(
                CudaError::Shape(ShapeError::NotMultiple { op, len: s.c_out, unit: s.groups }),
            );
        }
        let dv: Vec<usize> = vec![d.batch, s.c_out, d.t_out];
        let dims: Shape = Arc::new(dv);
        assert(dims@ =~= conv_dims(s));
        if s.is_depthwise() {
            let n: usize = crate::shape::element_count(dims.as_slice());
            let buf = self.zeros(n);
            let (bs, has_bias): (Slice, bool) = match bias {
                Some(b) => (b.slice(), true),
                None => {
                    let dummy = self.zeros(1);
                    (Slice { id: *dummy, len: 1 }, false)
                },
            };
            let l = conv1d_depthwise_fwd_gpu(
                x.slice(),
                w.slice(),
                bs,
                has_bias,
                Slice { id: *buf, len: n },
                d,
            )?;
            let ghost m = self.state();
            let ghost lv = l@;
            self.launch(l, Ghost(base));
            proof {
                assert(held_args(m, lv.dst, lv.args) =~= seq![
                    TermArg::Value(base.val(*x).term),
                    TermArg::Value(base.val(*w).term),
                    TermArg::Value(
                        match bv {
                            Some(b) => b.term,
                            None => Term::Zeros(1),
                        },
                    ),
                    TermArg::Value(Term::Zeros(n as nat)),
                    TermArg::Word(d.batch as u32),
                    TermArg::Word(d.c_in as u32),
                    TermArg::Word(d.t_in as u32),
                    TermArg::Word(d.t_out as u32),
                    TermArg::Word(d.k_size as u32),
                    TermArg::Word(d.stride as u32),
                    TermArg::Word(d.padding as u32),
                    TermArg::Word(
                        if bv is Some {
                            1
                        } else {
                            0
                        },
                    ),
                ]);
            }
            return Ok(CudaTensor::new(buf, dims));
        }
        let col = self.conv_columns(x, d)?;
        let ghost ct = self.val(col).term;
        let ghost wt = base.val(*w).term;
        let mut outs: Vec<Buffer> = Vec::new();
        let mut g: usize = 0;
        let colid: Buffer = col.slice().id;
        let wid: Buffer = w.slice().id;
        while g < s.groups
            invariant
                g <= s.groups,
                s.grouped(),
                s.fits(),
                self.extends(base),
                outs@.len() == g,
                match wid {
                    Buffer::Global(_) => true,
                    Buffer::Local(i) => self.state().contains_key(i as int),
                },
                match colid {
                    Buffer::Global(_) => true,
                    Buffer::Local(i) => self.state().contains_key(i as int),
                },
                held(self.state(), colid) == ct,
                held(self.state(), wid) == wt,
                forall|k: int|
                    0 <= k < g ==> (match #[trigger] outs@[k] {
                        Buffer::Global(_) => false,
                        Buffer::Local(i) => self.state().contains_key(i as int),
                    }) && held(self.state(), outs@[k]) == group_term(ct, wt, s, k),
            decreases s.groups - g,
        {
            let b = self.conv_group(colid, wid, s, g);
            outs.push(*b);
            g = g + 1;
        }
        let ghost ids = outs@;
        let ghost before = *self;
        let y = self.host(
            HostTask::AssembleGroups {
                batch: d.batch,
                per_group: s.c_out / s.groups,
                t_out: d.t_out,
            },
            outs,
        );
        proof {
            assert(held_all(before.state(), ids) =~= group_terms(ct, wt, s));
        }
        match bias {
            None => Ok(CudaTensor::new(y, dims)),
            Some(b) => {
                let bl: usize = b.numel();
                if bl != s.c_out {
                    return Err(
                        CudaError::Shape(
                            ShapeError::BufferLength { op, len: bl, expected: s.c_out },
                        ),
                    );
                }
                let mut pair: Vec<Buffer> = Vec::new();
                pair.push(*y);
                pair.push(b.slice().id);
                let ghost pids = pair@;
                let ghost mid = *self;
                let out = self.host(
                    HostTask::AddBias { batch: d.batch, c_out: s.c_out, t_out: d.t_out },
                    pair,
                );
                proof {
                    assert(held_all(mid.state(), pids) =~= seq![
                        held(mid.state(), *y),
                        base.val(*b).term,
                    ]);
                }
                Ok(CudaTensor::new(out, dims))
            },
        }
    }

    /// Gradient of the bias on the general path.
    pub fn conv_bias_grad(&mut self, g: &CudaTensor, s: ConvSpec) -> (t: CudaTensor)
        requires
            old(self).wf(),
            old(self).holds_f32(*g),
        ensures
            made(*old(self), *final(self), Ok(t), Ok(conv_bias_grad_val(old(self).val(*g), s))),
    {
        let ghost base = *self;
        let mut inputs: Vec<Buffer> = Vec::new();
        inputs.push(g.slice().id);
        let ghost ids = inputs@;
        let buf = self.host(
            HostTask::ConvBiasGrad {
                batch: s.dims.batch,
                c_out: s.c_out,
                t_out: s.dims.t_out,
            },
            inputs,
        );
        assert(held_all(base.state(), ids) =~= seq![base.val(*g).term]);
        let dims: Vec<usize> = vec![s.c_out];
        proof {
            assert(dims@ =~= seq![s.c_out]);
            lemma_one(s.c_out);
        }
        CudaTensor::new(buf, Arc::new(dims))
    }

    /// Gradient of the weight on the general path.
    pub fn conv_weight_grad(&mut self, g: &CudaTensor, col: &CudaTensor, s: ConvSpec, dims: &Shape) -> (t:
        CudaTensor)
        requires
            old(self).wf(),
            old(self).holds_f32(*g),
            old(self).holds_f32(*col),
            span(dims@) <= usize::MAX,
        ensures
            made(
                *old(self),
                *final(self),
                Ok(t),
                Ok(conv_weight_grad_val(old(self).val(*g), old(self).val(*col), s, dims@)),
            ),
    {
        let ghost base = *self;
        let mut inputs: Vec<Buffer> = Vec::new();
        inputs.push(g.slice().id);
        inputs.push(col.slice().id);
        let ghost ids = inputs@;
        let buf = self.host(
            HostTask::ConvWeightGrad { dims: s.dims, c_out: s.c_out, groups: s.groups },
            inputs,
        );
        assert(held_all(base.state(), ids) =~= seq![base.val(*g).term, base.val(*col).term]);
        CudaTensor::new(buf, dims.clone())
    }

    /// Gradient of the input on the general path.
    pub fn conv_input_grad(&mut self, g: &CudaTensor, w: &CudaTensor, s: ConvSpec, dims: &Shape) -> (t:
        CudaTensor)
        requires
            old(self).wf(),
            old(self).holds_f32(*g),
            old(self).holds_f32(*w),
            span(dims@) <= usize::MAX,
        ensures
            made(
                *old(self),
                *final(self),
                Ok(t),
                Ok(conv_input_grad_val(old(self).val(*g), old(self).val(*w), s, dims@)),
            ),
    {
        let ghost base = *self;
        let mut inputs: Vec<Buffer> = Vec::new();
        inputs.push(g.slice().id);
        inputs.push(w.slice().id);
        let ghost ids = inputs@;
        let buf = self.host(
            HostTask::ConvInputGrad { dims: s.dims, c_out: s.c_out, groups: s.groups },
            inputs,
        );
        assert(held_all(base.state(), ids) =~= seq![base.val(*g).term, base.val(*w).term]);
        CudaTensor::new(buf, dims.clone())
    }

    /// Gradient of the bias on the depthwise path.
    pub fn depthwise_bias_grad(&mut self, g: &CudaTensor, channels: usize) -> (r: Result<
        CudaTensor,
        CudaError,
    >)
        requires
            old(self).wf(),
            old(self).holds_f32(*g),
            g.dims().len() == 3,
            g.dims()[1] == channels,
        ensures
            made(
                *old(self),
                *final(self),
                r,
                depthwise_bias_grad_val(old(self).val(*g), channels),
            ),
    {
        let t = self.reduce_sum_keepdim(g, 2)?;
        let b = self.reduce_sum_keepdim(&t, 0)?;
        let dims: Vec<usize> = vec![channels];
        proof {
            assert(dims@ =~= seq![channels]);
            lemma_one(channels);
        }
        Ok(CudaTensor::new(b.storage(), Arc::new(dims)))
    }

    /// Gradient of the input on the depthwise path.
    pub fn depthwise_input_grad(&mut self, g: &CudaTensor, w: &CudaTensor, d: ConvDims) -> (r:
        Result<CudaTensor, CudaError>)
        requires
            old(self).wf(),
            old(self).holds_f32(*g),
            old(self).holds_f32(*w),
            d.k_size <= DEPTHWISE_MAX_K,
            d.batch * d.c_in <= usize::MAX,
            span(seq![d.batch, d.c_in, d.t_in]) <= usize::MAX,
        ensures
            made(
                *old(self),
                *final(self),
                r,
                depthwise_input_grad_val(old(self).val(*g), old(self).val(*w), d),
            ),
    {
        let ghost base = *self;
        let dv: Vec<usize> = vec![d.batch, d.c_in, d.t_in];
        let dims: Shape = Arc::new(dv);
        assert(dims@ =~= seq![d.batch, d.c_in, d.t_in]);
        let n: usize = crate::shape::element_count(dims.as_slice());
        let buf = self.zeros(n);
        let l = conv1d_depthwise_bwd_x_gpu(g.slice(), w.slice(), Slice { id: *buf, len: n }, d)?;
        let ghost m = self.state();
        let ghost lv = l@;
        self.launch(l, Ghost(base));
        proof {
            assert(held_args(m, lv.dst, lv.args) =~= seq![
                TermArg::Value(base.val(*g).term),
                TermArg::Value(base.val(*w).term),
                TermArg::Value(Term::Zeros(n as nat)),
                TermArg::Word(d.batch as u32),
                TermArg::Word(d.c_in as u32),
                TermArg::Word(d.t_in as u32),
                TermArg::Word(d.t_out as u32),
                TermArg::Word(d.k_size as u32),
                TermArg::Word(d.stride as u32),
                TermArg::Word(d.padding as u32),
            ]);
        }
        Ok(CudaTensor::new(buf, dims))
    }

    /// Gradient of the weight on the depthwise path.
    pub fn depthwise_weight_grad(&mut self, g: &CudaTensor, x: &CudaTensor, d: ConvDims, dims: &Shape) -> (r:
        Result<CudaTensor, CudaError>)
        requires
            old(self).wf(),
            old(self).holds_f32(*g),
            old(self).holds_f32(*x),
            d.c_in * d.k_size <= usize::MAX,
            span(dims@) <= usize::MAX,
        ensures
            made(
                *old(self),
                *final(self),
                r,
                depthwise_weight_grad_val(old(self).val(*g), old(self).val(*x), d, dims@),
            ),
    {
        let ghost base = *self;
        proof {
            let a = d.c_in as int;
            let b = d.k_size as int;
            assert(a * b >= 0) by (nonlinear_arith)
                requires
                    a >= 0,
                    b >= 0,
            ;
        }
        let n: usize = d.c_in * d.k_size;
        let buf = self.zeros(n);
        let l = conv1d_depthwise_bwd_w_gpu(g.slice(), x.slice(), Slice { id: *buf, len: n }, d)?;
        let ghost m = self.state();
        let ghost lv = l@;
        self.launch(l, Ghost(base));
        proof {
            assert(held_args(m, lv.dst, lv.args) =~= seq![
                TermArg::Value(base.val(*g).term),
                TermArg::Value(base.val(*x).term),
                TermArg::Value(Term::Zeros(n as nat)),
                TermArg::Word(d.batch as u32),
                TermArg::Word(d.c_in as u32),
                TermArg::Word(d.t_in as u32),
                TermArg::Word(d.t_out as u32),
                TermArg::Word(d.k_size as u32),
                TermArg::Word(d.stride as u32),
                TermArg::Word(d.padding as u32),
            ]);
        }
        Ok(CudaTensor::new(buf, dims.clone()))
    }
}

/// A shape of one axis always fits.
proof fn lemma_one(n: usize)
    ensures
        span(seq![n]) <= usize::MAX,
{
    let s = seq![n];
    assert(s.drop_first() =~= Seq::<usize>::empty());
    assert(span(s.drop_first()) == 1);
    assert(s[0] == n);
    assert(n * 1 == n);
}

} // verus!
