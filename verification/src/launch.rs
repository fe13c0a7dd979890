//! Kernel launches as values: which kernel, with which grid and which
//! arguments.

use crate::error::{CudaError, ShapeError};
use vstd::prelude::*;

verus! {

/// The kernels of the loaded module.
#[derive(Clone, Copy, Debug, PartialEq, Eq, Structural)]
pub enum Kernel {
    Add,
    Sub,
    Mul,
    Neg,
    Exp,
    Sqrt,
    Div,
    MulScalar,
    AddScalar,
    Sigmoid,
    Silu,
    Softplus,
    Transpose2d,
    TransposeNd,
    NarrowCopy,
    NarrowBackward,
    BroadcastCopy,
    BroadcastMul,
    CumsumLastdim,
    ReverseCumsumLastdim,
    RmsNorm,
    RmsNormBackwardX,
    RmsNormBackwardWPartial,
    LogSoftmaxLastdim,
    Embedding,
    GatherLastdim,
    ScatterAddEmbedding,
    ScatterAddGatherLastdim,
    Im2col,
    Col2im,
    DepthwiseConv1dFwd,
    DepthwiseConv1dBwdX,
    DepthwiseConv1dBwdW,
    ReduceSumDimKeepdim,
    SumReducePartial,
    SsdScanChunked,
    SsdScanChunkedP1,
}

impl Kernel {
    /// The name under which the module exports the kernel.
    pub open spec fn name(self) -> &'static str {
        match self {
            Kernel::Add => "add_f32",
            Kernel::Sub => "sub_f32",
            Kernel::Mul => "mul",
            Kernel::Neg => "neg_f32",
            Kernel::Exp => "exp_f32",
            Kernel::Sqrt => "sqrt_f32",
            Kernel::Div => "div_f32",
            Kernel::MulScalar => "mul_scalar_f32",
            Kernel::AddScalar => "add_scalar_f32",
            Kernel::Sigmoid => "sigmoid_f32",
            Kernel::Silu => "silu_f32",
            Kernel::Softplus => "softplus_f32",
            Kernel::Transpose2d => "transpose_2d_f32",
            Kernel::TransposeNd => "transpose_nd_f32",
            Kernel::NarrowCopy => "narrow_copy_f32",
            Kernel::NarrowBackward => "narrow_backward_f32",
            Kernel::BroadcastCopy => "broadcast_copy_f32",
            Kernel::BroadcastMul => "broadcast_mul_f32",
            Kernel::CumsumLastdim => "cumsum_lastdim_f32",
            Kernel::ReverseCumsumLastdim => "reverse_cumsum_lastdim_f32",
            Kernel::RmsNorm => "rmsnorm_f32",
            Kernel::RmsNormBackwardX => "rmsnorm_backward_x_f32",
            Kernel::RmsNormBackwardWPartial => "rmsnorm_backward_w_partial_f32",
            Kernel::LogSoftmaxLastdim => "log_softmax_lastdim_f32",
            Kernel::Embedding => "embedding_f32",
            Kernel::GatherLastdim => "gather_lastdim_f32",
            Kernel::ScatterAddEmbedding => "scatter_add_embedding_f32",
            Kernel::ScatterAddGatherLastdim => "scatter_add_gather_lastdim_f32",
            Kernel::Im2col => "im2col_f32",
            Kernel::Col2im => "col2im_f32",
            Kernel::DepthwiseConv1dFwd => "depthwise_conv1d_fwd_f32",
            Kernel::DepthwiseConv1dBwdX => "depthwise_conv1d_bwd_x_f32",
            Kernel::DepthwiseConv1dBwdW => "depthwise_conv1d_bwd_w_f32",
            Kernel::ReduceSumDimKeepdim => "reduce_sum_dim_keepdim_f32",
            Kernel::SumReducePartial => "sum_reduce_partial_f32",
            Kernel::SsdScanChunked => "ssd_scan_chunked",
            Kernel::SsdScanChunkedP1 => "ssd_scan_chunked_p1",
        }
    }

    /// The name under which the module exports the kernel.
    pub fn symbol(self) -> (s: &'static str)
        ensures
            s == self.name(),
    {
        match self {
            Kernel::Add => "add_f32",
            Kernel::Sub => "sub_f32",
            Kernel::Mul => "mul",
            Kernel::Neg => "neg_f32",
            Kernel::Exp => "exp_f32",
            Kernel::Sqrt => "sqrt_f32",
            Kernel::Div => "div_f32",
            Kernel::MulScalar => "mul_scalar_f32",
            Kernel::AddScalar => "add_scalar_f32",
            Kernel::Sigmoid => "sigmoid_f32",
            Kernel::Silu => "silu_f32",
            Kernel::Softplus => "softplus_f32",
            Kernel::Transpose2d => "transpose_2d_f32",
            Kernel::TransposeNd => "transpose_nd_f32",
            Kernel::NarrowCopy => "narrow_copy_f32",
            Kernel::NarrowBackward => "narrow_backward_f32",
            Kernel::BroadcastCopy => "broadcast_copy_f32",
            Kernel::BroadcastMul => "broadcast_mul_f32",
            Kernel::CumsumLastdim => "cumsum_lastdim_f32",
            Kernel::ReverseCumsumLastdim => "reverse_cumsum_lastdim_f32",
            Kernel::RmsNorm => "rmsnorm_f32",
            Kernel::RmsNormBackwardX => "rmsnorm_backward_x_f32",
            Kernel::RmsNormBackwardWPartial => "rmsnorm_backward_w_partial_f32",
            Kernel::LogSoftmaxLastdim => "log_softmax_lastdim_f32",
            Kernel::Embedding => "embedding_f32",
            Kernel::GatherLastdim => "gather_lastdim_f32",
            Kernel::ScatterAddEmbedding => "scatter_add_embedding_f32",
            Kernel::ScatterAddGatherLastdim => "scatter_add_gather_lastdim_f32",
            Kernel::Im2col => "im2col_f32",
            Kernel::Col2im => "col2im_f32",
            Kernel::DepthwiseConv1dFwd => "depthwise_conv1d_fwd_f32",
            Kernel::DepthwiseConv1dBwdX => "depthwise_conv1d_bwd_x_f32",
            Kernel::DepthwiseConv1dBwdW => "depthwise_conv1d_bwd_w_f32",
            Kernel::ReduceSumDimKeepdim => "reduce_sum_dim_keepdim_f32",
            Kernel::SumReducePartial => "sum_reduce_partial_f32",
            Kernel::SsdScanChunked => "ssd_scan_chunked",
            Kernel::SsdScanChunkedP1 => "ssd_scan_chunked_p1",
        }
    }
}

/// A device buffer: one that outlives the program at hand, or the one that
/// the given command of this program makes.
#[derive(Clone, Copy, Debug, PartialEq, Eq, Structural)]
pub enum Buffer {
    Global(u64),
    Local(usize),
}

/// A device buffer and how many elements it holds.
#[derive(Clone, Copy, Debug, PartialEq, Eq, Structural)]
pub struct Slice {
    pub id: Buffer,
    pub len: usize,
}

/// A 32-bit float constant, kept as the planner can hold it: by its bit
/// pattern, or as the reciprocal of a count.
#[derive(Clone, Copy, Debug, PartialEq, Eq, Structural)]
pub enum Real {
    Bits(u32),
    OneOver(usize),
}

/// One kernel argument.
#[derive(Debug)]
pub enum Arg {
    /// The buffer that the launch writes.
    Dst,
    /// A buffer that the launch reads.
    Src(Buffer),
    /// A 32-bit unsigned word.
    Word(u32),
    /// A 32-bit float.
    Real(Real),
    /// A table of words that is uploaded before the launch.
    Table(Vec<u32>),
}

/// What an argument is, with its table as a sequence.
#[verifier::ext_equal]
pub enum ArgView {
    Dst,
    Src(Buffer),
    Word(u32),
    Real(Real),
    Table(Seq<u32>),
}

impl View for Arg {
    type V = ArgView;

    open spec fn view(&self) -> ArgView {
        match *self {
            Arg::Dst => ArgView::Dst,
            Arg::Src(id) => ArgView::Src(id),
            Arg::Word(w) => ArgView::Word(w),
            Arg::Real(r) => ArgView::Real(r),
            Arg::Table(t) => ArgView::Table(t@),
        }
    }
}

/// Grid, block and dynamic shared memory of a launch.
#[derive(Clone, Copy, Debug, PartialEq, Eq)]
pub struct LaunchConfig {
    pub grid_dim: (u32, u32, u32),
    pub block_dim: (u32, u32, u32),
    pub shared_mem_bytes: u32,
}

/// A kernel launch that writes the buffer `dst`.
#[derive(Debug)]
pub struct Launch {
    pub kernel: Kernel,
    pub config: LaunchConfig,
    pub dst: Buffer,
    pub args: Vec<Arg>,
}

#[verifier::ext_equal]
pub struct LaunchView {
    pub kernel: Kernel,
    pub config: LaunchConfig,
    pub dst: Buffer,
    pub args: Seq<ArgView>,
}

/// The views of a list of arguments.
pub open spec fn arg_views(args: Seq<Arg>) -> Seq<ArgView> {
    Seq::new(args.len(), |i: int| args[i]@)
}

impl View for Launch {
    type V = LaunchView;

    open spec fn view(&self) -> LaunchView {
        LaunchView {
            kernel: self.kernel,
            config: self.config,
            dst: self.dst,
            args: arg_views(self.args@),
        }
    }
}

impl LaunchView {
    /// A launch without arguments yet.
    pub open spec fn start(kernel: Kernel, config: LaunchConfig, dst: Buffer) -> LaunchView {
        LaunchView { kernel, config, dst, args: Seq::empty() }
    }

    /// The same launch with one more argument.
    pub open spec fn with(self, a: ArgView) -> LaunchView {
        LaunchView { args: self.args.push(a), ..self }
    }

    pub open spec fn dst(self) -> LaunchView {
        self.with(ArgView::Dst)
    }

    pub open spec fn src(self, id: Buffer) -> LaunchView {
        self.with(ArgView::Src(id))
    }

    pub open spec fn word(self, w: u32) -> LaunchView {
        self.with(ArgView::Word(w))
    }

    pub open spec fn float(self, r: Real) -> LaunchView {
        self.with(ArgView::Real(r))
    }

    pub open spec fn table(self, t: Seq<u32>) -> LaunchView {
        self.with(ArgView::Table(t))
    }
}

impl Launch {
    /// A launch without arguments yet.
    pub fn new(kernel: Kernel, config: LaunchConfig, dst: Buffer) -> (l: Launch)
        ensures
            l@ == LaunchView::start(kernel, config, dst),
    {
        let l = Launch { kernel, config, dst, args: Vec::new() };
        assert(arg_views(l.args@) =~= Seq::<ArgView>::empty());
        l
    }

    fn push(self, a: Arg) -> (l: Launch)
        ensures
            l@ == self@.with(a@),
    {
        let mut l = self;
        l.args.push(a);
        assert(arg_views(l.args@) =~= arg_views(self.args@).push(a@));
        l
    }

    pub fn dst(self) -> (l: Launch)
        ensures
            l@ == self@.dst(),
    {
        self.push(Arg::Dst)
    }

    pub fn src(self, id: Buffer) -> (l: Launch)
        ensures
            l@ == self@.src(id),
    {
        self.push(Arg::Src(id))
    }

    pub fn word(self, w: u32) -> (l: Launch)
        ensures
            l@ == self@.word(w),
    {
        self.push(Arg::Word(w))
    }

    pub fn float(self, r: Real) -> (l: Launch)
        ensures
            l@ == self@.float(r),
    {
        self.push(Arg::Real(r))
    }

    pub fn table(self, t: Vec<u32>) -> (l: Launch)
        ensures
            l@ == self@.table(t@),
    {
        self.push(Arg::Table(t))
    }
}

/// A planned launch, with the launch taken by its view.
pub open spec fn seen(r: Result<Launch, CudaError>) -> Result<LaunchView, CudaError> {
    match r {
        Ok(l) => Ok(l@),
        Err(e) => Err(e),
    }
}

/// Threads per block of the element-wise kernels.
pub const ELEMENT_THREADS_PER_BLOCK: u32 = 256;

/// Least number of blocks of `per` threads that hold `n` threads.
pub open spec fn blocks(n: nat, per: nat) -> nat {
    if n % per == 0 {
        n / per
    } else {
        n / per + 1
    }
}

pub fn blocks_for(n: u32, per: u32) -> (b: u32)
    requires
        per > 0,
    ensures
        b == blocks(n as nat, per as nat),
{
    let q: u32 = n / per;
    let r: u32 = n % per;
    if r == 0 {
        q
    } else {
        proof {
            vstd::arithmetic::div_mod::lemma_fundamental_div_mod(n as int, per as int);
            let qi = q as int;
            let pi = per as int;
            assert(qi < u32::MAX) by (nonlinear_arith)
                requires
                    pi * qi < n,
                    pi >= 1,
                    n <= u32::MAX,
                    qi >= 0,
            ;
        }
        q + 1
    }
}

/// The configuration of an element-wise launch over `n` elements.
pub open spec fn element_config(n: u32) -> LaunchConfig {
    LaunchConfig {
        grid_dim: (blocks(n as nat, ELEMENT_THREADS_PER_BLOCK as nat) as u32, 1, 1),
        block_dim: (ELEMENT_THREADS_PER_BLOCK, 1, 1),
        shared_mem_bytes: 0,
    }
}

pub fn launch_cfg(n: u32) -> (c: LaunchConfig)
    ensures
        c == element_config(n),
{
    LaunchConfig {
        grid_dim: (blocks_for(n, ELEMENT_THREADS_PER_BLOCK), 1, 1),
        block_dim: (ELEMENT_THREADS_PER_BLOCK, 1, 1),
        shared_mem_bytes: 0,
    }
}

/// An element-wise launch has a thread for every element: thread
/// `n % 256` of block `n / 256` is in the grid, and no block is idle.
pub proof fn law_grid_covers_every_element(n: u32, i: u32)
    requires
        i < n,
    ensures
        ({
            let c = element_config(n);
            &&& i / ELEMENT_THREADS_PER_BLOCK < c.grid_dim.0
            &&& i % ELEMENT_THREADS_PER_BLOCK < c.block_dim.0
            &&& (i / ELEMENT_THREADS_PER_BLOCK) * c.block_dim.0 + i % ELEMENT_THREADS_PER_BLOCK == i
            &&& (c.grid_dim.0 - 1) * c.block_dim.0 < n
        }),
{
}

/// The error for a count that does not fit a 32-bit word.
pub open spec fn too_long(op: &'static str, len: usize) -> CudaError {
    CudaError::Shape(ShapeError::TooLong { op, len })
}

/// `n` as a kernel word.
pub fn u32_len(n: usize, op: &'static str) -> (r: Result<u32, CudaError>)
    ensures
        r == (if n <= u32::MAX {
            Ok::<u32, CudaError>(n as u32)
        } else {
            Err(too_long(op, n))
        }),
{
    if n <= u32::MAX as usize {
        Ok(n as u32)
    } else {
        Err(CudaError::Shape(ShapeError::TooLong { op, len: n }))
    }
}

/// The first of `lens` from `from` on that does not fit a word.
pub open spec fn first_long(lens: Seq<usize>, from: int) -> Option<usize>
    decreases lens.len() - from,
{
    if from < 0 || from >= lens.len() {
        None
    } else if lens[from] > u32::MAX {
        Some(lens[from])
    } else {
        first_long(lens, from + 1)
    }
}

/// None is found exactly where all fit.
pub proof fn lemma_first_long(lens: Seq<usize>, from: int)
    requires
        0 <= from <= lens.len(),
    ensures
        first_long(lens, from) is None <==> (forall|i: int|
            from <= i < lens.len() ==> #[trigger] lens[i] <= u32::MAX),
    decreases lens.len() - from,
{
    if from < lens.len() {
        lemma_first_long(lens, from + 1);
    }
}

/// All of `lens` as kernel words, in order.
pub open spec fn as_words(lens: Seq<usize>) -> Seq<u32> {
    Seq::new(lens.len(), |i: int| lens[i] as u32)
}

pub fn words(lens: &Vec<usize>, op: &'static str) -> (r: Result<Vec<u32>, CudaError>)
    ensures
        match first_long(lens@, 0) {
            Some(n) => r == Err::<Vec<u32>, CudaError>(too_long(op, n)),
            None => r matches Ok(w) && w@ == as_words(lens@) && forall|i: int|
                0 <= i < lens.len() ==> #[trigger] lens[i] <= u32::MAX,
        },
{
    let mut out: Vec<u32> = Vec::new();
    let mut i: usize = 0;
    while i < lens.len()
        invariant
            i <= lens.len(),
            out@ == as_words(lens@.subrange(0, i as int)),
            first_long(lens@, 0) == first_long(lens@, i as int),
            forall|k: int| 0 <= k < i ==> #[trigger] lens[k] <= u32::MAX,
        decreases lens.len() - i,
    {
        let w: u32 = u32_len(lens[i], op)?;
        out.push(w);
        i = i + 1;
    }
    assert(lens@.subrange(0, i as int) =~= lens@);
    Ok(out)
}

/// Lengths that a two-operand kernel refuses.
pub open spec fn binary_length_error(n: usize, rhs: usize, out: usize, op: &'static str) -> Option<
    CudaError,
> {
    if n != rhs {
        Some(CudaError::Shape(ShapeError::OperandLength { op, lhs: n, rhs }))
    } else if n != out {
        Some(CudaError::Shape(ShapeError::BufferLength { op, len: out, expected: n }))
    } else {
        None
    }
}

pub fn check_binary_lengths(n: usize, rhs: usize, out: usize, op: &'static str) -> (r: Result<
    (),
    CudaError,
>)
    ensures
        r == (match binary_length_error(n, rhs, out, op) {
            Some(e) => Err::<(), CudaError>(e),
            None => Ok(()),
        }),
{
    if n != rhs {
        return Err(CudaError::Shape(ShapeError::OperandLength { op, lhs: n, rhs }));
    }
    if n != out {
        return Err(CudaError::Shape(ShapeError::BufferLength { op, len: out, expected: n }));
    }
    Ok(())
}

pub fn check_unary_lengths(n: usize, out: usize, op: &'static str) -> (r: Result<(), CudaError>)
    ensures
        r == (if n != out {
            Err::<(), CudaError>(
                CudaError::Shape(ShapeError::BufferLength { op, len: out, expected: n }),
            )
        } else {
            Ok(())
        }),
{
    if n != out {
        return Err(CudaError::Shape(ShapeError::BufferLength { op, len: out, expected: n }));
    }
    Ok(())
}

/// The extent of the last axis.
pub fn last_dim_or_err(shape: &[usize], op: &'static str) -> (r: Result<usize, CudaError>)
    ensures
        r == (if shape@.len() == 0 {
            Err::<usize, CudaError>(CudaError::Shape(ShapeError::Empty { op }))
        } else {
            Ok(shape@.last())
        }),
{
    if shape.len() == 0 {
        return Err(CudaError::Shape(ShapeError::Empty { op }));
    }
    Ok(shape[shape.len() - 1])
}

} // verus!
