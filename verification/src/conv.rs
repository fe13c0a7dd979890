//! Planners for the one-dimensional convolution kernels.

use crate::error::{CudaError, ShapeError};
use crate::kernels::wrong_length;
use crate::launch::{
    element_config, first_long, launch_cfg, seen, too_long, words, Kernel, Launch, LaunchConfig,
    LaunchView, Slice,
};
use vstd::prelude::*;

verus! {

/// Extents of a one-dimensional convolution.
#[derive(Clone, Copy, Debug, PartialEq, Eq, Structural)]
pub struct ConvDims {
    pub batch: usize,
    pub c_in: usize,
    pub t_in: usize,
    pub t_out: usize,
    pub k_size: usize,
    pub stride: usize,
    pub padding: usize,
}

impl ConvDims {
    /// Elements of the unfolded input: a row of `c_in * k_size` per output
    /// step.
    pub open spec fn columns(self) -> int {
        self.batch * self.t_out * self.c_in * self.k_size
    }

    /// Whether that count, and every product on the way to it, fits.
    pub open spec fn columns_fit(self) -> bool {
        &&& self.batch * self.t_out <= usize::MAX
        &&& self.batch * self.t_out * self.c_in <= usize::MAX
        &&& self.columns() <= usize::MAX
    }

    /// The counts that the unfolding kernels take, in the order in which they
    /// are checked.
    pub open spec fn lens(self) -> Seq<usize> {
        seq![
            self.columns() as usize,
            self.batch,
            self.c_in,
            self.t_in,
            self.t_out,
            self.k_size,
            self.stride,
            self.padding,
        ]
    }

    fn lens_vec(self, n: usize) -> (v: Vec<usize>)
        requires
            n == self.columns(),
        ensures
            v@ == self.lens(),
    {
        vec![
            n,
            self.batch,
            self.c_in,
            self.t_in,
            self.t_out,
            self.k_size,
            self.stride,
            self.padding,
        ]
    }
}

/// Outcome of planning the unfolding of an input into columns.
pub open spec fn im2col_plan(src: Slice, dst: Slice, d: ConvDims) -> Result<LaunchView, CudaError> {
    let op = "im2col_f32";
    let n = d.columns() as usize;
    if dst.len != n {
        Err(wrong_length(op, dst.len, n))
    } else {
        match first_long(d.lens(), 0) {
            Some(bad) => Err(too_long(op, bad)),
            None => Ok(
                LaunchView::start(Kernel::Im2col, element_config(n as u32), dst.id).src(
                    src.id,
                ).dst().word(d.batch as u32).word(d.c_in as u32).word(d.t_in as u32).word(
                    d.t_out as u32,
                ).word(d.k_size as u32).word(d.stride as u32).word(d.padding as u32).word(n as u32),
            ),
        }
    }
}

pub fn im2col_f32(src: Slice, dst: Slice, d: ConvDims) -> (r: Result<Launch, CudaError>)
    requires
        d.columns_fit(),
    ensures
        seen(r) == im2col_plan(src, dst, d),
{
    let op: &'static str = "im2col_f32";
    let n: usize = d.batch * d.t_out * d.c_in * d.k_size;
    if dst.len != n {
        return Err(CudaError::Shape(ShapeError::BufferLength { op, len: dst.len, expected: n }));
    }
    let w = words(&d.lens_vec(n), op)?;
    Ok(
        Launch::new(Kernel::Im2col, launch_cfg(w[0]), dst.id).src(src.id).dst().word(w[1]).word(
            w[2],
        ).word(w[3]).word(w[4]).word(w[5]).word(w[6]).word(w[7]).word(w[0]),
    )
}

/// Outcome of planning the folding of a column gradient back onto the input.
pub open spec fn col2im_plan(x_grad: Slice, col_grad: Slice, d: ConvDims) -> Result<
    LaunchView,
    CudaError,
> {
    let op = "col2im_f32";
    let n = d.columns() as usize;
    if col_grad.len != n {
        Err(wrong_length(op, col_grad.len, n))
    } else {
        match first_long(d.lens(), 0) {
            Some(bad) => Err(too_long(op, bad)),
            None => Ok(
                LaunchView::start(
                    Kernel::Col2im,
                    element_config(n as u32),
                    x_grad.id,
                ).dst().src(col_grad.id).word(d.batch as u32).word(d.c_in as u32).word(
                    d.t_in as u32,
                ).word(d.t_out as u32).word(d.k_size as u32).word(d.stride as u32).word(
                    d.padding as u32,
                ).word(n as u32),
            ),
        }
    }
}

pub fn col2im_f32(x_grad: Slice, col_grad: Slice, d: ConvDims) -> (r: Result<Launch, CudaError>)
    requires
        d.columns_fit(),
    ensures
        seen(r) == col2im_plan(x_grad, col_grad, d),
{
    let op: &'static str = "col2im_f32";
    let n: usize = d.batch * d.t_out * d.c_in * d.k_size;
    if col_grad.len != n {
        return Err(
            CudaError::Shape(ShapeError::BufferLength { op, len: col_grad.len, expected: n }),
        );
    }
    let w = words(&d.lens_vec(n), op)?;
    Ok(
        Launch::new(Kernel::Col2im, launch_cfg(w[0]), x_grad.id).dst().src(col_grad.id).word(
            w[1],
        ).word(w[2]).word(w[3]).word(w[4]).word(w[5]).word(w[6]).word(w[7]).word(w[0]),
    )
}

/// Widest window that the depthwise kernels can hold in shared memory.
pub const DEPTHWISE_MAX_K: usize = 128;

/// The counts that the depthwise kernels take, in the order in which they are
/// checked. The channel count is `c_in`.
pub open spec fn depthwise_lens(d: ConvDims) -> Seq<usize> {
    seq![
        (d.batch * d.c_in) as usize,
        d.batch,
        d.c_in,
        d.t_in,
        d.t_out,
        d.k_size,
        d.stride,
        d.padding,
    ]
}

/// One block of 128 threads per batch entry and channel, with the window in
/// shared memory.
pub open spec fn depthwise_config(d: ConvDims) -> LaunchConfig {
    LaunchConfig {
        grid_dim: ((d.batch * d.c_in) as u32, 1, 1),
        block_dim: (128, 1, 1),
        shared_mem_bytes: (d.k_size * 4) as u32,
    }
}

/// Outcome of planning a depthwise convolution.
pub open spec fn depthwise_fwd_plan(
    x: Slice,
    w: Slice,
    bias: Slice,
    has_bias: bool,
    y: Slice,
    d: ConvDims,
) -> Result<LaunchView, CudaError> {
    let op = "conv1d_depthwise_fwd_gpu";
    if d.k_size > DEPTHWISE_MAX_K {
        Err(CudaError::Shape(ShapeError::AboveLimit { op, size: d.k_size, limit: DEPTHWISE_MAX_K }))
    } else {
        match first_long(depthwise_lens(d), 0) {
            Some(bad) => Err(too_long(op, bad)),
            None => Ok(
                LaunchView::start(Kernel::DepthwiseConv1dFwd, depthwise_config(d), y.id).src(
                    x.id,
                ).src(w.id).src(bias.id).dst().word(d.batch as u32).word(d.c_in as u32).word(
                    d.t_in as u32,
                ).word(d.t_out as u32).word(d.k_size as u32).word(d.stride as u32).word(
                    d.padding as u32,
                ).word(
                    if has_bias {
                        1
                    } else {
                        0
                    },
                ),
            ),
        }
    }
}

pub fn conv1d_depthwise_fwd_gpu(
    x: Slice,
    w: Slice,
    bias: Slice,
    has_bias: bool,
    y: Slice,
    d: ConvDims,
) -> (r: Result<Launch, CudaError>)
    requires
        d.batch * d.c_in <= usize::MAX,
    ensures
        seen(r) == depthwise_fwd_plan(x, w, bias, has_bias, y, d),
{
    let op: &'static str = "conv1d_depthwise_fwd_gpu";
    if d.k_size > DEPTHWISE_MAX_K {
        return Err(
            CudaError::Shape(
                ShapeError::AboveLimit { op, size: d.k_size, limit: DEPTHWISE_MAX_K },
            ),
        );
    }
    let v = words(
        &vec![
            d.batch * d.c_in,
            d.batch,
            d.c_in,
            d.t_in,
            d.t_out,
            d.k_size,
            d.stride,
            d.padding,
        ],
        op,
    )?;
    let config = LaunchConfig {
        grid_dim: (v[0], 1, 1),
        block_dim: (128, 1, 1),
        shared_mem_bytes: v[5] * 4,
    };
    let flag: u32 = if has_bias {
        1
    } else {
        0
    };
    Ok(
        Launch::new(Kernel::DepthwiseConv1dFwd, config, y.id).src(x.id).src(w.id).src(
            bias.id,
        ).dst().word(v[1]).word(v[2]).word(v[3]).word(v[4]).word(v[5]).word(v[6]).word(v[7]).word(
            flag,
        ),
    )
}

/// Outcome of planning the input gradient of a depthwise convolution.
pub open spec fn depthwise_bwd_x_plan(grad_out: Slice, w: Slice, grad_x: Slice, d: ConvDims) -> Result<
    LaunchView,
    CudaError,
> {
    let op = "conv1d_depthwise_bwd_x_gpu";
    if d.k_size > DEPTHWISE_MAX_K {
        Err(CudaError::Shape(ShapeError::AboveLimit { op, size: d.k_size, limit: DEPTHWISE_MAX_K }))
    } else {
        match first_long(depthwise_lens(d), 0) {
            Some(bad) => Err(too_long(op, bad)),
            None => Ok(
                LaunchView::start(Kernel::DepthwiseConv1dBwdX, depthwise_config(d), grad_x.id).src(
                    grad_out.id,
                ).src(w.id).dst().word(d.batch as u32).word(d.c_in as u32).word(d.t_in as u32).word(
                    d.t_out as u32,
                ).word(d.k_size as u32).word(d.stride as u32).word(d.padding as u32),
            ),
        }
    }
}

pub fn conv1d_depthwise_bwd_x_gpu(grad_out: Slice, w: Slice, grad_x: Slice, d: ConvDims) -> (r:
    Result<Launch, CudaError>)
    requires
        d.batch * d.c_in <= usize::MAX,
    ensures
        seen(r) == depthwise_bwd_x_plan(grad_out, w, grad_x, d),
{
    let op: &'static str = "conv1d_depthwise_bwd_x_gpu";
    if d.k_size > DEPTHWISE_MAX_K {
        return Err(
            CudaError::Shape(
                ShapeError::AboveLimit { op, size: d.k_size, limit: DEPTHWISE_MAX_K },
            ),
        );
    }
    let v = words(
        &vec![
            d.batch * d.c_in,
            d.batch,
            d.c_in,
            d.t_in,
            d.t_out,
            d.k_size,
            d.stride,
            d.padding,
        ],
        op,
    )?;
    let config = LaunchConfig {
        grid_dim: (v[0], 1, 1),
        block_dim: (128, 1, 1),
        shared_mem_bytes: v[5] * 4,
    };
    Ok(
        Launch::new(Kernel::DepthwiseConv1dBwdX, config, grad_x.id).src(grad_out.id).src(
            w.id,
        ).dst().word(v[1]).word(v[2]).word(v[3]).word(v[4]).word(v[5]).word(v[6]).word(v[7]),
    )
}

/// Outcome of planning the weight gradient of a depthwise convolution: one
/// block of 128 threads per channel and window position.
pub open spec fn depthwise_bwd_w_plan(grad_out: Slice, x: Slice, grad_w: Slice, d: ConvDims) -> Result<
    LaunchView,
    CudaError,
> {
    match first_long(seq![d.c_in, d.k_size, d.batch, d.t_in, d.t_out, d.stride, d.padding], 0) {
        Some(bad) => Err(too_long("conv1d_depthwise_bwd_w_gpu", bad)),
        None => Ok(
            LaunchView::start(
                Kernel::DepthwiseConv1dBwdW,
                LaunchConfig {
                    grid_dim: (d.c_in as u32, d.k_size as u32, 1),
                    block_dim: (128, 1, 1),
                    shared_mem_bytes: 512,
                },
                grad_w.id,
            ).src(grad_out.id).src(x.id).dst().word(d.batch as u32).word(d.c_in as u32).word(
                d.t_in as u32,
            ).word(d.t_out as u32).word(d.k_size as u32).word(d.stride as u32).word(
                d.padding as u32,
            ),
        ),
    }
}

pub fn conv1d_depthwise_bwd_w_gpu(grad_out: Slice, x: Slice, grad_w: Slice, d: ConvDims) -> (r:
    Result<Launch, CudaError>)
    ensures
        seen(r) == depthwise_bwd_w_plan(grad_out, x, grad_w, d),
{
    let v = words(
        &vec![d.c_in, d.k_size, d.batch, d.t_in, d.t_out, d.stride, d.padding],
        "conv1d_depthwise_bwd_w_gpu",
    )?;
    let config = LaunchConfig {
        grid_dim: (v[0], v[1], 1),
        block_dim: (128, 1, 1),
        shared_mem_bytes: 512,
    };
    Ok(
        Launch::new(Kernel::DepthwiseConv1dBwdW, config, grad_w.id).src(grad_out.id).src(
            x.id,
        ).dst().word(v[2]).word(v[0]).word(v[3]).word(v[4]).word(v[1]).word(v[5]).word(v[6]),
    )
}

} // verus!
