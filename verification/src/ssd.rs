//! Planner for the chunked state-space scan.

use crate::error::{CudaError, ShapeError};
use crate::launch::{
    blocks, blocks_for, seen, too_long, u32_len, Kernel, Launch, LaunchConfig, LaunchView, Slice,
};
use vstd::prelude::*;

verus! {

/// Largest state size of the scan kernels.
pub const MAX_N_DIM: usize = 128;

/// Longest block of the scan kernels.
pub const MAX_BLOCK_LEN: usize = 128;

/// State size for which the shared-memory kernel is built.
pub const P1_N_DIM: usize = 128;

/// Block length for which the shared-memory kernel is built.
pub const P1_BLOCK_LEN: usize = 64;

/// Head size for which the shared-memory kernel is built.
pub const P1_P_DIM: usize = 64;

/// Row length of the state in shared memory, padded against bank conflicts.
pub const P1_N_PAD: usize = P1_N_DIM + 1;

/// Dynamic shared memory of the shared-memory kernel, in bytes.
pub const P1_SMEM_BYTES: u32 = 100352;

/// Extents of a scan.
#[derive(Clone, Copy, Debug, PartialEq, Eq, Structural)]
pub struct ScanDims {
    pub batch: usize,
    pub t_len: usize,
    pub n_heads: usize,
    pub p_dim: usize,
    pub n_dim: usize,
    pub block_len: usize,
}

impl ScanDims {
    /// Whether the extents are those of the shared-memory kernel.
    pub open spec fn is_p1(self) -> bool {
        self.n_dim == P1_N_DIM && self.block_len == P1_BLOCK_LEN && self.p_dim == P1_P_DIM
    }

    /// The first extent that does not fit a word, with its name.
    pub open spec fn first_long(self) -> Option<(&'static str, usize)> {
        if self.batch > u32::MAX {
            Some(("batch", self.batch))
        } else if self.t_len > u32::MAX {
            Some(("t_len", self.t_len))
        } else if self.n_heads > u32::MAX {
            Some(("n_heads", self.n_heads))
        } else if self.p_dim > u32::MAX {
            Some(("p_dim", self.p_dim))
        } else if self.n_dim > u32::MAX {
            Some(("n_dim", self.n_dim))
        } else if self.block_len > u32::MAX {
            Some(("block_len", self.block_len))
        } else {
            None
        }
    }

    /// Lanes of the plain kernel: one thread each.
    pub open spec fn lanes(self) -> int {
        self.batch * self.n_heads * self.p_dim
    }
}

/// The eleven arguments that both scan kernels take.
pub open spec fn scan_args(
    l: LaunchView,
    x: Slice,
    a: Slice,
    b: Slice,
    c: Slice,
    d: ScanDims,
) -> LaunchView {
    l.src(x.id).src(a.id).src(b.id).src(c.id).dst().word(d.batch as u32).word(d.t_len as u32).word(
        d.n_heads as u32,
    ).word(d.p_dim as u32).word(d.n_dim as u32).word(d.block_len as u32)
}

/// Outcome of planning a scan.
pub open spec fn scan_plan(x: Slice, a: Slice, b: Slice, c: Slice, y: Slice, d: ScanDims) -> Result<
    LaunchView,
    CudaError,
> {
    if d.block_len == 0 {
        Err(CudaError::Shape(ShapeError::MustBePositive { op: "block_len" }))
    } else if d.t_len == 0 || d.t_len % d.block_len != 0 {
        Err(
            CudaError::Shape(
                ShapeError::NotMultiple { op: "t_len", len: d.t_len, unit: d.block_len },
            ),
        )
    } else {
        match d.first_long() {
            Some((name, len)) => Err(too_long(name, len)),
            None => if d.is_p1() {
                if d.batch * d.n_heads > u32::MAX {
                    Err(too_long("batch * n_heads", (d.batch * d.n_heads) as usize))
                } else {
                    Ok(
                        scan_args(
                            LaunchView::start(
                                Kernel::SsdScanChunkedP1,
                                LaunchConfig {
                                    grid_dim: ((d.batch * d.n_heads) as u32, 1, 1),
                                    block_dim: (P1_P_DIM as u32, 1, 1),
                                    shared_mem_bytes: P1_SMEM_BYTES,
                                },
                                y.id,
                            ),
                            x,
                            a,
                            b,
                            c,
                            d,
                        ),
                    )
                }
            } else {
                if d.lanes() > u32::MAX {
                    Err(too_long("batch * n_heads * p_dim", d.lanes() as usize))
                } else {
                    Ok(
                        scan_args(
                            LaunchView::start(
                                Kernel::SsdScanChunked,
                                LaunchConfig {
                                    grid_dim: (blocks(d.lanes() as nat, 64) as u32, 1, 1),
                                    block_dim: (64, 1, 1),
                                    shared_mem_bytes: 0,
                                },
                                y.id,
                            ),
                            x,
                            a,
                            b,
                            c,
                            d,
                        ),
                    )
                }
            },
        }
    }
}

/// Plans a scan of `x`, `a`, `b` and `c` into `y`: the shared-memory kernel
/// for the extents it is built for, the plain kernel for all others.
pub fn ssd_scan_chunked_with_context(
    x: Slice,
    a: Slice,
    b: Slice,
    c: Slice,
    y: Slice,
    d: ScanDims,
) -> (r: Result<Launch, CudaError>)
    requires
        d.batch * d.n_heads <= usize::MAX,
        d.lanes() <= usize::MAX,
    ensures
        seen(r) == scan_plan(x, a, b, c, y, d),
{
    if d.block_len == 0 {
        return Err(CudaError::Shape(ShapeError::MustBePositive { op: "block_len" }));
    }
    if d.t_len == 0 || d.t_len % d.block_len != 0 {
        return Err(
            CudaError::Shape(
                ShapeError::NotMultiple { op: "t_len", len: d.t_len, unit: d.block_len },
            ),
        );
    }
    let batch: u32 = u32_len(d.batch, "batch")?;
    let t_len: u32 = u32_len(d.t_len, "t_len")?;
    let n_heads: u32 = u32_len(d.n_heads, "n_heads")?;
    let p_dim: u32 = u32_len(d.p_dim, "p_dim")?;
    let n_dim: u32 = u32_len(d.n_dim, "n_dim")?;
    let block_len: u32 = u32_len(d.block_len, "block_len")?;
    let use_p1: bool = d.n_dim == P1_N_DIM && d.block_len == P1_BLOCK_LEN && d.p_dim == P1_P_DIM;
    let launch: Launch = if use_p1 {
        let n_blocks: u32 = u32_len(d.batch * d.n_heads, "batch * n_heads")?;
        Launch::new(
            Kernel::SsdScanChunkedP1,
            LaunchConfig {
                grid_dim: (n_blocks, 1, 1),
                block_dim: (P1_P_DIM as u32, 1, 1),
                shared_mem_bytes: P1_SMEM_BYTES,
            },
            y.id,
        )
    } else {
        let n_threads: u32 = u32_len(d.batch * d.n_heads * d.p_dim, "batch * n_heads * p_dim")?;
        Launch::new(
            Kernel::SsdScanChunked,
            LaunchConfig {
                grid_dim: (blocks_for(n_threads, 64), 1, 1),
                block_dim: (64, 1, 1),
                shared_mem_bytes: 0,
            },
            y.id,
        )
    };
    Ok(
        launch.src(x.id).src(a.id).src(b.id).src(c.id).dst().word(batch).word(t_len).word(
            n_heads,
        ).word(p_dim).word(n_dim).word(block_len),
    )
}

/// The regions of the shared-memory kernel's scratch space, in floats from its
/// start: the running decay, two buffers each for `b` and `c`, the state, and
/// six rows of per-step values.
pub open spec fn p1_regions() -> Seq<(int, int)> {
    let q = P1_BLOCK_LEN as int;
    let n = P1_N_DIM as int;
    let p = P1_P_DIM as int;
    seq![
        (0, q),
        (q, q * n),
        (q + q * n, q * n),
        (q + 2 * (q * n), p * P1_N_PAD),
        (q + 2 * (q * n) + p * P1_N_PAD, 6 * q),
    ]
}

/// The regions follow one another without gap or overlap and fill the scratch
/// space exactly.
pub proof fn law_scratch_regions_tile_shared_memory(i: int)
    requires
        0 <= i < p1_regions().len(),
    ensures
        i + 1 < p1_regions().len() ==> p1_regions()[i].0 + p1_regions()[i].1 == p1_regions()[i
            + 1].0,
        i + 1 == p1_regions().len() ==> 4 * (p1_regions()[i].0 + p1_regions()[i].1)
            == P1_SMEM_BYTES,
        p1_regions()[0].0 == 0,
{
}

} // verus!
