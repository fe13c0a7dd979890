//! Launch planning: exact arguments, grids, layouts and refusals.

use pm_cuda::broadcast::broadcast_out_shape;
use pm_cuda::conv::{
    col2im_f32, conv1d_depthwise_bwd_w_gpu, conv1d_depthwise_bwd_x_gpu, conv1d_depthwise_fwd_gpu,
    im2col_f32, ConvDims,
};
use pm_cuda::error::{CudaError, ShapeError};
use pm_cuda::gemm::{matmul_f32, Batching};
use pm_cuda::kernels::{
    add_f32, add_scalar_f32, broadcast_copy_f32, broadcast_mul_f32, broadcast_strides,
    cumsum_lastdim_f32, div_f32, embedding_f32, exp_f32, gather_lastdim_f32,
    log_softmax_lastdim_f32, mul_f32, mul_scalar_f32, narrow_backward_f32, narrow_copy_f32,
    neg_f32, reverse_cumsum_lastdim_f32, rmsnorm_f32, scatter_add_embedding_f32,
    scatter_add_gather_lastdim_f32, sigmoid_f32, silu_f32, softplus_f32, split_axis, sqrt_f32,
    stride_words, sub_f32, transpose_2d_f32, transpose_nd_f32,
};
use pm_cuda::launch::{
    blocks_for, launch_cfg, last_dim_or_err, u32_len, words, Buffer, Launch, LaunchConfig, Real,
    Slice,
};
use pm_cuda::reduce::{
    ceil_sqrt, reduce_sum_dim_keepdim_f32, rmsnorm_backward_w_partial_f32,
    rmsnorm_backward_x_f32, row_chunk_count, sum_reduce_partial_f32,
};
use pm_cuda::shape::{element_count, row_major_strides};
use pm_cuda::ssd::{ssd_scan_chunked_with_context, ScanDims, P1_SMEM_BYTES};

fn s(id: u64, len: usize) -> Slice {
    Slice { id: Buffer::Global(id), len }
}

fn args(l: &Launch) -> String {
    format!("{:?}", l.args)
}

fn grid(n: u32) -> LaunchConfig {
    LaunchConfig { grid_dim: (n, 1, 1), block_dim: (256, 1, 1), shared_mem_bytes: 0 }
}

fn refusal<T>(r: Result<T, CudaError>) -> ShapeError {
    match r {
        Err(CudaError::Shape(e)) => e,
        Err(_) => panic!("another kind of error"),
        Ok(_) => panic!("no error"),
    }
}

#[test]
fn shapes_are_counted_and_strided() {
    assert_eq!(element_count(&[]), 1);
    assert_eq!(element_count(&[2, 3, 4]), 24);
    assert_eq!(element_count(&[2, 0, 4]), 0);
    assert_eq!(row_major_strides(&[2, 3, 4]), vec![12, 4, 1]);
    assert_eq!(row_major_strides(&[7]), vec![1]);
    assert_eq!(stride_words(&[2, 3, 4]), vec![12, 4, 1]);
    assert_eq!(broadcast_strides(&[1, 3, 1], 3), vec![0, 1, 0]);
    assert_eq!(split_axis(&[2, 3, 4], 1), (2, 3, 4));
    assert_eq!(split_axis(&[2, 3, 4], 0), (1, 2, 12));
}

#[test]
fn grids_cover_every_element() {
    assert_eq!(blocks_for(0, 256), 0);
    assert_eq!(blocks_for(256, 256), 1);
    assert_eq!(blocks_for(257, 256), 2);
    for n in [0u32, 1, 255, 256, 257, 100_000] {
        let c = launch_cfg(n);
        assert_eq!(c, grid(blocks_for(n, 256)));
        let threads = c.grid_dim.0 as u64 * c.block_dim.0 as u64;
        assert!(threads >= n as u64);
    }
}

#[test]
fn counts_must_fit_words() {
    assert_eq!(u32_len(7, "op").unwrap(), 7);
    assert!(matches!(
        refusal(u32_len(1 << 33, "op")),
        ShapeError::TooLong { op: "op", len: 0x2_0000_0000 }
    ));
    assert_eq!(words(&vec![1, 2, 3], "op").unwrap(), vec![1, 2, 3]);
    assert!(matches!(
        refusal(words(&vec![1, 1 << 40, 1 << 33], "op")),
        ShapeError::TooLong { len: 0x100_0000_0000, .. }
    ));
    assert_eq!(last_dim_or_err(&[4, 5], "op").unwrap(), 5);
    assert!(matches!(refusal(last_dim_or_err(&[], "op")), ShapeError::Empty { op: "op" }));
}

#[test]
fn elementwise_launches() {
    for (l, name) in [
        (add_f32(s(1, 600), s(2, 600), s(3, 600)), "add_f32"),
        (sub_f32(s(1, 600), s(2, 600), s(3, 600)), "sub_f32"),
        (mul_f32(s(1, 600), s(2, 600), s(3, 600)), "mul"),
        (div_f32(s(1, 600), s(2, 600), s(3, 600)).unwrap(), "div_f32"),
    ] {
        assert_eq!(l.kernel.symbol(), name);
        assert_eq!(l.config, grid(3));
        assert_eq!(l.dst, Buffer::Global(3));
        assert_eq!(args(&l), "[Src(Global(1)), Src(Global(2)), Dst, Word(600)]");
    }
    for (l, name) in [
        (neg_f32(s(1, 5), s(2, 5)), "neg_f32"),
        (exp_f32(s(1, 5), s(2, 5)).unwrap(), "exp_f32"),
        (sqrt_f32(s(1, 5), s(2, 5)).unwrap(), "sqrt_f32"),
        (sigmoid_f32(s(1, 5), s(2, 5)).unwrap(), "sigmoid_f32"),
        (silu_f32(s(1, 5), s(2, 5)).unwrap(), "silu_f32"),
        (softplus_f32(s(1, 5), s(2, 5)).unwrap(), "softplus_f32"),
    ] {
        assert_eq!(l.kernel.symbol(), name);
        assert_eq!(args(&l), "[Src(Global(1)), Dst, Word(5)]");
    }
    let half = Real::Bits(0.5f32.to_bits());
    let l = mul_scalar_f32(s(1, 5), half, s(2, 5)).unwrap();
    assert_eq!(l.kernel.symbol(), "mul_scalar_f32");
    assert_eq!(args(&l), "[Src(Global(1)), Real(Bits(1056964608)), Dst, Word(5)]");
    let l = add_scalar_f32(s(1, 5), Real::OneOver(4), s(2, 5)).unwrap();
    assert_eq!(l.kernel.symbol(), "add_scalar_f32");
    assert_eq!(args(&l), "[Src(Global(1)), Real(OneOver(4)), Dst, Word(5)]");
    assert!(matches!(
        refusal(exp_f32(s(1, 5), s(2, 6))),
        ShapeError::BufferLength { op: "exp_f32", .. }
    ));
    assert!(matches!(
        refusal(div_f32(s(1, 5), s(2, 6), s(3, 5))),
        ShapeError::OperandLength { op: "div_f32", lhs: 5, rhs: 6 }
    ));
}

#[test]
fn transpositions() {
    let l = transpose_2d_f32(s(1, 6), s(2, 6), 2, 3).unwrap();
    assert_eq!(args(&l), "[Src(Global(1)), Dst, Word(2), Word(3)]");
    assert!(matches!(
        refusal(transpose_2d_f32(s(1, 6), s(2, 5), 2, 3)),
        ShapeError::BufferLength { .. }
    ));
    let l = transpose_nd_f32(s(1, 24), s(2, 24), vec![1, 4, 12], vec![6, 2, 1]).unwrap();
    assert_eq!(
        args(&l),
        "[Src(Global(1)), Dst, Table([1, 4, 12]), Table([6, 2, 1]), Word(3), Word(24)]"
    );
    assert!(matches!(
        refusal(transpose_nd_f32(s(1, 24), s(2, 24), vec![1], vec![6, 2, 1])),
        ShapeError::RankMismatch { lhs: 1, rhs: 3, .. }
    ));
    assert!(matches!(
        refusal(transpose_nd_f32(s(1, 1), s(2, 1), vec![1; 9], vec![1; 9])),
        ShapeError::RankAbove { rank: 9, limit: 8, .. }
    ));
}

#[test]
fn windows() {
    let l = narrow_copy_f32(s(1, 24), s(2, 16), &[2, 3, 4], 1, 1, 2).unwrap();
    assert_eq!(
        args(&l),
        "[Src(Global(1)), Dst, Word(2), Word(3), Word(2), Word(1), Word(4), Word(16)]"
    );
    let l = narrow_backward_f32(s(1, 16), s(2, 24), &[2, 3, 4], 1, 1, 2).unwrap();
    assert_eq!(
        args(&l),
        "[Src(Global(1)), Dst, Word(3), Word(2), Word(1), Word(4), Word(24)]"
    );
}

#[test]
fn broadcast_launches() {
    let l = broadcast_copy_f32(s(1, 3), s(2, 6), &[1, 3], &[2, 3]).unwrap();
    assert_eq!(
        args(&l),
        "[Src(Global(1)), Dst, Table([0, 1]), Table([3, 1]), Word(2), Word(6)]"
    );
    assert!(matches!(
        refusal(broadcast_copy_f32(s(1, 3), s(2, 6), &[3], &[2, 3])),
        ShapeError::RankMismatch { lhs: 1, rhs: 2, .. }
    ));
    let l = broadcast_mul_f32(s(1, 3), s(2, 2), s(3, 6), &[1, 3], &[2, 1], &[2, 3]).unwrap();
    assert_eq!(
        args(&l),
        "[Src(Global(1)), Src(Global(2)), Dst, Table([0, 1]), Table([1, 0]), \
         Table([3, 1]), Word(2), Word(6)]"
    );
}

#[test]
fn broadcast_shapes() {
    let (a, b, out) = broadcast_out_shape(&[3, 1], &[2, 1, 4]).unwrap();
    assert_eq!(*a, vec![1, 3, 1]);
    assert_eq!(*b, vec![2, 1, 4]);
    assert_eq!(*out, vec![2, 3, 4]);
    // The order of the operands does not matter, and equal shapes stay.
    let (_, _, turned) = broadcast_out_shape(&[2, 1, 4], &[3, 1]).unwrap();
    assert_eq!(*turned, vec![2, 3, 4]);
    let (_, _, same) = broadcast_out_shape(&[2, 3], &[2, 3]).unwrap();
    assert_eq!(*same, vec![2, 3]);
    assert!(matches!(
        refusal(broadcast_out_shape(&[3], &[4])),
        ShapeError::ExtentMismatch { axis: 0, lhs: 3, rhs: 4, .. }
    ));
}

#[test]
fn row_launches() {
    for (l, name) in [
        (cumsum_lastdim_f32(s(1, 12), s(2, 12), &[3, 4]).unwrap(), "cumsum_lastdim_f32"),
        (
            reverse_cumsum_lastdim_f32(s(1, 12), s(2, 12), &[3, 4]).unwrap(),
            "reverse_cumsum_lastdim_f32",
        ),
        (log_softmax_lastdim_f32(s(1, 12), s(2, 12), &[3, 4]).unwrap(), "log_softmax_lastdim_f32"),
    ] {
        assert_eq!(l.kernel.symbol(), name);
        assert_eq!(l.config, grid(1));
        assert_eq!(args(&l), "[Src(Global(1)), Dst, Word(3), Word(4)]");
    }
    let eps = Real::Bits(0);
    let l = rmsnorm_f32(s(1, 12), s(2, 4), s(3, 12), &[3, 4], eps).unwrap();
    assert_eq!(args(&l), "[Src(Global(1)), Src(Global(2)), Dst, Word(3), Word(4), Real(Bits(0))]");
    assert!(matches!(
        refusal(rmsnorm_f32(s(1, 12), s(2, 5), s(3, 12), &[3, 4], eps)),
        ShapeError::BufferLength { len: 5, expected: 4, .. }
    ));
    let l = rmsnorm_backward_x_f32(s(9, 12), s(1, 12), s(2, 12), s(3, 4), &[3, 4], eps).unwrap();
    assert_eq!(l.config.grid_dim, (3, 1, 1));
    assert_eq!(
        args(&l),
        "[Dst, Src(Global(1)), Src(Global(2)), Src(Global(3)), Word(3), Word(4), Real(Bits(0))]"
    );
    assert_eq!(row_chunk_count(1), 1);
    assert_eq!(row_chunk_count(0), 1);
    assert_eq!(row_chunk_count(16), 1);
    assert_eq!(row_chunk_count(17), 2);
    let l =
        rmsnorm_backward_w_partial_f32(s(9, 4), s(1, 12), s(2, 12), 3, 4, 1, eps).unwrap();
    assert_eq!(l.config.grid_dim, (1, 1, 1));
    assert!(args(&l).starts_with("[Dst, Src(Global(1)), Src(Global(2)), Word(3), Word(4), "));
}

#[test]
fn lookups() {
    let l = embedding_f32(s(1, 6), s(2, 4), s(3, 8), 4, 2, 3).unwrap();
    assert_eq!(
        args(&l),
        "[Src(Global(1)), Src(Global(2)), Dst, Word(4), Word(2), Word(3)]"
    );
    let l = scatter_add_embedding_f32(s(1, 6), s(2, 4), s(3, 8), 4, 2, 3).unwrap();
    assert_eq!(
        args(&l),
        "[Dst, Src(Global(2)), Src(Global(3)), Word(4), Word(2), Word(3)]"
    );
    let l = gather_lastdim_f32(s(1, 12), s(2, 6), s(3, 6), 4, 2).unwrap();
    assert_eq!(
        args(&l),
        "[Src(Global(1)), Src(Global(2)), Dst, Word(6), Word(4), Word(2)]"
    );
    assert!(matches!(
        refusal(gather_lastdim_f32(s(1, 12), s(2, 5), s(3, 6), 4, 2)),
        ShapeError::BufferLength { len: 5, expected: 6, .. }
    ));
    let l = scatter_add_gather_lastdim_f32(s(1, 12), s(2, 6), s(3, 6), 4, 2).unwrap();
    assert_eq!(
        args(&l),
        "[Dst, Src(Global(2)), Src(Global(3)), Word(6), Word(4), Word(2)]"
    );
}

#[test]
fn reductions() {
    let l = reduce_sum_dim_keepdim_f32(s(1, 24), s(2, 8), 2, 3, 4).unwrap();
    assert_eq!(args(&l), "[Src(Global(1)), Dst, Word(2), Word(3), Word(4)]");
    let l = sum_reduce_partial_f32(s(1, 10), s(2, 4), 10, 4).unwrap();
    assert_eq!(args(&l), "[Src(Global(1)), Dst, Word(10), Word(4)]");
    for (n, c) in [(1u32, 1u32), (2, 2), (4, 2), (5, 3), (16, 4), (17, 5), (u32::MAX, 65536)]
    {
        assert_eq!(ceil_sqrt(n), c);
    }
}

#[test]
fn matrix_products() {
    let g = matmul_f32(s(1, 6), &[2, 3], s(2, 12), &[3, 4], s(3, 8)).unwrap();
    assert_eq!((g.a, g.b, g.dst), (Buffer::Global(2), Buffer::Global(1), Buffer::Global(3)));
    assert_eq!((g.config.m, g.config.n, g.config.k), (4, 2, 3));
    assert_eq!((g.config.lda, g.config.ldb, g.config.ldc), (4, 3, 4));
    assert!(!g.config.trans_a && !g.config.trans_b);
    assert_eq!(g.batching, None);
    let g = matmul_f32(s(1, 30), &[5, 2, 3], s(2, 12), &[1, 3, 4], s(3, 40)).unwrap();
    assert_eq!(
        g.batching,
        Some(Batching { batch_size: 5, stride_a: 0, stride_b: 6, stride_c: 8 })
    );
    let g = matmul_f32(s(1, 30), &[5, 2, 3], s(2, 60), &[5, 3, 4], s(3, 40)).unwrap();
    assert_eq!(
        g.batching,
        Some(Batching { batch_size: 5, stride_a: 12, stride_b: 6, stride_c: 8 })
    );
    assert!(matches!(
        refusal(matmul_f32(s(1, 6), &[6], s(2, 12), &[3, 4], s(3, 8))),
        ShapeError::RankMismatch { lhs: 1, rhs: 2, .. }
    ));
    assert!(matches!(
        refusal(matmul_f32(s(1, 6), &[3, 2], s(2, 12), &[3, 4], s(3, 8))),
        ShapeError::ExtentMismatch { lhs: 2, rhs: 3, .. }
    ));
    assert!(matches!(
        refusal(matmul_f32(s(1, 30), &[5, 2, 3], s(2, 24), &[2, 3, 4], s(3, 40))),
        ShapeError::OperandLength { lhs: 5, rhs: 2, .. }
    ));
}

#[test]
fn convolutions() {
    let d = ConvDims { batch: 2, c_in: 3, t_in: 7, t_out: 4, k_size: 3, stride: 2, padding: 1 };
    let l = im2col_f32(s(1, 42), s(2, 72), d).unwrap();
    assert_eq!(
        args(&l),
        "[Src(Global(1)), Dst, Word(2), Word(3), Word(7), Word(4), Word(3), Word(2), Word(1), \
         Word(72)]"
    );
    let l = col2im_f32(s(1, 42), s(2, 72), d).unwrap();
    assert_eq!(
        args(&l),
        "[Dst, Src(Global(2)), Word(2), Word(3), Word(7), Word(4), Word(3), Word(2), Word(1), \
         Word(72)]"
    );
    let seven = "Word(2), Word(3), Word(7), Word(4), Word(3), Word(2), Word(1)";
    let l = conv1d_depthwise_fwd_gpu(s(1, 42), s(2, 9), s(4, 3), true, s(3, 24), d).unwrap();
    assert_eq!(
        args(&l),
        format!("[Src(Global(1)), Src(Global(2)), Src(Global(4)), Dst, {}, Word(1)]", seven)
    );
    let l = conv1d_depthwise_bwd_x_gpu(s(1, 24), s(2, 9), s(3, 42), d).unwrap();
    assert_eq!(args(&l), format!("[Src(Global(1)), Src(Global(2)), Dst, {}]", seven));
    let l = conv1d_depthwise_bwd_w_gpu(s(1, 24), s(2, 42), s(3, 9), d).unwrap();
    assert_eq!(args(&l), format!("[Src(Global(1)), Src(Global(2)), Dst, {}]", seven));
    assert_eq!(l.config.grid_dim, (3, 3, 1));
    assert_eq!(l.config.block_dim, (128, 1, 1));
    assert_eq!(l.config.shared_mem_bytes, 512);
}

#[test]
fn scans() {
    let d = ScanDims { batch: 2, t_len: 12, n_heads: 3, p_dim: 5, n_dim: 4, block_len: 6 };
    let plan =
        |d: ScanDims| ssd_scan_chunked_with_context(s(1, 0), s(2, 0), s(3, 0), s(4, 0), s(5, 0), d);
    let l = plan(d).unwrap();
    assert_eq!(l.kernel.symbol(), "ssd_scan_chunked");
    assert_eq!(
        l.config,
        LaunchConfig { grid_dim: (1, 1, 1), block_dim: (64, 1, 1), shared_mem_bytes: 0 }
    );
    assert_eq!(
        args(&l),
        "[Src(Global(1)), Src(Global(2)), Src(Global(3)), Src(Global(4)), Dst, Word(2), \
         Word(12), Word(3), Word(5), Word(4), Word(6)]"
    );
    assert_eq!(P1_SMEM_BYTES, 4 * (64 + 2 * 64 * 128 + 64 * 129 + 6 * 64));
    let l = plan(ScanDims { t_len: 128, p_dim: 64, n_dim: 128, block_len: 64, ..d }).unwrap();
    assert_eq!(l.kernel.symbol(), "ssd_scan_chunked_p1");
    assert_eq!(
        l.config,
        LaunchConfig {
            grid_dim: (6, 1, 1),
            block_dim: (64, 1, 1),
            shared_mem_bytes: P1_SMEM_BYTES,
        }
    );
    assert!(matches!(
        refusal(plan(ScanDims { block_len: 0, ..d })),
        ShapeError::MustBePositive { op: "block_len" }
    ));
    assert!(matches!(
        refusal(plan(ScanDims { t_len: 13, ..d })),
        ShapeError::NotMultiple { len: 13, unit: 6, .. }
    ));
    assert!(matches!(
        refusal(plan(ScanDims { t_len: 0, ..d })),
        ShapeError::NotMultiple { len: 0, .. }
    ));
    assert!(matches!(
        refusal(plan(ScanDims { n_heads: 1 << 33, ..d })),
        ShapeError::TooLong { op: "n_heads", .. }
    ));
}
