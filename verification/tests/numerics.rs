//! Host routines and kernel bodies on exact integers.

use pm_cuda::activate::Curve;
use pm_cuda::conv::ConvDims;
use pm_cuda::depthwise::{
    depthwise_conv1d_bwd_w_f32, depthwise_conv1d_bwd_x_f32, depthwise_conv1d_fwd_f32, fill_stack,
};
use pm_cuda::host::{
    append_run, broadcast_apply, broadcast_expand_batch, broadcast_steps, concat_runs,
    step_through, swap_index_axes, take_columns, take_range,
};
use pm_cuda::hostconv::{
    add_bias, assemble_groups, conv_bias_sum, conv_input_sum, conv_weight_sum, GradDims,
};
use pm_cuda::index::{
    embedding_source, gather_source, im2col_source, strided_source, transpose_2d_source, Window,
};
use pm_cuda::lane::write_lane;
use pm_cuda::lanes::{
    cumsum_rows, depthwise_back_step, depthwise_step, depthwise_weight_step, partial_sum,
    reduce_axis, reverse_cumsum_rows, tree_sum,
};
use pm_cuda::norm::{dot_rows, log_softmax_row, rmsnorm_back_row, rmsnorm_row, rmsnorm_weight_chunk};
use pm_cuda::program::HostTask;
use pm_cuda::scatter::{
    column_sources, embedding_sources, gather_sources, read_all, scatter_add,
};
use pm_cuda::scan::{row_index, Arith, Head, ScanData};
use pm_cuda::ssd::ScanDims;
use std::sync::Arc;

fn plus(x: i64, y: i64) -> i64 {
    x + y
}

fn times(x: i64, y: i64) -> i64 {
    x * y
}

fn minus(x: i64, y: i64) -> i64 {
    x - y
}

fn twice(x: i64) -> i64 {
    2 * x
}

fn upto(n: i64) -> Vec<i64> {
    (0..n).collect()
}

#[test]
fn indices_step_through_shapes() {
    // Element (1, 2) of a 2 by 3 result, read from a column.
    assert_eq!(step_through(5, &vec![3, 1], &vec![1, 0]), 1);
    assert_eq!(broadcast_steps(&[2, 1, 4]), vec![4, 0, 1]);
    assert_eq!(strided_source(5, &vec![3, 1], &vec![1, 2]), 1 + 2 * 2);
}

#[test]
fn broadcast_values() {
    let r = broadcast_apply(&vec![1, 2], &[2, 1], &vec![10, 20, 30], &[1, 3], &[2, 3], minus);
    assert_eq!(r, vec![-9, -19, -29, -8, -18, -28]);
    let r = broadcast_expand_batch(&vec![1, 2, 3, 4], &[2, 1], &[2, 2], 2).unwrap();
    assert_eq!(r, vec![1, 2, 1, 2, 3, 4, 3, 4]);
    assert!(broadcast_expand_batch(&vec![1, 2], &[1], &[1, 2], 1).is_err());
}

#[test]
fn runs_are_copied() {
    let mut v = vec![9];
    append_run(&mut v, &upto(5), 1, 3);
    assert_eq!(v, vec![9, 1, 2, 3]);
    assert_eq!(take_range(&upto(6), 2, 3), vec![2, 3, 4]);
    assert_eq!(take_columns(&upto(6), 2, 3, 1, 2), vec![1, 2, 4, 5]);
    assert_eq!(swap_index_axes(&upto(6), &[2, 3], 0, 1), vec![0, 3, 1, 4, 2, 5]);
    // Exchanging twice gives the data back.
    let once = swap_index_axes(&upto(24), &[2, 3, 4], 0, 2);
    assert_eq!(swap_index_axes(&once, &[4, 3, 2], 0, 2), upto(24));
    let parts = vec![vec![1, 2], vec![10, 11, 12, 13]];
    assert_eq!(concat_runs(&parts, 2, &[1, 2], 1), vec![1, 10, 11, 2, 12, 13]);
}

#[test]
fn groups_are_put_together() {
    // Two groups of one channel, batch of two, three steps.
    let outs = vec![vec![1, 2, 3, 4, 5, 6], vec![11, 12, 13, 14, 15, 16]];
    assert_eq!(
        assemble_groups(&outs, 2, 1, 3),
        vec![1, 2, 3, 11, 12, 13, 4, 5, 6, 14, 15, 16]
    );
    assert_eq!(add_bias(&vec![1, 2, 3, 4], &vec![10, 20], 2, plus), vec![11, 12, 23, 24]);
    assert_eq!(conv_bias_sum(&upto(8), 2, 2, 2, 0, plus), vec![0 + 1 + 4 + 5, 2 + 3 + 6 + 7]);
}

#[test]
fn convolution_gradients() {
    let dims = ConvDims { batch: 1, c_in: 1, t_in: 3, t_out: 2, k_size: 2, stride: 1, padding: 0 };
    let d = GradDims { dims, per_group: 1, out_per_group: 1, groups: 1 };
    // Columns of the input 5, 7, 11: one row per step.
    let col = vec![5, 7, 7, 11];
    assert_eq!(
        conv_weight_sum(&vec![2, 3], &col, d, 0, plus, times),
        vec![2 * 5 + 3 * 7, 2 * 7 + 3 * 11]
    );
    assert_eq!(
        conv_input_sum(&vec![2, 3], &vec![10, 100], d, 0, plus, times),
        vec![20, 200 + 30, 300]
    );
}

#[test]
fn transposition_undoes_itself() {
    for i in 0..12u32 {
        let j = transpose_2d_source(i, 3, 4);
        assert_eq!(transpose_2d_source(j, 4, 3), i);
    }
    // Element (1, 2) of the 4 by 3 result is element (2, 1) of the source.
    assert_eq!(transpose_2d_source(5, 3, 4), 9);
}

#[test]
fn window_gradient_inverts_window() {
    let w = Window { outer: 2, axis: 5, len: 2, start: 1, inner: 3 };
    let mut seen = 0;
    for i in 0..12u32 {
        let p = w.narrow_source(i);
        assert_eq!(w.narrow_back_source(p), Some(i));
    }
    for p in 0..30u32 {
        match w.narrow_back_source(p) {
            Some(i) => {
                assert_eq!(w.narrow_source(i), p);
                seen += 1;
            }
            None => assert!((p / 3) % 5 < 1 || (p / 3) % 5 >= 3),
        }
    }
    assert_eq!(seen, 12);
}

#[test]
fn lookups_skip_what_is_out_of_range() {
    assert_eq!(embedding_source(3, 4, 2, 5), Some(9));
    assert_eq!(embedding_source(3, 5, 2, 5), None);
    assert_eq!(embedding_source(3, -1, 2, 5), None);
    assert_eq!(gather_source(3, 4, 7, 2, 2), Some(11));
    assert_eq!(gather_source(3, 7, 7, 2, 2), None);
    assert_eq!(gather_source(3, -2, 7, 2, 2), None);
}

#[test]
fn columns_hold_what_the_taps_read() {
    let d = ConvDims { batch: 1, c_in: 2, t_in: 3, t_out: 3, k_size: 3, stride: 1, padding: 1 };
    let got: Vec<Option<usize>> = (0..18).map(|i| im2col_source(&d, i)).collect();
    let want = vec![
        None, Some(0), Some(1), None, Some(3), Some(4),
        Some(0), Some(1), Some(2), Some(3), Some(4), Some(5),
        Some(1), Some(2), None, Some(4), Some(5), None,
    ];
    assert_eq!(got, want);
}

#[test]
fn running_and_total_sums() {
    assert_eq!(cumsum_rows(&vec![1, 2, 3, 4, 5, 6], 2, 3, 0, plus), vec![1, 3, 6, 4, 9, 15]);
    assert_eq!(
        reverse_cumsum_rows(&vec![1, 2, 3, 4, 5, 6], 2, 3, 0, plus),
        vec![6, 5, 3, 15, 11, 6]
    );
    assert_eq!(reduce_axis(&upto(12), 2, 3, 2, 0, plus), vec![6, 9, 24, 27]);
    let parts: Vec<i64> = (0..4).map(|c| partial_sum(&upto(10), c, 4, 0, &plus)).collect();
    assert_eq!(parts.iter().sum::<i64>(), 45);
    assert_eq!(tree_sum(vec![1, 2, 3, 4, 5, 6, 7, 8], &plus), 36);
    // Halves are added pairwise: ((1 - 3) - (2 - 4)).
    assert_eq!(tree_sum(vec![1, 2, 3, 4], &minus), 0);
    assert_eq!(tree_sum(vec![10, 2, 3, 4], &minus), 9);
}

#[test]
fn depthwise_kernels() {
    let d = ConvDims { batch: 1, c_in: 1, t_in: 4, t_out: 2, k_size: 3, stride: 2, padding: 1 };
    let (x, w, b) = (vec![1, 2, 3, 4], vec![10, 100, 1000], vec![7]);
    let y: Vec<i64> = (0..2)
        .map(|t| depthwise_step(&x, &w, Some(&b), &d, 0, 0, t, 0, &plus, &times))
        .collect();
    assert_eq!(y, vec![7 + 100 + 2000, 7 + 20 + 300 + 4000]);
    let bare = depthwise_step(&x, &w, None, &d, 0, 0, 0, 0, &plus, &times);
    assert_eq!(bare, 2100);
    let go = vec![1, 2];
    let gx: Vec<i64> =
        (0..4).map(|i| depthwise_back_step(&go, &w, &d, 0, 0, i, 0, &plus, &times)).collect();
    assert_eq!(gx, vec![100, 1000 + 20, 200, 2000]);
    let gw: Vec<i64> =
        (0..3).map(|k| depthwise_weight_step(&go, &x, &d, 0, k, 4, 0, &plus, &times)).collect();
    assert_eq!(gw, vec![2 * 2, 1 + 2 * 3, 2 + 2 * 4]);
}

#[test]
fn normalisation_rows() {
    assert_eq!(dot_rows(&[1, 2, 3], &[4, 5, 6], 0, &plus, &times), 32);
    let id = |s: i64| s;
    // The factor is the sum of squares itself.
    assert_eq!(rmsnorm_row(&[1, 2], &[3, 5], 0, &plus, &times, &id), vec![15, 50]);
    let r = rmsnorm_back_row(&[1, 1], &[1, 2], &[3, 5], 2, 0, &plus, &times, &minus, &id, &id);
    // Factor 5, weighted product 13, scale 13 * 125.
    assert_eq!(r, vec![15 - 1625, 25 - 2 * 1625]);
    let g = rmsnorm_weight_chunk(&vec![1, 2, 3, 4], &vec![1, 2, 3, 4], 2, 1, 0, 2, 0, &plus, &times, &id);
    assert_eq!(g, 2 * 2 * 5 + 4 * 4 * 25);
    let above = |a: i64, b: i64| a > b;
    let r = log_softmax_row(&[3, 9, 4], 0, &plus, &minus, &above, &minus, &id);
    // Largest 9, "logarithm" of the parts -6 + 0 - 5.
    assert_eq!(r, vec![-6 + 11, 11, -5 + 11]);
}

fn scan_data(d: &ScanDims) -> ScanData<i64> {
    let rows = d.batch * d.t_len * d.n_heads;
    let fill = |n: usize, k: i64| (0..n as i64).map(|i| (i * k + 3) % 5 - 2).collect();
    ScanData {
        x: fill(rows * d.p_dim, 7),
        a: fill(rows, 3),
        b: fill(rows * d.n_dim, 11),
        c: fill(rows * d.n_dim, 13),
    }
}

#[test]
fn scan_kernels_agree() {
    // Any arithmetic will do, as long as sums may be regrouped: here the
    // growth factor is the number itself, doubled.
    let d = ScanDims { batch: 2, t_len: 6, n_heads: 2, p_dim: 3, n_dim: 2, block_len: 3 };
    let data = scan_data(&d);
    let arith = Arith { zero: 0, plus, times, minus, exp: twice };
    let lanes = arith.ssd_scan_chunked(&data, &d);
    let blocks = arith.ssd_scan_chunked_p1(&data, &d);
    assert_eq!(lanes.len(), 2 * 6 * 2 * 3);
    assert_eq!(lanes, blocks);
    assert!(lanes.iter().any(|v| *v != 0));
}

#[test]
fn scan_steps() {
    let d = ScanDims { batch: 1, t_len: 2, n_heads: 1, p_dim: 1, n_dim: 1, block_len: 2 };
    let data = ScanData { x: vec![3, 5], a: vec![2, 4], b: vec![7, 11], c: vec![13, 17] };
    let arith = Arith { zero: 0, plus, times, minus, exp: twice };
    let k = Head { b: 0, h: 0 };
    assert_eq!(arith.chunk_decay(&data, &d, k, 0), vec![2, 6]);
    assert_eq!(arith.step_overlap(&data, &d, k, 1, 0), 17 * 7);
    assert_eq!(row_index(&d, k, 1), 1);
    let ys = arith.scan_lane(&data, &d, k, 0);
    assert_eq!(ys, vec![0, 17 * 7 * 8 * 3]);
    let mut y = vec![0, 0];
    write_lane(&mut y, &ys, &d, k, 0);
    assert_eq!(y, ys);
    assert_eq!(arith.ssd_scan_chunked(&data, &d), ys);
}

#[test]
fn stacks_are_filled_in_order() {
    let r = fill_stack(2, 2, 3, &|i: usize, j: usize, k: usize| 100 * i + 10 * j + k);
    assert_eq!(r, vec![0, 1, 2, 10, 11, 12, 100, 101, 102, 110, 111, 112]);
    assert!(fill_stack(2, 0, 3, &|i: usize, _: usize, _: usize| i).is_empty());
}

#[test]
fn whole_depthwise_kernels() {
    let d = ConvDims { batch: 1, c_in: 2, t_in: 3, t_out: 2, k_size: 2, stride: 1, padding: 0 };
    let (x, w, b) = (vec![1, 2, 3, 4, 5, 6], vec![1, 10, 100, 1000], vec![7, 8]);
    let y = depthwise_conv1d_fwd_f32(&x, &w, Some(&b), &d, 0, &plus, &times);
    assert_eq!(y, vec![28, 39, 5408, 6508]);
    let go = vec![1, 2, 3, 4];
    let gx = depthwise_conv1d_bwd_x_f32(&go, &w, &d, 0, &plus, &times);
    assert_eq!(gx, vec![1, 12, 20, 300, 3400, 4000]);
    let gw = depthwise_conv1d_bwd_w_f32(&go, &x, &d, 2, 0, &plus, &times);
    assert_eq!(gw, vec![5, 8, 32, 39]);
}

#[test]
fn gradients_go_to_what_was_read() {
    let at = embedding_sources(&vec![2, 0, 2, -1, 9], 2, 3);
    assert_eq!(
        at,
        vec![
            Some(4), Some(5), Some(0), Some(1), Some(4), Some(5), None, None, None, None,
        ]
    );
    let table = vec![1, 2, 3, 4, 5, 6];
    assert_eq!(read_all(&table, &at, -7), vec![5, 6, 1, 2, 5, 6, -7, -7, -7, -7]);
    let mut grad = vec![0, 0, 100, 0, 0, 0];
    scatter_add(&mut grad, &at, &upto(10), &plus);
    // Row 1 is read by none, row 0 by one, row 2 by two.
    assert_eq!(grad, vec![2, 3, 100, 0, 4, 6]);
    let at = gather_sources(&vec![1, 1, 0, 3], 3, 2, 2);
    assert_eq!(at, vec![Some(1), Some(1), Some(3), None]);
    let d = ConvDims { batch: 1, c_in: 1, t_in: 2, t_out: 3, k_size: 2, stride: 1, padding: 1 };
    let at = column_sources(&d);
    assert_eq!(at, vec![None, Some(0), Some(0), Some(1), Some(1), None]);
    let mut grad = vec![0, 0];
    scatter_add(&mut grad, &at, &vec![1, 2, 3, 4, 5, 6], &plus);
    assert_eq!(grad, vec![5, 9]);
}

#[test]
fn activations() {
    let c = Curve {
        zero: 0,
        one: 1,
        plus,
        times,
        negate: |x: i64| -x,
        exp: twice,
        invert: |x: i64| 1000 - x,
        log: |x: i64| x + 5,
        above: |x: i64, y: i64| x > y,
    };
    assert_eq!(c.sigmoid(3), 1000 - (1 - 6));
    assert_eq!(c.silu(3), 3 * 1005);
    assert_eq!(c.softplus(3), 3 + (1 - 6) + 5);
    assert_eq!(c.softplus(-3), (1 - 6) + 5);
    assert_eq!(c.softplus(0), 1 + 5);
}

fn dot(a: &[i64], b: &[i64]) -> i64 {
    assert_eq!(a.len(), b.len());
    a.iter().zip(b.iter()).map(|(x, y)| x * y).sum()
}

#[test]
fn gradients_are_adjoint() {
    // A lookup.
    let at = embedding_sources(&vec![1, 2, 1, 7], 2, 3);
    let (src, go) = (vec![3, -1, 4, 1, -5, 9], vec![2, 7, 1, 8, -2, 8, 1, 8]);
    let out = read_all(&src, &at, 0);
    let mut grad = vec![0; 6];
    scatter_add(&mut grad, &at, &go, &plus);
    assert_eq!(dot(&go, &out), dot(&grad, &src));
    assert_ne!(dot(&go, &out), 0);
    // Running sums.
    let (xs, go) = (vec![3, 1, -4, 1, 5, 9], vec![2, 7, 1, -8, 2, 8]);
    let out = cumsum_rows(&xs, 2, 3, 0, plus);
    let grad = reverse_cumsum_rows(&go, 2, 3, 0, plus);
    assert_eq!(dot(&go, &out), dot(&grad, &xs));
    // A depthwise convolution, in its input and in its weight.
    let d = ConvDims { batch: 2, c_in: 2, t_in: 5, t_out: 3, k_size: 3, stride: 2, padding: 1 };
    let x: Vec<i64> = (0..20).map(|i| (i * 7 + 3) % 11 - 5).collect();
    let w: Vec<i64> = (0..6).map(|i| (i * 5 + 2) % 7 - 3).collect();
    let go: Vec<i64> = (0..12).map(|i| (i * 3 + 1) % 5 - 2).collect();
    let y = depthwise_conv1d_fwd_f32(&x, &w, None, &d, 0, &plus, &times);
    let gx = depthwise_conv1d_bwd_x_f32(&go, &w, &d, 0, &plus, &times);
    let gw = depthwise_conv1d_bwd_w_f32(&go, &x, &d, 4, 0, &plus, &times);
    assert_eq!(dot(&go, &y), dot(&gx, &x));
    assert_eq!(dot(&go, &y), dot(&gw, &w));
    assert_ne!(dot(&go, &y), 0);
}

#[test]
fn grouped_convolution_gradients_are_adjoint() {
    // Two groups of two input and three output channels, with padding.
    let dims = ConvDims { batch: 2, c_in: 4, t_in: 5, t_out: 3, k_size: 3, stride: 2, padding: 1 };
    let d = GradDims { dims, per_group: 2, out_per_group: 3, groups: 2 };
    let x: Vec<i64> = (0..40).map(|i| (i * 7 + 3) % 11 - 5).collect();
    let w: Vec<i64> = (0..36).map(|i| (i * 5 + 2) % 7 - 3).collect();
    let go: Vec<i64> = (0..36).map(|i| (i * 3 + 1) % 5 - 2).collect();
    let mut y = vec![0; 36];
    for b in 0..2 {
        for co in 0..6 {
            for t in 0..3 {
                for i in 0..2 {
                    for k in 0..3 {
                        let pos = (t * 2 + k) as i64 - 1;
                        if 0 <= pos && pos < 5 {
                            let c = co / 3 * 2 + i;
                            y[(b * 6 + co) * 3 + t] +=
                                w[co * 6 + i * 3 + k] * x[(b * 4 + c) * 5 + pos as usize];
                        }
                    }
                }
            }
        }
    }
    let col: Vec<i64> =
        (0..72).map(|i| im2col_source(&dims, i).map_or(0, |p| x[p])).collect();
    let gx = conv_input_sum(&go, &w, d, 0, plus, times);
    let gw = conv_weight_sum(&go, &col, d, 0, plus, times);
    assert_eq!(dot(&go, &y), dot(&gx, &x));
    assert_eq!(dot(&go, &y), dot(&gw, &w));
    assert_ne!(dot(&go, &y), 0);
    let bias = vec![3, -1, 4, 1, -5, 9];
    let shift: Vec<i64> = (0..36).map(|i| bias[i / 3 % 6]).collect();
    let gb = conv_bias_sum(&go, 2, 6, 3, 0, plus);
    assert_eq!(dot(&go, &shift), dot(&gb, &bias));
}

#[test]
fn host_steps_run_on_data_that_fits() {
    let run = |t: HostTask, ins: Vec<Vec<i64>>| t.run(&ins, 0, plus, minus, times);
    let shape = |s: &[usize]| Arc::new(s.to_vec());
    let step = |subtract| HostTask::Broadcast {
        subtract,
        a: shape(&[2, 1]),
        b: shape(&[1, 2]),
        out: shape(&[2, 2]),
    };
    assert_eq!(run(step(false), vec![vec![1, 2], vec![10, 20]]), Some(vec![11, 21, 12, 22]));
    assert_eq!(run(step(true), vec![vec![1, 2], vec![10, 20]]), Some(vec![-9, -19, -8, -18]));
    assert_eq!(run(step(true), vec![vec![1, 2], vec![10]]), None);
    assert_eq!(run(step(true), vec![vec![1, 2]]), None);
    let t = HostTask::ExpandBatch { lead: shape(&[1]), wide: shape(&[2]), slice: 2 };
    assert_eq!(run(t, vec![vec![5, 6]]), Some(vec![5, 6, 5, 6]));
    let t = HostTask::ExpandBatch { lead: shape(&[3]), wide: shape(&[2]), slice: 2 };
    assert_eq!(run(t, vec![vec![5, 6, 7, 8, 9, 0]]), None);
    let t = HostTask::Concat { outer: 1, lens: shape(&[1, 2]), inner: 1 };
    assert_eq!(run(t, vec![vec![1], vec![2, 3]]), Some(vec![1, 2, 3]));
    let t = HostTask::Concat { outer: 1, lens: shape(&[1, 2]), inner: 1 };
    assert_eq!(run(t, vec![vec![1], vec![2]]), None);
    let t = HostTask::TakeColumns { rows: 2, cols: 2, from: 1, width: 1 };
    assert_eq!(run(t, vec![vec![1, 2, 3, 4]]), Some(vec![2, 4]));
    let t = HostTask::TakeColumns { rows: 2, cols: 2, from: usize::MAX, width: 2 };
    assert_eq!(run(t, vec![vec![1, 2, 3, 4]]), None);
    let t = HostTask::TakeRange { from: 1, len: 2 };
    assert_eq!(run(t, vec![vec![1, 2, 3]]), Some(vec![2, 3]));
    let t = HostTask::TakeRange { from: 2, len: 2 };
    assert_eq!(run(t, vec![vec![1, 2, 3]]), None);
    let t = HostTask::SwapIndexAxes { shape: shape(&[2, 2]), first: 0, second: 1 };
    assert_eq!(run(t, vec![vec![1, 2, 3, 4]]), Some(vec![1, 3, 2, 4]));
    let t = HostTask::SwapIndexAxes { shape: shape(&[2, 2]), first: 0, second: 2 };
    assert_eq!(run(t, vec![vec![1, 2, 3, 4]]), None);
    let t = HostTask::AssembleGroups { batch: 1, per_group: 1, t_out: 2 };
    assert_eq!(run(t, vec![vec![1, 2], vec![3, 4]]), Some(vec![1, 2, 3, 4]));
    let t = HostTask::AddBias { batch: 1, c_out: 2, t_out: 1 };
    assert_eq!(run(t, vec![vec![1, 2], vec![10, 20]]), Some(vec![11, 22]));
    let t = HostTask::ConvBiasGrad { batch: 1, c_out: 2, t_out: 2 };
    assert_eq!(run(t, vec![vec![1, 2, 3, 4]]), Some(vec![3, 7]));
    let dims = ConvDims { batch: 1, c_in: 1, t_in: 3, t_out: 2, k_size: 2, stride: 1, padding: 0 };
    let t = HostTask::ConvWeightGrad { dims, c_out: 1, groups: 1 };
    assert_eq!(run(t, vec![vec![2, 3], vec![5, 7, 7, 11]]), Some(vec![31, 47]));
    let t = HostTask::ConvInputGrad { dims, c_out: 1, groups: 1 };
    assert_eq!(run(t, vec![vec![2, 3], vec![10, 100]]), Some(vec![20, 230, 300]));
    let t = HostTask::ConvInputGrad { dims, c_out: 1, groups: 0 };
    assert_eq!(run(t, vec![vec![2, 3], vec![10, 100]]), None);
}
