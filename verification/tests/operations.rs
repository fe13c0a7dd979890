//! What the operations refuse, and what they leave on the tape.

use pm_cuda::backend::{CudaBackend, Planned};
use pm_cuda::compound::ScanOutcome;
use pm_cuda::error::{CudaError, ShapeError};
use pm_cuda::grad::CudaGradStore;
use pm_cuda::launch::{Buffer, Real};
use pm_cuda::tape::{backward_op_name, Mark, Tape, TapeOp};
use pm_cuda::tensor::{same_shape, CudaTensor, Dtype, NodeId, ParamId, Shape};
use std::sync::Arc;

fn dims(s: &[usize]) -> Shape {
    Arc::new(s.to_vec())
}

fn t(id: u64, s: &[usize]) -> CudaTensor {
    CudaTensor::new(Arc::new(Buffer::Global(id)), dims(s))
}

fn ints(id: u64, s: &[usize]) -> CudaTensor {
    CudaTensor::new_i64(Arc::new(Buffer::Global(id)), dims(s))
}

fn refusal<T>(r: Result<T, CudaError>) -> ShapeError {
    match r {
        Err(CudaError::Shape(e)) => e,
        Err(_) => panic!("another kind of error"),
        Ok(_) => panic!("no error"),
    }
}

/// Handles as a device would give them: one per command.
fn handles(p: &Planned, from: u64) -> Vec<Arc<Buffer>> {
    (0..p.program.commands.len()).map(|i| Arc::new(Buffer::Global(from + i as u64))).collect()
}

fn commit(b: &mut CudaBackend, p: Planned) -> CudaTensor {
    let h = handles(&p, 1000);
    b.commit(p, &h)
}

fn param(b: &mut CudaBackend, s: &[usize]) -> CudaTensor {
    let n: usize = s.iter().product();
    let (id, p) = b.param_from_slice_f32(n, &dims(s));
    let h = handles(&p, 500);
    b.new_param(id, p, &h).as_tensor().clone()
}

#[test]
fn tensors_know_their_shape_and_type() {
    let x = t(7, &[2, 3]);
    assert_eq!(x.shape(), &[2, 3][..]);
    assert_eq!(x.numel(), 6);
    assert_eq!(x.dtype(), Dtype::F32);
    assert_eq!(ints(8, &[4]).dtype(), Dtype::I64);
    assert_eq!(x.slice().id, Buffer::Global(7));
    assert_eq!(x.slice().len, 6);
    assert_eq!(*x.storage(), Buffer::Global(7));
    assert_eq!(*ints(8, &[4]).storage_i64(), Buffer::Global(8));
    let n = NodeId { generation: 3, index: 4 };
    let y = x.clone().with_node_id(n).with_origin(ParamId(9));
    assert_eq!(y.node_id, Some(n));
    assert_eq!(y.origin, Some(ParamId(9)));
    let z = y.with_shape(dims(&[6]));
    assert_eq!((z.node_id, z.origin), (None, None));
    assert_eq!(z.shape(), &[6][..]);
    let z = y.detached();
    assert_eq!((z.node_id, z.origin), (None, None));
    assert!(same_shape(&[1, 2], &[1, 2]));
    assert!(!same_shape(&[1, 2], &[1, 2, 1]));
}

#[test]
fn element_types_that_are_not_offered() {
    let b = CudaBackend::new();
    assert!(b.zeros(&dims(&[2]), Dtype::F32).is_ok());
    assert!(matches!(
        b.zeros(&dims(&[2]), Dtype::BF16),
        Err(CudaError::Unsupported(m)) if m.starts_with("zeros")
    ));
    assert!(matches!(
        b.ones(&dims(&[2]), Dtype::I64),
        Err(CudaError::Unsupported(m)) if m.starts_with("ones")
    ));
    let x = t(1, &[2]);
    assert!(matches!(b.to_dtype(&x, Dtype::F16), Err(CudaError::Unsupported(_))));
    let same = b.to_dtype(&x, Dtype::F32).unwrap();
    assert_eq!(same.slice(), x.slice());
    assert!(matches!(
        refusal(b.from_slice_i64(5, &dims(&[2, 2]))),
        ShapeError::BufferLength { .. } | ShapeError::CountMismatch { .. }
    ));
    let mut b = CudaBackend::new();
    assert!(matches!(
        b.param_zeros(&dims(&[2]), Dtype::F16),
        Err(CudaError::Unsupported(_))
    ));
    assert!(matches!(
        b.param_ones(&dims(&[2]), Dtype::I64),
        Err(CudaError::Unsupported(_))
    ));
}

#[test]
fn operands_that_do_not_fit() {
    let b = CudaBackend::new();
    let (x, y) = (t(1, &[2, 3]), t(2, &[2, 4]));
    for r in [b.add(&x, &y), b.sub(&x, &y), b.mul(&x, &y)] {
        assert!(matches!(
            refusal(r),
            ShapeError::ExtentMismatch { axis: 1, lhs: 3, rhs: 4, .. }
        ));
    }
    assert!(matches!(refusal(b.div(&x, &y)), ShapeError::ShapesDiffer { op: "div" }));
    assert!(matches!(
        refusal(b.narrow(&x, 2, 0, 1)),
        ShapeError::AxisOutOfRange { axis: 2, rank: 2, .. }
    ));
    assert!(matches!(
        refusal(b.narrow(&x, 1, 2, 2)),
        ShapeError::WindowOutOfRange { start: 2, len: 2, extent: 3, .. }
    ));
    assert!(matches!(
        refusal(b.reshape(&x, &dims(&[4]))),
        ShapeError::CountMismatch { from: 6, to: 4, .. }
    ));
    assert!(matches!(
        refusal(b.transpose(&x, 0, 5)),
        ShapeError::AxisOutOfRange { axis: 5, .. }
    ));
    assert!(matches!(
        refusal(b.broadcast_as(&x, &dims(&[3]))),
        ShapeError::RankMismatch { lhs: 2, rhs: 1, .. }
    ));
    assert!(matches!(
        refusal(b.broadcast_as(&x, &dims(&[2, 5]))),
        ShapeError::ExtentMismatch { axis: 1, lhs: 3, rhs: 5, .. }
    ));
    assert!(matches!(refusal(b.cumsum(&t(1, &[]), 0)), ShapeError::Empty { op: "cumsum" }));
    assert!(matches!(
        refusal(b.log_softmax(&x, 2)),
        ShapeError::AxisOutOfRange { axis: 2, .. }
    ));
    assert!(matches!(refusal(b.mean_all(&t(1, &[0]))), ShapeError::Empty { op: "mean_all" }));
    assert!(matches!(refusal(b.sum_all(&t(1, &[0]))), ShapeError::Empty { op: "sum_all" }));
    assert!(matches!(
        refusal(b.embedding(&t(1, &[6]), &ints(2, &[2]))),
        ShapeError::WrongRank { rank: 1, expected: 2, .. }
    ));
    assert!(matches!(
        refusal(b.gather(&x, &ints(3, &[2]), 1)),
        ShapeError::RankMismatch { .. }
    ));
    assert!(matches!(
        refusal(b.rmsnorm(&x, &t(4, &[2]), Real::Bits(0))),
        ShapeError::BufferLength { len: 2, expected: 3, .. }
    ));
}

#[test]
fn products_that_do_not_fit() {
    let b = CudaBackend::new();
    assert!(matches!(
        b.matmul(&t(1, &[3]), &t(2, &[3, 4])),
        Err(CudaError::Unsupported(_))
    ));
    assert!(b.matmul(&t(1, &[2, 3]), &t(2, &[4, 2])).is_err());
    assert!(b.matmul(&t(1, &[2, 2, 3]), &t(2, &[3, 3, 2])).is_err());
    let p = b.matmul(&t(1, &[5, 2, 3]), &t(2, &[3, 4])).unwrap();
    assert_eq!(p.out.shape(), &[5, 2, 4][..]);
}

#[test]
fn lists_that_do_not_fit() {
    let b = CudaBackend::new();
    assert!(matches!(refusal(b.concat(&Vec::new(), 0)), ShapeError::Empty { .. }));
    assert!(matches!(
        refusal(b.concat(&vec![t(1, &[2, 3])], 2)),
        ShapeError::AxisOutOfRange { axis: 2, rank: 2, .. }
    ));
    assert!(matches!(
        refusal(b.concat(&vec![t(1, &[2, 3]), t(2, &[2])], 0)),
        ShapeError::ListRank { index: 1, rank: 1, expected: 2, .. }
    ));
    assert!(matches!(
        refusal(b.concat(&vec![t(1, &[2, 3]), t(2, &[1, 3]), t(3, &[2, 4])], 0)),
        ShapeError::ListExtent { index: 2, axis: 1, extent: 4, expected: 3, .. }
    ));
    let p = b.concat(&vec![t(1, &[2, 3]), t(2, &[1, 3])], 0).unwrap();
    assert_eq!(p.out.shape(), &[3, 3][..]);
}

#[test]
fn convolutions_that_do_not_fit() {
    let b = CudaBackend::new();
    let x = t(1, &[1, 4, 5]);
    assert!(matches!(
        refusal(b.conv1d(&t(1, &[4, 5]), &t(2, &[2, 4, 3]), None, 1, 0, 1)),
        ShapeError::WrongRank { rank: 2, expected: 3, .. }
    ));
    assert!(matches!(
        refusal(b.conv1d(&x, &t(2, &[2, 4]), None, 1, 0, 1)),
        ShapeError::WrongRank { rank: 2, expected: 3, .. }
    ));
    assert!(matches!(
        refusal(b.conv1d(&x, &t(2, &[2, 4, 3]), None, 0, 0, 1)),
        ShapeError::MustBePositive { .. }
    ));
    assert!(matches!(
        refusal(b.conv1d(&x, &t(2, &[2, 4, 9]), None, 1, 1, 1)),
        ShapeError::WindowTooWide { padded: 7, window: 9, .. }
    ));
    assert!(matches!(
        refusal(b.conv1d(&x, &t(2, &[2, 3, 3]), None, 1, 0, 1)),
        ShapeError::Groups { channels: 4, per_group: 3, groups: 1, .. }
    ));
    assert!(matches!(
        refusal(b.conv1d(&x, &t(2, &[3, 2, 3]), None, 1, 0, 2)),
        ShapeError::NotMultiple { len: 3, unit: 2, .. }
    ));
    let p = b.conv1d(&x, &t(2, &[6, 2, 3]), None, 2, 1, 2).unwrap();
    assert_eq!(p.out.shape(), &[1, 6, 3][..]);
}

#[test]
fn scans_that_do_not_fit() {
    let b = CudaBackend::new();
    let (x, a) = (t(1, &[1, 4, 2, 3]), t(2, &[1, 4, 2]));
    let (bb, c) = (t(3, &[1, 4, 2, 5]), t(4, &[1, 4, 2, 5]));
    assert!(matches!(b.ssd_scan(&x, &a, &bb, &c, 2), Ok(ScanOutcome::Kernel(_))));
    // Lengths that are no multiple of the chunk are composed from other
    // operations.
    assert!(matches!(b.ssd_scan(&x, &a, &bb, &c, 3), Ok(ScanOutcome::Compose)));
    assert!(matches!(b.ssd_scan(&x, &a, &bb, &c, 0), Ok(ScanOutcome::Compose)));
    assert!(matches!(
        refusal(b.ssd_scan(&t(1, &[1, 4, 6]), &a, &bb, &c, 2)),
        ShapeError::WrongRank { rank: 3, expected: 4, .. }
    ));
    assert!(matches!(
        refusal(b.ssd_scan(&x, &t(2, &[1, 4, 3]), &bb, &c, 2)),
        ShapeError::ShapesDiffer { op: "ssd_scan: a" }
    ));
    assert!(matches!(
        refusal(b.ssd_scan(&x, &a, &t(3, &[1, 5, 2, 5]), &c, 2)),
        ShapeError::ShapesDiffer { op: "ssd_scan: b" }
    ));
    assert!(matches!(
        refusal(b.ssd_scan(&x, &a, &bb, &t(4, &[1, 4, 2, 6]), 2)),
        ShapeError::ShapesDiffer { op: "ssd_scan: c" }
    ));
    let wide = t(3, &[1, 4, 2, 4000]);
    assert!(matches!(
        refusal(b.ssd_scan(&x, &a, &wide, &wide, 2)),
        ShapeError::AboveLimit { size: 4000, .. }
    ));
    let (x, a) = (t(1, &[1, 200, 2, 3]), t(2, &[1, 200, 2]));
    let n = t(3, &[1, 200, 2, 5]);
    assert!(matches!(
        refusal(b.ssd_scan(&x, &a, &n, &n, 200)),
        ShapeError::AboveLimit { size: 200, .. }
    ));
}

#[test]
fn operations_on_graph_tensors_are_recorded() {
    let mut b = CudaBackend::new();
    let w = param(&mut b, &[2, 3]);
    assert_eq!(b.tape_len(), 1);
    let x = t(9, &[2, 3]);
    let p = b.add(&x, &x).unwrap();
    let y = commit(&mut b, p);
    assert_eq!(y.node_id, None);
    assert_eq!(b.tape_len(), 1);
    let p = b.add(&x, &w).unwrap();
    let y = commit(&mut b, p);
    assert_eq!(b.tape_len(), 2);
    let n = y.node_id.expect("a node");
    assert_eq!(n.index, 1);
    match b.tape.get(n) {
        TapeOp::Add { lhs, rhs, lhs_shape, rhs_shape } => {
            assert_eq!(*lhs, None);
            assert_eq!(*rhs, w.node_id);
            assert_eq!(**lhs_shape, vec![2, 3]);
            assert_eq!(**rhs_shape, vec![2, 3]);
        }
        _ => panic!("another entry"),
    }
    assert_eq!(backward_op_name(b.tape.get(n)), "vjp:Add");
    let p = b.exp(&y).unwrap();
    let z = commit(&mut b, p);
    match b.tape.get(z.node_id.expect("a node")) {
        TapeOp::Exp { input, out_val } => {
            assert_eq!(*input, Some(n));
            assert_eq!(out_val.slice(), z.slice());
        }
        _ => panic!("another entry"),
    }
}

#[test]
fn clearing_retires_nodes_and_parameters_survive() {
    let mut tape = Tape::new();
    let p = ParamId(4);
    let first = tape.push_leaf(p, &dims(&[2]));
    let leaf = t(1, &[2]).with_node_id(first).with_origin(p);
    assert_eq!(leaf.node_id(&mut tape), Some(first));
    assert_eq!(tape.len(), 1);
    let other = tape.push(
        TapeOp::Neg { input: Some(first) },
        &dims(&[2]),
        Mark { smooth: true, short: true },
    );
    let derived = t(2, &[2]).with_node_id(other);
    assert_eq!(derived.node_id(&mut tape), Some(other));
    tape.clear();
    assert_eq!(tape.len(), 0);
    // Asked for again after the tape was cleared, the parameter gets one new
    // entry, however often it is asked for.
    let again = leaf.node_id(&mut tape).expect("a node");
    assert_ne!(again, first);
    assert_eq!(leaf.node_id(&mut tape), Some(again));
    assert_eq!(tape.len(), 1);
    tape.truncate(0);
    assert_eq!(tape.len(), 0);
}

#[test]
fn parameters_get_fresh_identifiers() {
    let mut b = CudaBackend::new();
    let first = b.alloc_param_id();
    let second = b.alloc_param_id();
    assert_ne!(first, second);
    let x = t(1, &[2]);
    let p = b.param_from_tensor(&x);
    assert_ne!(p.param_id(), second);
    assert_eq!(p.as_tensor().slice(), x.slice());
    assert_eq!(p.as_tensor().origin, Some(p.param_id()));
}

#[test]
fn updates_replace_the_leaf() {
    let mut b = CudaBackend::new();
    let (id, p) = b.param_from_slice_f32(1, &dims(&[1]));
    let h = handles(&p, 500);
    let mut w = b.new_param(id, p, &h);
    let before = w.as_tensor().node_id;
    b.assign(&mut w, &t(9, &[1])).unwrap();
    assert_ne!(w.as_tensor().node_id, before);
    assert_eq!(w.as_tensor().slice(), t(9, &[1]).slice());
    // Whatever still holds the old value is led to the latest leaf.
    let mut tape = Tape::new();
    let first = tape.push_leaf(ParamId(1), &dims(&[1]));
    let old = t(1, &[1]).with_node_id(first).with_origin(ParamId(1));
    let second = tape.push_leaf(ParamId(1), &dims(&[1]));
    assert_eq!(old.node_id(&mut tape), Some(second));
}

#[test]
fn gradients_read_what_was_set() {
    let mut s = CudaGradStore::new();
    assert!(s.gradient(ParamId(3)).is_none());
    s.set_gradient(ParamId(3), t(5, &[2]));
    s.set_gradient(ParamId(4), t(6, &[1]));
    assert_eq!(s.gradient(ParamId(3)).unwrap().slice(), t(5, &[2]).slice());
    s.set_gradient(ParamId(3), t(7, &[2]));
    assert_eq!(s.gradient(ParamId(3)).unwrap().slice(), t(7, &[2]).slice());
    assert_eq!(s.gradient(ParamId(4)).unwrap().slice(), t(6, &[1]).slice());
    let b = CudaBackend::new();
    let p = b.merge_grad_stores(&mut s, CudaGradStore::new());
    assert_eq!(p.commands.len(), 0);
    assert_eq!(s.gradient(ParamId(3)).unwrap().slice(), t(7, &[2]).slice());
}

#[test]
fn losses_outside_the_graph_have_no_walk() {
    let mut b = CudaBackend::new();
    assert!(matches!(b.backward(&t(1, &[1])), Ok(None)));
    assert!(matches!(refusal(b.backward(&t(1, &[2]))), ShapeError::NotScalar { numel: 2 }));
}

#[test]
fn walks_can_be_interrupted() {
    let mut b = CudaBackend::new();
    let w = param(&mut b, &[1]);
    let p = b.mul(&w, &w).unwrap();
    let y = commit(&mut b, p);
    let p = b.exp(&y).unwrap();
    let z = commit(&mut b, p);
    let mut whole = b.backward(&z).unwrap().expect("a walk");
    assert!(!whole.advance(&b, 0).unwrap());
    let mut steps = b.backward(&z).unwrap().expect("a walk");
    while steps.index > 0 {
        let lo = steps.index - 1;
        assert!(!steps.advance(&b, lo).unwrap());
    }
    assert_eq!(
        format!("{:?}", whole.walk.program.commands),
        format!("{:?}", steps.walk.program.commands)
    );
}
