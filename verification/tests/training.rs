//! Whole training steps, run on a device that is simulated on the host with
//! double precision: every program that the planner makes is executed, and
//! gradients are held against difference quotients.

use pm_cuda::activate::Curve;
use pm_cuda::backend::{CudaBackend, Planned};
use pm_cuda::backward::Backward;
use pm_cuda::compound::ScanOutcome;
use pm_cuda::conv::ConvDims;
use pm_cuda::depthwise::{
    depthwise_conv1d_bwd_w_f32, depthwise_conv1d_bwd_x_f32, depthwise_conv1d_fwd_f32,
};
use pm_cuda::error::CudaError;
use pm_cuda::gemm::Gemm;
use pm_cuda::grad::CudaGradStore;
use pm_cuda::index::{strided_source, transpose_2d_source, Window};
use pm_cuda::lanes::{cumsum_rows, partial_sum, reduce_axis, reverse_cumsum_rows};
use pm_cuda::launch::{Arg, Buffer, Kernel, Launch, Real};
use pm_cuda::norm::{log_softmax_row, rmsnorm_back_row, rmsnorm_row, rmsnorm_weight_chunk};
use pm_cuda::param::CudaParam;
use pm_cuda::program::{Command, HostTask, Program};
use pm_cuda::scan::{Arith, ScanData};
use pm_cuda::scatter::{
    column_sources, embedding_sources, gather_sources, read_all, scatter_add,
};
use pm_cuda::ssd::ScanDims;
use pm_cuda::tape::{Mark, TapeOp};
use pm_cuda::tensor::{CudaStorage, CudaTensor, Shape};
use pm_cuda::walkable::{is_regular, is_short};
use std::collections::HashMap;
use std::sync::Arc;

#[derive(Clone, Debug)]
enum Data {
    F(Vec<f64>),
    I(Vec<i64>),
}

/// The simulated device: what every buffer holds.
struct Device {
    mem: HashMap<u64, Data>,
    next: u64,
    launches: Vec<Kernel>,
}

/// The arguments of a launch, sorted by kind.
struct Taken {
    srcs: Vec<u64>,
    words: Vec<u32>,
    reals: Vec<f64>,
    tables: Vec<Vec<u32>>,
}

fn plus(x: f64, y: f64) -> f64 {
    x + y
}

fn times(x: f64, y: f64) -> f64 {
    x * y
}

fn minus(x: f64, y: f64) -> f64 {
    x - y
}

fn number(r: Real) -> f64 {
    match r {
        Real::Bits(b) => f32::from_bits(b) as f64,
        Real::OneOver(n) => 1.0 / n as f64,
    }
}

fn conv_dims(w: &[u32]) -> ConvDims {
    ConvDims {
        batch: w[0] as usize,
        c_in: w[1] as usize,
        t_in: w[2] as usize,
        t_out: w[3] as usize,
        k_size: w[4] as usize,
        stride: w[5] as usize,
        padding: w[6] as usize,
    }
}

impl Device {
    fn new() -> Device {
        Device { mem: HashMap::new(), next: 1, launches: Vec::new() }
    }

    fn store(&mut self, d: Data) -> u64 {
        let id = self.next;
        self.next += 1;
        self.mem.insert(id, d);
        id
    }

    fn floats(&self, id: u64) -> Vec<f64> {
        match &self.mem[&id] {
            Data::F(v) => v.clone(),
            Data::I(_) => panic!("buffer {} holds integers", id),
        }
    }

    fn ints(&self, id: u64) -> Vec<i64> {
        match &self.mem[&id] {
            Data::I(v) => v.clone(),
            Data::F(_) => panic!("buffer {} holds floats", id),
        }
    }

    /// What a settled tensor holds.
    fn read(&self, t: &CudaTensor) -> Vec<f64> {
        let id = match &t.storage {
            CudaStorage::F32(b) => **b,
            CudaStorage::I64(_) => panic!("not a float tensor"),
        };
        match id {
            Buffer::Global(k) => self.floats(k),
            Buffer::Local(k) => panic!("buffer {} of a program that has ended", k),
        }
    }

    /// Runs a program, and sees to it that no buffer changes that was there
    /// before.
    fn run(&mut self, program: &Program, upload: Option<Data>) -> Vec<Arc<Buffer>> {
        let before = self.mem.clone();
        let handles = self.perform(program, upload);
        for (id, data) in before.iter() {
            assert!(same(data, &self.mem[id]), "buffer {} was overwritten", id);
        }
        handles
    }

    fn perform(&mut self, program: &Program, upload: Option<Data>) -> Vec<Arc<Buffer>> {
        let mut handles: Vec<u64> = Vec::new();
        for c in program.commands.iter() {
            let at = |b: Buffer| match b {
                Buffer::Global(id) => id,
                Buffer::Local(k) => handles[k],
            };
            let id = match c {
                Command::Zeros { len } => self.store(Data::F(vec![0.0; *len])),
                Command::Ones { len } => self.store(Data::F(vec![1.0; *len])),
                Command::Upload { len } => {
                    let data = upload.clone().expect("data to upload");
                    match &data {
                        Data::F(v) => assert_eq!(v.len(), *len),
                        Data::I(v) => assert_eq!(v.len(), *len),
                    }
                    self.store(data)
                }
                Command::Copy { src } => {
                    let d = self.mem[&at(*src)].clone();
                    self.store(d)
                }
                Command::Host { task, inputs } => {
                    let ids: Vec<u64> = inputs.iter().map(|b| at(*b)).collect();
                    let d = self.host(task, &ids);
                    self.store(d)
                }
                Command::Launch(l) => {
                    let dst = at(l.dst);
                    let mut t = Taken {
                        srcs: Vec::new(),
                        words: Vec::new(),
                        reals: Vec::new(),
                        tables: Vec::new(),
                    };
                    for a in l.args.iter() {
                        match a {
                            Arg::Dst => {}
                            Arg::Src(b) => t.srcs.push(at(*b)),
                            Arg::Word(w) => t.words.push(*w),
                            Arg::Real(r) => t.reals.push(number(*r)),
                            Arg::Table(v) => t.tables.push(v.clone()),
                        }
                    }
                    self.launch(l, dst, &t);
                    u64::MAX
                }
                Command::Gemm(g) => {
                    let (a, b, dst) = (at(g.a), at(g.b), at(g.dst));
                    self.gemm(g, a, b, dst);
                    u64::MAX
                }
            };
            handles.push(id);
        }
        handles.into_iter().map(|k| Arc::new(Buffer::Global(k))).collect()
    }

    fn gemm(&mut self, g: &Gemm, a: u64, b: u64, dst: u64) {
        let (va, vb) = (self.floats(a), self.floats(b));
        let mut out = self.floats(dst);
        let c = g.config;
        let (count, sa, sb, sc) = match g.batching {
            None => (1, 0, 0, 0),
            Some(x) => (x.batch_size, x.stride_a, x.stride_b, x.stride_c),
        };
        for q in 0..count as usize {
            let (oa, ob, oc) = (q * sa as usize, q * sb as usize, q * sc as usize);
            for j in 0..c.n as usize {
                for i in 0..c.m as usize {
                    let mut acc = 0.0;
                    for l in 0..c.k as usize {
                        let pa = if c.trans_a { i * c.lda as usize + l } else { l * c.lda as usize + i };
                        let pb = if c.trans_b { l * c.ldb as usize + j } else { j * c.ldb as usize + l };
                        acc += va[oa + pa] * vb[ob + pb];
                    }
                    out[oc + j * c.ldc as usize + i] = acc;
                }
            }
        }
        self.mem.insert(dst, Data::F(out));
    }

    fn host(&self, task: &HostTask, ids: &[u64]) -> Data {
        if let HostTask::SwapIndexAxes { .. } = task {
            let ins: Vec<Vec<i64>> = ids.iter().map(|k| self.ints(*k)).collect();
            let keep = |x: i64, _: i64| x;
            return Data::I(task.run(&ins, 0, keep, keep, keep).expect("data that fits"));
        }
        let ins: Vec<Vec<f64>> = ids.iter().map(|k| self.floats(*k)).collect();
        Data::F(task.run(&ins, 0.0, plus, minus, times).expect("data that fits"))
    }

    fn launch(&mut self, l: &Launch, dst: u64, t: &Taken) {
        self.launches.push(l.kernel);
        let old = self.floats(dst);
        let n = old.len();
        let src = |k: usize| self.floats(t.srcs[k]);
        let w = &t.words;
        let curve = Curve {
            zero: 0.0,
            one: 1.0,
            plus,
            times,
            negate: |x: f64| -x,
            exp: |x: f64| x.exp(),
            invert: |x: f64| 1.0 / x,
            log: |x: f64| x.ln(),
            above: |x: f64, y: f64| x > y,
        };
        let out: Vec<f64> = match l.kernel {
            Kernel::Add => zip(src(0), src(1), plus),
            Kernel::Sub => zip(src(0), src(1), minus),
            Kernel::Mul => zip(src(0), src(1), times),
            Kernel::Div => zip(src(0), src(1), |x, y| x / y),
            Kernel::Neg => src(0).iter().map(|x| -x).collect(),
            Kernel::Exp => src(0).iter().map(|x| x.exp()).collect(),
            Kernel::Sqrt => src(0).iter().map(|x| x.sqrt()).collect(),
            Kernel::MulScalar => src(0).iter().map(|x| x * t.reals[0]).collect(),
            Kernel::AddScalar => src(0).iter().map(|x| x + t.reals[0]).collect(),
            Kernel::Sigmoid => src(0).iter().map(|x| curve.sigmoid(*x)).collect(),
            Kernel::Silu => src(0).iter().map(|x| curve.silu(*x)).collect(),
            Kernel::Softplus => src(0).iter().map(|x| curve.softplus(*x)).collect(),
            Kernel::Transpose2d => {
                let s = src(0);
                (0..n as u32).map(|i| s[transpose_2d_source(i, w[0], w[1]) as usize]).collect()
            }
            Kernel::TransposeNd => {
                let s = src(0);
                let (a, b) = (&t.tables[1], &t.tables[0]);
                (0..n as u32).map(|i| s[strided_source(i, a, b) as usize]).collect()
            }
            Kernel::NarrowCopy => {
                let s = src(0);
                let v = Window { outer: w[0], axis: w[1], len: w[2], start: w[3], inner: w[4] };
                (0..n as u32).map(|i| s[v.narrow_source(i) as usize]).collect()
            }
            Kernel::NarrowBackward => {
                let s = src(0);
                let outer = w[4] / (w[0] * w[3]);
                let v = Window { outer, axis: w[0], len: w[1], start: w[2], inner: w[3] };
                (0..n as u32)
                    .map(|i| v.narrow_back_source(i).map_or(0.0, |p| s[p as usize]))
                    .collect()
            }
            Kernel::BroadcastCopy => {
                let s = src(0);
                let (a, b) = (&t.tables[1], &t.tables[0]);
                (0..n as u32).map(|i| s[strided_source(i, a, b) as usize]).collect()
            }
            Kernel::BroadcastMul => {
                let (x, y) = (src(0), src(1));
                let o = &t.tables[2];
                (0..n as u32)
                    .map(|i| {
                        x[strided_source(i, o, &t.tables[0]) as usize]
                            * y[strided_source(i, o, &t.tables[1]) as usize]
                    })
                    .collect()
            }
            Kernel::CumsumLastdim => {
                cumsum_rows(&src(0), w[0] as usize, w[1] as usize, 0.0, plus)
            }
            Kernel::ReverseCumsumLastdim => {
                reverse_cumsum_rows(&src(0), w[0] as usize, w[1] as usize, 0.0, plus)
            }
            Kernel::RmsNorm => {
                let (x, wt) = (src(0), src(1));
                let (d, eps) = (w[1] as usize, t.reals[0]);
                let inverse = |s: f64| 1.0 / (s / d as f64 + eps).sqrt();
                let mut out = Vec::new();
                for r in 0..w[0] as usize {
                    out.extend(rmsnorm_row(&x[r * d..(r + 1) * d], &wt, 0.0, &plus, &times, &inverse));
                }
                out
            }
            Kernel::RmsNormBackwardX => {
                let (go, x, wt) = (src(0), src(1), src(2));
                let (d, eps) = (w[1] as usize, t.reals[0]);
                let inverse = |s: f64| 1.0 / (s / d as f64 + eps).sqrt();
                let spread = |s: f64| s / d as f64;
                let mut out = Vec::new();
                for r in 0..w[0] as usize {
                    let k = r * d..(r + 1) * d;
                    out.extend(rmsnorm_back_row(
                        &go[k.clone()],
                        &x[k],
                        &wt,
                        l.config.block_dim.0 as usize,
                        0.0,
                        &plus,
                        &times,
                        &minus,
                        &inverse,
                        &spread,
                    ));
                }
                out
            }
            Kernel::RmsNormBackwardWPartial => {
                let (go, x) = (src(0), src(1));
                let (rows, d, per, chunks) =
                    (w[0] as usize, w[1] as usize, w[2] as usize, w[3] as usize);
                let eps = t.reals[0];
                let inverse = |s: f64| 1.0 / (s / d as f64 + eps).sqrt();
                let mut out = Vec::new();
                for c in 0..chunks {
                    for col in 0..d {
                        let to = rows.min((c + 1) * per);
                        out.push(rmsnorm_weight_chunk(
                            &go, &x, d, col, c * per, to, 0.0, &plus, &times, &inverse,
                        ));
                    }
                }
                out
            }
            Kernel::LogSoftmaxLastdim => {
                let x = src(0);
                let d = w[1] as usize;
                let above = |a: f64, b: f64| a > b;
                let part = |v: f64, m: f64| (v - m).exp();
                let log = |s: f64| s.ln();
                let mut out = Vec::new();
                for r in 0..w[0] as usize {
                    let row = &x[r * d..(r + 1) * d];
                    out.extend(log_softmax_row(row, 0.0, &plus, &minus, &above, &part, &log));
                }
                out
            }
            Kernel::Embedding => {
                let at = embedding_sources(&self.ints(t.srcs[1]), w[1], w[2]);
                read_all(&src(0), &at, 0.0)
            }
            Kernel::ScatterAddEmbedding => {
                let at = embedding_sources(&self.ints(t.srcs[0]), w[1], w[2]);
                let mut out = old;
                scatter_add(&mut out, &at, &src(1), &plus);
                out
            }
            Kernel::GatherLastdim => {
                let s = src(0);
                let rows = s.len() as u32 / w[1];
                let at = gather_sources(&self.ints(t.srcs[1]), w[1], w[2], rows);
                read_all(&s, &at, 0.0)
            }
            Kernel::ScatterAddGatherLastdim => {
                let mut out = old;
                let rows = out.len() as u32 / w[1];
                let at = gather_sources(&self.ints(t.srcs[0]), w[1], w[2], rows);
                scatter_add(&mut out, &at, &src(1), &plus);
                out
            }
            Kernel::Im2col => read_all(&src(0), &column_sources(&conv_dims(w)), 0.0),
            Kernel::Col2im => {
                let mut out = old;
                scatter_add(&mut out, &column_sources(&conv_dims(w)), &src(0), &plus);
                out
            }
            Kernel::DepthwiseConv1dFwd => {
                let (x, wt, bias) = (src(0), src(1), src(2));
                let with = if w[7] == 1 { Some(&bias) } else { None };
                depthwise_conv1d_fwd_f32(&x, &wt, with, &conv_dims(w), 0.0, &plus, &times)
            }
            Kernel::DepthwiseConv1dBwdX => {
                depthwise_conv1d_bwd_x_f32(&src(0), &src(1), &conv_dims(w), 0.0, &plus, &times)
            }
            Kernel::DepthwiseConv1dBwdW => depthwise_conv1d_bwd_w_f32(
                &src(0),
                &src(1),
                &conv_dims(w),
                l.config.block_dim.0 as usize,
                0.0,
                &plus,
                &times,
            ),
            Kernel::ReduceSumDimKeepdim => {
                reduce_axis(&src(0), w[0] as usize, w[1] as usize, w[2] as usize, 0.0, plus)
            }
            Kernel::SumReducePartial => {
                let s = src(0);
                (0..w[1] as usize)
                    .map(|c| partial_sum(&s, c, w[1] as usize, 0.0, &plus))
                    .collect()
            }
            Kernel::SsdScanChunked | Kernel::SsdScanChunkedP1 => {
                let d = ScanDims {
                    batch: w[0] as usize,
                    t_len: w[1] as usize,
                    n_heads: w[2] as usize,
                    p_dim: w[3] as usize,
                    n_dim: w[4] as usize,
                    block_len: w[5] as usize,
                };
                let data = ScanData { x: src(0), a: src(1), b: src(2), c: src(3) };
                let arith = Arith { zero: 0.0, plus, times, minus, exp: |v: f64| v.exp() };
                if l.kernel == Kernel::SsdScanChunked {
                    arith.ssd_scan_chunked(&data, &d)
                } else {
                    arith.ssd_scan_chunked_p1(&data, &d)
                }
            }
        };
        assert_eq!(out.len(), n, "{}", l.kernel.symbol());
        self.mem.insert(dst, Data::F(out));
    }
}

fn same(a: &Data, b: &Data) -> bool {
    match (a, b) {
        (Data::F(x), Data::F(y)) => {
            x.len() == y.len() && x.iter().zip(y).all(|(p, q)| p.to_bits() == q.to_bits())
        }
        (Data::I(x), Data::I(y)) => x == y,
        _ => false,
    }
}

fn zip<F: Fn(f64, f64) -> f64>(a: Vec<f64>, b: Vec<f64>, f: F) -> Vec<f64> {
    a.iter().zip(b.iter()).map(|(x, y)| f(*x, *y)).collect()
}

/// A backend, its device and the parameters made so far.
struct Rig {
    bk: CudaBackend,
    dev: Device,
}

fn dims(s: &[usize]) -> Shape {
    Arc::new(s.to_vec())
}

fn bits(x: f32) -> Real {
    Real::Bits(x.to_bits())
}

impl Rig {
    fn new() -> Rig {
        Rig { bk: CudaBackend::new(), dev: Device::new() }
    }

    fn done(&mut self, p: Planned) -> CudaTensor {
        let h = self.dev.run(&p.program, None);
        self.bk.commit(p, &h)
    }

    fn op(&mut self, r: Result<Planned, CudaError>) -> CudaTensor {
        let p = r.expect("a plan");
        self.done(p)
    }

    fn tensor(&mut self, data: &[f64], s: &[usize]) -> CudaTensor {
        let p = self.bk.from_slice_f32(data.len(), &dims(s));
        let h = self.dev.run(&p.program, Some(Data::F(data.to_vec())));
        self.bk.commit(p, &h)
    }

    fn index(&mut self, data: &[i64], s: &[usize]) -> CudaTensor {
        let p = self.bk.from_slice_i64(data.len(), &dims(s)).expect("a plan");
        let h = self.dev.run(&p.program, Some(Data::I(data.to_vec())));
        self.bk.commit(p, &h)
    }

    fn param(&mut self, data: &[f64], s: &[usize]) -> CudaParam {
        let (id, p) = self.bk.param_from_slice_f32(data.len(), &dims(s));
        let h = self.dev.run(&p.program, Some(Data::F(data.to_vec())));
        self.bk.new_param(id, p, &h)
    }

    fn settle(&mut self, b: &mut Backward) {
        let h = self.dev.run(&b.walk.program, None);
        b.settle(&h);
    }

    /// The gradients of all parameters, with scans differentiated through
    /// their composition of elementary operations.
    fn backward(&mut self, loss: &CudaTensor) -> CudaGradStore {
        assert!(self.bk.is_differentiable(loss));
        let mut b = match self.bk.backward(loss).expect("a walk") {
            None => return CudaGradStore::new(),
            Some(b) => b,
        };
        while b.advance(&self.bk, 0).expect("a step") {
            self.settle(&mut b);
            let frame = self.bk.begin_scan(&mut b).expect("a scan");
            let y = self.scan_by_steps(
                &frame.x.leaf,
                &frame.a.leaf,
                &frame.b.leaf,
                &frame.c.leaf,
            );
            let p = self.bk.weigh_scan(&frame, &y);
            let weighted = self.op(p);
            let p = self.bk.sum_all(&weighted);
            let phantom = self.op(p);
            assert!(frame.is_weighed(&self.bk.tape, &y, &phantom));
            assert!(!frame.is_weighed(&self.bk.tape, &frame.grad, &phantom));
            assert!(!frame.is_weighed(&self.bk.tape, &y, &weighted));
            let root = phantom.node_id.expect("a node");
            assert!(self.bk.tape.can_walk(root, frame.start, true));
            self.bk.end_scan(&mut b, frame, &y, &phantom).expect("a scan");
        }
        let h = self.dev.run(&b.walk.program, None);
        self.bk.finish(b, &h)
    }

    fn part(&mut self, x: &CudaTensor, t: usize, shape: &[usize]) -> CudaTensor {
        let p = self.bk.narrow(x, 1, t, 1);
        let v = self.op(p);
        let p = self.bk.reshape(&v, &dims(shape));
        self.op(p)
    }

    /// The recurrence of the scan, step by step, by elementary operations:
    /// `h = exp(a) h + x b'`, `y = h c`.
    fn scan_by_steps(
        &mut self,
        x: &CudaTensor,
        a: &CudaTensor,
        b: &CudaTensor,
        c: &CudaTensor,
    ) -> CudaTensor {
        let s: Vec<usize> = x.shape().to_vec();
        let (bt, t_len, h, pd, nd) = (s[0], s[1], s[2], s[3], b.shape()[3]);
        let p = self.bk.zeros(&dims(&[bt, h, pd, nd]), pm_cuda::tensor::Dtype::F32);
        let mut state = self.op(p);
        let mut ys: Vec<CudaTensor> = Vec::new();
        for t in 0..t_len {
            let xt = self.part(x, t, &[bt, h, pd, 1]);
            let bt_ = self.part(b, t, &[bt, h, 1, nd]);
            let ct = self.part(c, t, &[bt, h, nd, 1]);
            let at = self.part(a, t, &[bt, h, 1, 1]);
            let p = self.bk.exp(&at);
            let decay = self.op(p);
            let p = self.bk.mul(&state, &decay);
            let kept = self.op(p);
            let p = self.bk.mul(&xt, &bt_);
            let fresh = self.op(p);
            let p = self.bk.add(&kept, &fresh);
            state = self.op(p);
            let p = self.bk.matmul(&state, &ct);
            let y = self.op(p);
            let p = self.bk.reshape(&y, &dims(&[bt, 1, h, pd]));
            let y = self.op(p);
            ys.push(y);
        }
        let p = self.bk.concat(&ys, 1);
        self.op(p)
    }

    fn close(&self, t: &CudaTensor, want: &[f64]) {
        near(&self.dev.read(t), want, 1e-6);
    }
}

fn near(got: &[f64], want: &[f64], tol: f64) {
    assert_eq!(got.len(), want.len());
    for (i, (g, w)) in got.iter().zip(want.iter()).enumerate() {
        assert!((g - w).abs() <= tol * (1.0 + w.abs()), "at {}: {} but {}", i, g, w);
    }
}

/// Values without pattern between about -1 and 1.
fn values(n: usize, seed: u64) -> Vec<f64> {
    let mut s = seed.wrapping_mul(6364136223846793005).wrapping_add(1442695040888963407);
    let mut v = Vec::new();
    for _ in 0..n {
        s = s.wrapping_mul(6364136223846793005).wrapping_add(1442695040888963407);
        v.push(((s >> 40) % 2001) as f64 / 1000.0 - 1.0);
    }
    v
}

/// Holds the gradients of `f`, summed with uneven weights, against
/// difference quotients in every element of every operand.
fn check_gradients<F>(operands: &[(Vec<f64>, Vec<usize>)], f: F)
where
    F: Fn(&mut Rig, &[CudaTensor]) -> CudaTensor,
{
    let loss_of = |rig: &mut Rig, ts: &[CudaTensor]| -> CudaTensor {
        let y = f(rig, ts);
        let s = y.shape().to_vec();
        let n: usize = s.iter().product();
        let w = rig.tensor(&values(n, 77), &s);
        let p = rig.bk.mul(&y, &w);
        let weighted = rig.op(p);
        let p = rig.bk.sum_all(&weighted);
        rig.op(p)
    };
    let mut rig = Rig::new();
    let params: Vec<CudaParam> = operands.iter().map(|(d, s)| rig.param(d, s)).collect();
    let leaves: Vec<CudaTensor> = params.iter().map(|p| p.as_tensor().clone()).collect();
    let loss = loss_of(&mut rig, &leaves);
    let store = rig.backward(&loss);
    assert_eq!(rig.bk.tape_len(), 0);
    let eval = |data: &[(Vec<f64>, Vec<usize>)]| -> f64 {
        let mut rig = Rig::new();
        let ts: Vec<CudaTensor> = data.iter().map(|(d, s)| rig.tensor(d, s)).collect();
        let loss = loss_of(&mut rig, &ts);
        assert_eq!(rig.bk.tape_len(), 0);
        rig.dev.read(&loss)[0]
    };
    let h = 1e-5;
    for (k, p) in params.iter().enumerate() {
        let got = store.gradient(p.param_id()).expect("a gradient");
        assert_eq!(got.shape().to_vec(), operands[k].1);
        let got = rig.dev.read(&got);
        let mut want = Vec::new();
        for i in 0..operands[k].0.len() {
            let mut up = operands.to_vec();
            let mut down = operands.to_vec();
            up[k].0[i] += h;
            down[k].0[i] -= h;
            want.push((eval(&up) - eval(&down)) / (2.0 * h));
        }
        near(&got, &want, 2e-4);
    }
}

fn operand(s: &[usize], seed: u64) -> (Vec<f64>, Vec<usize>) {
    let n: usize = s.iter().product();
    (values(n, seed), s.to_vec())
}

fn positive(s: &[usize], seed: u64) -> (Vec<f64>, Vec<usize>) {
    let (v, s) = operand(s, seed);
    (v.iter().map(|x| 0.5 + x.abs()).collect(), s)
}

#[test]
fn elementwise_results_are_exact() {
    let mut r = Rig::new();
    let a = r.tensor(&[1.0, 2.0, 3.0, 4.0], &[2, 2]);
    let b = r.tensor(&[10.0, 20.0, 30.0, 40.0], &[2, 2]);
    let p = r.bk.add(&a, &b);
    let t = r.op(p);
    r.close(&t, &[11.0, 22.0, 33.0, 44.0]);
    let p = r.bk.sub(&b, &a);
    let t = r.op(p);
    r.close(&t, &[9.0, 18.0, 27.0, 36.0]);
    let p = r.bk.mul(&a, &b);
    let t = r.op(p);
    r.close(&t, &[10.0, 40.0, 90.0, 160.0]);
    let p = r.bk.div(&b, &a);
    let t = r.op(p);
    r.close(&t, &[10.0, 10.0, 10.0, 10.0]);
    let p = r.bk.neg(&a);
    let t = r.done(p);
    r.close(&t, &[-1.0, -2.0, -3.0, -4.0]);
    let p = r.bk.mul_scalar(&a, bits(0.5));
    let t = r.op(p);
    r.close(&t, &[0.5, 1.0, 1.5, 2.0]);
    let p = r.bk.add_scalar(&a, bits(-1.0));
    let t = r.op(p);
    r.close(&t, &[0.0, 1.0, 2.0, 3.0]);
    let p = r.bk.sqrt(&a);
    let t = r.op(p);
    r.close(&t, &[1.0, 2f64.sqrt(), 3f64.sqrt(), 2.0]);
}

#[test]
fn broadcasts_repeat_the_narrow_operand() {
    let mut r = Rig::new();
    let a = r.tensor(&[1.0, 2.0, 3.0, 4.0, 5.0, 6.0], &[2, 3]);
    let row = r.tensor(&[10.0, 20.0, 30.0], &[3]);
    let col = r.tensor(&[100.0, 200.0], &[2, 1]);
    let p = r.bk.add(&a, &row);
    let t = r.op(p);
    assert_eq!(t.shape(), &[2, 3][..]);
    r.close(&t, &[11.0, 22.0, 33.0, 14.0, 25.0, 36.0]);
    let p = r.bk.sub(&row, &col);
    let t = r.op(p);
    assert_eq!(t.shape(), &[2, 3][..]);
    r.close(&t, &[-90.0, -80.0, -70.0, -190.0, -180.0, -170.0]);
    let p = r.bk.mul(&a, &col);
    let t = r.op(p);
    r.close(&t, &[100.0, 200.0, 300.0, 800.0, 1000.0, 1200.0]);
    let p = r.bk.broadcast_as(&col, &dims(&[2, 2]));
    let t = r.op(p);
    r.close(&t, &[100.0, 100.0, 200.0, 200.0]);
}

#[test]
fn matrix_products_are_exact() {
    let mut r = Rig::new();
    let a = r.tensor(&[1.0, 2.0, 3.0, 4.0, 5.0, 6.0], &[2, 3]);
    let b = r.tensor(&[1.0, 0.0, 0.0, 1.0, 2.0, 2.0], &[3, 2]);
    let p = r.bk.matmul(&a, &b);
    let t = r.op(p);
    assert_eq!(t.shape(), &[2, 2][..]);
    r.close(&t, &[7.0, 8.0, 16.0, 17.0]);
    // One matrix against a stack.
    let s = r.tensor(&[1.0, 0.0, 0.0, 1.0, 2.0, 0.0, 0.0, 2.0], &[2, 2, 2]);
    let m = r.tensor(&[1.0, 2.0, 3.0, 4.0], &[2, 2]);
    let p = r.bk.matmul(&s, &m);
    let t = r.op(p);
    assert_eq!(t.shape(), &[2, 2, 2][..]);
    r.close(&t, &[1.0, 2.0, 3.0, 4.0, 2.0, 4.0, 6.0, 8.0]);
    // Stacks that widen each other.
    let x = r.tensor(&values(2 * 1 * 2 * 3, 5), &[2, 1, 2, 3]);
    let y = r.tensor(&values(1 * 3 * 3 * 2, 6), &[1, 3, 3, 2]);
    let p = r.bk.matmul(&x, &y);
    let t = r.op(p);
    assert_eq!(t.shape(), &[2, 3, 2, 2][..]);
    let (vx, vy) = (r.dev.read(&x), r.dev.read(&y));
    let mut want = Vec::new();
    for i in 0..2 {
        for j in 0..3 {
            for p in 0..2 {
                for q in 0..2 {
                    want.push((0..3).map(|k| vx[i * 6 + p * 3 + k] * vy[j * 6 + k * 2 + q]).sum());
                }
            }
        }
    }
    r.close(&t, &want);
}

#[test]
fn layout_changes_move_every_element() {
    let mut r = Rig::new();
    let v: Vec<f64> = (0..24).map(|i| i as f64).collect();
    let x = r.tensor(&v, &[2, 3, 4]);
    let p = r.bk.transpose(&x, 0, 2);
    let t = r.op(p);
    assert_eq!(t.shape(), &[4, 3, 2][..]);
    let mut want = Vec::new();
    for k in 0..4 {
        for j in 0..3 {
            for i in 0..2 {
                want.push((i * 12 + j * 4 + k) as f64);
            }
        }
    }
    r.close(&t, &want);
    let p = r.bk.transpose(&t, 0, 2);
    let t = r.op(p);
    r.close(&t, &v);
    let p = r.bk.narrow(&x, 1, 1, 2);
    let t = r.op(p);
    assert_eq!(t.shape(), &[2, 2, 4][..]);
    let want: Vec<f64> =
        (4..12).chain(16..24).map(|i: i32| i as f64).collect();
    r.close(&t, &want);
    let p = r.bk.narrow(&x, 1, 0, 1);
    let first = r.op(p);
    let p = r.bk.concat(&vec![first, t], 1);
    let whole = r.op(p);
    assert_eq!(whole.shape(), &[2, 3, 4][..]);
    r.close(&whole, &v);
    let p = r.bk.reshape(&x, &dims(&[6, 4]));
    let flat = r.op(p);
    assert_eq!(flat.shape(), &[6, 4][..]);
    r.close(&flat, &v);
}

#[test]
fn reductions_add_everything_up() {
    let mut r = Rig::new();
    let v: Vec<f64> = (0..50).map(|i| i as f64).collect();
    let x = r.tensor(&v, &[5, 10]);
    let p = r.bk.sum_all(&x);
    let t = r.op(p);
    assert_eq!(t.numel(), 1);
    r.close(&t, &[1225.0]);
    let p = r.bk.mean_all(&x);
    let t = r.op(p);
    r.close(&t, &[24.5]);
    let p = r.bk.cumsum(&x, 0);
    let t = r.op(p);
    let mut want = Vec::new();
    for i in 0..5 {
        for j in 0..10 {
            want.push((0..=i).map(|k| (k * 10 + j) as f64).sum());
        }
    }
    r.close(&t, &want);
}

#[test]
fn rows_are_normalised() {
    let mut r = Rig::new();
    let x = r.tensor(&[3.0, 4.0, 0.0, 2.0], &[2, 2]);
    let w = r.tensor(&[1.0, 10.0], &[2]);
    let p = r.bk.rmsnorm(&x, &w, bits(0.0));
    let t = r.op(p);
    let (a, b) = (12.5f64.sqrt(), 2f64.sqrt());
    r.close(&t, &[3.0 / a, 40.0 / a, 0.0, 20.0 / b]);
    let p = r.bk.log_softmax(&x, 1);
    let t = r.op(p);
    let (l, k) = ((1.0 + 1f64.exp()).ln(), (1.0 + 2f64.exp()).ln());
    r.close(&t, &[-l, 1.0 - l, -k, 2.0 - k]);
}

#[test]
fn lookups_read_the_named_rows() {
    let mut r = Rig::new();
    let table = r.tensor(&[0.0, 1.0, 10.0, 11.0, 20.0, 21.0], &[3, 2]);
    let idx = r.index(&[2, 0, 5, -1], &[2, 2]);
    let p = r.bk.embedding(&table, &idx);
    let t = r.op(p);
    assert_eq!(t.shape(), &[2, 2, 2][..]);
    r.close(&t, &[20.0, 21.0, 0.0, 1.0, 0.0, 0.0, 0.0, 0.0]);
    let pick = r.index(&[1, 0, 1], &[3, 1]);
    let p = r.bk.gather(&table, &pick, 1);
    let t = r.op(p);
    assert_eq!(t.shape(), &[3, 1][..]);
    r.close(&t, &[1.0, 10.0, 21.0]);
    // Along the first axis.
    let pick = r.index(&[2, 1, 0, 2], &[2, 2]);
    let p = r.bk.gather(&table, &pick, 0);
    let t = r.op(p);
    assert_eq!(t.shape(), &[2, 2][..]);
    r.close(&t, &[20.0, 11.0, 0.0, 21.0]);
}

/// A convolution straight from its definition.
fn convolution(
    x: &[f64],
    w: &[f64],
    bias: &[f64],
    (b, ci, ti): (usize, usize, usize),
    (co, k, stride, pad, groups): (usize, usize, usize, usize, usize),
) -> Vec<f64> {
    let to = (ti + 2 * pad - k) / stride + 1;
    let (pi, po) = (ci / groups, co / groups);
    let mut out = Vec::new();
    for n in 0..b {
        for o in 0..co {
            for t in 0..to {
                let mut acc = bias[o];
                for i in 0..pi {
                    for q in 0..k {
                        let at = (t * stride + q) as i64 - pad as i64;
                        if at >= 0 && (at as usize) < ti {
                            let c = (o / po) * pi + i;
                            acc += w[(o * pi + i) * k + q] * x[(n * ci + c) * ti + at as usize];
                        }
                    }
                }
                out.push(acc);
            }
        }
    }
    out
}

#[test]
fn convolutions_follow_their_definition() {
    for (ci, co, groups) in [(4, 6, 1), (4, 6, 2), (4, 4, 4), (1, 2, 1), (1, 1, 1), (2, 4, 2)] {
        for (k, stride, pad) in [(3, 1, 1), (2, 2, 0), (3, 2, 2)] {
            let mut r = Rig::new();
            let (vx, vw, vb) =
                (values(2 * ci * 7, 1), values(co * (ci / groups) * k, 2), values(co, 3));
            let x = r.tensor(&vx, &[2, ci, 7]);
            let w = r.tensor(&vw, &[co, ci / groups, k]);
            let b = r.tensor(&vb, &[co]);
            let p = r.bk.conv1d(&x, &w, Some(&b), stride, pad, groups);
            let t = r.op(p);
            let want = convolution(&vx, &vw, &vb, (2, ci, 7), (co, k, stride, pad, groups));
            r.close(&t, &want);
            let p = r.bk.conv1d(&x, &w, None, stride, pad, groups);
            let t = r.op(p);
            let none = vec![0.0; co];
            let want = convolution(&vx, &vw, &none, (2, ci, 7), (co, k, stride, pad, groups));
            r.close(&t, &want);
        }
    }
}

#[test]
fn scan_kernels_follow_the_recurrence() {
    // The extents that the shared-memory kernel is built for, and others.
    for (pd, nd, t_len, block, kernel) in [
        (3, 2, 6, 3, Kernel::SsdScanChunked),
        (64, 128, 128, 64, Kernel::SsdScanChunkedP1),
    ] {
        let mut r = Rig::new();
        let a: Vec<f64> = values(t_len * 2, 4).iter().map(|v| -v.abs() * 0.1).collect();
        let x = r.tensor(&values(t_len * 2 * pd, 1), &[1, t_len, 2, pd]);
        let at = r.tensor(&a, &[1, t_len, 2]);
        let b = r.tensor(&values(t_len * 2 * nd, 2), &[1, t_len, 2, nd]);
        let c = r.tensor(&values(t_len * 2 * nd, 3), &[1, t_len, 2, nd]);
        let y = match r.bk.ssd_scan(&x, &at, &b, &c, block).expect("a scan") {
            ScanOutcome::Kernel(p) => r.done(p),
            ScanOutcome::Compose => panic!("no kernel"),
        };
        assert_eq!(r.dev.launches.last(), Some(&kernel));
        let (vx, vb, vc) = (r.dev.read(&x), r.dev.read(&b), r.dev.read(&c));
        let mut want = vec![0.0; t_len * 2 * pd];
        for h in 0..2 {
            for p in 0..pd {
                let mut state = vec![0.0; nd];
                for t in 0..t_len {
                    let at = t * 2 + h;
                    for n in 0..nd {
                        state[n] = a[at].exp() * state[n] + vx[at * pd + p] * vb[at * nd + n];
                        want[at * pd + p] += vc[at * nd + n] * state[n];
                    }
                }
            }
        }
        r.close(&y, &want);
    }
}

#[test]
fn gradients_of_elementwise_operations() {
    check_gradients(&[operand(&[2, 3], 1), operand(&[2, 3], 2)], |r, t| {
        let p = r.bk.add(&t[0], &t[1]);
        let s = r.op(p);
        let p = r.bk.mul(&s, &t[1]);
        let m = r.op(p);
        let p = r.bk.sub(&m, &t[0]);
        let d = r.op(p);
        let p = r.bk.neg(&d);
        r.done(p)
    });
    check_gradients(&[operand(&[5], 3), positive(&[5], 4)], |r, t| {
        let p = r.bk.exp(&t[0]);
        let e = r.op(p);
        let p = r.bk.sqrt(&t[1]);
        let s = r.op(p);
        let p = r.bk.div(&e, &s);
        let q = r.op(p);
        let p = r.bk.mul_scalar(&q, bits(0.75));
        let q = r.op(p);
        let p = r.bk.add_scalar(&q, bits(2.0));
        r.op(p)
    });
    check_gradients(&[operand(&[7], 5)], |r, t| {
        let p = r.bk.silu(&t[0]);
        let a = r.op(p);
        let p = r.bk.softplus(&a);
        let b = r.op(p);
        let p = r.bk.sigmoid(&b);
        r.op(p)
    });
}

#[test]
fn gradients_of_broadcasts_sum_back() {
    check_gradients(&[operand(&[2, 3, 2], 1), operand(&[3, 1], 2)], |r, t| {
        let p = r.bk.add(&t[0], &t[1]);
        let a = r.op(p);
        let p = r.bk.mul(&a, &t[1]);
        r.op(p)
    });
    check_gradients(&[operand(&[1, 3], 3), operand(&[2, 1], 4)], |r, t| {
        let p = r.bk.sub(&t[0], &t[1]);
        r.op(p)
    });
    check_gradients(&[operand(&[1, 3], 5)], |r, t| {
        let p = r.bk.broadcast_as(&t[0], &dims(&[2, 3]));
        r.op(p)
    });
}

#[test]
fn gradients_of_matrix_products() {
    check_gradients(&[operand(&[2, 3], 1), operand(&[3, 4], 2)], |r, t| {
        let p = r.bk.matmul(&t[0], &t[1]);
        r.op(p)
    });
    check_gradients(&[operand(&[2, 2, 3], 3), operand(&[3, 2], 4)], |r, t| {
        let p = r.bk.matmul(&t[0], &t[1]);
        r.op(p)
    });
    check_gradients(&[operand(&[2, 1, 2, 2], 5), operand(&[1, 3, 2, 2], 6)], |r, t| {
        let p = r.bk.matmul(&t[0], &t[1]);
        r.op(p)
    });
}

#[test]
fn gradients_of_layout_changes() {
    check_gradients(&[operand(&[2, 3, 4], 1)], |r, t| {
        let p = r.bk.transpose(&t[0], 1, 2);
        let a = r.op(p);
        let p = r.bk.narrow(&a, 1, 1, 2);
        let b = r.op(p);
        let p = r.bk.reshape(&b, &dims(&[4, 3]));
        r.op(p)
    });
    check_gradients(&[operand(&[2, 1], 2), operand(&[2, 3], 3)], |r, t| {
        let p = r.bk.concat(&vec![t[0].clone(), t[1].clone(), t[0].clone()], 1);
        r.op(p)
    });
}

#[test]
fn gradients_of_row_operations() {
    check_gradients(&[operand(&[3, 4], 1), positive(&[4], 2)], |r, t| {
        let p = r.bk.rmsnorm(&t[0], &t[1], bits(0.125));
        r.op(p)
    });
    // More rows than one chunk of the weight gradient holds.
    check_gradients(&[operand(&[2, 10, 3], 7), positive(&[3], 8)], |r, t| {
        let p = r.bk.rmsnorm(&t[0], &t[1], bits(0.125));
        r.op(p)
    });
    check_gradients(&[operand(&[3, 4], 3)], |r, t| {
        let p = r.bk.log_softmax(&t[0], 1);
        r.op(p)
    });
    check_gradients(&[operand(&[3, 4], 4)], |r, t| {
        let p = r.bk.log_softmax(&t[0], 0);
        r.op(p)
    });
    check_gradients(&[operand(&[3, 4], 5)], |r, t| {
        let p = r.bk.cumsum(&t[0], 1);
        let a = r.op(p);
        let p = r.bk.cumsum(&a, 0);
        r.op(p)
    });
    check_gradients(&[operand(&[3, 4], 6)], |r, t| {
        let p = r.bk.mul(&t[0], &t[0]);
        let a = r.op(p);
        let p = r.bk.mean_all(&a);
        r.op(p)
    });
}

#[test]
fn gradients_of_lookups() {
    check_gradients(&[operand(&[3, 2], 1)], |r, t| {
        let idx = r.index(&[2, 0, 2, 2], &[4]);
        let p = r.bk.embedding(&t[0], &idx);
        r.op(p)
    });
    check_gradients(&[operand(&[3, 4], 2)], |r, t| {
        let idx = r.index(&[3, 3, 0, 1, 2, 2], &[3, 2]);
        let p = r.bk.gather(&t[0], &idx, 1);
        r.op(p)
    });
    check_gradients(&[operand(&[3, 2], 3)], |r, t| {
        let idx = r.index(&[2, 1, 0, 0], &[2, 2]);
        let p = r.bk.gather(&t[0], &idx, 0);
        r.op(p)
    });
}

#[test]
fn gradients_of_convolutions() {
    for (ci, co, groups) in [(2, 3, 1), (4, 2, 2), (3, 3, 3), (1, 2, 1), (2, 4, 2)] {
        for (k, stride, pad) in [(3, 1, 1), (2, 2, 1)] {
            let ops = [
                operand(&[2, ci, 5], 1),
                operand(&[co, ci / groups, k], 2),
                operand(&[co], 3),
            ];
            check_gradients(&ops, |r, t| {
                let p = r.bk.conv1d(&t[0], &t[1], Some(&t[2]), stride, pad, groups);
                r.op(p)
            });
            check_gradients(&ops[..2], |r, t| {
                let p = r.bk.conv1d(&t[0], &t[1], None, stride, pad, groups);
                r.op(p)
            });
        }
    }
}

#[test]
fn gradients_of_scans_go_through_the_composition() {
    let ops = [
        operand(&[1, 4, 2, 3], 1),
        operand(&[1, 4, 2], 2),
        operand(&[1, 4, 2, 2], 3),
        operand(&[1, 4, 2, 2], 4),
    ];
    check_gradients(&ops, |r, t| {
        let outcome = r.bk.ssd_scan(&t[0], &t[1], &t[2], &t[3], 2).expect("a scan");
        let y = match outcome {
            ScanOutcome::Kernel(p) => r.done(p),
            ScanOutcome::Compose => panic!("no kernel"),
        };
        // An operation after the scan, and one operand used twice.
        let p = r.bk.mul(&y, &t[0]);
        r.op(p)
    });
}

#[test]
fn uses_of_a_parameter_add_up() {
    let mut r = Rig::new();
    let w = r.param(&[3.0], &[1]);
    let t = w.as_tensor().clone();
    let p = r.bk.mul(&t, &t);
    let sq = r.op(p);
    let p = r.bk.add(&sq, &t);
    let s = r.op(p);
    let store = r.backward(&s);
    let g = store.gradient(w.param_id()).expect("a gradient");
    r.close(&g, &[7.0]);
}

#[test]
fn training_goes_downhill() {
    let mut r = Rig::new();
    let mut w = r.param(&[4.0, -2.0], &[2]);
    let target = r.tensor(&[1.0, 1.0], &[2]);
    let mut last = f64::INFINITY;
    for _ in 0..20 {
        let t = w.as_tensor().clone();
        let p = r.bk.sub(&t, &target);
        let d = r.op(p);
        let p = r.bk.mul(&d, &d);
        let q = r.op(p);
        let p = r.bk.sum_all(&q);
        let loss = r.op(p);
        let now = r.dev.read(&loss)[0];
        assert!(now < last);
        last = now;
        let store = r.backward(&loss);
        let g = store.gradient(w.param_id()).expect("a gradient");
        let p = r.bk.sgd_step(&w, &g, bits(0.25)).expect("a step");
        let h = r.dev.run(&p.program, None);
        r.bk.update(&mut w, p, &h);
    }
    let t = w.as_tensor().clone();
    near(&r.dev.read(&t), &[1.0, 1.0], 1e-4);
}

#[test]
fn a_step_subtracts_the_scaled_gradient() {
    let mut r = Rig::new();
    let mut w = r.param(&[4.0, -2.0], &[2]);
    let before = w.param_id();
    let g = r.tensor(&[1.0, 8.0], &[2]);
    let p = r.bk.sgd_step(&w, &g, bits(0.5)).expect("a step");
    let h = r.dev.run(&p.program, None);
    r.bk.update(&mut w, p, &h);
    assert_eq!(w.param_id(), before);
    let t = w.as_tensor().clone();
    r.close(&t, &[3.5, -6.0]);
    let v = r.tensor(&[9.0, 9.0], &[2]);
    r.bk.assign(&mut w, &v).expect("an assignment");
    let t = w.as_tensor().clone();
    r.close(&t, &[9.0, 9.0]);
    assert_eq!(w.param_id(), before);
    let wrong = r.tensor(&[9.0], &[1]);
    assert!(matches!(r.bk.assign(&mut w, &wrong), Err(CudaError::Shape(_))));
}

#[test]
fn merged_gradients_are_sums() {
    let mut r = Rig::new();
    let w = r.param(&[1.0, 2.0], &[2]);
    let v = r.param(&[5.0], &[1]);
    let ones = r.tensor(&[10.0, 20.0], &[2]);
    let twos = r.tensor(&[1.0, 2.0], &[2]);
    let single = r.tensor(&[7.0], &[1]);
    let mut dst = CudaGradStore::new();
    dst.set_gradient(w.param_id(), ones);
    let mut src = CudaGradStore::new();
    src.set_gradient(w.param_id(), twos);
    src.set_gradient(v.param_id(), single);
    let p = r.bk.merge_grad_stores(&mut dst, src);
    let h = r.dev.run(&p, None);
    dst.settle(&h);
    let g = dst.gradient(w.param_id()).expect("a gradient");
    r.close(&g, &[11.0, 22.0]);
    let g = dst.gradient(v.param_id()).expect("a gradient");
    r.close(&g, &[7.0]);
}

#[test]
fn without_gradients_nothing_is_recorded() {
    let mut r = Rig::new();
    let w = r.param(&[1.0, 2.0], &[2]);
    let len = r.bk.tape_len();
    let t = w.as_tensor().clone();
    let before = r.bk.set_grad(false);
    assert!(before);
    let p = r.bk.mul(&t, &t);
    let y = r.op(p);
    r.close(&y, &[1.0, 4.0]);
    assert_eq!(r.bk.tape_len(), len);
    r.bk.set_grad(before);
    let p = r.bk.mul(&t, &t);
    r.op(p);
    assert!(r.bk.tape_len() > len);
    // The same through the scoped form.
    let len = r.bk.tape_len();
    let Rig { bk, dev: mut device } = r;
    let (bk, y) = bk.no_grad(|b: CudaBackend| {
        let mut b = b;
        assert!(!b.grad_enabled());
        let p = b.exp(&t).expect("a plan");
        let h = device.run(&p.program, None);
        let y = b.commit(p, &h);
        (b, y)
    });
    assert!(bk.grad_enabled());
    assert_eq!(bk.tape_len(), len);
    near(&device.read(&y), &[1f64.exp(), 2f64.exp()], 1e-12);
}

#[test]
fn detached_tensors_carry_no_gradient() {
    let mut r = Rig::new();
    let w = r.param(&[2.0], &[1]);
    let t = w.as_tensor().clone();
    let cut = r.bk.detach(&t);
    let p = r.bk.mul(&t, &cut);
    let y = r.op(p);
    let store = r.backward(&y);
    let g = store.gradient(w.param_id()).expect("a gradient");
    r.close(&g, &[2.0]);
    let p = r.bk.mul(&cut, &cut);
    let z = r.op(p);
    let store = r.backward(&z);
    assert!(store.gradient(w.param_id()).is_none());
}

#[test]
fn a_loss_must_be_a_scalar() {
    let mut r = Rig::new();
    let w = r.param(&[2.0, 3.0], &[2]);
    let t = w.as_tensor().clone();
    let p = r.bk.exp(&t);
    let y = r.op(p);
    assert!(r.bk.backward(&y).is_err());
}

#[test]
fn nodes_of_a_cleared_tape_are_out_of_reach() {
    let mut r = Rig::new();
    let w = r.param(&[2.0], &[1]);
    let t = w.as_tensor().clone();
    let p = r.bk.exp(&t);
    let stale = r.op(p);
    r.bk.reset_tape();
    // The parameter finds its way back onto the new tape; what was computed
    // from it before does not.
    let p = r.bk.mul(&stale, &t);
    let y = r.op(p);
    let store = r.backward(&y);
    let g = store.gradient(w.param_id()).expect("a gradient");
    r.close(&g, &[2f64.exp()]);
}

#[test]
fn the_next_step_works_on_a_fresh_tape() {
    let mut r = Rig::new();
    let w = r.param(&[2.0], &[1]);
    for _ in 0..3 {
        let t = w.as_tensor().clone();
        let p = r.bk.mul(&t, &t);
        let y = r.op(p);
        let store = r.backward(&y);
        assert_eq!(r.bk.tape_len(), 0);
        let g = store.gradient(w.param_id()).expect("a gradient");
        r.close(&g, &[4.0]);
    }
    r.bk.reset_tape();
    assert_eq!(r.bk.tape_len(), 0);
}

#[test]
fn one_channel_becomes_two() {
    let mut r = Rig::new();
    let x = r.tensor(&[1.0, 2.0, 3.0], &[1, 1, 3]);
    let w = r.tensor(&[1.0, 10.0, 100.0, 1000.0], &[2, 1, 2]);
    let p = r.bk.conv1d(&x, &w, None, 1, 0, 1);
    let y = r.op(p);
    assert_eq!(y.shape(), &[1, 2, 2][..]);
    r.close(&y, &[21.0, 32.0, 2100.0, 3200.0]);
    assert!(!r.dev.launches.contains(&Kernel::DepthwiseConv1dFwd));
    // One filter for the one channel is a matter for the depthwise kernel.
    let w = r.tensor(&[1.0, 10.0], &[1, 1, 2]);
    let p = r.bk.conv1d(&x, &w, None, 1, 0, 1);
    let y = r.op(p);
    r.close(&y, &[21.0, 32.0]);
    assert!(r.dev.launches.contains(&Kernel::DepthwiseConv1dFwd));
}

#[test]
fn both_convolutions_agree() {
    // A window of 130 taps is too wide for the depthwise kernel; with zeros at
    // both ends it says the same as one of 128.
    let (c, t) = (3, 140);
    let vx = values(2 * c * t, 5);
    let narrow = values(c * 128, 6);
    let mut wide = Vec::new();
    for k in 0..c {
        wide.push(0.0);
        wide.extend_from_slice(&narrow[k * 128..(k + 1) * 128]);
        wide.push(0.0);
    }
    let mut r = Rig::new();
    let x = r.tensor(&vx, &[2, c, t]);
    let wn = r.tensor(&narrow, &[c, 1, 128]);
    let ww = r.tensor(&wide, &[c, 1, 130]);
    let p = r.bk.conv1d(&x, &wn, None, 1, 1, c);
    let a = r.op(p);
    assert_eq!(r.dev.launches.last(), Some(&Kernel::DepthwiseConv1dFwd));
    let p = r.bk.conv1d(&x, &ww, None, 1, 2, c);
    let b = r.op(p);
    assert_eq!(a.shape(), b.shape());
    let want = r.dev.read(&b);
    r.close(&a, &want);
}

#[test]
fn transposing_an_axis_with_itself_keeps_the_gradient() {
    check_gradients(&[operand(&[2, 3], 1)], |r, t| {
        let before = r.bk.tape_len();
        let p = r.bk.transpose(&t[0], 1, 1);
        let y = r.op(p);
        if before > 0 {
            assert_eq!(r.bk.tape_len(), before + 1);
        }
        assert_eq!(y.shape(), &[2, 3][..]);
        let p = r.bk.mul(&y, &y);
        r.op(p)
    });
}

#[test]
fn a_detached_loss_clears_the_tape() {
    let mut r = Rig::new();
    let w = r.param(&[2.0, 3.0], &[2]);
    let t = w.as_tensor().clone();
    let p = r.bk.exp(&t);
    let y = r.op(p);
    let len = r.bk.tape_len();
    assert!(len > 0);
    assert!(r.bk.backward(&y).is_err());
    assert_eq!(r.bk.tape_len(), len);
    let generation = r.bk.tape.generation;
    let loss = r.tensor(&[1.0], &[1]);
    let store = r.backward(&loss);
    assert!(store.gradient(w.param_id()).is_none());
    assert_eq!(r.bk.tape_len(), 0);
    assert_eq!(r.bk.tape.generation, generation + 1);
}

#[test]
fn scans_are_recomputed_with_recording_on() {
    let run = |quiet: bool| -> Vec<f64> {
        let mut r = Rig::new();
        let x = r.param(&values(24, 1), &[1, 4, 2, 3]);
        let a = r.tensor(&values(8, 2), &[1, 4, 2]);
        let b = r.tensor(&values(16, 3), &[1, 4, 2, 2]);
        let c = r.tensor(&values(16, 4), &[1, 4, 2, 2]);
        let xt = x.as_tensor().clone();
        let y = match r.bk.ssd_scan(&xt, &a, &b, &c, 2).expect("a scan") {
            ScanOutcome::Kernel(p) => r.done(p),
            ScanOutcome::Compose => panic!("no kernel"),
        };
        let p = r.bk.sum_all(&y);
        let loss = r.op(p);
        if quiet {
            r.bk.set_grad(false);
        }
        let store = r.backward(&loss);
        assert_eq!(r.bk.grad_enabled(), !quiet);
        let g = store.gradient(x.param_id()).expect("a gradient");
        r.dev.read(&g)
    };
    near(&run(true), &run(false), 1e-12);
}

#[test]
fn an_abandoned_scan_leaves_no_trace() {
    let mut r = Rig::new();
    let x = r.param(&values(24, 1), &[1, 4, 2, 3]);
    let a = r.tensor(&values(8, 2), &[1, 4, 2]);
    let b = r.tensor(&values(16, 3), &[1, 4, 2, 2]);
    let c = r.tensor(&values(16, 4), &[1, 4, 2, 2]);
    let xt = x.as_tensor().clone();
    let y = match r.bk.ssd_scan(&xt, &a, &b, &c, 2).expect("a scan") {
        ScanOutcome::Kernel(p) => r.done(p),
        ScanOutcome::Compose => panic!("no kernel"),
    };
    let p = r.bk.sum_all(&y);
    let loss = r.op(p);
    let len = r.bk.tape_len();
    r.bk.set_grad(false);
    let mut walk = r.bk.backward(&loss).expect("a walk").expect("a graph");
    assert!(walk.advance(&r.bk, 0).expect("a step"));
    r.settle(&mut walk);
    let frame = r.bk.begin_scan(&mut walk).expect("a scan");
    assert!(r.bk.grad_enabled());
    assert_eq!(r.bk.tape_len(), len + 4);
    let leaf = frame.x.leaf.clone();
    r.bk.abandon_scan(frame);
    assert!(!r.bk.grad_enabled());
    assert_eq!(r.bk.tape_len(), len);
    // The leaf that was cut off gets an entry of its own when asked for.
    let n = leaf.node_id(&mut r.bk.tape).expect("a node");
    assert_eq!(n.index as usize, len);
    assert_eq!(leaf.node_id(&mut r.bk.tape), Some(n));
    assert_eq!(r.bk.tape_len(), len + 1);
}

#[test]
fn scans_depend_on_earlier_steps_only() {
    let (t_len, pd, nd) = (12, 2, 3);
    let scan = |r: &mut Rig, late: f64, block: usize| -> Vec<f64> {
        let tweak = |mut v: Vec<f64>| {
            let from = v.len() / 12 * 7;
            for x in v[from..].iter_mut() {
                *x += late;
            }
            v
        };
        let x = r.tensor(&tweak(values(t_len * 2 * pd, 1)), &[1, t_len, 2, pd]);
        let a = r.tensor(&tweak(values(t_len * 2, 2)), &[1, t_len, 2]);
        let b = r.tensor(&tweak(values(t_len * 2 * nd, 3)), &[1, t_len, 2, nd]);
        let c = r.tensor(&tweak(values(t_len * 2 * nd, 4)), &[1, t_len, 2, nd]);
        match r.bk.ssd_scan(&x, &a, &b, &c, block).expect("a scan") {
            ScanOutcome::Kernel(p) => {
                let y = r.done(p);
                r.dev.read(&y)
            }
            ScanOutcome::Compose => panic!("no kernel"),
        }
    };
    let mut r = Rig::new();
    let base = scan(&mut r, 0.0, 4);
    let late = scan(&mut r, 0.5, 4);
    let early = 7 * 2 * pd;
    assert_eq!(base[..early], late[..early]);
    assert_ne!(base[early..], late[early..]);
    for block in [1, 2, 3, 6, 12] {
        near(&scan(&mut r, 0.0, block), &base, 1e-9);
    }
}

#[test]
fn what_can_be_differentiated_is_known_beforehand() {
    assert!(is_regular(&[2, 3]));
    assert!(is_regular(&[]));
    assert!(is_regular(&[u32::MAX as usize, 1]));
    assert!(!is_regular(&[2, 0, 3]));
    assert!(!is_regular(&[1 << 20, 1 << 12]));
    assert!(!is_regular(&[0, 1 << 33]));
    assert!(is_short(&[0, 1 << 33]));
    assert!(is_short(&[u32::MAX as usize]));
    assert!(!is_short(&[1 << 20, 1 << 12]));
    let mut r = Rig::new();
    let w = r.param(&[1.0, 2.0, 3.0], &[3]);
    let t = w.as_tensor().clone();
    let p = r.bk.sum_all(&t);
    let loss = r.op(p);
    assert!(r.bk.is_differentiable(&loss));
    // An empty tensor on the tape is in the way of what depends on it, and of
    // nothing else.
    let p = r.bk.narrow(&t, 0, 1, 0);
    let none = r.op(p);
    let p = r.bk.concat(&vec![t.clone(), none.clone()], 0);
    let both = r.op(p);
    let p = r.bk.sum_all(&both);
    let blocked = r.op(p);
    assert!(!r.bk.is_differentiable(&blocked));
    assert!(r.bk.is_differentiable(&loss));
    let store = r.backward(&loss);
    let g = store.gradient(w.param_id()).expect("a gradient");
    r.close(&g, &[1.0, 1.0, 1.0]);
    // So is a convolution's bias with more than one axis.
    for (shape, fine) in [(vec![2], true), (vec![1, 2], false)] {
        let bias = r.param(&[1.0, 2.0], &shape);
        let x = r.tensor(&values(6, 1), &[1, 2, 3]);
        let f = r.tensor(&values(4, 2), &[2, 1, 2]);
        let b = bias.as_tensor().clone();
        let p = r.bk.conv1d(&x, &f, Some(&b), 1, 0, 2);
        let y = r.op(p);
        let p = r.bk.sum_all(&y);
        let loss = r.op(p);
        assert_eq!(r.bk.is_differentiable(&loss), fine);
    }
}

#[test]
fn results_are_made_of_untouched_operands() {
    let mut r = Rig::new();
    let a = r.tensor(&[1.0, 2.0], &[2, 1, 1, 1]);
    let b = r.tensor(&[10.0, 20.0], &[1, 2, 1, 1]);
    let p = r.bk.matmul(&a, &b);
    let y = r.op(p);
    assert_eq!(y.shape(), &[2, 2, 1, 1][..]);
    r.close(&y, &[10.0, 20.0, 20.0, 40.0]);
    r.close(&a, &[1.0, 2.0]);
    let x = r.tensor(&[1.0, 2.0, 3.0, 4.0], &[2, 2]);
    let i = r.index(&[1, 0, 2, -1], &[2, 2]);
    let p = r.bk.gather(&x, &i, 0);
    let y = r.op(p);
    r.close(&y, &[3.0, 2.0, 0.0, 0.0]);
    r.close(&x, &[1.0, 2.0, 3.0, 4.0]);
    let x = r.tensor(&[1.0, 2.0, 3.0], &[1, 1, 3]);
    let w = r.tensor(&[1.0, 10.0, 100.0, 1000.0], &[2, 1, 2]);
    let p = r.bk.conv1d(&x, &w, None, 1, 0, 1);
    let y = r.op(p);
    assert_eq!(y.shape(), &[1, 2, 2][..]);
    r.close(&y, &[21.0, 32.0, 2100.0, 3200.0]);
    r.close(&x, &[1.0, 2.0, 3.0]);
    let s = r.tensor(&[1.0, 2.0], &[2, 1]);
    let t = r.tensor(&[3.0, 4.0, 5.0, 6.0], &[2, 2]);
    let p = r.bk.concat(&vec![s, t], 1);
    let y = r.op(p);
    r.close(&y, &[1.0, 3.0, 4.0, 2.0, 5.0, 6.0]);
    let mut w = r.param(&[1.0, 2.0], &[2]);
    let g = r.tensor(&[10.0, 20.0], &[2]);
    r.bk.reset_tape();
    let p = r.bk.sgd_step(&w, &g, bits(0.5)).expect("a step");
    let h = r.dev.run(&p.program, None);
    r.bk.update(&mut w, p, &h);
    let t = w.as_tensor().clone();
    r.close(&t, &[-4.0, -8.0]);
    r.close(&g, &[10.0, 20.0]);
    assert_eq!(r.bk.tape_len(), 1);
}

#[test]
fn gradients_are_made_of_untouched_operands() {
    let mut r = Rig::new();
    let p = r.param(&[2.0, 3.0], &[2]);
    let q = r.param(&[5.0, 7.0], &[2]);
    let (pt, qt) = (p.as_tensor().clone(), q.as_tensor().clone());
    let m = r.bk.mul(&pt, &qt);
    let m = r.op(m);
    let l = r.bk.sum_all(&m);
    let loss = r.op(l);
    let store = r.backward(&loss);
    let (gp, gq) = (store.gradient(p.param_id()), store.gradient(q.param_id()));
    r.close(&gp.expect("a gradient"), &[5.0, 7.0]);
    r.close(&gq.expect("a gradient"), &[2.0, 3.0]);
    assert_eq!(r.bk.tape_len(), 0);
    r.close(&pt, &[2.0, 3.0]);
    // Both factors at one node.
    let s = r.param(&[3.0], &[1]);
    let st = s.as_tensor().clone();
    let m = r.bk.mul(&st, &st);
    let loss = r.op(m);
    let store = r.backward(&loss);
    r.close(&store.gradient(s.param_id()).expect("a gradient"), &[6.0]);
    // Input, weight and bias of a convolution.
    let x = r.param(&[1.0, 2.0], &[1, 2, 1]);
    let w = r.param(&[3.0, 4.0], &[1, 2, 1]);
    let b = r.param(&[0.0], &[1]);
    let ts = [x.as_tensor().clone(), w.as_tensor().clone(), b.as_tensor().clone()];
    let y = r.bk.conv1d(&ts[0], &ts[1], Some(&ts[2]), 1, 0, 1);
    let y = r.op(y);
    let five = r.bk.mul_scalar(&y, bits(5.0));
    let five = r.op(five);
    let l = r.bk.sum_all(&five);
    let loss = r.op(l);
    let store = r.backward(&loss);
    r.close(&store.gradient(x.param_id()).expect("a gradient"), &[15.0, 20.0]);
    r.close(&store.gradient(w.param_id()).expect("a gradient"), &[5.0, 10.0]);
    r.close(&store.gradient(b.param_id()).expect("a gradient"), &[5.0]);
}

#[test]
fn a_failed_scan_step_changes_no_gradient() {
    let mut r = Rig::new();
    let x = r.param(&values(24, 1), &[1, 4, 2, 3]);
    let a = r.tensor(&values(8, 2), &[1, 4, 2]);
    let b = r.tensor(&values(16, 3), &[1, 4, 2, 2]);
    let c = r.tensor(&values(16, 4), &[1, 4, 2, 2]);
    let xt = x.as_tensor().clone();
    let y = match r.bk.ssd_scan(&xt, &a, &b, &c, 2).expect("a scan") {
        ScanOutcome::Kernel(p) => r.done(p),
        ScanOutcome::Compose => panic!("no kernel"),
    };
    let m = r.bk.mul(&y, &xt);
    let m = r.op(m);
    let p = r.bk.sum_all(&m);
    let loss = r.op(p);
    let len = r.bk.tape_len();
    let mut walk = r.bk.backward(&loss).expect("a walk").expect("a graph");
    assert!(walk.advance(&r.bk, 0).expect("a step"));
    r.settle(&mut walk);
    let frame = r.bk.begin_scan(&mut walk).expect("a scan");
    // A transposition of more axes than the kernel takes, on the way from the
    // leaf to the output.
    let fine = Mark { smooth: true, short: true };
    let many = dims(&[1, 1, 1, 1, 1, 1, 4, 2, 3]);
    let leaf = frame.x.leaf.clone();
    let n = leaf.node_id(&mut r.bk.tape);
    let n = r.bk.tape.push(
        TapeOp::Reshape { input: n, orig_shape: leaf.shape.clone() },
        &many,
        fine,
    );
    let n = r.bk.tape.push(TapeOp::Transpose { input: Some(n), dim_a: 0, dim_b: 1 }, &many, fine);
    let n = r.bk.tape.push(
        TapeOp::Reshape { input: Some(n), orig_shape: many.clone() },
        &leaf.shape,
        fine,
    );
    let out = CudaTensor::new(leaf.storage(), leaf.shape.clone()).with_node_id(n);
    let p = r.bk.weigh_scan(&frame, &out);
    let weighted = r.op(p);
    let p = r.bk.sum_all(&weighted);
    let phantom = r.op(p);
    assert!(frame.is_weighed(&r.bk.tape, &out, &phantom));
    assert!(r.bk.tape.can_walk(phantom.node_id.expect("a node"), frame.start, true));
    let held = |w: &Backward, r: &Rig| {
        let mut ks = w.walk.nodes.keys();
        ks.sort();
        let grads = ks.iter().map(|k| r.dev.read(&w.walk.nodes.get(*k).expect("a gradient")));
        let grads: Vec<Vec<f64>> = grads.collect();
        (ks, grads)
    };
    let before = held(&walk, &r);
    assert_eq!(before.0.len(), 1);
    assert!(r.bk.end_scan(&mut walk, frame, &out, &phantom).is_err());
    assert_eq!(held(&walk, &r), before);
    assert_eq!(r.bk.tape_len(), len);
    // The pass can go on without the scan.
    assert!(!walk.advance(&r.bk, 0).expect("a step"));
}
