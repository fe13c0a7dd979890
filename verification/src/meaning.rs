//! What the buffers of a program hold, as numbers: which of the kernels' models
//! describes which kernel, and what follows for tensors.

use crate::activate::Curve;
use crate::conv::ConvDims;
use crate::gemm::{Batching, GemmConfig};
use crate::index::{
    column_from, embedding_from, gather_from, naturals, transposed_from, Window,
};
use crate::lanes::{
    ap, depthwise_back_sum, depthwise_sum, every, fiber, fold, row_of, tap_sums, tree,
};
use crate::launch::{Kernel, LaunchConfig, Real};
use crate::norm::{block_dot, fold_dot, fold_parts, largest, matrix_row, weight_rows};
use crate::program::{HostTaskView, Term, TermArg};
use crate::scan::{ap1, Arith, Head, ScanSeqs};
use crate::scatter::collected;
use crate::shape::{coords, position, strided, swapped};
use crate::ssd::ScanDims;
use vstd::prelude::*;

verus! {

/// What an argument of a kernel is, or what a buffer holds.
pub enum Datum<T> {
    Numbers(Seq<T>),
    Indices(Seq<i64>),
    Word(u32),
    Real(Real),
    Table(Seq<u32>),
}

impl<T> Datum<T> {
    pub open spec fn numbers(self) -> Seq<T> {
        match self {
            Datum::Numbers(s) => s,
            _ => Seq::empty(),
        }
    }

    pub open spec fn indices(self) -> Seq<i64> {
        match self {
            Datum::Indices(s) => s,
            _ => Seq::empty(),
        }
    }

    pub open spec fn word(self) -> u32 {
        match self {
            Datum::Word(w) => w,
            _ => 0,
        }
    }

    pub open spec fn scalar(self) -> Real {
        match self {
            Datum::Real(r) => r,
            _ => Real::Bits(0),
        }
    }

    pub open spec fn table(self) -> Seq<nat> {
        match self {
            Datum::Table(t) => naturals(t),
            _ => Seq::empty(),
        }
    }
}

/// What the buffers outside a program hold.
pub struct World<T> {
    pub inputs: spec_fn(u64) -> Datum<T>,
    pub upload: Datum<T>,
}

/// The arithmetic of a device.
#[verifier::reject_recursive_types(T)]
pub struct Machine<T, A, M, S, E, N, I, L, G, P, R, D> {
    pub arith: Arith<T, A, M, S, E>,
    pub curve: Curve<T, A, M, N, E, I, L, G>,
    pub quotient: spec_fn(T, T) -> T,
    pub root: spec_fn(T) -> T,
    pub number: spec_fn(Real) -> T,
    /// How an element less the largest grows.
    pub part: P,
    /// For a width and an epsilon, the scale that a sum of squares gives.
    pub scale: spec_fn(u32, Real) -> R,
    /// For a width, division by it.
    pub spread: spec_fn(u32) -> D,
}

/// The extents that a convolution's kernels are handed, from argument `k` on.
pub open spec fn conv_words<T>(a: Seq<Datum<T>>, k: int) -> ConvDims {
    ConvDims {
        batch: a[k].word() as usize,
        c_in: a[k + 1].word() as usize,
        t_in: a[k + 2].word() as usize,
        t_out: a[k + 3].word() as usize,
        k_size: a[k + 4].word() as usize,
        stride: a[k + 5].word() as usize,
        padding: a[k + 6].word() as usize,
    }
}

/// What `n` outputs read, as a list.
pub open spec fn listed(n: nat, from: spec_fn(int) -> Option<int>) -> Seq<Option<usize>> {
    Seq::new(
        n,
        |i: int|
            match from(i) {
                Some(p) => Some(p as usize),
                None => None,
            },
    )
}

/// Where element `x` of the product of a stack of matrices stands: the matrix,
/// and row and column in it.
pub open spec fn product_parts(g: GemmConfig, batching: Option<Batching>, x: int) -> (int, int, int) {
    match batching {
        None => (0, x % g.ldc as int, x / g.ldc as int),
        Some(b) => {
            let r = x % b.stride_c as int;
            (x / b.stride_c as int, r % g.ldc as int, r / g.ldc as int)
        },
    }
}

impl<
    T: Copy,
    A: Fn(T, T) -> T,
    M: Fn(T, T) -> T,
    S: Fn(T, T) -> T,
    E: Fn(T) -> T,
    N: Fn(T) -> T,
    I: Fn(T) -> T,
    L: Fn(T) -> T,
    G: Fn(T, T) -> bool,
    P: Fn(T, T) -> T,
    R: Fn(T) -> T,
    D: Fn(T) -> T,
> Machine<T, A, M, S, E, N, I, L, G, P, R, D> {
    /// The elements of `x` that the outputs read, and zero where they read
    /// nothing.
    pub open spec fn looked_up(self, n: nat, x: Seq<T>, from: spec_fn(int) -> Option<int>) -> Seq<T> {
        Seq::new(
            n,
            |i: int|
                match from(i) {
                    Some(p) => x[p],
                    None => self.arith.zero,
                },
        )
    }

    /// `onto` with every element of `g` added where it was read from.
    pub open spec fn added_back(
        self,
        onto: Seq<T>,
        g: Seq<T>,
        from: spec_fn(int) -> Option<int>,
    ) -> Seq<T> {
        Seq::new(
            onto.len(),
            |p: int| fold(self.arith.plus, onto[p], collected(g, listed(g.len(), from), p)),
        )
    }

    /// The sum of the products of row `i` of the left factor and column `j` of
    /// the right one, over the first `n` terms.
    pub open spec fn dot(
        self,
        g: GemmConfig,
        a: Seq<T>,
        b: Seq<T>,
        from_a: int,
        from_b: int,
        i: int,
        j: int,
        n: int,
    ) -> T
        decreases n,
    {
        if n <= 0 {
            self.arith.zero
        } else {
            self.arith.sum(
                self.dot(g, a, b, from_a, from_b, i, j, n - 1),
                self.arith.prod(
                    a[from_a + g.left_at(i, n - 1)],
                    b[from_b + g.right_at(n - 1, j)],
                ),
            )
        }
    }

    /// A product of two stacks of matrices, in exact arithmetic: in which order
    /// a device sums is its own affair.
    pub open spec fn product(
        self,
        g: GemmConfig,
        batching: Option<Batching>,
        a: Seq<T>,
        b: Seq<T>,
        onto: Seq<T>,
    ) -> Seq<T> {
        Seq::new(
            onto.len(),
            |x: int|
                {
                    let (q, i, j) = product_parts(g, batching, x);
                    match batching {
                        None => self.dot(g, a, b, 0, 0, i, j, g.k as int),
                        Some(s) => self.dot(
                            g,
                            a,
                            b,
                            q * s.stride_a,
                            q * s.stride_b,
                            i,
                            j,
                            g.k as int,
                        ),
                    }
                },
        )
    }

    /// What the kernels that work element by element leave.
    pub open spec fn each_left(self, kernel: Kernel, a: Seq<Datum<T>>) -> Seq<T> {
        let x = a[0].numbers();
        let y = a[1].numbers();
        match kernel {
            Kernel::Add => Seq::new(x.len(), |i: int| self.arith.sum(x[i], y[i])),
            Kernel::Sub => Seq::new(x.len(), |i: int| ap(self.arith.minus, x[i], y[i])),
            Kernel::Mul => Seq::new(x.len(), |i: int| self.arith.prod(x[i], y[i])),
            Kernel::Div => Seq::new(x.len(), |i: int| (self.quotient)(x[i], y[i])),
            Kernel::Neg => Seq::new(x.len(), |i: int| ap1(self.curve.negate, x[i])),
            Kernel::Exp => Seq::new(x.len(), |i: int| self.arith.grown(x[i])),
            Kernel::Sqrt => Seq::new(x.len(), |i: int| (self.root)(x[i])),
            Kernel::MulScalar => Seq::new(
                x.len(),
                |i: int| self.arith.prod(x[i], (self.number)(a[1].scalar())),
            ),
            Kernel::AddScalar => Seq::new(
                x.len(),
                |i: int| self.arith.sum(x[i], (self.number)(a[1].scalar())),
            ),
            Kernel::Sigmoid => Seq::new(x.len(), |i: int| self.curve.sigmoid_of(x[i])),
            Kernel::Silu => Seq::new(
                x.len(),
                |i: int| ap(self.curve.times, x[i], self.curve.sigmoid_of(x[i])),
            ),
            _ => Seq::new(x.len(), |i: int| self.curve.softplus_of(x[i])),
        }
    }

    /// What the kernels that move elements leave.
    pub open spec fn moved_left(self, kernel: Kernel, a: Seq<Datum<T>>) -> Seq<T> {
        let x = a[0].numbers();
        let n = a[1].numbers().len();
        match kernel {
            Kernel::Transpose2d => Seq::new(
                n,
                |i: int| x[transposed_from(i, a[2].word() as int, a[3].word() as int)],
            ),
            Kernel::NarrowCopy => {
                let w = Window {
                    outer: a[2].word(),
                    axis: a[3].word(),
                    len: a[4].word(),
                    start: a[5].word(),
                    inner: a[6].word(),
                };
                Seq::new(n, |i: int| x[w.from(i)])
            },
            Kernel::NarrowBackward => {
                let w = Window {
                    outer: 1,
                    axis: a[2].word(),
                    len: a[3].word(),
                    start: a[4].word(),
                    inner: a[5].word(),
                };
                self.looked_up(n, x, |i: int| w.back(i))
            },
            Kernel::BroadcastMul => {
                let y = a[1].numbers();
                Seq::new(
                    a[2].numbers().len(),
                    |i: int|
                        self.arith.prod(
                            x[strided(i as nat, a[5].table(), a[3].table()) as int],
                            y[strided(i as nat, a[5].table(), a[4].table()) as int],
                        ),
                )
            },
            _ => Seq::new(
                n,
                |i: int| x[strided(i as nat, a[3].table(), a[2].table()) as int],
            ),
        }
    }

    /// What the kernels that sum leave.
    pub open spec fn summed_left(self, kernel: Kernel, a: Seq<Datum<T>>) -> Seq<T> {
        let plus = self.arith.plus;
        let zero = self.arith.zero;
        let x = a[0].numbers();
        let n = a[1].numbers().len();
        let w = a[3].word() as int;
        match kernel {
            Kernel::CumsumLastdim => Seq::new(
                n,
                |i: int| fold(plus, zero, row_of(x, i / w, w).take(i % w + 1)),
            ),
            Kernel::ReverseCumsumLastdim => Seq::new(
                n,
                |i: int| fold(plus, zero, row_of(x, i / w, w).reverse().take(w - i % w)),
            ),
            Kernel::ReduceSumDimKeepdim => {
                let inner = a[4].word() as int;
                Seq::new(
                    n,
                    |i: int| fold(plus, zero, fiber(x, i / inner, w, inner, i % inner)),
                )
            },
            _ => Seq::new(n, |c: int| fold(plus, zero, every(x, c, w))),
        }
    }

    /// What the kernels that normalise rows leave.
    pub open spec fn normed_left(self, kernel: Kernel, config: LaunchConfig, a: Seq<Datum<T>>) -> Seq<T> {
        let plus = self.arith.plus;
        let times = self.arith.times;
        let minus = self.arith.minus;
        let zero = self.arith.zero;
        match kernel {
            Kernel::RmsNorm => {
                let x = a[0].numbers();
                let d = a[4].word();
                let scale = (self.scale)(d, a[5].scalar());
                Seq::new(
                    x.len(),
                    |i: int|
                        {
                            let row = matrix_row(x, i / d as int, d as int);
                            ap(
                                times,
                                ap(times, x[i], a[1].numbers()[i % d as int]),
                                ap1(scale, fold_dot(plus, times, zero, row, row)),
                            )
                        },
                )
            },
            Kernel::RmsNormBackwardX => {
                let g = a[1].numbers();
                let x = a[2].numbers();
                let w = a[3].numbers();
                let d = a[5].word();
                let scale = (self.scale)(d, a[6].scalar());
                let n = config.block_dim.0 as nat;
                Seq::new(
                    x.len(),
                    |i: int|
                        {
                            let xr = matrix_row(x, i / d as int, d as int);
                            let gr = matrix_row(g, i / d as int, d as int);
                            let inv = ap1(scale, block_dot(plus, times, zero, xr, xr, None, n));
                            let dot = block_dot(plus, times, zero, gr, xr, Some(w), n);
                            let back = ap1(
                                (self.spread)(d),
                                ap(times, ap(times, ap(times, dot, inv), inv), inv),
                            );
                            ap(
                                minus,
                                ap(times, ap(times, w[i % d as int], inv), g[i]),
                                ap(times, x[i], back),
                            )
                        },
                )
            },
            Kernel::RmsNormBackwardWPartial => {
                let rows = a[3].word() as int;
                let d = a[4].word();
                let per = a[5].word() as int;
                let scale = (self.scale)(d, a[7].scalar());
                Seq::new(
                    a[0].numbers().len(),
                    |i: int|
                        {
                            let c = i / d as int;
                            weight_rows(
                                plus,
                                times,
                                scale,
                                zero,
                                a[1].numbers(),
                                a[2].numbers(),
                                d as int,
                                i % d as int,
                                c * per,
                                if (c + 1) * per < rows {
                                    (c + 1) * per
                                } else {
                                    rows
                                },
                            )
                        },
                )
            },
            _ => {
                let x = a[0].numbers();
                let d = a[3].word() as int;
                Seq::new(
                    x.len(),
                    |i: int|
                        {
                            let row = matrix_row(x, i / d, d);
                            let m = largest(self.curve.above, row[0], row.drop_first());
                            let l = ap1(
                                self.curve.log,
                                fold_parts(plus, self.part, zero, m, row),
                            );
                            ap(minus, ap(minus, x[i], m), l)
                        },
                )
            },
        }
    }

    /// What the lookups and their gradients leave.
    pub open spec fn lookup_left(self, kernel: Kernel, a: Seq<Datum<T>>) -> Seq<T> {
        let width = a[4].word() as int;
        let last = a[5].word() as int;
        let ids = a[1].indices();
        match kernel {
            Kernel::Embedding => self.looked_up(
                a[2].numbers().len(),
                a[0].numbers(),
                |i: int| embedding_from(i, ids[i / width] as int, width, last),
            ),
            Kernel::GatherLastdim => self.looked_up(
                a[2].numbers().len(),
                a[0].numbers(),
                |i: int| gather_from(i, ids[i] as int, width, last),
            ),
            Kernel::ScatterAddEmbedding => self.added_back(
                a[0].numbers(),
                a[2].numbers(),
                |i: int| embedding_from(i, ids[i / width] as int, width, last),
            ),
            Kernel::ScatterAddGatherLastdim => self.added_back(
                a[0].numbers(),
                a[2].numbers(),
                |i: int| gather_from(i, ids[i] as int, width, last),
            ),
            Kernel::Im2col => {
                let d = conv_words(a, 2);
                self.looked_up(a[1].numbers().len(), a[0].numbers(), |i: int| column_from(d, i))
            },
            _ => {
                let d = conv_words(a, 2);
                self.added_back(a[0].numbers(), a[1].numbers(), |i: int| column_from(d, i))
            },
        }
    }

    /// What the depthwise convolution and its gradients leave.
    pub open spec fn depthwise_left(self, kernel: Kernel, config: LaunchConfig, a: Seq<Datum<T>>) -> Seq<T> {
        let plus = self.arith.plus;
        let times = self.arith.times;
        let zero = self.arith.zero;
        match kernel {
            Kernel::DepthwiseConv1dFwd => {
                let d = conv_words(a, 4);
                let steps = d.t_out as int;
                Seq::new(
                    a[3].numbers().len(),
                    |i: int|
                        {
                            let c = (i / steps) % d.c_in as int;
                            let s = depthwise_sum(
                                plus,
                                times,
                                zero,
                                a[0].numbers(),
                                a[1].numbers(),
                                d,
                                (i / steps) / d.c_in as int,
                                c,
                                i % steps,
                                d.k_size as int,
                            );
                            if a[11].word() == 1 {
                                ap(plus, s, a[2].numbers()[c])
                            } else {
                                s
                            }
                        },
                )
            },
            Kernel::DepthwiseConv1dBwdX => {
                let d = conv_words(a, 3);
                let steps = d.t_in as int;
                Seq::new(
                    a[2].numbers().len(),
                    |i: int|
                        depthwise_back_sum(
                            plus,
                            times,
                            zero,
                            a[0].numbers(),
                            a[1].numbers(),
                            d,
                            (i / steps) / d.c_in as int,
                            (i / steps) % d.c_in as int,
                            i % steps,
                            d.k_size as int,
                        ),
                )
            },
            _ => {
                let d = conv_words(a, 3);
                let n = config.block_dim.0 as nat;
                Seq::new(
                    a[2].numbers().len(),
                    |i: int|
                        tree(
                            plus,
                            Seq::new(
                                n,
                                |tid: int|
                                    tap_sums(
                                        plus,
                                        times,
                                        zero,
                                        a[0].numbers(),
                                        a[1].numbers(),
                                        d,
                                        d.batch as int,
                                        i / d.k_size as int,
                                        i % d.k_size as int,
                                        tid,
                                        n as int,
                                    ),
                            ),
                        ),
                )
            },
        }
    }

    /// What the scans leave.
    pub open spec fn scan_left(self, scaled: bool, a: Seq<Datum<T>>) -> Seq<T> {
        let d = ScanDims {
            batch: a[5].word() as usize,
            t_len: a[6].word() as usize,
            n_heads: a[7].word() as usize,
            p_dim: a[8].word() as usize,
            n_dim: a[9].word() as usize,
            block_len: a[10].word() as usize,
        };
        let s = ScanSeqs {
            x: a[0].numbers(),
            a: a[1].numbers(),
            b: a[2].numbers(),
            c: a[3].numbers(),
        };
        Seq::new(
            a[4].numbers().len(),
            |i: int|
                {
                    let row = i / d.p_dim as int;
                    let line = row / d.n_heads as int;
                    let k = Head {
                        b: (line / d.t_len as int) as usize,
                        h: (row % d.n_heads as int) as usize,
                    };
                    self.arith.scanned(
                        s,
                        d,
                        k,
                        i % d.p_dim as int,
                        scaled,
                        line % d.t_len as int,
                    )
                },
        )
    }

    /// What a kernel leaves in the buffer that it writes, by its model.
    pub open spec fn left_by(self, kernel: Kernel, config: LaunchConfig, a: Seq<Datum<T>>) -> Seq<T> {
        match kernel {
            Kernel::Add
            | Kernel::Sub
            | Kernel::Mul
            | Kernel::Neg
            | Kernel::Exp
            | Kernel::Sqrt
            | Kernel::Div
            | Kernel::MulScalar
            | Kernel::AddScalar
            | Kernel::Sigmoid
            | Kernel::Silu
            | Kernel::Softplus => self.each_left(kernel, a),
            Kernel::Transpose2d
            | Kernel::TransposeNd
            | Kernel::NarrowCopy
            | Kernel::NarrowBackward
            | Kernel::BroadcastCopy
            | Kernel::BroadcastMul => self.moved_left(kernel, a),
            Kernel::CumsumLastdim
            | Kernel::ReverseCumsumLastdim
            | Kernel::ReduceSumDimKeepdim
            | Kernel::SumReducePartial => self.summed_left(kernel, a),
            Kernel::RmsNorm
            | Kernel::RmsNormBackwardX
            | Kernel::RmsNormBackwardWPartial
            | Kernel::LogSoftmaxLastdim => self.normed_left(kernel, config, a),
            Kernel::Embedding
            | Kernel::GatherLastdim
            | Kernel::ScatterAddEmbedding
            | Kernel::ScatterAddGatherLastdim
            | Kernel::Im2col
            | Kernel::Col2im => self.lookup_left(kernel, a),
            Kernel::DepthwiseConv1dFwd
            | Kernel::DepthwiseConv1dBwdX
            | Kernel::DepthwiseConv1dBwdW => self.depthwise_left(kernel, config, a),
            Kernel::SsdScanChunked => self.scan_left(false, a),
            Kernel::SsdScanChunkedP1 => self.scan_left(true, a),
        }
    }

    /// What a step on the host makes of numbers.
    pub open spec fn computed(self, task: HostTaskView, ins: Seq<Seq<T>>) -> Seq<T> {
        choose|r: Seq<T>| #[trigger]
            task.gives(
                ins,
                self.arith.zero,
                self.arith.plus,
                self.arith.minus,
                self.arith.times,
                r,
            )
    }

    /// What a step on the host gives.
    pub open spec fn host_left(self, task: HostTaskView, ins: Seq<Datum<T>>) -> Datum<T> {
        match task {
            HostTaskView::SwapIndexAxes { shape, first, second } => {
                let x = ins[0].indices();
                Datum::Indices(
                    Seq::new(
                        x.len(),
                        |i: int|
                            x[position(
                                shape,
                                swapped(
                                    coords(swapped(shape, first as int, second as int), i as nat),
                                    first as int,
                                    second as int,
                                ),
                            ) as int],
                    ),
                )
            },
            _ => Datum::Numbers(
                self.computed(task, Seq::new(ins.len(), |k: int| ins[k].numbers())),
            ),
        }
    }

    /// What a buffer holds, given what the buffers outside the program hold.
    pub open spec fn data(self, world: World<T>, t: Term) -> Datum<T>
        decreases t,
    {
        match t {
            Term::Input(id) => (world.inputs)(id),
            Term::Zeros(n) => Datum::Numbers(Seq::new(n, |i: int| self.arith.zero)),
            Term::Ones(n) => Datum::Numbers(Seq::new(n, |i: int| self.curve.one)),
            Term::Upload(_) => world.upload,
            Term::Run { kernel, config, args } => Datum::Numbers(
                self.left_by(kernel, config, self.arguments(world, args)),
            ),
            Term::Product { gemm, batching, a, b, onto } => Datum::Numbers(
                self.product(
                    gemm,
                    batching,
                    self.data(world, *a).numbers(),
                    self.data(world, *b).numbers(),
                    self.data(world, *onto).numbers(),
                ),
            ),
            Term::Host { task, inputs } => self.host_left(task, self.all_data(world, inputs)),
            Term::Unknown => Datum::Numbers(Seq::empty()),
        }
    }

    /// What the arguments of a kernel are.
    pub open spec fn arguments(self, world: World<T>, args: Seq<TermArg>) -> Seq<Datum<T>>
        decreases args,
    {
        if args.len() == 0 {
            Seq::empty()
        } else {
            self.arguments(world, args.drop_last()).push(
                match args[args.len() - 1] {
                    TermArg::Value(v) => self.data(world, v),
                    TermArg::Word(w) => Datum::Word(w),
                    TermArg::Real(r) => Datum::Real(r),
                    TermArg::Table(t) => Datum::Table(t),
                },
            )
        }
    }

    /// What several buffers hold.
    pub open spec fn all_data(self, world: World<T>, ts: Seq<Term>) -> Seq<Datum<T>>
        decreases ts,
    {
        if ts.len() == 0 {
            Seq::empty()
        } else {
            self.all_data(world, ts.drop_last()).push(self.data(world, ts[ts.len() - 1]))
        }
    }
}

} // verus!
