//! What a convolution leaves for the operands and parameters that a caller
//! hands it.

use crate::adjoint::{at_or_zero, lemma_sum_same, sum};
use crate::compound::{conv1d_val, conv_countable, full_spec};
use crate::convolution::lemma_grad_dims;
use crate::convolve::{conv_dims, conv_val, ConvSpec};
use crate::grouped::{contributed, convolved, tapped, weight};
use crate::host::{at2, at3};
use crate::hosttask::grad_dims;
use crate::lanes::reads;
use crate::meaning::{Machine, World};
use crate::places::lemma_low_positions;
use crate::program::Val;
use crate::shape::span;
use vstd::prelude::*;

verus! {

impl<
    T: Copy,
    A: Fn(T, T) -> T,
    M: Fn(T, T) -> T,
    S: Fn(T, T) -> T,
    E: Fn(T) -> T,
    N: Fn(T) -> T,
    I: Fn(T) -> T,
    L: Fn(T) -> T,
    G: Fn(T, T) -> bool,
    P: Fn(T, T) -> T,
    R: Fn(T) -> T,
    D: Fn(T) -> T,
> Machine<T, A, M, S, E, N, I, L, G, P, R, D> {
    /// What tap `k` of an output step `t` reads of channel `c`: the input at
    /// step `t * stride + k - padding`, and zero beyond its ends.
    pub open spec fn slid(
        self,
        val: spec_fn(T) -> int,
        world: World<T>,
        x: Val,
        stride: usize,
        padding: usize,
        b: nat,
        c: nat,
        t: nat,
        k: nat,
    ) -> int {
        let p = t * stride + k - padding;
        if 0 <= p < x.dims[2] {
            val(self.at(world, x, seq![b, c, p as nat]))
        } else {
            0
        }
    }

    /// A convolution has the shape of batch, filters and steps, of which there
    /// are as many as places for the window within the padded input. Read as
    /// integers, it holds for every batch entry, filter and step the sum over
    /// the channels of the filter's group and over its taps of weight times
    /// input, plus the filter's bias if there is one.
    pub proof fn law_conv1d_slides_every_filter(
        self,
        val: spec_fn(T) -> int,
        world: World<T>,
        x: Val,
        w: Val,
        bias: Option<Val>,
        stride: usize,
        padding: usize,
        groups: usize,
        b: nat,
        f: nat,
        t: nat,
    )
        requires
            self.reads_as(val),
            self.filled(world, x),
            self.filled(world, w),
            bias matches Some(v) ==> self.filled(world, v),
            conv_countable(x.dims, w.dims, stride, padding, groups),
            conv1d_val(x, w, bias, stride, padding, groups) is Ok,
            x.dims[0] * ((x.dims[2] + 2 * padding - w.dims[2]) / (stride as int) + 1) <= i32::MAX,
            w.dims[1] * w.dims[2] <= i32::MAX,
            w.dims[0] <= i32::MAX,
            b < x.dims[0],
            f < w.dims[0],
            t < (x.dims[2] + 2 * padding - w.dims[2]) / (stride as int) + 1,
        ensures
            ({
                let y = conv1d_val(x, w, bias, stride, padding, groups)->Ok_0;
                let steps = (x.dims[2] + 2 * padding - w.dims[2]) / (stride as int) + 1;
                let per = w.dims[1];
                let group = f as int / (w.dims[0] as int / groups as int);
                &&& x.dims.len() == 3 && w.dims.len() == 3
                &&& groups >= 1 && x.dims[1] == per * groups && w.dims[0] % groups == 0
                &&& y.dims == seq![x.dims[0], w.dims[0], steps as usize]
                &&& val(self.at(world, y, seq![b, f, t])) == sum(
                    per as int,
                    |i: int|
                        sum(
                            w.dims[2] as int,
                            |k: int|
                                val(self.at(world, w, seq![f, i as nat, k as nat])) * self.slid(
                                    val,
                                    world,
                                    x,
                                    stride,
                                    padding,
                                    b,
                                    (group * per + i) as nat,
                                    t,
                                    k as nat,
                                ),
                        ),
                ) + (match bias {
                    Some(v) => val(self.nums(world, v)[f as int]),
                    None => 0,
                })
            }),
    {
        let s = full_spec(x.dims, w.dims, stride, padding, groups);
        let y = conv_val(x, w, bias, s)->Ok_0;
        assert(s.grouped());
        assert(w.dims =~= seq![s.c_out, s.per_group, s.dims.k_size]);
        let steps = (x.dims[2] + 2 * padding - w.dims[2]) / (stride as int) + 1;
        let over = x.dims[2] + 2 * padding - w.dims[2];
        assert(0 <= over / (stride as int) <= over) by (nonlinear_arith)
            requires
                over >= 0,
                stride >= 1,
        ;
        assert(s.dims.t_out == steps);
        lemma_grad_dims(s);
        let d = grad_dims(s.dims, s.c_out, s.groups);
        assert(s.out_per_group() <= s.c_out);
        self.law_convolution_tensor_holds_the_convolution(
            val,
            world,
            x,
            w,
            bias,
            s,
            b as int,
            f as int,
            t as int,
        );
        let (xs, ws) = (self.nums(world, x), self.nums(world, w));
        lemma_low_positions(y.dims, seq![b, f, t]);
        let per = w.dims[1] as int;
        let kn = w.dims[2] as int;
        let group = f as int / (w.dims[0] as int / groups as int);
        let one = |i: int| contributed(val, xs, ws, d, b as int, f as int, i, t as int);
        let two = |i: int|
            sum(
                w.dims[2] as int,
                |k: int|
                    val(self.at(world, w, seq![f, i as nat, k as nat])) * self.slid(
                        val,
                        world,
                        x,
                        stride,
                        padding,
                        b,
                        (group * per + i) as nat,
                        t,
                        k as nat,
                    ),
            );
        assert forall|i: int| 0 <= i < per implies #[trigger] one(i) == two(i) by {
            let c = at2(group, per, i);
            let p = |k: int|
                weight(val, ws, d, f as int, i, k) * tapped(
                    val,
                    xs,
                    d,
                    b as int,
                    c,
                    t as int,
                    k,
                );
            let q = |k: int|
                val(self.at(world, w, seq![f, i as nat, k as nat])) * self.slid(
                    val,
                    world,
                    x,
                    stride,
                    padding,
                    b,
                    (group * per + i) as nat,
                    t,
                    k as nat,
                );
            assert(0 <= group * per) by (nonlinear_arith)
                requires
                    group == f as int / (w.dims[0] as int / groups as int),
                    w.dims[0] as int / groups as int > 0,
                    f >= 0,
                    per >= 0,
            ;
            assert forall|k: int| 0 <= k < kn implies #[trigger] p(k) == q(k) by {
                lemma_low_positions(w.dims, seq![f, i as nat, k as nat]);
                let (fi, ii) = (f as int, i);
                assert(fi * (per * kn) + (ii * kn + k) == (fi * per + ii) * kn + k)
                    by (nonlinear_arith);
                let pos = t * stride + k - padding;
                if 0 <= pos < x.dims[2] {
                    lemma_low_positions(x.dims, seq![b, c as nat, pos as nat]);
                }
            }
            lemma_sum_same(kn, p, q);
        }
        lemma_sum_same(per, one, two);
    }
}

} // verus!
