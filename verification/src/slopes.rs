//! What the gradient rules give, element by element: for every recorded
//! operation, what it hands each of its inputs for a gradient `g` of its
//! output.

use crate::broadcast::{joint_dims, lemma_span_expand};
use crate::device::{
    binary_val, lemma_padded, lemma_reduced_dims, ones_val, padded, reduced_val, scalar_val,
    unary_val,
};
use crate::host::{lemma_offset, offset_of};
use crate::kernels::{inner, outer, MAX_RANK};
use crate::lanes::ap;
use crate::launch::{first_long, Kernel, Real};
use crate::meaning::{Machine, World};
use crate::places::{
    facing, joinable, joins, lemma_axis_update, lemma_joinable, lemma_low_positions, lemma_under,
    lemma_under_self, under,
};
use crate::program::Val;
use crate::rules::{part, saved, times, TWO_BITS};
use crate::scan::ap1;
use crate::shape::{
    coords, expands_to, in_range, lemma_coords_of_position, lemma_low_rank, lemma_numel_axis,
    lemma_numel_le_span, lemma_position_bound, lemma_position_of_coords, lemma_positive, numel,
    position, regular, span, swapped, tail,
};
use crate::tape::{extent_sum, TapeOp};
use vstd::prelude::*;

verus! {

/// Whether a tensor of shape `s` was broadcast to the shape `d`.
pub open spec fn repeats_to(s: Seq<usize>, d: Seq<usize>) -> bool {
    &&& s.len() <= d.len()
    &&& forall|k: int|
        0 <= k < s.len() ==> #[trigger] facing(s, k) == facing(d, k) || facing(s, k) == 1
}

/// Along a shape that a kernel can index, an axis can be summed.
proof fn lemma_reducible(v: Val, k: int)
    requires
        regular(v.dims),
        0 <= k < v.dims.len(),
    ensures
        reduced_val(v, k) is Ok,
        span(v.dims) <= usize::MAX,
{
    lemma_positive(v.dims);
    lemma_reduced_dims(v.dims, k);
    lemma_numel_axis(v.dims, k);
    let o = outer(v.dims, k) as int;
    let r = inner(v.dims, k) as int;
    let e = v.dims[k] as int;
    assert(v.dims[k] >= 1);
    assert(e <= o * (e * r)) by (nonlinear_arith)
        requires
            o * (e * r) >= 1,
            o >= 0,
            e >= 0,
            r >= 0,
    ;
    reveal_with_fuel(first_long, 5);
    assert(first_long(
        seq![(o * r) as usize, o as usize, v.dims[k], r as usize],
        0,
    ) is None);
}

impl<
    T: Copy,
    A: Fn(T, T) -> T,
    M: Fn(T, T) -> T,
    S: Fn(T, T) -> T,
    E: Fn(T) -> T,
    N: Fn(T) -> T,
    I: Fn(T) -> T,
    L: Fn(T) -> T,
    G: Fn(T, T) -> bool,
    P: Fn(T, T) -> T,
    R: Fn(T) -> T,
    D: Fn(T) -> T,
> Machine<T, A, M, S, E, N, I, L, G, P, R, D> {
    /// `1 / (1 + exp(-x))`.
    pub open spec fn logistic(self, x: T) -> T {
        let c = self.curve;
        ap1(c.invert, ap(c.plus, c.one, ap1(c.exp, self.negated(x))))
    }

    /// The gradient of the logarithm of a softmax exists for every shape and
    /// axis that a kernel can index. It has the shape of the output, and is at
    /// every place the gradient there less the exponential of the output there
    /// times the sum of the gradients along the axis.
    pub proof fn law_log_softmax_gradients_subtract_the_share(
        self,
        world: World<T>,
        op: TapeOp,
        g: Val,
    )
        requires
            op is LogSoftmax,
            self.filled(world, g),
            self.filled(world, saved(op->LogSoftmax_out_val)),
            g.dims == op->LogSoftmax_out_val.dims(),
            regular(g.dims),
            op->LogSoftmax_dim < g.dims.len() <= MAX_RANK,
        ensures
            ({
                let k = op->LogSoftmax_dim as int;
                let out = saved(op->LogSoftmax_out_val);
                &&& part(op, 0, g) matches Ok(y)
                &&& y.dims == g.dims
                &&& self.filled(world, y)
                &&& forall|c: Seq<nat>|
                    in_range(y.dims, c) ==> #[trigger] self.at(world, y, c) == self.diff(
                        self.at(world, g, c),
                        self.arith.prod(
                            self.arith.grown(self.at(world, out, c)),
                            self.arith.tally(
                                g.dims[k] as int,
                                |a: int| self.at(world, g, c.update(k, a as nat)),
                            ),
                        ),
                    )
            }),
    {
        let k = op->LogSoftmax_dim as int;
        let out = saved(op->LogSoftmax_out_val);
        let soft = unary_val(Kernel::Exp, out);
        lemma_reducible(g, k);
        let s = reduced_val(g, k)->Ok_0;
        self.lemma_reduced(world, g, k);
        self.lemma_unary(world, Kernel::Exp, out);
        let same = s.dims == out.dims;
        let wide = if same {
            s
        } else {
            crate::broadcast::expanded_val("broadcast_as_inner", s, out.dims)->Ok_0
        };
        assert(expands_to(s.dims, out.dims));
        if !same {
            self.lemma_expanded(world, "broadcast_as_inner", s, out.dims);
        }
        let share = binary_val(Kernel::Mul, soft, wide);
        self.lemma_binary(world, Kernel::Mul, soft, wide);
        self.lemma_binary(world, Kernel::Sub, g, share);
        let y = binary_val(Kernel::Sub, g, share);
        assert(part(op, 0, g) == Ok::<Val, crate::error::CudaError>(y));
        assert forall|c: Seq<nat>| in_range(y.dims, c) implies #[trigger] self.at(world, y, c)
            == self.diff(
            self.at(world, g, c),
            self.arith.prod(
                self.arith.grown(self.at(world, out, c)),
                self.arith.tally(
                    g.dims[k] as int,
                    |a: int| self.at(world, g, c.update(k, a as nat)),
                ),
            ),
        ) by {
            lemma_position_bound(g.dims, c);
            let u = c.update(k, 0);
            assert forall|j: int| 0 <= j < g.dims.len() implies u[j] < #[trigger] s.dims[j] by {
                assert(c[j] < g.dims[j]);
            }
            assert(in_range(s.dims, u));
            if same {
                assert(c[k] < g.dims[k]);
                assert(s.dims[k] == 1);
                assert(u =~= c);
            } else {
                assert forall|j: int| 0 <= j < u.len() implies under(s.dims, c)[j] == u[j] by {
                    assert(c[j] < g.dims[j]);
                }
                assert(under(s.dims, c) =~= u);
                assert(self.at(world, wide, c) == self.at(world, s, under(s.dims, c)));
            }
            assert(self.at(world, wide, c) == self.at(world, s, u));
            let f = |a: int| self.at(world, g, u.update(k, a as nat));
            let h = |a: int| self.at(world, g, c.update(k, a as nat));
            assert forall|a: int| 0 <= a < g.dims[k] implies #[trigger] f(a) == h(a) by {
                assert(u.update(k, a as nat) =~= c.update(k, a as nat));
            }
            self.arith.lemma_tally_same(g.dims[k] as int, f, h);
        }
    }

    /// The gradients of sums and differences: each operand is handed, at every
    /// place, the sum of the gradients of all elements that read it, and what is
    /// subtracted is handed its negative.
    pub proof fn law_sum_gradients_gather_every_use(self, world: World<T>, op: TapeOp, g: Val)
        requires
            self.arith.exact(),
            op is Add || op is Sub,
            self.filled(world, g),
            regular(g.dims),
            op matches TapeOp::Add { lhs_shape, rhs_shape, .. } ==> repeats_to(lhs_shape@, g.dims)
                && repeats_to(rhs_shape@, g.dims),
            op matches TapeOp::Sub { lhs_shape, rhs_shape, .. } ==> repeats_to(lhs_shape@, g.dims)
                && repeats_to(rhs_shape@, g.dims),
        ensures
            ({
                let (l, r) = match op {
                    TapeOp::Add { lhs_shape, rhs_shape, .. } => (lhs_shape@, rhs_shape@),
                    TapeOp::Sub { lhs_shape, rhs_shape, .. } => (lhs_shape@, rhs_shape@),
                    _ => (Seq::empty(), Seq::empty()),
                };
                &&& part(op, 0, g) matches Ok(x)
                &&& part(op, 1, g) matches Ok(y)
                &&& x.dims == l && self.filled(world, x)
                &&& y.dims == r && self.filled(world, y)
                &&& forall|c: Seq<nat>|
                    in_range(l, c) ==> #[trigger] self.at(world, x, c) == self.gathered(
                        world,
                        g,
                        l,
                        c,
                    )
                &&& forall|c: Seq<nat>|
                    in_range(r, c) ==> #[trigger] self.at(world, y, c) == (if op is Sub {
                        self.negated(self.gathered(world, g, r, c))
                    } else {
                        self.gathered(world, g, r, c)
                    })
            }),
    {
        let (l, r) = match op {
            TapeOp::Add { lhs_shape, rhs_shape, .. } => (lhs_shape@, rhs_shape@),
            TapeOp::Sub { lhs_shape, rhs_shape, .. } => (lhs_shape@, rhs_shape@),
            _ => (Seq::empty(), Seq::empty()),
        };
        self.law_summing_back_gathers_what_was_repeated(world, g, l);
        self.law_summing_back_gathers_what_was_repeated(world, g, r);
        let x = part(op, 0, g)->Ok_0;
        let y = part(op, 1, g)->Ok_0;
        if op is Sub {
            let s = crate::device::summed_rank_val(g, r)->Ok_0;
            self.lemma_unary(world, Kernel::Neg, s);
            assert forall|c: Seq<nat>| in_range(r, c) implies #[trigger] self.at(world, y, c)
                == self.negated(self.gathered(world, g, r, c)) by {
                lemma_position_bound(r, c);
                assert(self.at(world, s, c) == self.gathered(world, g, r, c));
            }
        }
    }

    /// The gradient that one factor of a product is handed: at every place the
    /// sum, over all elements that read it, of their gradient times the other
    /// factor there.
    pub open spec fn weighted(
        self,
        world: World<T>,
        g: Val,
        other: Val,
        t: Seq<usize>,
        c: Seq<nat>,
    ) -> T {
        self.arith.tally(
            g.count() as int,
            |i: int|
                {
                    let e = coords(g.dims, i as nat);
                    if under(t, e) == c {
                        self.arith.prod(
                            self.nums(world, g)[i],
                            self.at(world, other, under(other.dims, e)),
                        )
                    } else {
                        self.arith.zero
                    }
                },
        )
    }

    proof fn lemma_factor(self, world: World<T>, g: Val, other: Val, t: Seq<usize>)
        requires
            self.arith.exact(),
            self.filled(world, g),
            self.filled(world, other),
            regular(g.dims),
            g.dims.len() <= MAX_RANK,
            repeats_to(other.dims, g.dims),
            repeats_to(t, g.dims),
        ensures
            ({
                &&& crate::rules::factor_grad(g, other, t) matches Ok(y)
                &&& y.dims == t
                &&& self.filled(world, y)
                &&& forall|c: Seq<nat>|
                    in_range(t, c) ==> #[trigger] self.at(world, y, c) == self.weighted(
                        world,
                        g,
                        other,
                        t,
                        c,
                    )
            }),
    {
        lemma_repeat_joins(other.dims, g.dims);
        self.law_products_multiply_broadcast_elements(world, g, other);
        assert(joins(g.dims, other.dims, g.dims));
        let w = times(g, other)->Ok_0;
        lemma_one_join(g.dims, other.dims, g.dims, w.dims);
        self.law_summing_back_gathers_what_was_repeated(world, w, t);
        let y = crate::rules::factor_grad(g, other, t)->Ok_0;
        assert forall|c: Seq<nat>| in_range(t, c) implies #[trigger] self.at(world, y, c)
            == self.weighted(world, g, other, t, c) by {
            let n = g.count() as int;
            let f = |i: int|
                if under(t, coords(w.dims, i as nat)) == c {
                    self.nums(world, w)[i]
                } else {
                    self.arith.zero
                };
            let h = |i: int|
                {
                    let e = coords(g.dims, i as nat);
                    if under(t, e) == c {
                        self.arith.prod(
                            self.nums(world, g)[i],
                            self.at(world, other, under(other.dims, e)),
                        )
                    } else {
                        self.arith.zero
                    }
                };
            assert forall|i: int| 0 <= i < n implies #[trigger] f(i) == h(i) by {
                let e = coords(g.dims, i as nat);
                lemma_position_of_coords(g.dims, i as nat);
                lemma_under_self(g.dims, e);
                assert(self.at(world, w, e) == self.arith.prod(
                    self.at(world, g, under(g.dims, e)),
                    self.at(world, other, under(other.dims, e)),
                ));
            }
            self.arith.lemma_tally_same(n, f, h);
        }
    }

    /// The gradients of a product: each factor is handed, at every place, the
    /// sum over all elements that read it of their gradient times the other
    /// factor there.
    pub proof fn law_product_gradients_weigh_by_the_other_factor(
        self,
        world: World<T>,
        op: TapeOp,
        g: Val,
    )
        requires
            self.arith.exact(),
            op is Mul,
            self.filled(world, g),
            regular(g.dims),
            g.dims.len() <= MAX_RANK,
            self.filled(world, saved(op->Mul_lhs_val)),
            self.filled(world, saved(op->Mul_rhs_val)),
            repeats_to(op->Mul_lhs_val.dims(), g.dims),
            repeats_to(op->Mul_rhs_val.dims(), g.dims),
        ensures
            ({
                let (l, r) = (saved(op->Mul_lhs_val), saved(op->Mul_rhs_val));
                &&& part(op, 0, g) matches Ok(x)
                &&& part(op, 1, g) matches Ok(y)
                &&& x.dims == l.dims && self.filled(world, x)
                &&& y.dims == r.dims && self.filled(world, y)
                &&& forall|c: Seq<nat>|
                    in_range(l.dims, c) ==> #[trigger] self.at(world, x, c) == self.weighted(
                        world,
                        g,
                        r,
                        l.dims,
                        c,
                    )
                &&& forall|c: Seq<nat>|
                    in_range(r.dims, c) ==> #[trigger] self.at(world, y, c) == self.weighted(
                        world,
                        g,
                        l,
                        r.dims,
                        c,
                    )
            }),
    {
        let (l, r) = (saved(op->Mul_lhs_val), saved(op->Mul_rhs_val));
        self.lemma_factor(world, g, r, l.dims);
        self.lemma_factor(world, g, l, r.dims);
    }

    /// The gradients of the operations that work element by element: at every
    /// element the gradient there times the slope there. The slope of a negation
    /// is minus one, of a scaling the scale, of a shift one; of a square root one
    /// over twice the root; of a quotient one over the divisor, and minus the
    /// quotient over the divisor; of the exponential the exponential; and of the
    /// activations what follows from `s(x) = 1 / (1 + exp(-x))`.
    pub proof fn law_slopes_multiply_every_gradient(
        self,
        world: World<T>,
        op: TapeOp,
        g: Val,
        i: int,
    )
        requires
            self.filled(world, g),
            0 <= i < g.count(),
            op matches TapeOp::Sqrt { out_val, .. } ==> self.filled(world, saved(out_val))
                && out_val.dims() == g.dims,
            op matches TapeOp::Exp { out_val, .. } ==> self.filled(world, saved(out_val))
                && out_val.dims() == g.dims,
            op matches TapeOp::Sigmoid { out_val, .. } ==> self.filled(world, saved(out_val))
                && out_val.dims() == g.dims,
            op matches TapeOp::Silu { input_val, .. } ==> self.filled(world, saved(input_val))
                && input_val.dims() == g.dims,
            op matches TapeOp::Softplus { input_val, .. } ==> self.filled(world, saved(input_val))
                && input_val.dims() == g.dims,
            op matches TapeOp::Div { rhs_val, out_val, .. } ==> self.filled(world, saved(rhs_val))
                && self.filled(world, saved(out_val)) && rhs_val.dims() == g.dims
                && out_val.dims() == g.dims,
        ensures
            ({
                let a = self.arith;
                let one = self.curve.one;
                let d = self.nums(world, g)[i];
                let p = part(op, 0, g);
                let y = p->Ok_0;
                let at = self.nums(world, y)[i];
                let shaped = p is Ok && y.dims == g.dims && self.filled(world, y);
                match op {
                    TapeOp::Neg { .. } => shaped && at == self.negated(d),
                    TapeOp::AddScalar { .. } => shaped && at == d,
                    TapeOp::MulScalar { scale, .. } => (g.count() <= u32::MAX <==> p is Ok) && (
                    p is Ok ==> shaped && at == a.prod(d, (self.number)(scale))),
                    TapeOp::Sqrt { out_val, .. } => shaped && at == a.prod(
                        d,
                        (self.quotient)(
                            one,
                            a.prod(
                                self.nums(world, saved(out_val))[i],
                                (self.number)(Real::Bits(0x4000_0000)),
                            ),
                        ),
                    ),
                    TapeOp::Exp { out_val, .. } => shaped && at == a.prod(
                        d,
                        self.nums(world, saved(out_val))[i],
                    ),
                    TapeOp::Sigmoid { out_val, .. } => {
                        let s = self.nums(world, saved(out_val))[i];
                        shaped && at == a.prod(d, a.prod(s, self.diff(one, s)))
                    },
                    TapeOp::Silu { input_val, .. } => {
                        let x = self.nums(world, saved(input_val))[i];
                        let s = self.logistic(x);
                        shaped && at == a.prod(
                            d,
                            a.sum(s, a.prod(a.prod(x, s), self.diff(one, s))),
                        )
                    },
                    TapeOp::Softplus { input_val, .. } => {
                        let x = self.nums(world, saved(input_val))[i];
                        shaped && at == a.prod(d, self.logistic(x))
                    },
                    TapeOp::Div { rhs_val, out_val, .. } => {
                        let b = self.nums(world, saved(rhs_val))[i];
                        let q = self.nums(world, saved(out_val))[i];
                        let r = part(op, 1, g);
                        let z = r->Ok_0;
                        &&& shaped && at == (self.quotient)(d, b)
                        &&& r is Ok && z.dims == g.dims && self.filled(world, z)
                        &&& self.nums(world, z)[i] == (self.quotient)(
                            a.prod(self.negated(d), q),
                            b,
                        )
                    },
                    _ => true,
                }
            }),
    {
        match op {
            TapeOp::Neg { .. } => {
                self.lemma_unary(world, Kernel::Neg, g);
            },
            TapeOp::MulScalar { scale, .. } => {
                self.lemma_scaled(world, Kernel::MulScalar, g, scale);
            },
            TapeOp::Sqrt { out_val, .. } => {
                let out = saved(out_val);
                let twice = scalar_val(Kernel::MulScalar, out, Real::Bits(TWO_BITS));
                self.lemma_scaled(world, Kernel::MulScalar, out, Real::Bits(TWO_BITS));
                let ones = ones_val(out.dims);
                self.law_fills_hold_one_number(world, out.dims);
                let inverse = binary_val(Kernel::Div, ones, twice);
                self.lemma_binary(world, Kernel::Div, ones, twice);
                self.lemma_binary(world, Kernel::Mul, g, inverse);
                assert(self.nums(world, twice)[i] == self.arith.prod(
                    self.nums(world, out)[i],
                    (self.number)(Real::Bits(TWO_BITS)),
                ));
                assert(self.nums(world, ones)[i] == self.curve.one);
                assert(self.nums(world, inverse)[i] == (self.quotient)(
                    self.curve.one,
                    self.nums(world, twice)[i],
                ));
            },
            TapeOp::Exp { out_val, .. } => {
                self.lemma_binary(world, Kernel::Mul, g, saved(out_val));
            },
            TapeOp::Sigmoid { out_val, .. } => {
                let out = saved(out_val);
                let ones = ones_val(out.dims);
                self.law_fills_hold_one_number(world, out.dims);
                let rest = binary_val(Kernel::Sub, ones, out);
                self.lemma_binary(world, Kernel::Sub, ones, out);
                let slope = binary_val(Kernel::Mul, out, rest);
                self.lemma_binary(world, Kernel::Mul, out, rest);
                self.lemma_binary(world, Kernel::Mul, g, slope);
                assert(self.nums(world, ones)[i] == self.curve.one);
                assert(self.nums(world, rest)[i] == self.diff(
                    self.curve.one,
                    self.nums(world, out)[i],
                ));
                assert(self.nums(world, slope)[i] == self.arith.prod(
                    self.nums(world, out)[i],
                    self.nums(world, rest)[i],
                ));
            },
            TapeOp::Silu { input_val, .. } => {
                let x = saved(input_val);
                let s = unary_val(Kernel::Sigmoid, x);
                self.lemma_unary(world, Kernel::Sigmoid, x);
                let ones = ones_val(x.dims);
                self.law_fills_hold_one_number(world, x.dims);
                let rest = binary_val(Kernel::Sub, ones, s);
                self.lemma_binary(world, Kernel::Sub, ones, s);
                let xs = binary_val(Kernel::Mul, x, s);
                self.lemma_binary(world, Kernel::Mul, x, s);
                let bend = binary_val(Kernel::Mul, xs, rest);
                self.lemma_binary(world, Kernel::Mul, xs, rest);
                let slope = binary_val(Kernel::Add, s, bend);
                self.lemma_binary(world, Kernel::Add, s, bend);
                self.lemma_binary(world, Kernel::Mul, g, slope);
                assert(self.nums(world, s)[i] == self.logistic(self.nums(world, x)[i]));
                assert(self.nums(world, ones)[i] == self.curve.one);
                assert(self.nums(world, rest)[i] == self.diff(
                    self.curve.one,
                    self.nums(world, s)[i],
                ));
                assert(self.nums(world, xs)[i] == self.arith.prod(
                    self.nums(world, x)[i],
                    self.nums(world, s)[i],
                ));
                assert(self.nums(world, bend)[i] == self.arith.prod(
                    self.nums(world, xs)[i],
                    self.nums(world, rest)[i],
                ));
                assert(self.nums(world, slope)[i] == self.arith.sum(
                    self.nums(world, s)[i],
                    self.nums(world, bend)[i],
                ));
            },
            TapeOp::Softplus { input_val, .. } => {
                let x = saved(input_val);
                let s = unary_val(Kernel::Sigmoid, x);
                self.lemma_unary(world, Kernel::Sigmoid, x);
                self.lemma_binary(world, Kernel::Mul, g, s);
                assert(self.nums(world, s)[i] == self.logistic(self.nums(world, x)[i]));
            },
            TapeOp::Div { rhs_val, out_val, .. } => {
                let (b, q) = (saved(rhs_val), saved(out_val));
                self.lemma_binary(world, Kernel::Div, g, b);
                let minus = unary_val(Kernel::Neg, g);
                self.lemma_unary(world, Kernel::Neg, g);
                let top = binary_val(Kernel::Mul, minus, q);
                self.lemma_binary(world, Kernel::Mul, minus, q);
                self.lemma_binary(world, Kernel::Div, top, b);
                assert(self.nums(world, minus)[i] == self.negated(self.nums(world, g)[i]));
                assert(self.nums(world, top)[i] == self.arith.prod(
                    self.nums(world, minus)[i],
                    self.nums(world, q)[i],
                ));
            },
            _ => {},
        }
    }
}

/// A shape that was broadcast to another joins it to that one.
proof fn lemma_repeat_joins(s: Seq<usize>, d: Seq<usize>)
    requires
        repeats_to(s, d),
    ensures
        joinable(d, s),
        joins(d, s, d),
{
    assert forall|k: int| 0 <= k < d.len() && k < s.len() implies #[trigger] facing(d, k) == facing(
        s,
        k,
    ) || facing(d, k) == 1 || facing(s, k) == 1 by {
        assert(facing(s, k) == facing(d, k) || facing(s, k) == 1);
    }
    assert forall|k: int| 0 <= k < d.len() implies #[trigger] facing(d, k) == (if facing(d, k)
        == 1 {
        facing(s, k)
    } else {
        facing(d, k)
    }) by {
        if k < s.len() {
            assert(facing(s, k) == facing(d, k) || facing(s, k) == 1);
        }
    }
}

/// Two shapes are broadcast to one shape only.
proof fn lemma_one_join(a: Seq<usize>, b: Seq<usize>, d: Seq<usize>, e: Seq<usize>)
    requires
        joins(a, b, d),
        joins(a, b, e),
    ensures
        d == e,
{
    assert forall|i: int| 0 <= i < d.len() implies d[i] == e[i] by {
        let k = d.len() - 1 - i;
        assert(facing(d, k) == d[i]);
        assert(facing(e, k) == e[i]);
    }
    assert(d =~= e);
}

} // verus!
