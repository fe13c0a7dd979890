//! What the operations that work element by element leave at every element.

use crate::activate::Curve;
use crate::device::{binary_val, if_short, ones_val, scalar_val, unary_val, zeros_val};
use crate::grad::accumulated;
use crate::lanes::ap;
use crate::launch::{Kernel, Real};
use crate::meaning::{Datum, Machine, World};
use crate::ops::quotient_val;
use crate::param::{merged_val, stepped_val};
use crate::program::{Term, TermArg, Val};
use crate::rules::saved;
use crate::scan::ap1;
use crate::shape::{numel, position};
use crate::tensor::CudaTensor;
use vstd::prelude::*;

verus! {

impl<
    T: Copy,
    A: Fn(T, T) -> T,
    M: Fn(T, T) -> T,
    S: Fn(T, T) -> T,
    E: Fn(T) -> T,
    N: Fn(T) -> T,
    I: Fn(T) -> T,
    L: Fn(T) -> T,
    G: Fn(T, T) -> bool,
    P: Fn(T, T) -> T,
    R: Fn(T) -> T,
    D: Fn(T) -> T,
> Machine<T, A, M, S, E, N, I, L, G, P, R, D> {
    /// The numbers of a tensor, in row-major order.
    pub open spec fn nums(self, world: World<T>, v: Val) -> Seq<T> {
        self.data(world, v.term).numbers()
    }

    /// The number of a tensor at coordinates `c`.
    pub open spec fn at(self, world: World<T>, v: Val, c: Seq<nat>) -> T {
        self.nums(world, v)[position(v.dims, c) as int]
    }

    /// The difference of two numbers.
    pub open spec fn diff(self, x: T, y: T) -> T {
        ap(self.arith.minus, x, y)
    }

    /// A number with the other sign.
    pub open spec fn negated(self, x: T) -> T {
        ap1(self.curve.negate, x)
    }

    /// What a kernel with two operands leaves.
    pub(crate) proof fn lemma_binary(self, world: World<T>, kernel: Kernel, a: Val, b: Val)
        requires
            kernel == Kernel::Add || kernel == Kernel::Sub || kernel == Kernel::Mul || kernel
                == Kernel::Div,
            self.filled(world, a),
        ensures
            ({
                let y = binary_val(kernel, a, b);
                &&& y.dims == a.dims
                &&& self.filled(world, y)
                &&& forall|i: int|
                    0 <= i < a.count() ==> #[trigger] self.nums(world, y)[i] == {
                        let p = self.nums(world, a)[i];
                        let q = self.nums(world, b)[i];
                        match kernel {
                            Kernel::Add => self.arith.sum(p, q),
                            Kernel::Sub => self.diff(p, q),
                            Kernel::Mul => self.arith.prod(p, q),
                            _ => (self.quotient)(p, q),
                        }
                    }
            }),
    {
        let y = binary_val(kernel, a, b);
        if let Term::Run { kernel: k, config, args } = y.term {
            self.lemma_arguments(world, args);
            let d = self.arguments(world, args);
            assert(d[0] == self.data(world, a.term));
            assert(d[1] == self.data(world, b.term));
            assert(self.nums(world, y) == self.each_left(kernel, d));
        }
    }

    /// What a kernel with one operand leaves.
    pub(crate) proof fn lemma_unary(self, world: World<T>, kernel: Kernel, a: Val)
        requires
            kernel == Kernel::Neg || kernel == Kernel::Exp || kernel == Kernel::Sqrt || kernel
                == Kernel::Sigmoid || kernel == Kernel::Silu || kernel == Kernel::Softplus,
            self.filled(world, a),
        ensures
            ({
                let y = unary_val(kernel, a);
                &&& y.dims == a.dims
                &&& self.filled(world, y)
                &&& forall|i: int|
                    0 <= i < a.count() ==> #[trigger] self.nums(world, y)[i] == {
                        let p = self.nums(world, a)[i];
                        match kernel {
                            Kernel::Neg => self.negated(p),
                            Kernel::Exp => self.arith.grown(p),
                            Kernel::Sqrt => (self.root)(p),
                            Kernel::Sigmoid => self.curve.sigmoid_of(p),
                            Kernel::Silu => ap(self.curve.times, p, self.curve.sigmoid_of(p)),
                            _ => self.curve.softplus_of(p),
                        }
                    }
            }),
    {
        let y = unary_val(kernel, a);
        if let Term::Run { kernel: k, config, args } = y.term {
            self.lemma_arguments(world, args);
            let d = self.arguments(world, args);
            assert(d[0] == self.data(world, a.term));
            assert(self.nums(world, y) == self.each_left(kernel, d));
        }
    }

    /// What a kernel with an operand and a constant leaves.
    pub(crate) proof fn lemma_scaled(self, world: World<T>, kernel: Kernel, a: Val, c: Real)
        requires
            kernel == Kernel::MulScalar || kernel == Kernel::AddScalar,
            self.filled(world, a),
        ensures
            ({
                let y = scalar_val(kernel, a, c);
                &&& y.dims == a.dims
                &&& self.filled(world, y)
                &&& forall|i: int|
                    0 <= i < a.count() ==> #[trigger] self.nums(world, y)[i] == {
                        let p = self.nums(world, a)[i];
                        match kernel {
                            Kernel::MulScalar => self.arith.prod(p, (self.number)(c)),
                            _ => self.arith.sum(p, (self.number)(c)),
                        }
                    }
            }),
    {
        let y = scalar_val(kernel, a, c);
        if let Term::Run { kernel: k, config, args } = y.term {
            self.lemma_arguments(world, args);
            let d = self.arguments(world, args);
            assert(d[0] == self.data(world, a.term));
            assert(d[1].scalar() == c);
            assert(self.nums(world, y) == self.each_left(kernel, d));
        }
    }

    /// A step of gradient descent succeeds for a gradient of the value's shape
    /// that a kernel can index, and for no other. It keeps the shape, and leaves
    /// at every element the value less the rate times the gradient there;
    /// adding that product again gives the value back.
    pub proof fn law_steps_go_against_the_gradient(
        self,
        world: World<T>,
        value: Val,
        grad: Val,
        lr: Real,
    )
        requires
            self.filled(world, value),
            self.filled(world, grad),
        ensures
            stepped_val(value, grad, lr) is Ok <==> value.dims == grad.dims && value.count()
                <= u32::MAX,
            stepped_val(value, grad, lr) matches Ok(y) ==> {
                &&& y.dims == value.dims
                &&& self.filled(world, y)
                &&& forall|i: int|
                    0 <= i < value.count() ==> {
                        let moved = self.arith.prod(self.nums(world, grad)[i], (self.number)(lr));
                        &&& #[trigger] self.nums(world, y)[i] == self.diff(
                            self.nums(world, value)[i],
                            moved,
                        )
                        &&& self.arith.exact() ==> self.arith.sum(moved, self.nums(world, y)[i])
                            == self.nums(world, value)[i]
                    }
            },
    {
        if value.dims == grad.dims {
            let moved = scalar_val(Kernel::MulScalar, grad, lr);
            self.lemma_scaled(world, Kernel::MulScalar, grad, lr);
            self.lemma_binary(world, Kernel::Sub, value, moved);
            if self.arith.exact() {
                assert forall|i: int| 0 <= i < value.count() implies self.arith.sum(
                    self.nums(world, moved)[i],
                    #[trigger] self.diff(self.nums(world, value)[i], self.nums(world, moved)[i]),
                ) == self.nums(world, value)[i] by {
                    self.arith.lemma_undone(
                        self.nums(world, value)[i],
                        self.nums(world, moved)[i],
                    );
                }
            }
        }
    }

    /// Quotients succeed for operands of one shape that a kernel can index, and
    /// for no others, and hold at every element the quotient of the elements
    /// there.
    pub proof fn law_quotients_divide_elements(self, world: World<T>, a: Val, b: Val)
        requires
            self.filled(world, a),
            self.filled(world, b),
        ensures
            quotient_val(a, b) is Ok <==> a.dims == b.dims && a.count() <= u32::MAX,
            quotient_val(a, b) matches Ok(y) ==> {
                &&& y.dims == a.dims
                &&& self.filled(world, y)
                &&& forall|i: int|
                    0 <= i < a.count() ==> #[trigger] self.nums(world, y)[i] == (self.quotient)(
                        self.nums(world, a)[i],
                        self.nums(world, b)[i],
                    )
            },
    {
        if a.dims == b.dims {
            self.lemma_binary(world, Kernel::Div, a, b);
        }
    }

    /// The functions of one tensor keep its shape and apply to every element
    /// alone: the sign exchanged, the exponential, the square root, and the
    /// three activations `1 / (1 + exp(-x))`, `x / (1 + exp(-x))` and
    /// `max(x, 0) + log(1 + exp(-|x|))`.
    pub proof fn law_functions_apply_to_every_element(self, world: World<T>, x: Val)
        requires
            self.filled(world, x),
        ensures
            forall|k: Kernel|
                #![trigger if_short(k, x.count(), unary_val(k, x))]
                if_short(k, x.count(), unary_val(k, x)) is Ok <==> x.count() <= u32::MAX,
            ({
                let n = self.nums(world, x);
                let c = self.curve;
                let neg = unary_val(Kernel::Neg, x);
                let exp = unary_val(Kernel::Exp, x);
                let root = unary_val(Kernel::Sqrt, x);
                let sig = unary_val(Kernel::Sigmoid, x);
                let silu = unary_val(Kernel::Silu, x);
                let soft = unary_val(Kernel::Softplus, x);
                &&& neg.dims == x.dims && self.filled(world, neg)
                &&& exp.dims == x.dims && self.filled(world, exp)
                &&& root.dims == x.dims && self.filled(world, root)
                &&& sig.dims == x.dims && self.filled(world, sig)
                &&& silu.dims == x.dims && self.filled(world, silu)
                &&& soft.dims == x.dims && self.filled(world, soft)
                &&& forall|i: int|
                    0 <= i < x.count() ==> {
                        let down = if c.above.ensures((c.zero, n[i]), true) {
                            n[i]
                        } else {
                            self.negated(n[i])
                        };
                        let above = if c.above.ensures((n[i], c.zero), true) {
                            n[i]
                        } else {
                            c.zero
                        };
                        let s = ap1(
                            c.invert,
                            ap(c.plus, c.one, ap1(c.exp, self.negated(#[trigger] n[i]))),
                        );
                        &&& self.nums(world, neg)[i] == self.negated(n[i])
                        &&& self.nums(world, exp)[i] == ap1(self.arith.exp, n[i])
                        &&& self.nums(world, root)[i] == (self.root)(n[i])
                        &&& self.nums(world, sig)[i] == s
                        &&& self.nums(world, silu)[i] == ap(c.times, n[i], s)
                        &&& self.nums(world, soft)[i] == ap(
                            c.plus,
                            above,
                            ap1(c.log, ap(c.plus, c.one, ap1(c.exp, down))),
                        )
                    }
            }),
    {
        self.lemma_unary(world, Kernel::Neg, x);
        self.lemma_unary(world, Kernel::Exp, x);
        self.lemma_unary(world, Kernel::Sqrt, x);
        self.lemma_unary(world, Kernel::Sigmoid, x);
        self.lemma_unary(world, Kernel::Silu, x);
        self.lemma_unary(world, Kernel::Softplus, x);
    }

    /// A constant scales or shifts every element alone, and keeps the shape.
    pub proof fn law_constants_apply_to_every_element(self, world: World<T>, x: Val, c: Real)
        requires
            self.filled(world, x),
        ensures
            ({
                let scaled = scalar_val(Kernel::MulScalar, x, c);
                let moved = scalar_val(Kernel::AddScalar, x, c);
                &&& scaled.dims == x.dims && self.filled(world, scaled)
                &&& moved.dims == x.dims && self.filled(world, moved)
                &&& forall|i: int|
                    0 <= i < x.count() ==> {
                        &&& self.nums(world, scaled)[i] == self.arith.prod(
                            #[trigger] self.nums(world, x)[i],
                            (self.number)(c),
                        )
                        &&& self.nums(world, moved)[i] == self.arith.sum(
                            self.nums(world, x)[i],
                            (self.number)(c),
                        )
                    }
            }),
    {
        self.lemma_scaled(world, Kernel::MulScalar, x, c);
        self.lemma_scaled(world, Kernel::AddScalar, x, c);
    }

    /// Every element of a tensor of zeros is zero, and every element of one of
    /// ones is one.
    pub proof fn law_fills_hold_one_number(self, world: World<T>, dims: Seq<usize>)
        ensures
            zeros_val(dims).dims == dims,
            ones_val(dims).dims == dims,
            self.filled(world, zeros_val(dims)),
            self.filled(world, ones_val(dims)),
            forall|i: int|
                0 <= i < numel(dims) ==> #[trigger] self.nums(world, zeros_val(dims))[i]
                    == self.arith.zero,
            forall|i: int|
                0 <= i < numel(dims) ==> #[trigger] self.nums(world, ones_val(dims))[i]
                    == self.curve.one,
    {
    }

    /// A contribution to a gradient is added, element by element, to what has
    /// come in for it before; where nothing has, it is the gradient. Every
    /// other gradient stays as it is.
    pub proof fn law_contributions_add_up(
        self,
        world: World<T>,
        m: Map<u64, Val>,
        k: u64,
        v: Val,
    )
        requires
            self.filled(world, v),
            m.contains_key(k) ==> self.filled(world, m[k]) && m[k].dims == v.dims,
        ensures
            ({
                let w = accumulated(m, k, v);
                &&& w.dom() == m.dom().insert(k)
                &&& forall|j: u64| j != k && m.contains_key(j) ==> #[trigger] w[j] == m[j]
                &&& w[k].dims == v.dims
                &&& self.filled(world, w[k])
                &&& forall|i: int|
                    0 <= i < v.count() ==> #[trigger] self.nums(world, w[k])[i] == (
                    if m.contains_key(k) {
                        self.arith.sum(self.nums(world, m[k])[i], self.nums(world, v)[i])
                    } else {
                        self.nums(world, v)[i]
                    })
            }),
    {
        assert(accumulated(m, k, v).dom() =~= m.dom().insert(k));
        if m.contains_key(k) {
            self.lemma_binary(world, Kernel::Add, m[k], v);
        }
    }

    /// Merging two stores adds, element by element, the gradients that both
    /// hold, and keeps those that only one holds.
    pub proof fn law_merging_adds_gradients(
        self,
        world: World<T>,
        dst: Map<u64, CudaTensor>,
        src: Map<u64, CudaTensor>,
        k: u64,
    )
        requires
            dst.contains_key(k) || src.contains_key(k),
            dst.contains_key(k) ==> self.filled(world, saved(dst[k])),
            src.contains_key(k) ==> self.filled(world, saved(src[k])),
            dst.contains_key(k) && src.contains_key(k) ==> dst[k].dims() == src[k].dims(),
        ensures
            ({
                let y = merged_val(dst, src, k);
                let one = if dst.contains_key(k) {
                    dst[k]
                } else {
                    src[k]
                };
                &&& y.dims == one.dims()
                &&& self.filled(world, y)
                &&& forall|i: int|
                    0 <= i < y.count() ==> #[trigger] self.nums(world, y)[i] == (
                    if dst.contains_key(k) && src.contains_key(k) {
                        self.arith.sum(
                            self.nums(world, saved(dst[k]))[i],
                            self.nums(world, saved(src[k]))[i],
                        )
                    } else {
                        self.nums(world, saved(one))[i]
                    })
            }),
    {
        if dst.contains_key(k) && src.contains_key(k) {
            self.lemma_binary(world, Kernel::Add, saved(dst[k]), saved(src[k]));
        }
    }
}

} // verus!
