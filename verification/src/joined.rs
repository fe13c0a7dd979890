//! What the operations on broadcast operands leave, element by element.

use crate::broadcast::{
    aligned, broadcast_mul_val, compatible, expanded_val, host_broadcast_val, joint_dims,
    joint_rank, law_equal_shapes_broadcast_to_themselves, law_operands_expand_to_joint_shape,
    lemma_span_expand,
};
use crate::convolution::answers;
use crate::device::{binary_val, lemma_padded, padded};
use crate::host::read_at;
use crate::index::naturals;
use crate::kernels::{table_of, MAX_RANK};
use crate::lanes::{ap, definite};
use crate::launch::Kernel;
use crate::meaning::{Datum, Machine, World};
use crate::ops::{broadcast_as_val, first_stuck, sum_val};
use crate::places::{
    facing, joinable, joins, lemma_joinable, lemma_joint_reads, lemma_under, lemma_under_self,
    under,
};
use crate::program::{HostTaskView, Term, Val};
use crate::rules::times;
use crate::shape::{
    coords, expanded_strides, expands_to, in_range, law_broadcast_reads_clamped_coordinates,
    lemma_coords_of_position, lemma_numel_le_span, lemma_position_bound, lemma_position_of_coords,
    lemma_span_run, numel, position, row_major, span, strided, tail,
};
use crate::values::{lemma_strides_fit, lemma_words};
use vstd::prelude::*;

verus! {

/// The strides by which an operand is read fit a kernel's words wherever the
/// count of what it is read as does.
pub(crate) proof fn lemma_read_words(a: Seq<usize>, d: Seq<usize>)
    requires
        expands_to(a, d),
        0 < numel(d) <= u32::MAX,
    ensures
        naturals(table_of(expanded_strides(a))) == expanded_strides(a),
        naturals(table_of(row_major(d))) == row_major(d),
{
    lemma_span_expand(a, d);
    lemma_numel_le_span(d);
    assert forall|i: int| 0 <= i < expanded_strides(a).len() implies #[trigger] expanded_strides(
        a,
    )[i] <= u32::MAX by {
        lemma_span_run(a, i + 1, a.len() as int);
    }
    lemma_words(expanded_strides(a));
    lemma_strides_fit(d);
    lemma_words(row_major(d));
}

proof fn lemma_stuck(s: Seq<usize>, d: Seq<usize>, i: int)
    requires
        s.len() == d.len(),
        0 <= i <= s.len(),
    ensures
        first_stuck(s, d, i) is None <==> forall|k: int|
            i <= k < s.len() ==> #[trigger] s[k] == d[k] || s[k] == 1,
    decreases s.len() - i,
{
    if i < s.len() {
        lemma_stuck(s, d, i + 1);
        if first_stuck(s, d, i) is None {
            assert forall|k: int| i <= k < s.len() implies #[trigger] s[k] == d[k] || s[k]
                == 1 by {}
        }
    }
}

impl<
    T: Copy,
    A: Fn(T, T) -> T,
    M: Fn(T, T) -> T,
    S: Fn(T, T) -> T,
    E: Fn(T) -> T,
    N: Fn(T) -> T,
    I: Fn(T) -> T,
    L: Fn(T) -> T,
    G: Fn(T, T) -> bool,
    P: Fn(T, T) -> T,
    R: Fn(T) -> T,
    D: Fn(T) -> T,
> Machine<T, A, M, S, E, N, I, L, G, P, R, D> {
    /// Whether sums and differences always have one value.
    pub open spec fn settled(self) -> bool {
        &&& definite(self.arith.plus)
        &&& definite(self.arith.minus)
        &&& answers(self.arith.plus)
        &&& answers(self.arith.minus)
    }

    /// What repeating a tensor along its axes of extent one leaves.
    pub(crate) proof fn lemma_expanded(
        self,
        world: World<T>,
        op: &'static str,
        v: Val,
        dims: Seq<usize>,
    )
        requires
            expands_to(v.dims, dims),
            expanded_val(op, v, dims) is Ok,
        ensures
            ({
                let y = expanded_val(op, v, dims)->Ok_0;
                &&& y.dims == dims
                &&& self.filled(world, y)
                &&& forall|c: Seq<nat>|
                    in_range(dims, c) ==> #[trigger] self.at(world, y, c) == self.at(
                        world,
                        v,
                        under(v.dims, c),
                    )
            }),
    {
        let y = expanded_val(op, v, dims)->Ok_0;
        let n = numel(dims);
        let xs = self.nums(world, v);
        if let Term::Run { kernel, config, args } = y.term {
            self.lemma_arguments(world, args);
            let d = self.arguments(world, args);
            assert(d[0] == self.data(world, v.term));
            assert(d[1] == self.data(world, Term::Zeros(n)));
            assert(d[1].numbers().len() == n);
            if n > 0 {
                lemma_read_words(v.dims, dims);
                assert(d[2].table() == expanded_strides(v.dims));
                assert(d[3].table() == row_major(dims));
            }
            assert(self.nums(world, y).len() == n);
            assert forall|c: Seq<nat>| in_range(dims, c) implies #[trigger] self.at(world, y, c)
                == self.at(world, v, under(v.dims, c)) by {
                lemma_position_bound(dims, c);
                let i = position(dims, c);
                law_broadcast_reads_clamped_coordinates(v.dims, dims, i);
                assert(padded(v.dims, 0) =~= v.dims);
                lemma_under(v.dims, 0, dims, c);
                assert(self.nums(world, y)[i as int] == xs[strided(
                    i,
                    row_major(dims),
                    expanded_strides(v.dims),
                ) as int]);
            }
        }
    }

    /// Repeating a tensor to a shape of its rank: it succeeds where every extent
    /// stays as it is or is one and a kernel can index the result, and nowhere
    /// else, and at every place of the result stands the element that differs in
    /// the repeated axes only.
    pub proof fn law_repeating_reads_the_only_coordinate(
        self,
        world: World<T>,
        x: Val,
        dims: Seq<usize>,
    )
        ensures
            broadcast_as_val(x, dims) is Ok <==> x.dims.len() == dims.len() && dims.len()
                <= MAX_RANK && numel(dims) <= u32::MAX && forall|k: int|
                0 <= k < dims.len() ==> #[trigger] x.dims[k] == dims[k] || x.dims[k] == 1,
            broadcast_as_val(x, dims) matches Ok(y) ==> {
                &&& y.dims == dims
                &&& self.filled(world, y)
                &&& forall|c: Seq<nat>|
                    in_range(dims, c) ==> #[trigger] self.at(world, y, c) == self.at(
                        world,
                        x,
                        under(x.dims, c),
                    )
            },
    {
        if x.dims.len() == dims.len() {
            lemma_stuck(x.dims, dims, 0);
            if broadcast_as_val(x, dims) is Ok {
                self.lemma_expanded(world, "broadcast_as", x, dims);
            }
        }
    }

    /// What a product of broadcast operands leaves.
    pub(crate) proof fn lemma_joint_product(self, world: World<T>, a: Val, b: Val)
        requires
            broadcast_mul_val(a, b) is Ok,
        ensures
            ({
                let y = broadcast_mul_val(a, b)->Ok_0;
                &&& compatible(a.dims, b.dims)
                &&& y.dims == joint_dims(a.dims, b.dims)
                &&& self.filled(world, y)
                &&& forall|c: Seq<nat>|
                    in_range(y.dims, c) ==> #[trigger] self.at(world, y, c) == self.arith.prod(
                        self.at(world, a, under(a.dims, c)),
                        self.at(world, b, under(b.dims, c)),
                    )
            }),
    {
        let y = broadcast_mul_val(a, b)->Ok_0;
        let dims = joint_dims(a.dims, b.dims);
        let n = numel(dims);
        let (pa, pb) = (aligned(a.dims, b.dims), aligned(b.dims, a.dims));
        let (xa, xb) = (self.nums(world, a), self.nums(world, b));
        law_operands_expand_to_joint_shape(a.dims, b.dims);
        if let Term::Run { kernel, config, args } = y.term {
            self.lemma_arguments(world, args);
            let d = self.arguments(world, args);
            assert(d[0] == self.data(world, a.term));
            assert(d[1] == self.data(world, b.term));
            assert(d[2] == self.data(world, Term::Zeros(n)));
            assert(d[2].numbers().len() == n);
            if n > 0 {
                lemma_read_words(pa, dims);
                lemma_read_words(pb, dims);
                assert(d[3].table() == expanded_strides(pa));
                assert(d[4].table() == expanded_strides(pb));
                assert(d[5].table() == row_major(dims));
            }
            assert(self.nums(world, y).len() == n);
            assert forall|c: Seq<nat>| in_range(dims, c) implies #[trigger] self.at(world, y, c)
                == self.arith.prod(
                self.at(world, a, under(a.dims, c)),
                self.at(world, b, under(b.dims, c)),
            ) by {
                lemma_position_bound(dims, c);
                let i = position(dims, c);
                law_broadcast_reads_clamped_coordinates(pa, dims, i);
                law_broadcast_reads_clamped_coordinates(pb, dims, i);
                lemma_joint_reads(a.dims, b.dims, c);
                assert(self.nums(world, y)[i as int] == self.arith.prod(
                    xa[strided(i, row_major(dims), expanded_strides(pa)) as int],
                    xb[strided(i, row_major(dims), expanded_strides(pb)) as int],
                ));
            }
        }
    }

    /// What adding or subtracting broadcast operands on the host gives.
    proof fn lemma_joint_sum(self, world: World<T>, subtract: bool, a: Val, b: Val)
        requires
            self.settled(),
            host_broadcast_val(subtract, a, b) is Ok,
        ensures
            ({
                let y = host_broadcast_val(subtract, a, b)->Ok_0;
                &&& compatible(a.dims, b.dims)
                &&& y.dims == joint_dims(a.dims, b.dims)
                &&& self.filled(world, y)
                &&& forall|c: Seq<nat>|
                    in_range(y.dims, c) ==> #[trigger] self.at(world, y, c) == {
                        let p = self.at(world, a, under(a.dims, c));
                        let q = self.at(world, b, under(b.dims, c));
                        if subtract {
                            self.diff(p, q)
                        } else {
                            self.arith.sum(p, q)
                        }
                    }
            }),
    {
        let y = host_broadcast_val(subtract, a, b)->Ok_0;
        let dims = joint_dims(a.dims, b.dims);
        let (pa, pb) = (aligned(a.dims, b.dims), aligned(b.dims, a.dims));
        let task = HostTaskView::Broadcast { subtract, a: pa, b: pb, out: dims };
        let terms = seq![a.term, b.term];
        let ins = self.all_data(world, terms);
        self.lemma_all_data(world, terms);
        let xs = Seq::new(ins.len(), |k: int| ins[k].numbers());
        assert(xs[0] == self.nums(world, a));
        assert(xs[1] == self.nums(world, b));
        let one = |i: int|
            {
                let p = xs[0][read_at(pa, dims, i as nat) as int];
                let q = xs[1][read_at(pb, dims, i as nat) as int];
                if subtract {
                    ap(self.arith.minus, p, q)
                } else {
                    ap(self.arith.plus, p, q)
                }
            };
        let made = Seq::new(numel(dims), one);
        assert(task.gives(
            xs,
            self.arith.zero,
            self.arith.plus,
            self.arith.minus,
            self.arith.times,
            made,
        )) by {
            assert forall|i: int| 0 <= i < made.len() implies {
                let p = xs[0][read_at(pa, dims, i as nat) as int];
                let q = xs[1][read_at(pb, dims, i as nat) as int];
                if subtract {
                    self.arith.minus.ensures((p, q), #[trigger] made[i])
                } else {
                    self.arith.plus.ensures((p, q), made[i])
                }
            } by {
                assert(made[i] == one(i));
            }
        }
        let got = self.computed(task, xs);
        assert(self.data(world, y.term) == Datum::Numbers(got));
        assert forall|c: Seq<nat>| in_range(dims, c) implies #[trigger] self.at(world, y, c) == {
            let p = self.at(world, a, under(a.dims, c));
            let q = self.at(world, b, under(b.dims, c));
            if subtract {
                self.diff(p, q)
            } else {
                self.arith.sum(p, q)
            }
        } by {
            lemma_position_bound(dims, c);
            let i = position(dims, c) as int;
            lemma_joint_reads(a.dims, b.dims, c);
            let p = xs[0][read_at(pa, dims, i as nat) as int];
            let q = xs[1][read_at(pb, dims, i as nat) as int];
            if subtract {
                assert(self.arith.minus.ensures((p, q), got[i]));
            } else {
                assert(self.arith.plus.ensures((p, q), got[i]));
            }
        }
    }

    /// Sums and differences of two tensors: they succeed exactly where the
    /// shapes can be broadcast together, have the shape that both are broadcast
    /// to, and hold at every place the sum, or the difference, of the elements
    /// that broadcasting reads there.
    pub proof fn law_sums_add_broadcast_elements(
        self,
        world: World<T>,
        subtract: bool,
        a: Val,
        b: Val,
    )
        requires
            self.settled(),
            self.filled(world, a),
            self.filled(world, b),
        ensures
            sum_val(subtract, a, b) is Ok <==> joinable(a.dims, b.dims),
            sum_val(subtract, a, b) matches Ok(y) ==> {
                &&& joins(a.dims, b.dims, y.dims)
                &&& self.filled(world, y)
                &&& forall|c: Seq<nat>|
                    in_range(y.dims, c) ==> #[trigger] self.at(world, y, c) == {
                        let p = self.at(world, a, under(a.dims, c));
                        let q = self.at(world, b, under(b.dims, c));
                        if subtract {
                            self.diff(p, q)
                        } else {
                            self.arith.sum(p, q)
                        }
                    }
            },
    {
        lemma_joinable(a.dims, b.dims);
        if a.dims == b.dims {
            law_equal_shapes_broadcast_to_themselves(a.dims);
            let kernel = if subtract {
                Kernel::Sub
            } else {
                Kernel::Add
            };
            self.lemma_binary(world, kernel, a, b);
            let y = binary_val(kernel, a, b);
            assert forall|c: Seq<nat>| in_range(y.dims, c) implies #[trigger] self.at(world, y, c)
                == {
                let p = self.at(world, a, under(a.dims, c));
                let q = self.at(world, b, under(b.dims, c));
                if subtract {
                    self.diff(p, q)
                } else {
                    self.arith.sum(p, q)
                }
            } by {
                self.lemma_same_read(world, a, y, c);
                self.lemma_same_read(world, b, y, c);
            }
        } else if compatible(a.dims, b.dims) {
            self.lemma_joint_sum(world, subtract, a, b);
        }
    }

    /// An operand of the result's shape is read as it is.
    pub(crate) proof fn lemma_same_read(self, world: World<T>, a: Val, y: Val, c: Seq<nat>)
        requires
            y.dims == a.dims,
            in_range(y.dims, c),
        ensures
            position(y.dims, c) < y.count(),
            self.at(world, a, under(a.dims, c)) == self.nums(world, a)[position(y.dims, c) as int],
    {
        lemma_position_bound(y.dims, c);
        lemma_under_self(y.dims, c);
    }

    /// Products of two tensors, element by element: they succeed where the
    /// shapes are the same, or can be broadcast together to one that a kernel
    /// can index, and nowhere else, and hold at every place the product of the
    /// elements that broadcasting reads there.
    pub proof fn law_products_multiply_broadcast_elements(self, world: World<T>, a: Val, b: Val)
        requires
            self.filled(world, a),
            self.filled(world, b),
        ensures
            times(a, b) is Ok ==> joinable(a.dims, b.dims),
            forall|d: Seq<usize>|
                joinable(a.dims, b.dims) && #[trigger] joins(a.dims, b.dims, d) ==> (times(
                    a,
                    b,
                ) is Ok <==> a.dims == b.dims || (d.len() <= MAX_RANK && numel(d) <= u32::MAX)),
            times(a, b) matches Ok(y) ==> {
                &&& joins(a.dims, b.dims, y.dims)
                &&& self.filled(world, y)
                &&& forall|c: Seq<nat>|
                    in_range(y.dims, c) ==> #[trigger] self.at(world, y, c) == self.arith.prod(
                        self.at(world, a, under(a.dims, c)),
                        self.at(world, b, under(b.dims, c)),
                    )
            },
    {
        lemma_joinable(a.dims, b.dims);
        if joinable(a.dims, b.dims) {
            let j = joint_dims(a.dims, b.dims);
            assert forall|d: Seq<usize>| #[trigger] joins(a.dims, b.dims, d) implies d == j by {
                assert forall|i: int| 0 <= i < d.len() implies d[i] == j[i] by {
                    let k = d.len() - 1 - i;
                    assert(facing(d, k) == d[i]);
                    assert(facing(j, k) == j[i]);
                }
                assert(d =~= j);
            }
        }
        if a.dims == b.dims {
            law_equal_shapes_broadcast_to_themselves(a.dims);
            self.lemma_binary(world, Kernel::Mul, a, b);
            let y = binary_val(Kernel::Mul, a, b);
            assert forall|c: Seq<nat>| in_range(y.dims, c) implies #[trigger] self.at(world, y, c)
                == self.arith.prod(
                self.at(world, a, under(a.dims, c)),
                self.at(world, b, under(b.dims, c)),
            ) by {
                self.lemma_same_read(world, a, y, c);
                self.lemma_same_read(world, b, y, c);
            }
        } else if broadcast_mul_val(a, b) is Ok {
            self.lemma_joint_product(world, a, b);
        }
    }
}

} // verus!
