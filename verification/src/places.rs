//! Where the elements of a shape stand, axis by axis, and what broadcasting
//! reads.

use crate::broadcast::{
    aligned, compatible, first_clash, joint_dims, joint_rank, law_operands_expand_to_joint_shape,
};
use crate::device::{lemma_padded, padded};
use crate::host::{at3, read_at};
use crate::shape::{
    clamped, expands_to, in_range, lemma_coords_of_position, lemma_numel_axis,
    lemma_position_bound, lemma_row_major_step, numel, position, row_major, tail,
};
use vstd::prelude::*;

verus! {

/// The extent of a shape at the axis that is `k`-th from the last; one where
/// there is no such axis.
pub open spec fn facing(s: Seq<usize>, k: int) -> usize {
    if 0 <= k < s.len() {
        s[s.len() - 1 - k]
    } else {
        1
    }
}

/// Whether two shapes can be broadcast together: aligned at their last axes,
/// extents are equal or one of them is one.
pub open spec fn joinable(a: Seq<usize>, b: Seq<usize>) -> bool {
    forall|k: int|
        0 <= k < a.len() && k < b.len() ==> #[trigger] facing(a, k) == facing(b, k) || facing(a, k)
            == 1 || facing(b, k) == 1
}

/// Whether `d` is what `a` and `b` are broadcast to.
pub open spec fn joins(a: Seq<usize>, b: Seq<usize>, d: Seq<usize>) -> bool {
    &&& d.len() == if a.len() >= b.len() {
        a.len()
    } else {
        b.len()
    }
    &&& forall|k: int|
        0 <= k < d.len() ==> #[trigger] facing(d, k) == if facing(a, k) == 1 {
            facing(b, k)
        } else {
            facing(a, k)
        }
}

/// The coordinates at which a tensor of shape `s` is read for the element at
/// coordinates `c` of a shape that it is broadcast to.
pub open spec fn under(s: Seq<usize>, c: Seq<nat>) -> Seq<nat> {
    Seq::new(
        s.len(),
        |i: int|
            if s[i] == 1 {
                0nat
            } else {
                c[c.len() - s.len() + i]
            },
    )
}

/// The part of a position that the axes before `k` make.
pub open spec fn before(s: Seq<usize>, c: Seq<nat>, k: int) -> int {
    position(s.subrange(0, k), c.subrange(0, k)) as int
}

/// The part of a position that the axes after `k` make.
pub open spec fn after(s: Seq<usize>, c: Seq<nat>, k: int) -> int {
    position(tail(s, k + 1), c.subrange(k + 1, c.len() as int)) as int
}

/// A position, split at axis `k`.
pub(crate) proof fn lemma_axis(s: Seq<usize>, c: Seq<nat>, k: int)
    requires
        in_range(s, c),
        0 <= k < s.len(),
    ensures
        position(s, c) == at3(
            before(s, c, k),
            s[k] as int,
            c[k] as int,
            numel(tail(s, k + 1)) as int,
            after(s, c, k),
        ),
        0 <= before(s, c, k) < numel(s.subrange(0, k)),
        0 <= after(s, c, k) < numel(tail(s, k + 1)),
        in_range(s.subrange(0, k), c.subrange(0, k)),
        in_range(tail(s, k + 1), c.subrange(k + 1, c.len() as int)),
    decreases k,
{
    let p = s.subrange(0, k);
    let pc = c.subrange(0, k);
    let t = tail(s, k + 1);
    let tc = c.subrange(k + 1, c.len() as int);
    assert(in_range(p, pc)) by {
        assert forall|i: int| 0 <= i < p.len() implies pc[i] < #[trigger] p[i] by {
            assert(c[i] < s[i]);
        }
    }
    assert(in_range(t, tc)) by {
        assert forall|i: int| 0 <= i < t.len() implies tc[i] < #[trigger] t[i] by {
            assert(c[i + k + 1] < s[i + k + 1]);
        }
    }
    lemma_position_bound(p, pc);
    lemma_position_bound(t, tc);
    let r = s.drop_first();
    let rc = c.drop_first();
    lemma_row_major_step(s);
    let e = s[k] as int;
    let inner = numel(t) as int;
    let i = position(t, tc) as int;
    let a = c[k] as int;
    if k == 0 {
        assert(t =~= r);
        assert(tc =~= rc);
        assert(position(p, pc) == 0);
        assert((0 * e + a) * inner + i == a * inner + i) by (nonlinear_arith);
    } else {
        assert(in_range(r, rc)) by {
            assert forall|j: int| 0 <= j < r.len() implies rc[j] < #[trigger] r[j] by {
                assert(c[j + 1] < s[j + 1]);
            }
        }
        lemma_axis(r, rc, k - 1);
        lemma_numel_axis(r, k - 1);
        lemma_row_major_step(p);
        let q = r.subrange(0, k - 1);
        let qc = rc.subrange(0, k - 1);
        assert(p.drop_first() =~= q);
        assert(pc.drop_first() =~= qc);
        assert(tail(r, k) =~= t);
        assert(rc.subrange(k, rc.len() as int) =~= tc);
        let c0 = c[0] as int;
        let m = numel(q) as int;
        let o = position(q, qc) as int;
        assert(c0 * (m * (e * inner)) + ((o * e + a) * inner + i) == ((c0 * m + o) * e + a) * inner
            + i) by (nonlinear_arith);
    }
}

/// A position, split after the first axis.
pub(crate) proof fn lemma_position_step(s: Seq<usize>, c: Seq<nat>)
    requires
        s.len() > 0,
        c.len() == s.len(),
    ensures
        position(s, c) == c[0] * numel(s.drop_first()) + position(s.drop_first(), c.drop_first()),
{
    lemma_row_major_step(s);
}

/// The positions of shapes of low rank, written out.
pub(crate) proof fn lemma_low_positions(s: Seq<usize>, c: Seq<nat>)
    requires
        c.len() == s.len(),
        s.len() <= 4,
    ensures
        s.len() == 0 ==> position(s, c) == 0,
        s.len() == 1 ==> position(s, c) == c[0],
        s.len() == 2 ==> position(s, c) == c[0] * s[1] + c[1],
        s.len() == 3 ==> position(s, c) == (c[0] * s[1] + c[1]) * s[2] + c[2],
        s.len() == 4 ==> position(s, c) == ((c[0] * s[1] + c[1]) * s[2] + c[2]) * s[3] + c[3],
    decreases s.len(),
{
    if s.len() > 0 {
        let r = s.drop_first();
        let d = c.drop_first();
        lemma_position_step(s, c);
        lemma_low_positions(r, d);
        crate::shape::lemma_low_rank(r);
        let x = c[0] as int;
        if s.len() == 1 {
            assert(x * 1 == x);
        } else if s.len() == 3 {
            let (n1, n2, c1, c2) = (s[1] as int, s[2] as int, c[1] as int, c[2] as int);
            assert(x * (n1 * n2) + (c1 * n2 + c2) == (x * n1 + c1) * n2 + c2) by (nonlinear_arith);
        } else if s.len() == 4 {
            let (n1, n2, n3) = (s[1] as int, s[2] as int, s[3] as int);
            let (c1, c2, c3) = (c[1] as int, c[2] as int, c[3] as int);
            assert(x * (n1 * (n2 * n3)) + ((c1 * n2 + c2) * n3 + c3) == ((x * n1 + c1) * n2 + c2)
                * n3 + c3) by (nonlinear_arith);
        }
    }
}

/// Changing the coordinate and the extent of one axis leaves the parts of a
/// position before and after it.
pub(crate) proof fn lemma_axis_update(s: Seq<usize>, c: Seq<nat>, k: int, e: usize, v: nat)
    requires
        in_range(s, c),
        0 <= k < s.len(),
        v < e,
    ensures
        in_range(s.update(k, e), c.update(k, v)),
        position(s.update(k, e), c.update(k, v)) == at3(
            before(s, c, k),
            e as int,
            v as int,
            numel(tail(s, k + 1)) as int,
            after(s, c, k),
        ),
        before(s.update(k, e), c.update(k, v), k) == before(s, c, k),
        after(s.update(k, e), c.update(k, v), k) == after(s, c, k),
{
    let u = s.update(k, e);
    let w = c.update(k, v);
    assert forall|i: int| 0 <= i < u.len() implies w[i] < #[trigger] u[i] by {
        assert(c[i] < s[i]);
    }
    lemma_axis(u, w, k);
    assert(u.subrange(0, k) =~= s.subrange(0, k));
    assert(w.subrange(0, k) =~= c.subrange(0, k));
    assert(tail(u, k + 1) =~= tail(s, k + 1));
    assert(w.subrange(k + 1, w.len() as int) =~= c.subrange(k + 1, c.len() as int));
}

/// Leading axes of extent one do not move a position.
pub(crate) proof fn lemma_padded_position(s: Seq<usize>, n: nat, c: Seq<nat>)
    requires
        in_range(padded(s, n), c),
    ensures
        position(padded(s, n), c) == position(s, c.subrange(n as int, c.len() as int)),
        in_range(s, c.subrange(n as int, c.len() as int)),
    decreases n,
{
    let p = padded(s, n);
    let d = c.subrange(n as int, c.len() as int);
    assert(in_range(s, d)) by {
        assert forall|i: int| 0 <= i < s.len() implies d[i] < #[trigger] s[i] by {
            assert(c[i + n] < p[i + n]);
        }
    }
    if n == 0 {
        assert(p =~= s);
        assert(d =~= c);
    } else {
        let m = (n - 1) as nat;
        lemma_row_major_step(p);
        assert(p.drop_first() =~= padded(s, m));
        assert(c[0] < p[0]);
        let r = c.drop_first();
        assert(in_range(padded(s, m), r)) by {
            assert forall|i: int| 0 <= i < r.len() implies r[i] < #[trigger] padded(s, m)[i] by {
                assert(c[i + 1] < p[i + 1]);
            }
        }
        lemma_padded_position(s, m, r);
        assert(r.subrange(m as int, r.len() as int) =~= d);
        assert(c[0] * row_major(p)[0] == 0);
    }
}

pub(crate) proof fn lemma_clash(a: Seq<usize>, b: Seq<usize>, i: int)
    requires
        a.len() == b.len(),
        0 <= i <= a.len(),
    ensures
        first_clash(a, b, i) is None <==> forall|k: int|
            i <= k < a.len() ==> #[trigger] a[k] == b[k] || a[k] == 1 || b[k] == 1,
    decreases a.len() - i,
{
    if i < a.len() {
        lemma_clash(a, b, i + 1);
        if first_clash(a, b, i) is None {
            assert forall|k: int| i <= k < a.len() implies #[trigger] a[k] == b[k] || a[k] == 1
                || b[k] == 1 by {}
        }
    }
}

/// Which shapes can be broadcast together, and to what.
pub(crate) proof fn lemma_joinable(a: Seq<usize>, b: Seq<usize>)
    ensures
        compatible(a, b) <==> joinable(a, b),
        compatible(a, b) ==> joins(a, b, joint_dims(a, b)),
{
    let n = joint_rank(a, b);
    let pa = aligned(a, b);
    let pb = aligned(b, a);
    lemma_padded(a, (n - a.len()) as nat);
    lemma_padded(b, (n - b.len()) as nat);
    lemma_clash(pa, pb, 0);
    assert forall|k: int| 0 <= k < n implies #[trigger] pa[k] == facing(a, n - 1 - k) && pb[k]
        == facing(b, n - 1 - k) by {}
    if joinable(a, b) {
        assert forall|k: int| 0 <= k < n implies #[trigger] pa[k] == pb[k] || pa[k] == 1 || pb[k]
            == 1 by {
            assert(pa[k] == facing(a, n - 1 - k));
        }
    }
    if compatible(a, b) {
        assert forall|k: int| 0 <= k < a.len() && k < b.len() implies #[trigger] facing(a, k)
            == facing(b, k) || facing(a, k) == 1 || facing(b, k) == 1 by {
            let i = n - 1 - k;
            assert(pa[i] == pb[i] || pa[i] == 1 || pb[i] == 1);
        }
        let d = joint_dims(a, b);
        assert forall|k: int| 0 <= k < d.len() implies #[trigger] facing(d, k) == (if facing(a, k)
            == 1 {
            facing(b, k)
        } else {
            facing(a, k)
        }) by {
            let i = n - 1 - k;
            assert(pa[i] == facing(a, k) && pb[i] == facing(b, k));
            assert(pa[i] == pb[i] || pa[i] == 1 || pb[i] == 1);
        }
    }
}

/// What an operand of shape `s` is read at, once it is aligned with the shape
/// `d` that it expands to.
pub(crate) proof fn lemma_under(s: Seq<usize>, n: nat, d: Seq<usize>, c: Seq<nat>)
    requires
        expands_to(padded(s, n), d),
        in_range(d, c),
    ensures
        read_at(padded(s, n), d, position(d, c)) == position(s, under(s, c)),
        in_range(s, under(s, c)),
        position(s, under(s, c)) < numel(s),
{
    let p = padded(s, n);
    lemma_coords_of_position(d, c);
    let w = clamped(p, c);
    assert(in_range(p, w)) by {
        assert forall|i: int| 0 <= i < p.len() implies w[i] < #[trigger] p[i] by {
            assert(c[i] < d[i]);
            assert(p[i] == d[i] || p[i] == 1);
        }
    }
    lemma_padded_position(s, n, w);
    assert forall|i: int| 0 <= i < s.len() implies w.subrange(n as int, w.len() as int)[i] == under(
        s,
        c,
    )[i] by {
        assert(p[i + n] == s[i]);
    }
    assert(w.subrange(n as int, w.len() as int) =~= under(s, c));
    lemma_position_bound(s, under(s, c));
}

/// What the operands of a broadcast are read at.
pub(crate) proof fn lemma_joint_reads(a: Seq<usize>, b: Seq<usize>, c: Seq<nat>)
    requires
        compatible(a, b),
        in_range(joint_dims(a, b), c),
    ensures
        ({
            let d = joint_dims(a, b);
            &&& read_at(aligned(a, b), d, position(d, c)) == position(a, under(a, c))
            &&& read_at(aligned(b, a), d, position(d, c)) == position(b, under(b, c))
            &&& position(a, under(a, c)) < numel(a)
            &&& position(b, under(b, c)) < numel(b)
            &&& in_range(a, under(a, c))
            &&& in_range(b, under(b, c))
        }),
{
    law_operands_expand_to_joint_shape(a, b);
    let n = joint_rank(a, b);
    lemma_under(a, (n - a.len()) as nat, joint_dims(a, b), c);
    lemma_under(b, (n - b.len()) as nat, joint_dims(a, b), c);
}

/// A shape reads its own elements as they are.
pub(crate) proof fn lemma_under_self(s: Seq<usize>, c: Seq<nat>)
    requires
        in_range(s, c),
    ensures
        under(s, c) == c,
{
    assert forall|i: int| 0 <= i < s.len() implies under(s, c)[i] == c[i] by {
        assert(c[i] < s[i]);
    }
    assert(under(s, c) =~= c);
}

} // verus!
