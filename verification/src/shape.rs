//! Row-major shape arithmetic: element counts, strides, coordinates and
//! NumPy-style broadcasting.

use vstd::arithmetic::div_mod::{
    lemma_fundamental_div_mod, lemma_fundamental_div_mod_converse, lemma_mod_bound,
};
use vstd::arithmetic::mul::{lemma_mul_is_associative, lemma_mul_is_commutative};
use vstd::prelude::*;

verus! {

/// Number of elements of a tensor of shape `s`: the product of its extents.
pub open spec fn numel(s: Seq<usize>) -> nat
    decreases s.len(),
{
    if s.len() == 0 {
        1
    } else {
        (s[0] as nat) * numel(s.drop_first())
    }
}

/// Product of the non-zero extents of `s`. Every product of a run of
/// consecutive extents is at most this, so a bound on `span` rules out
/// overflow in every stride and every partial element count.
pub open spec fn span(s: Seq<usize>) -> nat
    decreases s.len(),
{
    if s.len() == 0 {
        1
    } else {
        (if s[0] == 0 {
            1
        } else {
            s[0] as nat
        }) * span(s.drop_first())
    }
}

/// Whether `s` has no empty axis and so few elements that a kernel can index
/// them all.
pub open spec fn regular(s: Seq<usize>) -> bool {
    &&& forall|i: int| 0 <= i < s.len() ==> #[trigger] s[i] >= 1
    &&& numel(s) <= u32::MAX
}

/// Whether `s` has no empty axis and its elements can be counted.
pub open spec fn solid(s: Seq<usize>) -> bool {
    &&& forall|i: int| 0 <= i < s.len() ==> #[trigger] s[i] >= 1
    &&& numel(s) <= usize::MAX
}

/// The extents of `s` from axis `i` on.
pub open spec fn tail(s: Seq<usize>, i: int) -> Seq<usize> {
    s.subrange(i, s.len() as int)
}

/// Row-major stride of axis `i`: how many elements one step along it skips.
pub open spec fn stride_at(s: Seq<usize>, i: int) -> nat {
    numel(tail(s, i + 1))
}

/// All row-major strides of `s`.
pub open spec fn row_major(s: Seq<usize>) -> Seq<nat> {
    Seq::new(s.len(), |i: int| stride_at(s, i))
}

/// Strides by which a tensor of shape `s` is read under broadcasting: an axis
/// of extent one is not stepped along at all.
pub open spec fn expanded_strides(s: Seq<usize>) -> Seq<nat> {
    Seq::new(s.len(), |i: int| if s[i] == 1 { 0nat } else { stride_at(s, i) })
}

/// Whether `c` holds one in-range coordinate per axis of `s`.
pub open spec fn in_range(s: Seq<usize>, c: Seq<nat>) -> bool {
    &&& c.len() == s.len()
    &&& forall|i: int| 0 <= i < s.len() ==> c[i] < #[trigger] s[i]
}

/// Coordinates of the element stored at row-major position `flat`.
pub open spec fn coords(s: Seq<usize>, flat: nat) -> Seq<nat>
    decreases s.len(),
{
    if s.len() == 0 {
        Seq::empty()
    } else {
        let rest = numel(s.drop_first());
        seq![flat / rest] + coords(s.drop_first(), flat % rest)
    }
}

/// Weighted sum of coordinates: the position that strides `t` give to `c`.
pub open spec fn dot(c: Seq<nat>, t: Seq<nat>) -> nat
    decreases c.len(),
{
    if c.len() == 0 {
        0
    } else {
        c[0] * t[0] + dot(c.drop_first(), t.drop_first())
    }
}

/// Row-major position of the element at coordinates `c`.
pub open spec fn position(s: Seq<usize>, c: Seq<nat>) -> nat {
    dot(c, row_major(s))
}

/// The position reached from `flat` by peeling one coordinate per axis off
/// with the strides `out`, and stepping by the strides `src`.
pub open spec fn strided(flat: nat, out: Seq<nat>, src: Seq<nat>) -> nat
    decreases out.len(),
{
    if out.len() == 0 {
        0
    } else {
        (flat / out[0]) * src[0] + strided(flat % out[0], out.drop_first(), src.drop_first())
    }
}

/// `s` with the entries at `a` and `b` exchanged.
pub open spec fn swapped<T>(s: Seq<T>, a: int, b: int) -> Seq<T> {
    s.update(a, s[b]).update(b, s[a])
}

/// The number of elements never exceeds the span.
pub proof fn lemma_numel_le_span(s: Seq<usize>)
    ensures
        numel(s) <= span(s),
        span(s) >= 1,
        numel(s) > 0 ==> numel(s) == span(s),
    decreases s.len(),
{
    if s.len() > 0 {
        let d = s[0] as nat;
        let r = s.drop_first();
        lemma_numel_le_span(r);
        let m: nat = if d == 0 {
            1
        } else {
            d
        };
        let nr = numel(r);
        let sr = span(r);
        assert(d * nr <= m * sr && m * sr >= 1) by (nonlinear_arith)
            requires
                d <= m,
                m >= 1,
                nr <= sr,
                sr >= 1,
        ;
        if numel(s) > 0 {
            assert(nr > 0 && d > 0) by (nonlinear_arith)
                requires
                    d * nr > 0,
            ;
        }
    }
}

/// Without an empty axis the count is the span, and at least one.
pub proof fn lemma_positive(s: Seq<usize>)
    requires
        forall|i: int| 0 <= i < s.len() ==> #[trigger] s[i] >= 1,
    ensures
        numel(s) == span(s),
        numel(s) >= 1,
    decreases s.len(),
{
    if s.len() > 0 {
        let r = s.drop_first();
        assert forall|i: int| 0 <= i < r.len() implies #[trigger] r[i] >= 1 by {
            assert(s[i + 1] >= 1);
        }
        lemma_positive(r);
        lemma_numel_le_span(s);
        let d = s[0] as nat;
        let m = numel(r);
        assert(s[0] >= 1);
        assert(d * m >= 1) by (nonlinear_arith)
            requires
                d >= 1,
                m >= 1,
        ;
    }
}

/// The products of shapes of low rank, written out.
pub proof fn lemma_low_rank(s: Seq<usize>)
    ensures
        s.len() == 0 ==> numel(s) == 1,
        s.len() == 1 ==> numel(s) == s[0],
        s.len() == 2 ==> numel(s) == s[0] * s[1],
        s.len() == 3 ==> numel(s) == s[0] * (s[1] * s[2]),
        s.len() == 4 ==> numel(s) == s[0] * (s[1] * (s[2] * s[3])),
    decreases s.len(),
{
    if 0 < s.len() <= 4 {
        let r = s.drop_first();
        lemma_low_rank(r);
        assert(s.len() == 1 ==> s[0] * 1 == s[0]);
    }
}

/// Both products split at any axis.
pub proof fn lemma_split(s: Seq<usize>, k: int)
    requires
        0 <= k <= s.len(),
    ensures
        numel(s) == numel(s.subrange(0, k)) * numel(tail(s, k)),
        span(s) == span(s.subrange(0, k)) * span(tail(s, k)),
    decreases k,
{
    if k == 0 {
        assert(tail(s, 0) =~= s);
        assert(s.subrange(0, 0) =~= Seq::<usize>::empty());
    } else {
        let r = s.drop_first();
        lemma_split(r, k - 1);
        let p = s.subrange(0, k);
        assert(p.drop_first() =~= r.subrange(0, k - 1));
        assert(tail(r, k - 1) =~= tail(s, k));
        lemma_mul_is_associative(
            s[0] as int,
            numel(r.subrange(0, k - 1)) as int,
            numel(tail(s, k)) as int,
        );
        let m: nat = if s[0] == 0 {
            1
        } else {
            s[0] as nat
        };
        lemma_mul_is_associative(
            m as int,
            span(r.subrange(0, k - 1)) as int,
            span(tail(s, k)) as int,
        );
        assert(p[0] == s[0]);
    }
}

/// A run of consecutive extents has a span no larger than the whole.
pub proof fn lemma_span_run(s: Seq<usize>, i: int, j: int)
    requires
        0 <= i <= j <= s.len(),
    ensures
        span(s.subrange(i, j)) <= span(s),
        numel(s.subrange(i, j)) <= span(s),
{
    let t = tail(s, i);
    lemma_split(s, i);
    lemma_split(t, j - i);
    assert(t.subrange(0, j - i) =~= s.subrange(i, j));
    lemma_numel_le_span(s.subrange(0, i));
    lemma_numel_le_span(tail(t, j - i));
    lemma_numel_le_span(s.subrange(i, j));
    let a = span(s.subrange(0, i));
    let b = span(s.subrange(i, j));
    let c = span(tail(t, j - i));
    assert(b <= a * (b * c)) by (nonlinear_arith)
        requires
            a >= 1,
            c >= 1,
            b >= 1,
    ;
}

/// The tail product of axis `i` is its extent times its stride.
pub proof fn lemma_tail_step(s: Seq<usize>, i: int)
    requires
        0 <= i < s.len(),
    ensures
        numel(tail(s, i)) == (s[i] as nat) * stride_at(s, i),
        tail(s, i).drop_first() == tail(s, i + 1),
        span(tail(s, i)) == (if s[i] == 0 {
            1nat
        } else {
            s[i] as nat
        }) * span(tail(s, i + 1)),
{
    assert(tail(s, i).drop_first() =~= tail(s, i + 1));
}

/// Number of elements of a tensor of shape `shape`.
pub fn element_count(shape: &[usize]) -> (n: usize)
    requires
        span(shape@) <= usize::MAX,
    ensures
        n == numel(shape@),
{
    let mut i: usize = shape.len();
    let mut acc: usize = 1;
    assert(tail(shape@, i as int) =~= Seq::<usize>::empty());
    while i > 0
        invariant
            i <= shape.len(),
            span(shape@) <= usize::MAX,
            acc == numel(tail(shape@, i as int)),
        decreases i,
    {
        i = i - 1;
        proof {
            lemma_tail_step(shape@, i as int);
            lemma_span_run(shape@, i as int, shape@.len() as int);
        }
        acc = shape[i] * acc;
    }
    assert(tail(shape@, 0) =~= shape@);
    acc
}

/// Row-major strides of `shape`.
pub fn row_major_strides(shape: &[usize]) -> (strides: Vec<usize>)
    requires
        span(shape@) <= usize::MAX,
    ensures
        strides.len() == shape.len(),
        forall|i: int| 0 <= i < shape.len() ==> #[trigger] strides[i] == stride_at(shape@, i),
{
    let mut strides: Vec<usize> = vec![0; shape.len()];
    let mut i: usize = shape.len();
    let mut acc: usize = 1;
    assert(tail(shape@, i as int) =~= Seq::<usize>::empty());
    while i > 0
        invariant
            i <= shape.len(),
            strides.len() == shape.len(),
            span(shape@) <= usize::MAX,
            acc == numel(tail(shape@, i as int)),
            forall|k: int| i <= k < shape.len() ==> #[trigger] strides[k] == stride_at(shape@, k),
        decreases i,
    {
        i = i - 1;
        strides.set(i, acc);
        proof {
            lemma_tail_step(shape@, i as int);
            lemma_span_run(shape@, i as int, shape@.len() as int);
        }
        acc = shape[i] * acc;
    }
    strides
}

/// Coordinates as an operand of shape `a` sees them under broadcasting: every
/// axis of extent one is read at its only coordinate.
pub open spec fn clamped(a: Seq<usize>, c: Seq<nat>) -> Seq<nat> {
    Seq::new(a.len(), |i: int| if a[i] == 1 { 0nat } else { c[i] })
}

/// Whether a tensor of shape `a` can be read as one of the equal-rank shape `d`.
pub open spec fn expands_to(a: Seq<usize>, d: Seq<usize>) -> bool {
    &&& a.len() == d.len()
    &&& forall|i: int| 0 <= i < a.len() ==> #[trigger] a[i] == d[i] || a[i] == 1
}

pub proof fn lemma_row_major_step(s: Seq<usize>)
    requires
        s.len() > 0,
    ensures
        row_major(s).len() == s.len(),
        row_major(s)[0] == numel(s.drop_first()),
        row_major(s).drop_first() == row_major(s.drop_first()),
{
    let r = s.drop_first();
    assert(tail(s, 1) =~= r);
    assert forall|i: int| 0 <= i < r.len() implies row_major(s).drop_first()[i] == row_major(r)[i] by {
        assert(tail(s, i + 2) =~= tail(r, i + 1));
    }
    assert(row_major(s).drop_first() =~= row_major(r));
}

/// Every position below the element count has in-range coordinates, and lies
/// where those coordinates say.
pub proof fn lemma_position_of_coords(s: Seq<usize>, flat: nat)
    requires
        flat < numel(s),
    ensures
        in_range(s, coords(s, flat)),
        position(s, coords(s, flat)) == flat,
    decreases s.len(),
{
    if s.len() > 0 {
        let r = s.drop_first();
        let rest = numel(r);
        let d = s[0] as nat;
        assert(rest > 0) by (nonlinear_arith)
            requires
                flat < d * rest,
                flat >= 0,
        ;
        lemma_fundamental_div_mod(flat as int, rest as int);
        lemma_mod_bound(flat as int, rest as int);
        let q = flat / rest;
        assert(q < d) by (nonlinear_arith)
            requires
                flat < d * rest,
                rest * q <= flat,
                rest > 0,
        ;
        lemma_position_of_coords(r, flat % rest);
        lemma_row_major_step(s);
        let c = coords(s, flat);
        let cr = coords(r, flat % rest);
        assert(c.drop_first() =~= cr);
        assert forall|i: int| 0 <= i < s.len() implies c[i] < #[trigger] s[i] by {
            if i > 0 {
                assert(c[i] == cr[i - 1]);
                assert(r[i - 1] == s[i]);
            }
        }
        lemma_mul_is_commutative(q as int, rest as int);
    }
}

/// In-range coordinates have a position below the element count.
pub proof fn lemma_position_bound(s: Seq<usize>, c: Seq<nat>)
    requires
        in_range(s, c),
    ensures
        position(s, c) < numel(s),
    decreases s.len(),
{
    if s.len() > 0 {
        let r = s.drop_first();
        let cr = c.drop_first();
        lemma_row_major_step(s);
        assert(in_range(r, cr)) by {
            assert forall|i: int| 0 <= i < r.len() implies cr[i] < #[trigger] r[i] by {
                assert(c[i + 1] < s[i + 1]);
            }
        }
        lemma_position_bound(r, cr);
        let rest = numel(r);
        let d = s[0] as nat;
        let q = c[0];
        let p = position(r, cr);
        assert(q < d);
        assert(q * rest + p < d * rest) by (nonlinear_arith)
            requires
                q < d,
                p < rest,
        ;
    }
}

/// Coordinates survive the round trip through their position.
pub proof fn lemma_coords_of_position(s: Seq<usize>, c: Seq<nat>)
    requires
        in_range(s, c),
    ensures
        coords(s, position(s, c)) == c,
    decreases s.len(),
{
    if s.len() > 0 {
        let r = s.drop_first();
        let cr = c.drop_first();
        lemma_row_major_step(s);
        assert(in_range(r, cr)) by {
            assert forall|i: int| 0 <= i < r.len() implies cr[i] < #[trigger] r[i] by {
                assert(c[i + 1] < s[i + 1]);
            }
        }
        lemma_position_bound(r, cr);
        lemma_coords_of_position(r, cr);
        let rest = numel(r);
        let p = position(r, cr);
        lemma_fundamental_div_mod_converse(
            (c[0] * rest + p) as int,
            rest as int,
            c[0] as int,
            p as int,
        );
        assert(coords(s, position(s, c)) =~= c);
    } else {
        assert(coords(s, position(s, c)) =~= c);
    }
}

/// Peeling with row-major strides is reading off the coordinates.
pub proof fn lemma_strided_is_dot(s: Seq<usize>, flat: nat, t: Seq<nat>)
    requires
        t.len() == s.len(),
        numel(s) > 0,
    ensures
        coords(s, flat).len() == s.len(),
        strided(flat, row_major(s), t) == dot(coords(s, flat), t),
    decreases s.len(),
{
    if s.len() > 0 {
        let r = s.drop_first();
        let d = s[0] as nat;
        let rest = numel(r);
        assert(rest > 0) by (nonlinear_arith)
            requires
                d * rest > 0,
        ;
        lemma_row_major_step(s);
        lemma_strided_is_dot(r, flat % numel(r), t.drop_first());
        assert(coords(s, flat).drop_first() =~= coords(r, flat % numel(r)));
    }
}

/// Changing one coordinate moves the position by that axis's stride.
pub proof fn lemma_dot_update(c: Seq<nat>, t: Seq<nat>, k: int, v: nat)
    requires
        c.len() == t.len(),
        0 <= k < c.len(),
    ensures
        dot(c.update(k, v), t) == dot(c, t) + v * t[k] - c[k] * t[k],
    decreases c.len(),
{
    let u = c.update(k, v);
    if k == 0 {
        assert(u.drop_first() =~= c.drop_first());
    } else {
        assert(u.drop_first() =~= c.drop_first().update(k - 1, v));
        lemma_dot_update(c.drop_first(), t.drop_first(), k - 1, v);
    }
}

pub proof fn lemma_dot_symmetric(c: Seq<nat>, t: Seq<nat>)
    requires
        c.len() == t.len(),
    ensures
        dot(c, t) == dot(t, c),
    decreases c.len(),
{
    if c.len() > 0 {
        lemma_dot_symmetric(c.drop_first(), t.drop_first());
        lemma_mul_is_commutative(c[0] as int, t[0] as int);
    }
}

/// Exchanging two coordinates is the same as exchanging the two strides.
pub proof fn lemma_dot_swapped(c: Seq<nat>, t: Seq<nat>, a: int, b: int)
    requires
        c.len() == t.len(),
        0 <= a < c.len(),
        0 <= b < c.len(),
    ensures
        dot(swapped(c, a, b), t) == dot(c, swapped(t, a, b)),
{
    lemma_dot_update(c, t, a, c[b]);
    lemma_dot_update(c.update(a, c[b]), t, b, c[a]);
    lemma_dot_symmetric(c, swapped(t, a, b));
    lemma_dot_symmetric(c, t);
    lemma_dot_update(t, c, a, t[b]);
    lemma_dot_update(t.update(a, t[b]), c, b, t[a]);
    let x = c[a] as int;
    let y = c[b] as int;
    let p = t[a] as int;
    let q = t[b] as int;
    assert(x * p == p * x && y * q == q * y && x * q == q * x && y * p == p * y)
        by (nonlinear_arith);
}

/// Concatenated shapes multiply.
pub proof fn lemma_numel_concat(p: Seq<usize>, q: Seq<usize>)
    ensures
        numel(p + q) == numel(p) * numel(q),
        span(p + q) == span(p) * span(q),
{
    let s = p + q;
    lemma_split(s, p.len() as int);
    assert(s.subrange(0, p.len() as int) =~= p);
    assert(tail(s, p.len() as int) =~= q);
}

/// Replacing one extent replaces one factor.
pub proof fn lemma_numel_axis(s: Seq<usize>, k: int)
    requires
        0 <= k < s.len(),
    ensures
        numel(s) == numel(s.subrange(0, k)) * ((s[k] as nat) * numel(tail(s, k + 1))),
        span(s) == span(s.subrange(0, k)) * ((if s[k] == 0 {
            1nat
        } else {
            s[k] as nat
        }) * span(tail(s, k + 1))),
{
    lemma_split(s, k);
    lemma_tail_step(s, k);
}

/// Exchanging two extents changes neither the element count nor the span.
pub proof fn lemma_numel_swapped(s: Seq<usize>, a: int, b: int)
    requires
        0 <= a < s.len(),
        0 <= b < s.len(),
    ensures
        numel(swapped(s, a, b)) == numel(s),
        span(swapped(s, a, b)) == span(s),
    decreases (if a > b { 1int } else { 0int }),
{
    if a > b {
        let p = s.update(a, s[b]);
        let q = s.update(b, s[a]);
        assert forall|i: int| 0 <= i < s.len() implies #[trigger] p.update(b, s[a])[i] == q.update(
            a,
            s[b],
        )[i] by {
            assert(p.update(b, s[a])[i] == (if i == b { s[a] } else { p[i] }));
            assert(q.update(a, s[b])[i] == (if i == a { s[b] } else { q[i] }));
        }
        assert(p.update(b, s[a]) =~= q.update(a, s[b]));
        assert(swapped(s, a, b) =~= swapped(s, b, a));
        lemma_numel_swapped(s, b, a);
    } else if a == b {
        assert(swapped(s, a, b) =~= s);
    } else {
        let w = swapped(s, a, b);
        lemma_numel_axis(s, a);
        lemma_numel_axis(w, a);
        assert(s.subrange(0, a) =~= w.subrange(0, a));
        let u = tail(s, a + 1);
        let v = tail(w, a + 1);
        let k = b - a - 1;
        lemma_numel_axis(u, k);
        lemma_numel_axis(v, k);
        assert(u.subrange(0, k) =~= v.subrange(0, k));
        assert(tail(u, k + 1) =~= tail(v, k + 1));
        let x = s[a] as nat;
        let y = s[b] as nat;
        let m = numel(u.subrange(0, k));
        let z = numel(tail(u, k + 1));
        assert(x * (m * (y * z)) == y * (m * (x * z))) by (nonlinear_arith);
        let x1: nat = if x == 0 { 1 } else { x };
        let y1: nat = if y == 0 { 1 } else { y };
        let m1 = span(u.subrange(0, k));
        let z1 = span(tail(u, k + 1));
        assert(x1 * (m1 * (y1 * z1)) == y1 * (m1 * (x1 * z1))) by (nonlinear_arith);
    }
}

/// Two coordinate lists with equal products per axis reach the same position.
pub proof fn lemma_dot_congruent(c: Seq<nat>, t: Seq<nat>, d: Seq<nat>, u: Seq<nat>)
    requires
        c.len() == t.len(),
        d.len() == c.len(),
        u.len() == c.len(),
        forall|i: int| 0 <= i < c.len() ==> #[trigger] c[i] * t[i] == d[i] * u[i],
    ensures
        dot(c, t) == dot(d, u),
    decreases c.len(),
{
    if c.len() > 0 {
        let c1 = c.drop_first();
        let t1 = t.drop_first();
        let d1 = d.drop_first();
        let u1 = u.drop_first();
        assert forall|i: int| 0 <= i < c1.len() implies #[trigger] c1[i] * t1[i] == d1[i] * u1[i] by {
            assert(c[i + 1] * t[i + 1] == d[i + 1] * u[i + 1]);
        }
        lemma_dot_congruent(c1, t1, d1, u1);
        assert(c[0] * t[0] == d[0] * u[0]);
    }
}

/// Transposition, element by element: walking the exchanged shape and stepping
/// through the source by the exchanged strides reads, at each output position,
/// the source element whose coordinates are exchanged, and never reads outside
/// the source.
pub proof fn law_transpose_reads_exchanged_coordinates(s: Seq<usize>, a: int, b: int, flat: nat)
    requires
        0 <= a < s.len(),
        0 <= b < s.len(),
        flat < numel(s),
    ensures
        ({
            let out = swapped(s, a, b);
            let src = strided(flat, row_major(out), swapped(row_major(s), a, b));
            &&& src == position(s, swapped(coords(out, flat), a, b))
            &&& src < numel(s)
            &&& coords(s, src) == swapped(coords(out, flat), a, b)
        }),
{
    let out = swapped(s, a, b);
    lemma_numel_swapped(s, a, b);
    lemma_position_of_coords(out, flat);
    let c = coords(out, flat);
    lemma_strided_is_dot(out, flat, swapped(row_major(s), a, b));
    lemma_dot_swapped(c, row_major(s), a, b);
    let w = swapped(c, a, b);
    assert(in_range(s, w)) by {
        assert forall|i: int| 0 <= i < s.len() implies w[i] < #[trigger] s[i] by {
            assert(c[a] < out[a]);
            assert(c[b] < out[b]);
            assert(c[i] < out[i]);
        }
    }
    lemma_position_bound(s, w);
    lemma_coords_of_position(s, w);
}

/// Transposing the same two axes twice reads every element from where it was.
pub proof fn law_transpose_is_self_inverse(s: Seq<usize>, a: int, b: int, flat: nat)
    requires
        0 <= a < s.len(),
        0 <= b < s.len(),
        flat < numel(s),
    ensures
        ({
            let out = swapped(s, a, b);
            let back = strided(flat, row_major(s), swapped(row_major(out), a, b));
            &&& swapped(out, a, b) == s
            &&& strided(back, row_major(out), swapped(row_major(s), a, b)) == flat
        }),
{
    let out = swapped(s, a, b);
    assert(swapped(out, a, b) =~= s);
    lemma_numel_swapped(s, a, b);
    law_transpose_reads_exchanged_coordinates(out, a, b, flat);
    let back = strided(flat, row_major(s), swapped(row_major(out), a, b));
    law_transpose_reads_exchanged_coordinates(s, a, b, back);
    lemma_position_of_coords(s, flat);
    assert(swapped(swapped(coords(s, flat), a, b), a, b) =~= coords(s, flat));
}

/// Broadcasting, element by element: stepping through an operand of shape `a`
/// by its expanded strides while walking the shape `d` reads the operand at the
/// same coordinates, with each axis of extent one held at zero, and never reads
/// outside the operand.
pub proof fn law_broadcast_reads_clamped_coordinates(a: Seq<usize>, d: Seq<usize>, flat: nat)
    requires
        expands_to(a, d),
        flat < numel(d),
    ensures
        ({
            let src = strided(flat, row_major(d), expanded_strides(a));
            &&& src == position(a, clamped(a, coords(d, flat)))
            &&& in_range(a, clamped(a, coords(d, flat)))
            &&& src < numel(a)
        }),
{
    lemma_position_of_coords(d, flat);
    let c = coords(d, flat);
    let e = expanded_strides(a);
    let w = clamped(a, c);
    lemma_strided_is_dot(d, flat, e);
    assert forall|i: int| 0 <= i < c.len() implies #[trigger] c[i] * e[i] == w[i] * row_major(a)[i] by {
        if a[i] == 1 {
            let x = c[i];
            let y = row_major(a)[i];
            assert(x * 0nat == 0nat * y) by (nonlinear_arith);
        }
    }
    lemma_dot_congruent(c, e, w, row_major(a));
    assert(in_range(a, w)) by {
        assert forall|i: int| 0 <= i < a.len() implies w[i] < #[trigger] a[i] by {
            assert(c[i] < d[i]);
        }
    }
    lemma_position_bound(a, w);
}

} // verus!
