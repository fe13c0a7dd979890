//! Lookups and their gradients: every output reads one element or none, and
//! its gradient is added to what it read.

use crate::conv::ConvDims;
use crate::index::{
    column_from, embedding_from, embedding_source, gather_from, gather_source, im2col_source,
    lemma_row_bound,
};
use crate::lanes::{ap, definite, fold};
use vstd::prelude::*;

verus! {

/// The elements of `go` at the places that read element `p`, in order.
pub open spec fn collected<T>(go: Seq<T>, sources: Seq<Option<usize>>, p: int) -> Seq<T>
    decreases sources.len(),
{
    if sources.len() == 0 {
        Seq::empty()
    } else {
        let rest = collected(go, sources.drop_last(), p);
        let i = sources.len() - 1;
        if sources[i] matches Some(q) && q == p {
            rest.push(go[i])
        } else {
            rest
        }
    }
}

/// What a lookup leaves: the elements read, and `zero` where nothing is.
pub fn read_all<T: Copy>(src: &Vec<T>, sources: &Vec<Option<usize>>, zero: T) -> (r: Vec<T>)
    requires
        forall|i: int|
            0 <= i < sources@.len() ==> (#[trigger] sources@[i] matches Some(p) ==> p
                < src@.len()),
    ensures
        r@.len() == sources@.len(),
        forall|i: int|
            0 <= i < r@.len() ==> #[trigger] r@[i] == (match sources@[i] {
                Some(p) => src@[p as int],
                None => zero,
            }),
{
    let mut r: Vec<T> = Vec::new();
    let mut i: usize = 0;
    while i < sources.len()
        invariant
            i <= sources@.len(),
            r@.len() == i,
            forall|j: int|
                0 <= j < sources@.len() ==> (#[trigger] sources@[j] matches Some(p) ==> p
                    < src@.len()),
            forall|j: int|
                0 <= j < i ==> #[trigger] r@[j] == (match sources@[j] {
                    Some(p) => src@[p as int],
                    None => zero,
                }),
        decreases sources@.len() - i,
    {
        let v: T = match sources[i] {
            Some(p) => src[p],
            None => zero,
        };
        r.push(v);
        i = i + 1;
    }
    r
}

/// Adds the gradient of every output to what it read.
pub fn scatter_add<T: Copy, F: Fn(T, T) -> T>(
    dst: &mut Vec<T>,
    sources: &Vec<Option<usize>>,
    go: &Vec<T>,
    plus: &F,
)
    requires
        sources@.len() == go@.len(),
        forall|i: int|
            0 <= i < sources@.len() ==> (#[trigger] sources@[i] matches Some(p) ==> p < old(
                dst,
            )@.len()),
        definite(*plus),
    ensures
        final(dst)@.len() == old(dst)@.len(),
        forall|p: int|
            0 <= p < final(dst)@.len() ==> #[trigger] final(dst)@[p] == fold(
                *plus,
                old(dst)@[p],
                collected(go@, sources@, p),
            ),
{
    let ghost before = dst@;
    let mut i: usize = 0;
    assert(sources@.take(0) =~= Seq::<Option<usize>>::empty());
    while i < sources.len()
        invariant
            i <= sources@.len(),
            sources@.len() == go@.len(),
            dst@.len() == before.len(),
            forall|j: int|
                0 <= j < sources@.len() ==> (#[trigger] sources@[j] matches Some(p) ==> p
                    < before.len()),
            definite(*plus),
            forall|p: int|
                0 <= p < before.len() ==> #[trigger] dst@[p] == fold(
                    *plus,
                    before[p],
                    collected(go@, sources@.take(i as int), p),
                ),
        decreases sources@.len() - i,
    {
        let ghost d0 = dst@;
        if let Some(p) = sources[i] {
            let v = plus(dst[p], go[i]);
            dst.set(p, v);
        }
        proof {
            let part = sources@.take(i + 1);
            assert(part.drop_last() =~= sources@.take(i as int));
            assert forall|p: int| 0 <= p < before.len() implies #[trigger] dst@[p] == fold(
                *plus,
                before[p],
                collected(go@, part, p),
            ) by {
                let rest = collected(go@, sources@.take(i as int), p);
                assert(d0[p] == fold(*plus, before[p], rest));
                assert(rest.push(go@[i as int]).drop_last() =~= rest);
            }
        }
        i = i + 1;
    }
    assert(sources@.take(i as int) =~= sources@);
}

/// Whether a list says which element every output reads.
pub open spec fn says(sources: Seq<Option<usize>>, from: spec_fn(int) -> Option<int>) -> bool {
    forall|i: int|
        0 <= i < sources.len() ==> match #[trigger] sources[i] {
            Some(p) => from(i) == Some(p as int),
            None => from(i) is None,
        }
}

/// What the outputs of an embedding read.
pub fn embedding_sources(indices: &Vec<i64>, dim: u32, rows: u32) -> (r: Vec<Option<usize>>)
    requires
        dim > 0,
        indices@.len() * dim <= u32::MAX,
        rows * dim <= usize::MAX,
    ensures
        r@.len() == indices@.len() * dim,
        says(
            r@,
            |i: int| embedding_from(i, indices@[i / dim as int] as int, dim as int, rows as int),
        ),
        forall|i: int|
            0 <= i < r@.len() ==> (#[trigger] r@[i] matches Some(p) ==> p < rows * dim),
{
    assert(indices@.len() <= indices@.len() * dim) by (nonlinear_arith)
        requires
            dim > 0,
    ;
    let n: u32 = indices.len() as u32 * dim;
    let mut r: Vec<Option<usize>> = Vec::new();
    let mut i: u32 = 0;
    while i < n
        invariant
            i <= n,
            n == indices@.len() * dim,
            dim > 0,
            rows * dim <= usize::MAX,
            r@.len() == i,
            says(
                r@,
                |i: int| embedding_from(i, indices@[i / dim as int] as int, dim as int, rows as int),
            ),
            forall|j: int|
                0 <= j < r@.len() ==> (#[trigger] r@[j] matches Some(p) ==> p < rows * dim),
        decreases n - i,
    {
        proof {
            lemma_row_bound(i as int, indices@.len() as int, dim as int);
        }
        let raw: i64 = indices[(i / dim) as usize];
        let p = embedding_source(i, raw, dim, rows);
        r.push(p);
        i = i + 1;
    }
    r
}

/// What the outputs of a gather read.
pub fn gather_sources(indices: &Vec<i64>, width: u32, picks: u32, rows: u32) -> (r: Vec<
    Option<usize>,
>)
    requires
        indices@.len() == rows * picks,
        indices@.len() <= u32::MAX,
        rows * width <= usize::MAX,
    ensures
        r@.len() == indices@.len(),
        says(
            r@,
            |i: int| gather_from(i, indices@[i] as int, width as int, picks as int),
        ),
        forall|i: int|
            0 <= i < r@.len() ==> (#[trigger] r@[i] matches Some(p) ==> p < rows * width),
{
    let n: u32 = indices.len() as u32;
    let mut r: Vec<Option<usize>> = Vec::new();
    let mut i: u32 = 0;
    while i < n
        invariant
            i <= n,
            n == indices@.len(),
            indices@.len() == rows * picks,
            rows * width <= usize::MAX,
            r@.len() == i,
            says(
                r@,
                |i: int| gather_from(i, indices@[i] as int, width as int, picks as int),
            ),
            forall|j: int|
                0 <= j < r@.len() ==> (#[trigger] r@[j] matches Some(p) ==> p < rows * width),
        decreases n - i,
    {
        let p = gather_source(i, indices[i as usize], width, picks, rows);
        r.push(p);
        i = i + 1;
    }
    r
}

/// What the entries of a convolution's columns read.
pub fn column_sources(d: &ConvDims) -> (r: Vec<Option<usize>>)
    requires
        d.batch * d.t_out * (d.c_in * d.k_size) <= usize::MAX,
        d.batch * d.t_out <= usize::MAX,
        d.c_in * d.k_size <= usize::MAX,
        d.batch * d.c_in * d.t_in <= usize::MAX,
        d.t_out * d.stride + d.k_size <= usize::MAX,
    ensures
        r@.len() == d.batch * d.t_out * (d.c_in * d.k_size),
        says(r@, |i: int| column_from(*d, i)),
        forall|i: int|
            0 <= i < r@.len() ==> (#[trigger] r@[i] matches Some(p) ==> p < d.batch * d.c_in
                * d.t_in),
{
    let n: usize = d.batch * d.t_out * (d.c_in * d.k_size);
    let mut r: Vec<Option<usize>> = Vec::new();
    let mut i: usize = 0;
    while i < n
        invariant
            i <= n,
            n == d.batch * d.t_out * (d.c_in * d.k_size),
            d.c_in * d.k_size <= usize::MAX,
            d.batch * d.c_in * d.t_in <= usize::MAX,
            d.t_out * d.stride + d.k_size <= usize::MAX,
            r@.len() == i,
            says(r@, |i: int| column_from(*d, i)),
            forall|j: int|
                0 <= j < r@.len() ==> (#[trigger] r@[j] matches Some(p) ==> p < d.batch * d.c_in
                    * d.t_in),
        decreases n - i,
    {
        let p = im2col_source(d, i);
        r.push(p);
        i = i + 1;
    }
    r
}

/// An element that no output reads keeps its gradient, and the gradient of
/// one that a single output reads grows by that output's alone.
pub proof fn law_gradients_go_to_what_was_read<T, F: Fn(T, T) -> T>(
    plus: F,
    acc: T,
    go: Seq<T>,
    sources: Seq<Option<usize>>,
    p: int,
)
    requires
        sources.len() == go.len(),
    ensures
        (forall|i: int| 0 <= i < sources.len() ==> !reads_element(#[trigger] sources[i], p))
            ==> fold(plus, acc, collected(go, sources, p)) == acc,
        forall|k: int|
            0 <= k < sources.len() && #[trigger] reads_element(sources[k], p) && (forall|i: int|
                0 <= i < sources.len() && reads_element(#[trigger] sources[i], p) ==> i == k)
                ==> fold(plus, acc, collected(go, sources, p)) == ap(plus, acc, go[k]),
{
    if forall|i: int| 0 <= i < sources.len() ==> !reads_element(#[trigger] sources[i], p) {
        lemma_none_collected(go, sources, p);
    }
    assert forall|k: int|
        0 <= k < sources.len() && #[trigger] reads_element(sources[k], p) && (forall|i: int|
            0 <= i < sources.len() && reads_element(#[trigger] sources[i], p) ==> i
                == k) implies fold(plus, acc, collected(go, sources, p)) == ap(plus, acc, go[k]) by {
        lemma_one_collected(go, sources, p, k);
        let one = seq![go[k]];
        assert(one.drop_last() =~= Seq::<T>::empty());
        reveal_with_fuel(fold, 2);
    }
}

/// Whether an output reads element `p`.
pub open spec fn reads_element(source: Option<usize>, p: int) -> bool {
    source matches Some(q) && q == p
}

proof fn lemma_none_collected<T>(go: Seq<T>, sources: Seq<Option<usize>>, p: int)
    requires
        forall|i: int| 0 <= i < sources.len() ==> !reads_element(#[trigger] sources[i], p),
    ensures
        collected(go, sources, p) == Seq::<T>::empty(),
    decreases sources.len(),
{
    if sources.len() > 0 {
        let rest = sources.drop_last();
        assert forall|i: int| 0 <= i < rest.len() implies !reads_element(#[trigger] rest[i], p) by {
            assert(rest[i] == sources[i]);
        }
        lemma_none_collected(go, rest, p);
        assert(!reads_element(sources[sources.len() - 1], p));
    }
}

proof fn lemma_one_collected<T>(go: Seq<T>, sources: Seq<Option<usize>>, p: int, k: int)
    requires
        0 <= k < sources.len(),
        reads_element(sources[k], p),
        forall|i: int| 0 <= i < sources.len() && reads_element(#[trigger] sources[i], p) ==> i == k,
    ensures
        collected(go, sources, p) == seq![go[k]],
    decreases sources.len(),
{
    let rest = sources.drop_last();
    assert forall|i: int| 0 <= i < rest.len() implies rest[i] == sources[i] by {}
    if k == sources.len() - 1 {
        assert forall|i: int| 0 <= i < rest.len() implies !reads_element(#[trigger] rest[i], p) by {
            assert(rest[i] == sources[i]);
        }
        lemma_none_collected(go, rest, p);
        assert(collected(go, sources, p) =~= seq![go[k]]);
    } else {
        assert forall|i: int| 0 <= i < rest.len() && reads_element(#[trigger] rest[i], p) implies i
            == k by {
            assert(rest[i] == sources[i]);
        }
        assert(reads_element(rest[k], p));
        lemma_one_collected(go, rest, p, k);
        assert(!reads_element(sources[sources.len() - 1], p));
    }
}

} // verus!
