//! What holds of the operations taken together.

use crate::backend::{Draft, Planned};
use crate::backward::{walked, without};
use crate::device::{folded_val, reduced_val, summed_val};
use crate::grad::accumulated;
use crate::kernels::{inner, outer};
use crate::launch::first_long;
use crate::ops::reshaped_val;
use crate::param::{adopted, merged_val};
use crate::program::Val;
use crate::rules::{saved, vjp, GradView};
use crate::scan::{Arith, Head, ScanSeqs};
use crate::shape::{expands_to, lemma_numel_axis, lemma_positive, numel, regular};
use crate::ssd::ScanDims;
use crate::tape::{node_key, TapeOp, TapeView};
use crate::tensor::{CudaTensor, NodeId, ParamId};
use vstd::prelude::*;

verus! {

/// Clearing the tape retires every node: none of them is a node of the next
/// generation.
pub proof fn law_clearing_retires_nodes(v: TapeView, i: int, j: int)
    ensures
        v.cleared().node(j) != v.node(i),
        v.cleared().entries.len() == 0,
        v.cleared().leaves == Map::<u64, NodeId>::empty(),
{
}

/// Asking for a tensor's node again gives the same node, and records nothing.
pub proof fn law_nodes_are_asked_for_once(v: TapeView, t: CudaTensor)
    ensures
        v.resolved(t).0.resolved(t) == v.resolved(t),
{
    let (w, n) = v.resolved(t);
    if let Some(p) = t.origin {
        if !v.leaves.contains_key(p.0) {
            assert(w.leaves[p.0] == v.node(v.entries.len() as int));
        }
    }
}

/// After the tape was cleared, a parameter's value gets a fresh node of the
/// new generation, recorded as that parameter's.
pub proof fn law_parameters_survive_clearing(v: TapeView, t: CudaTensor, p: ParamId)
    requires
        t.origin == Some(p),
    ensures
        ({
            let (w, n) = v.cleared().resolved(t);
            &&& n == Some(v.cleared().node(0))
            &&& w.entries == Seq::empty().push(TapeOp::Leaf { param_id: p })
            &&& w.generation == v.cleared().generation
            &&& w.known[node_key(v.cleared().node(0))] == t.dims()
        }),
{
}

/// A parameter's value has one node in each generation, which is an entry of
/// that parameter: asking for it records at most that entry, asking again
/// records nothing, and after clearing another node takes its place.
pub proof fn law_parameters_have_one_entry_per_generation(v: TapeView, t: CudaTensor, p: ParamId)
    requires
        v.wf(),
        t.origin == Some(p),
        v.entries.len() < u32::MAX,
    ensures
        ({
            let (w, n) = v.resolved(t);
            let (u, m) = w.cleared().resolved(t);
            &&& n is Some && w.is_leaf(n->0, p.0)
            &&& v.entries.len() <= w.entries.len() <= v.entries.len() + 1
            &&& w.resolved(t) == (w, n)
            &&& m is Some && u.is_leaf(m->0, p.0)
            &&& m->0.generation == w.cleared().generation
            &&& m != n
            &&& u.entries.len() == 1
        }),
{
    let (w, n) = v.resolved(t);
    if v.leaves.contains_key(p.0) {
        assert(v.is_leaf(v.leaves[p.0], p.0));
    } else {
        assert(w.entries.last() == (TapeOp::Leaf { param_id: p }));
    }
}

/// An operation on tensors that are part of no graph is not recorded, and
/// neither is any operation while recording is off.
pub proof fn law_untracked_operations_leave_no_trace(
    d: Draft,
    v: TapeView,
    w: TapeView,
    grad: bool,
    out: CudaTensor,
    id: Option<NodeId>,
)
    requires
        d.records(v, w, grad, out, id),
        !grad || forall|k: int|
            0 <= k < d.operands@.len() ==> !(#[trigger] d.operands@[k]).in_graph(),
    ensures
        w == v,
        id is None,
{
}

/// With recording off, no planned operation changes the tape or gives its
/// result a node.
pub proof fn law_no_grad_leaves_no_trace(
    p: Planned,
    v: TapeView,
    m: TapeView,
    w: TapeView,
    out: CudaTensor,
    id: Option<NodeId>,
)
    requires
        p.records(v, m, w, false, out, id),
    ensures
        w == v,
        id is None,
{
}

/// A parameter's new value is the latest one that its identifier leads to.
pub proof fn law_updates_replace_the_leaf(v: TapeView, t: CudaTensor, id: ParamId)
    ensures
        ({
            let (w, u) = adopted(v, true, t, id);
            &&& u.origin == Some(id)
            &&& u.node_id == Some(v.node(v.entries.len() as int))
            &&& w.resolved(u) == (w, u.node_id)
            &&& w.entries.last() == (TapeOp::Leaf { param_id: id })
            &&& u.dims() == t.dims() && u.buffer() == t.buffer()
        }),
{
}

/// A tensor repeated along its axes of extent one can be summed back: the sum
/// has the shape that it was repeated from.
pub proof fn law_broadcast_sums_back(v: Val, a: Seq<usize>)
    requires
        expands_to(a, v.dims),
        regular(v.dims),
    ensures
        summed_val(v, a) matches Ok(w) && w.dims == a,
{
    if v.dims != a {
        lemma_fold(v, a, v.dims, 0);
    }
}

/// Summing along the axes from `k` on, with those before done.
proof fn lemma_fold(v: Val, a: Seq<usize>, d: Seq<usize>, k: int)
    requires
        expands_to(a, d),
        regular(d),
        0 <= k <= a.len(),
        regular(v.dims),
        v.dims.len() == a.len(),
        forall|i: int| 0 <= i < k ==> #[trigger] v.dims[i] == a[i],
        forall|i: int| k <= i < a.len() ==> #[trigger] v.dims[i] == d[i],
    ensures
        folded_val(v, a, k) matches Ok(w) && w.dims == a,
    decreases a.len() - k,
{
    if k == a.len() {
        assert(v.dims =~= a);
    } else {
        assert(a[k] == d[k] || a[k] == 1);
        assert(v.dims[k] == d[k]);
        if a[k] == 1 && v.dims[k] > 1 {
            lemma_reduce(v, k);
            let w = reduced_val(v, k)->Ok_0;
            lemma_fold(w, a, d, k + 1);
        } else {
            assert(d[k] >= 1);
            lemma_fold(v, a, d, k + 1);
        }
    }
}

/// A regular shape stays regular when one axis is summed away.
proof fn lemma_reduce(v: Val, k: int)
    requires
        regular(v.dims),
        0 <= k < v.dims.len(),
    ensures
        reduced_val(v, k) matches Ok(w) && w.dims == v.dims.update(k, 1) && regular(w.dims),
{
    let s = v.dims;
    let u = s.update(k, 1);
    lemma_positive(s);
    assert forall|i: int| 0 <= i < u.len() implies #[trigger] u[i] >= 1 by {
        assert(s[i] >= 1);
    }
    lemma_positive(u);
    crate::device::lemma_reduced_dims(s, k);
    lemma_numel_axis(s, k);
    let o = outer(s, k) as int;
    let i = inner(s, k) as int;
    let a = s[k] as int;
    assert(numel(s) == o * (a * i));
    assert(o >= 1 && i >= 1) by (nonlinear_arith)
        requires
            o * i >= 1,
            o >= 0,
            i >= 0,
    ;
    assert(o * i <= o * (a * i) && a <= o * (a * i) && o <= o * (a * i) && i <= o * (a * i))
        by (nonlinear_arith)
        requires
            o >= 1,
            i >= 1,
            a >= 1,
    ;
    let lens = seq![(o * i) as usize, o as usize, s[k], i as usize];
    reveal_with_fuel(first_long, 5);
    assert(first_long(lens, 0) is None);
}

/// Reshaping back gives the tensor back.
pub proof fn law_reshaping_is_undone(x: Val, dims: Seq<usize>)
    requires
        numel(dims) == x.count(),
    ensures
        reshaped_val(x, dims) matches Ok(y) && reshaped_val(y, x.dims) == Ok::<
            Val,
            crate::error::CudaError,
        >(x),
{
}

/// A walk without gradients reaches its end and changes nothing.
pub proof fn law_walks_follow_gradients_only(v: TapeView, lo: int, i: int, sub: bool, st: GradView)
    requires
        lo <= i,
        st.nodes == Map::<u64, Val>::empty(),
    ensures
        walked(v, lo, i, sub, st) == Ok::<(int, GradView), crate::error::CudaError>((lo, st)),
    decreases i - lo,
{
    if lo < i {
        law_walks_follow_gradients_only(v, lo, i - 1, sub, st);
    }
}

/// A walk can be made in two parts: stopping at `mid` on the way makes no
/// difference.
pub proof fn law_walks_can_be_interrupted(
    v: TapeView,
    lo: int,
    mid: int,
    i: int,
    sub: bool,
    st: GradView,
)
    requires
        lo <= mid <= i,
    ensures
        walked(v, lo, i, sub, st) == (match walked(v, mid, i, sub, st) {
            Err(e) => Err(e),
            Ok((j, s)) => if j > mid {
                Ok((j, s))
            } else {
                walked(v, lo, mid, sub, s)
            },
        }),
    decreases i - mid,
{
    if mid < i {
        let k = node_key(v.node(i - 1));
        let op = v.entries[i - 1];
        if !st.nodes.contains_key(k) {
            law_walks_can_be_interrupted(v, lo, mid, i - 1, sub, st);
        } else if sub && crate::reach::passed_over(op) {
            law_walks_can_be_interrupted(v, lo, mid, i - 1, sub, without(st, k));
        } else if op !is SsdScan {
            if let Ok(s) = vjp(op, st.nodes[k], without(st, k)) {
                law_walks_can_be_interrupted(v, lo, mid, i - 1, sub, s);
            }
        }
    }
}

/// A parameter that is used more than once gets the sum of what its uses
/// contribute.
pub proof fn law_uses_of_a_parameter_add_up(p: ParamId, g: Val, h: Val, st: GradView)
    requires
        !st.params.contains_key(p.0),
    ensures
        ({
            let op = TapeOp::Leaf { param_id: p };
            let one = vjp(op, g, st)->Ok_0;
            let two = vjp(op, h, one)->Ok_0;
            &&& one.params[p.0] == g
            &&& two.params[p.0] == crate::device::binary_val(crate::launch::Kernel::Add, g, h)
            &&& two.params == accumulated(accumulated(st.params, p.0, g), p.0, h)
        }),
{
}

/// Merging with a store that holds nothing leaves every gradient as it is,
/// on either side.
pub proof fn law_merging_with_nothing(m: Map<u64, CudaTensor>, k: u64)
    requires
        m.contains_key(k),
    ensures
        merged_val(m, Map::empty(), k) == saved(m[k]),
        merged_val(Map::empty(), m, k) == saved(m[k]),
{
}

impl<T: Copy, A: Fn(T, T) -> T, M: Fn(T, T) -> T, S: Fn(T, T) -> T, E: Fn(T) -> T> Arith<
    T,
    A,
    M,
    S,
    E,
> {
    /// Whether three factors may be multiplied in either order.
    pub open spec fn factors_commute(self) -> bool {
        forall|f: T, x: T, b: T| #[trigger]
            self.prod(self.prod(f, x), b) == self.prod(self.prod(f, b), x)
    }

    /// Both scan kernels compute the same, where the order of factors does not
    /// matter.
    pub proof fn law_scan_kernels_agree(
        self,
        s: ScanSeqs<T>,
        d: ScanDims,
        k: Head,
        p: int,
        t: int,
    )
        requires
            self.factors_commute(),
        ensures
            self.scanned(s, d, k, p, true, t) == self.scanned(s, d, k, p, false, t),
    {
        self.lemma_output_agrees(
            s,
            d,
            k,
            p,
            t / d.block_len as int,
            t % d.block_len as int,
            d.n_dim as int,
        );
    }

    proof fn lemma_output_agrees(
        self,
        s: ScanSeqs<T>,
        d: ScanDims,
        k: Head,
        p: int,
        chunk: int,
        q: int,
        n: int,
    )
        requires
            self.factors_commute(),
        ensures
            self.output(s, d, k, p, true, chunk, q, n) == self.output(
                s,
                d,
                k,
                p,
                false,
                chunk,
                q,
                n,
            ),
        decreases n,
    {
        if n > 0 {
            self.lemma_output_agrees(s, d, k, p, chunk, q, n - 1);
            self.lemma_state_agrees(s, d, k, p, n - 1, chunk);
        }
    }

    proof fn lemma_state_agrees(
        self,
        s: ScanSeqs<T>,
        d: ScanDims,
        k: Head,
        p: int,
        n: int,
        chunk: int,
    )
        requires
            self.factors_commute(),
        ensures
            self.state(s, d, k, p, n, true, chunk) == self.state(s, d, k, p, n, false, chunk),
        decreases chunk,
    {
        if chunk > 0 {
            self.lemma_state_agrees(s, d, k, p, n, chunk - 1);
            self.lemma_carry_agrees(
                s,
                d,
                k,
                p,
                n,
                chunk - 1,
                self.state(s, d, k, p, n, false, chunk - 1),
                d.block_len as int,
            );
        }
    }

    proof fn lemma_carry_agrees(
        self,
        s: ScanSeqs<T>,
        d: ScanDims,
        k: Head,
        p: int,
        n: int,
        chunk: int,
        before: T,
        m: int,
    )
        requires
            self.factors_commute(),
        ensures
            self.carried(s, d, k, p, n, chunk, true, before, m) == self.carried(
                s,
                d,
                k,
                p,
                n,
                chunk,
                false,
                before,
                m,
            ),
        decreases m,
    {
        if m > 0 {
            self.lemma_carry_agrees(s, d, k, p, n, chunk, before, m - 1);
        }
    }
}

} // verus!
