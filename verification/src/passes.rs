//! What a backward pass does with gradients: where it begins, what a rule adds
//! to the gradients of an operation's inputs, and what a whole pass keeps.

use crate::backward::{seeded, walked, without};
use crate::meaning::{Machine, World};
use crate::program::Val;
use crate::reach::{fed, fed_all, law_rules_reach_inputs_only, passed_over};
use crate::rules::{also, part, parts, vjp, GradView};
use crate::tape::{inputs_of, node_key, TapeOp, TapeView};
use crate::tensor::NodeId;
use vstd::prelude::*;

verus! {

/// Different nodes have different keys.
proof fn lemma_node_keys(a: NodeId, b: NodeId)
    ensures
        node_key(a) == node_key(b) ==> a == b,
{
}

/// Nodes that have a gradient once some inputs got theirs had one before or are
/// among those inputs.
proof fn lemma_fed(op: TapeOp, keys: Set<u64>, j: int, q: u64)
    requires
        0 <= j <= inputs_of(op).len(),
        fed(op, keys, j).contains(q),
    ensures
        keys.contains(q) || exists|k: int|
            0 <= k < j && ((#[trigger] inputs_of(op)[k]) matches Some(n) && node_key(n) == q),
    decreases j,
{
    if j > 0 {
        match inputs_of(op)[j - 1] {
            Some(n) => {
                if node_key(n) != q {
                    lemma_fed(op, keys, j - 1, q);
                }
            },
            None => {
                lemma_fed(op, keys, j - 1, q);
            },
        }
    }
}

/// A pass that runs to its end leaves no gradient behind at any entry that it
/// went over: all were passed on.
pub proof fn law_passes_leave_no_gradient_behind(
    v: TapeView,
    lo: int,
    i: int,
    sub: bool,
    st: GradView,
    q: int,
)
    requires
        v.wf(),
        0 <= lo <= i <= v.entries.len(),
        lo <= q < v.entries.len(),
        q >= i ==> !st.nodes.contains_key(node_key(v.node(q))),
    ensures
        walked(v, lo, i, sub, st) matches Ok((j, s)) ==> j == lo ==> !s.nodes.contains_key(
            node_key(v.node(q)),
        ),
    decreases i - lo,
{
    if i > lo {
        let k = node_key(v.node(i - 1));
        let op = v.entries[i - 1];
        lemma_node_keys(v.node(i - 1), v.node(q));
        if !st.nodes.contains_key(k) {
            law_passes_leave_no_gradient_behind(v, lo, i - 1, sub, st, q);
        } else if sub && passed_over(op) {
            law_passes_leave_no_gradient_behind(v, lo, i - 1, sub, without(st, k), q);
        } else if op is SsdScan {
        } else {
            let w = without(st, k);
            law_rules_reach_inputs_only(op, st.nodes[k], w);
            if let Ok(s) = vjp(op, st.nodes[k], w) {
                if q >= i - 1 {
                    let z = node_key(v.node(q));
                    if s.nodes.contains_key(z) {
                        let n = inputs_of(op).len() as int;
                        assert(fed_all(op, w.nodes.dom()).contains(z));
                        lemma_fed(op, w.nodes.dom(), n, z);
                        let j = choose|j: int|
                            0 <= j < n && ((#[trigger] inputs_of(op)[j]) matches Some(m)
                                && node_key(m) == z);
                        assert(v.entry_ok(v.entries[i - 1], i - 1, v.out(i - 1))) by {
                            assert(v.node(i - 1) == v.node(i - 1));
                        }
                        let m = inputs_of(op)[j]->0;
                        assert(v.before(m, i - 1));
                        lemma_node_keys(m, v.node(q));
                    }
                }
                law_passes_leave_no_gradient_behind(v, lo, i - 1, sub, s, q);
            }
        }
    }
}

/// Whatever quantity every rule keeps, taking an operation's gradient away and
/// handing its inputs theirs, a whole pass keeps too: no gradient is lost, and
/// none is counted twice.
pub proof fn law_passes_keep_what_rules_keep<Z>(
    v: TapeView,
    lo: int,
    i: int,
    st: GradView,
    quantity: spec_fn(GradView) -> Z,
)
    requires
        lo <= i,
        forall|j: int, s: GradView|
            #![trigger s.nodes.contains_key(node_key(v.node(j)))]
            lo <= j < i && s.nodes.contains_key(node_key(v.node(j))) ==> {
                let k = node_key(v.node(j));
                vjp(
                    v.entries[j],
                    s.nodes[k],
                    GradView { nodes: s.nodes.remove(k), params: s.params },
                ) matches Ok(e) ==> quantity(e) == quantity(s)
            },
    ensures
        walked(v, lo, i, false, st) matches Ok((j, s)) ==> lo <= j <= i && quantity(s) == quantity(
            st,
        ),
    decreases i - lo,
{
    if i > lo {
        let k = node_key(v.node(i - 1));
        let op = v.entries[i - 1];
        if !st.nodes.contains_key(k) {
            law_passes_keep_what_rules_keep(v, lo, i - 1, st, quantity);
        } else if op is SsdScan {
        } else {
            let w = GradView { nodes: st.nodes.remove(k), params: st.params };
            assert(w == without(st, k));
            if let Ok(s) = vjp(op, st.nodes[k], w) {
                law_passes_keep_what_rules_keep(v, lo, i - 1, s, quantity);
            }
        }
    }
}

/// A pass stops early only at a scan that has a gradient; there is nothing else
/// that it waits for.
pub proof fn law_passes_stop_at_scans_only(v: TapeView, lo: int, i: int, sub: bool, st: GradView)
    requires
        lo <= i,
    ensures
        walked(v, lo, i, sub, st) matches Ok((j, s)) ==> j == lo || (v.entries[j - 1] is SsdScan
            && s.nodes.contains_key(node_key(v.node(j - 1))) && !sub),
    decreases i - lo,
{
    if i > lo {
        let k = node_key(v.node(i - 1));
        let op = v.entries[i - 1];
        if !st.nodes.contains_key(k) {
            law_passes_stop_at_scans_only(v, lo, i - 1, sub, st);
        } else if sub && passed_over(op) {
            law_passes_stop_at_scans_only(v, lo, i - 1, sub, without(st, k));
        } else if op is SsdScan {
        } else {
            if let Ok(s) = vjp(op, st.nodes[k], without(st, k)) {
                law_passes_stop_at_scans_only(v, lo, i - 1, sub, s);
            }
        }
    }
}

impl<
    T: Copy,
    A: Fn(T, T) -> T,
    M: Fn(T, T) -> T,
    S: Fn(T, T) -> T,
    E: Fn(T) -> T,
    N: Fn(T) -> T,
    I: Fn(T) -> T,
    L: Fn(T) -> T,
    G: Fn(T, T) -> bool,
    P: Fn(T, T) -> T,
    R: Fn(T) -> T,
    D: Fn(T) -> T,
> Machine<T, A, M, S, E, N, I, L, G, P, R, D> {
    /// A pass begins with one gradient, of the loss with respect to itself: one
    /// at every element, at the loss's node, and nothing anywhere else.
    pub proof fn law_passes_begin_with_one_at_the_loss(
        self,
        world: World<T>,
        root: NodeId,
        dims: Seq<usize>,
        k: u64,
    )
        ensures
            ({
                let st = seeded(root, dims);
                &&& st.nodes.contains_key(k) <==> k == node_key(root)
                &&& !st.params.contains_key(k)
                &&& st.nodes[node_key(root)].dims == dims
                &&& self.filled(world, st.nodes[node_key(root)])
                &&& forall|i: int|
                    0 <= i < crate::shape::numel(dims) ==> #[trigger] self.nums(
                        world,
                        st.nodes[node_key(root)],
                    )[i] == self.curve.one
            }),
    {
        self.law_fills_hold_one_number(world, dims);
    }

    /// What input `k` of an operation contributes at element `i` to the gradient
    /// of the node `q`.
    pub open spec fn share_of(
        self,
        world: World<T>,
        op: TapeOp,
        g: Val,
        q: u64,
        i: int,
        k: int,
    ) -> T {
        if inputs_of(op)[k] matches Some(n) && node_key(n) == q {
            self.nums(world, part(op, k, g)->Ok_0)[i]
        } else {
            self.arith.zero
        }
    }

    /// What a gradient holds at element `i`, zero if there is none.
    pub open spec fn held_at(self, world: World<T>, st: GradView, q: u64, i: int) -> T {
        if st.nodes.contains_key(q) {
            self.nums(world, st.nodes[q])[i]
        } else {
            self.arith.zero
        }
    }

    /// Whether what an operation hands the node `q` has the shape `d`.
    pub open spec fn hands(
        self,
        world: World<T>,
        op: TapeOp,
        g: Val,
        q: u64,
        d: Seq<usize>,
    ) -> bool {
        forall|k: int|
            0 <= k < inputs_of(op).len() ==> ((#[trigger] inputs_of(op)[k]) matches Some(n)
                && node_key(n) == q ==> (part(op, k, g) matches Ok(v) ==> v.dims == d
                && self.filled(world, v)))
    }

    proof fn lemma_parts_add(
        self,
        world: World<T>,
        op: TapeOp,
        g: Val,
        j: int,
        st: GradView,
        q: u64,
        d: Seq<usize>,
    )
        requires
            self.arith.exact(),
            0 <= j <= inputs_of(op).len(),
            self.hands(world, op, g, q, d),
            st.nodes.contains_key(q) ==> st.nodes[q].dims == d && self.filled(world, st.nodes[q]),
        ensures
            parts(op, g, j, Ok(st)) matches Ok(s) ==> {
                let n = inputs_of(op).len() - j;
                &&& s.params == st.params
                &&& s.nodes.contains_key(q) ==> s.nodes[q].dims == d && self.filled(
                    world,
                    s.nodes[q],
                )
                &&& s.nodes.contains_key(q) <==> st.nodes.contains_key(q) || exists|k: int|
                    j <= k < inputs_of(op).len() && ((#[trigger] inputs_of(op)[k]) matches Some(m)
                        && node_key(m) == q)
                &&& forall|i: int|
                    0 <= i < crate::shape::numel(d) ==> #[trigger] self.held_at(world, s, q, i)
                        == self.arith.sum(
                        self.held_at(world, st, q, i),
                        self.arith.tally(
                            n,
                            |k: int| self.share_of(world, op, g, q, i, j + k),
                        ),
                    )
            },
        decreases inputs_of(op).len() - j,
    {
        let total = inputs_of(op).len() as int;
        if parts(op, g, j, Ok(st)) is Ok {
            let s = parts(op, g, j, Ok(st))->Ok_0;
            if j == total {
                assert forall|i: int| 0 <= i < crate::shape::numel(d) implies #[trigger] self.held_at(
                    world,
                    s,
                    q,
                    i,
                ) == self.arith.sum(
                    self.held_at(world, st, q, i),
                    self.arith.tally(0, |k: int| self.share_of(world, op, g, q, i, j + k)),
                ) by {
                    self.arith.lemma_neutral(self.held_at(world, st, q, i));
                }
            } else {
                let input = inputs_of(op)[j];
                let v = part(op, j, g);
                let next = also(Ok(st), input, v);
                if next is Err {
                    lemma_parts_stay(op, g, j + 1, next);
                }
                let mid = next->Ok_0;
                let mine = input is Some && node_key(input->0) == q;
                if mine {
                    self.law_contributions_add_up(world, st.nodes, q, v->Ok_0);
                }
                assert(mine || mid.nodes.contains_key(q) == st.nodes.contains_key(q));
                assert(!mine && st.nodes.contains_key(q) ==> mid.nodes[q] == st.nodes[q]);
                self.lemma_parts_add(world, op, g, j + 1, mid, q, d);
                let n = total - j;
                assert forall|i: int| 0 <= i < crate::shape::numel(d) implies #[trigger] self.held_at(
                    world,
                    s,
                    q,
                    i,
                ) == self.arith.sum(
                    self.held_at(world, st, q, i),
                    self.arith.tally(n, |k: int| self.share_of(world, op, g, q, i, j + k)),
                ) by {
                    let f = |k: int| self.share_of(world, op, g, q, i, j + k);
                    let rest = |k: int| self.share_of(world, op, g, q, i, j + 1 + k);
                    let old = self.held_at(world, st, q, i);
                    let one = f(0);
                    self.arith.lemma_tally_split(1, n - 1, f);
                    self.arith.lemma_tally_same(n - 1, |k: int| f(1 + k), rest);
                    assert(self.arith.tally(1, f) == self.arith.sum(self.arith.tally(0, f), f(0)));
                    self.arith.lemma_neutral(one);
                    self.arith.lemma_neutral(old);
                    self.arith.lemma_regroup(old, one, self.arith.tally(n - 1, rest));
                    assert(self.held_at(world, mid, q, i) == self.arith.sum(old, one));
                }
            }
        }
    }

    /// The rule of an operation adds to the gradient of every node, element by
    /// element, what it hands the inputs that are that node, each as often as
    /// the node is an input; it changes nothing else.
    pub proof fn law_rules_add_to_every_input(
        self,
        world: World<T>,
        op: TapeOp,
        g: Val,
        st: GradView,
        q: u64,
        d: Seq<usize>,
    )
        requires
            self.arith.exact(),
            !(op is Leaf || op is Conv1d || op is SsdScan),
            self.hands(world, op, g, q, d),
            st.nodes.contains_key(q) ==> st.nodes[q].dims == d && self.filled(world, st.nodes[q]),
        ensures
            vjp(op, g, st) matches Ok(s) ==> {
                &&& s.params == st.params
                &&& s.nodes.contains_key(q) ==> s.nodes[q].dims == d && self.filled(
                    world,
                    s.nodes[q],
                )
                &&& s.nodes.contains_key(q) <==> st.nodes.contains_key(q) || exists|k: int|
                    0 <= k < inputs_of(op).len() && ((#[trigger] inputs_of(op)[k]) matches Some(m)
                        && node_key(m) == q)
                &&& forall|i: int|
                    0 <= i < crate::shape::numel(d) ==> #[trigger] self.held_at(world, s, q, i)
                        == self.arith.sum(
                        self.held_at(world, st, q, i),
                        self.arith.tally(
                            inputs_of(op).len() as int,
                            |k: int| self.share_of(world, op, g, q, i, k),
                        ),
                    )
            },
    {
        if let Ok(s) = vjp(op, g, st) {
            self.lemma_parts_add(world, op, g, 0, st, q, d);
            let n = inputs_of(op).len() as int;
            assert forall|i: int| 0 <= i < crate::shape::numel(d) implies #[trigger] self.held_at(
                world,
                s,
                q,
                i,
            ) == self.arith.sum(
                self.held_at(world, st, q, i),
                self.arith.tally(n, |k: int| self.share_of(world, op, g, q, i, k)),
            ) by {
                self.arith.lemma_tally_same(
                    n,
                    |k: int| self.share_of(world, op, g, q, i, 0 + k),
                    |k: int| self.share_of(world, op, g, q, i, k),
                );
            }
        }
    }

    /// The entry of a parameter adds its gradient, element by element, to that
    /// parameter's, and to no other, and leaves the nodes alone.
    pub proof fn law_parameters_collect_their_gradients(
        self,
        world: World<T>,
        op: TapeOp,
        g: Val,
        st: GradView,
    )
        requires
            op is Leaf,
            self.filled(world, g),
            st.params.contains_key(op->Leaf_param_id.0) ==> st.params[op->Leaf_param_id.0].dims
                == g.dims && self.filled(world, st.params[op->Leaf_param_id.0]),
        ensures
            ({
                let p = op->Leaf_param_id.0;
                &&& vjp(op, g, st) matches Ok(s)
                &&& s.nodes == st.nodes
                &&& s.params.dom() == st.params.dom().insert(p)
                &&& forall|j: u64|
                    j != p && st.params.contains_key(j) ==> #[trigger] s.params[j] == st.params[j]
                &&& s.params[p].dims == g.dims
                &&& self.filled(world, s.params[p])
                &&& forall|i: int|
                    0 <= i < g.count() ==> #[trigger] self.nums(world, s.params[p])[i] == (
                    if st.params.contains_key(p) {
                        self.arith.sum(
                            self.nums(world, st.params[p])[i],
                            self.nums(world, g)[i],
                        )
                    } else {
                        self.nums(world, g)[i]
                    })
            }),
    {
        self.law_contributions_add_up(world, st.params, op->Leaf_param_id.0, g);
    }
}

/// A rule that has failed stays failed.
proof fn lemma_parts_stay(
    op: TapeOp,
    g: Val,
    k: int,
    s: Result<GradView, crate::error::CudaError>,
)
    requires
        s is Err,
        0 <= k <= inputs_of(op).len(),
    ensures
        parts(op, g, k, s) is Err,
    decreases inputs_of(op).len() - k,
{
    if k < inputs_of(op).len() {
        lemma_parts_stay(op, g, k + 1, also(s, inputs_of(op)[k], part(op, k, g)));
    }
}

} // verus!
