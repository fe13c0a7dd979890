//! Which entries of a tape a backward pass reaches, and whether the rules of
//! those can be applied.

use crate::parts::{input_at, input_count};
use crate::program::Val;
use crate::rules::{also, differentiable, part, parts, shorts, vjp, GradView};
use crate::tape::{inputs_of, key_of, node_key, Tape, TapeOp, TapeView};
use crate::tensor::NodeId;
use crate::walk::{lemma_entry, lemma_parts_err};
use std::collections::HashSet;
use vstd::prelude::*;

verus! {

/// Whether the walk over a recomputation passes an operation over: those that
/// a recomputed scan is never made of.
pub open spec fn passed_over(op: TapeOp) -> bool {
    op is Embedding || op is Gather || op is Conv1d || op is LogSoftmax || op is RmsNorm
        || op is SsdScan
}

/// The nodes with a gradient, once the first `j` inputs of an operation have
/// got theirs.
pub open spec fn fed(op: TapeOp, keys: Set<u64>, j: int) -> Set<u64>
    decreases j,
{
    if j <= 0 {
        keys
    } else {
        match inputs_of(op)[j - 1] {
            Some(n) => fed(op, keys, j - 1).insert(node_key(n)),
            None => fed(op, keys, j - 1),
        }
    }
}

/// The same for all inputs.
pub open spec fn fed_all(op: TapeOp, keys: Set<u64>) -> Set<u64> {
    fed(op, keys, inputs_of(op).len() as int)
}

/// The parameters with a gradient, once an operation has passed its own on.
pub open spec fn fed_params(op: TapeOp, params: Set<u64>) -> Set<u64> {
    match op {
        TapeOp::Leaf { param_id } => params.insert(param_id.0),
        _ => params,
    }
}

/// Whether an operation adds to a gradient that is there already.
pub open spec fn again(op: TapeOp, keys: Set<u64>, params: Set<u64>) -> bool {
    match op {
        TapeOp::Leaf { param_id } => params.contains(param_id.0),
        _ => exists|j: int|
            0 <= j < inputs_of(op).len() && ((#[trigger] inputs_of(op)[j]) matches Some(n) && fed(
                op,
                keys,
                j,
            ).contains(node_key(n))),
    }
}

/// Whether the rule of an entry can be applied when there are gradients at
/// `keys` and of `params`: the rule itself, and the additions to gradients that
/// are there already.
pub open spec fn steppable(v: TapeView, i: int, keys: Set<u64>, params: Set<u64>) -> bool {
    &&& differentiable(v, v.entries[i], v.out(i))
    &&& again(v.entries[i], keys, params) ==> shorts(v, v.entries[i], v.out(i))
}

/// Whether a walk with gradients at `keys` and of `params` can pass the entries
/// from position `i` down to `base`: every entry that a gradient reaches on the
/// way can be stepped over.
pub open spec fn passable(
    v: TapeView,
    base: int,
    i: int,
    sub: bool,
    keys: Set<u64>,
    params: Set<u64>,
) -> bool
    decreases i - base,
{
    let k = node_key(v.node(i - 1));
    let op = v.entries[i - 1];
    if i <= base {
        true
    } else if !keys.contains(k) {
        passable(v, base, i - 1, sub, keys, params)
    } else if sub && passed_over(op) {
        passable(v, base, i - 1, sub, keys.remove(k), params)
    } else {
        &&& steppable(v, i - 1, keys.remove(k), params)
        &&& passable(
            v,
            base,
            i - 1,
            sub,
            fed_all(op, keys.remove(k)),
            fed_params(op, params),
        )
    }
}

/// Fewer gradients to begin with reach no more.
proof fn lemma_fed_less(op: TapeOp, a: Set<u64>, b: Set<u64>, j: int)
    requires
        a.subset_of(b),
    ensures
        fed(op, a, j).subset_of(fed(op, b, j)),
    decreases j,
{
    if j > 0 {
        lemma_fed_less(op, a, b, j - 1);
    }
}

/// More inputs with a gradient are no fewer.
pub(crate) proof fn lemma_fed_more(op: TapeOp, keys: Set<u64>, i: int, j: int)
    requires
        i <= j,
    ensures
        keys.subset_of(fed(op, keys, j)),
        fed(op, keys, i).subset_of(fed(op, keys, j)),
    decreases j - i,
{
    if i < j {
        lemma_fed_more(op, keys, i, j - 1);
    }
    lemma_fed_from(op, keys, j);
}

proof fn lemma_fed_from(op: TapeOp, keys: Set<u64>, j: int)
    ensures
        keys.subset_of(fed(op, keys, j)),
    decreases j,
{
    if j > 0 {
        lemma_fed_from(op, keys, j - 1);
    }
}

/// A rule that can be applied can be applied with fewer gradients there.
pub(crate) proof fn lemma_steppable_less(
    v: TapeView,
    i: int,
    a: Set<u64>,
    pa: Set<u64>,
    b: Set<u64>,
    pb: Set<u64>,
)
    requires
        a.subset_of(b),
        pa.subset_of(pb),
        steppable(v, i, b, pb),
    ensures
        steppable(v, i, a, pa),
{
    let op = v.entries[i];
    if again(op, a, pa) && op !is Leaf {
        let j = choose|j: int|
            0 <= j < inputs_of(op).len() && ((#[trigger] inputs_of(op)[j]) matches Some(n) && fed(
                op,
                a,
                j,
            ).contains(node_key(n)));
        lemma_fed_less(op, a, b, j);
        assert(inputs_of(op)[j] is Some);
        assert(again(op, b, pb));
    }
}

/// A walk that can pass the entries can pass them with fewer gradients.
pub(crate) proof fn lemma_passable_less(
    v: TapeView,
    base: int,
    i: int,
    sub: bool,
    a: Set<u64>,
    pa: Set<u64>,
    b: Set<u64>,
    pb: Set<u64>,
)
    requires
        a.subset_of(b),
        pa.subset_of(pb),
        passable(v, base, i, sub, b, pb),
    ensures
        passable(v, base, i, sub, a, pa),
    decreases i - base,
{
    if i > base {
        let k = node_key(v.node(i - 1));
        let op = v.entries[i - 1];
        let (ra, rb) = (a.remove(k), b.remove(k));
        assert(ra.subset_of(rb));
        if !b.contains(k) {
            lemma_passable_less(v, base, i - 1, sub, a, pa, b, pb);
        } else if sub && passed_over(op) {
            if a.contains(k) {
                lemma_passable_less(v, base, i - 1, sub, ra, pa, rb, pb);
            } else {
                assert(a.subset_of(rb));
                lemma_passable_less(v, base, i - 1, sub, a, pa, rb, pb);
            }
        } else {
            let (fb, gb) = (fed_all(op, rb), fed_params(op, pb));
            if a.contains(k) {
                lemma_steppable_less(v, i - 1, ra, pa, rb, pb);
                lemma_fed_less(op, ra, rb, inputs_of(op).len() as int);
                lemma_passable_less(
                    v,
                    base,
                    i - 1,
                    sub,
                    fed_all(op, ra),
                    fed_params(op, pa),
                    fb,
                    gb,
                );
            } else {
                lemma_fed_from(op, rb, inputs_of(op).len() as int);
                assert(a.subset_of(fb));
                assert(pa.subset_of(gb));
                lemma_passable_less(v, base, i - 1, sub, a, pa, fb, gb);
            }
        }
    }
}

/// What an entry needs stays as it is when the tape grows.
pub(crate) proof fn lemma_needs_kept(v: TapeView, u: TapeView, i: int)
    requires
        v.wf(),
        u.generation == v.generation,
        0 <= i < v.entries.len(),
        i < u.entries.len(),
        u.entries[i] == v.entries[i],
        forall|n: NodeId| #[trigger]
            v.before(n, v.entries.len() as int) ==> u.known.contains_key(node_key(n))
                && u.known[node_key(n)] == v.known[node_key(n)],
    ensures
        u.out(i) == v.out(i),
        differentiable(u, u.entries[i], u.out(i)) == differentiable(v, v.entries[i], v.out(i)),
        shorts(u, u.entries[i], u.out(i)) == shorts(v, v.entries[i], v.out(i)),
{
    lemma_entry(v, i);
    let e = v.entries[i];
    assert(v.before(v.node(i), v.entries.len() as int));
    assert(u.node(i) == v.node(i));
    assert forall|k: int| 0 <= k < inputs_of(e).len() implies ((#[trigger] inputs_of(
        e,
    )[k]) matches Some(n) ==> u.known[node_key(n)] == v.known[node_key(n)]) by {
        if let Some(n) = inputs_of(e)[k] {
            assert(v.before(n, i));
            assert(v.before(n, v.entries.len() as int));
        }
    }
    if let TapeOp::Conv1d { bias_node: Some(Some(n)), .. } = e {
        assert(inputs_of(e)[2] == Some(n));
    }
}

/// Entries that a walk can pass can still be passed when the tape grows.
pub(crate) proof fn lemma_passable_extends(
    v: TapeView,
    u: TapeView,
    base: int,
    i: int,
    sub: bool,
    keys: Set<u64>,
    params: Set<u64>,
)
    requires
        v.wf(),
        u.extends(v),
        0 <= base,
        i <= v.entries.len(),
        passable(v, base, i, sub, keys, params),
    ensures
        passable(u, base, i, sub, keys, params),
    decreases i - base,
{
    if i > base {
        let k = node_key(v.node(i - 1));
        let op = v.entries[i - 1];
        assert(u.entries.subrange(0, v.entries.len() as int)[i - 1] == u.entries[i - 1]);
        assert(u.node(i - 1) == v.node(i - 1));
        lemma_needs_kept(v, u, i - 1);
        if !keys.contains(k) {
            lemma_passable_extends(v, u, base, i - 1, sub, keys, params);
        } else if sub && passed_over(op) {
            lemma_passable_extends(v, u, base, i - 1, sub, keys.remove(k), params);
        } else {
            lemma_passable_extends(
                v,
                u,
                base,
                i - 1,
                sub,
                fed_all(op, keys.remove(k)),
                fed_params(op, params),
            );
        }
    }
}

/// Gradients after contributions to the inputs from the `k`-th on.
proof fn lemma_parts_nodes(op: TapeOp, g: Val, k: int, st: GradView, keys: Set<u64>)
    requires
        0 <= k <= inputs_of(op).len(),
        st.nodes.dom().subset_of(fed(op, keys, k)),
    ensures
        parts(op, g, k, Ok(st)) matches Ok(s) ==> s.nodes.dom().subset_of(fed_all(op, keys))
            && s.params == st.params,
    decreases inputs_of(op).len() - k,
{
    if k < inputs_of(op).len() {
        match also(Ok(st), inputs_of(op)[k], part(op, k, g)) {
            Err(e) => {
                lemma_parts_err(op, g, k + 1, e);
            },
            Ok(s) => {
                lemma_parts_nodes(op, g, k + 1, s, keys);
            },
        }
    }
}

/// The rule of an operation gives gradients to its inputs and to nothing else.
pub proof fn law_rules_reach_inputs_only(op: TapeOp, g: Val, st: GradView)
    ensures
        vjp(op, g, st) matches Ok(s) ==> s.nodes.dom().subset_of(fed_all(op, st.nodes.dom()))
            && s.params.dom().subset_of(fed_params(op, st.params.dom())),
{
    let keys = st.nodes.dom();
    match op {
        TapeOp::Leaf { .. } => {},
        TapeOp::SsdScan(_) => {
            lemma_fed_from(op, keys, 4);
        },
        TapeOp::Conv1d { x, w, bias_node, .. } => {
            reveal_with_fuel(fed, 4);
            let n = inputs_of(op).len() as int;
            assert(n == 2 || n == 3);
            assert(inputs_of(op)[0] == x && inputs_of(op)[1] == w);
            if n == 3 {
                assert(inputs_of(op)[2] == bias_node->0);
            }
        },
        _ => {
            lemma_parts_nodes(op, g, 0, st, keys);
        },
    }
}

impl Tape {
    /// Whether a walk that begins with a gradient at `root` can pass the
    /// entries down to position `base`.
    pub fn can_walk(&self, root: NodeId, base: usize, sub: bool) -> (r: bool)
        requires
            self.wf(),
            base <= self@.entries.len(),
        ensures
            r == passable(
                self@,
                base as int,
                self@.entries.len() as int,
                sub,
                Set::empty().insert(node_key(root)),
                Set::empty(),
            ),
    {
        broadcast use vstd::std_specs::hash::group_hash_axioms;

        let ghost v = self@;
        let ghost n = v.entries.len() as int;
        let ghost all = Set::<u64>::empty().insert(node_key(root));
        let mut keys: HashSet<u64> = HashSet::new();
        let mut params: HashSet<u64> = HashSet::new();
        keys.insert(key_of(root));
        assert(keys@ =~= all);
        assert(params@ =~= Set::<u64>::empty());
        let mut i: usize = self.entries.len();
        while i > base
            invariant
                base <= i <= n,
                v == self@,
                self.wf(),
                n == v.entries.len(),
                all == Set::<u64>::empty().insert(node_key(root)),
                passable(v, base as int, n, sub, all, Set::empty()) == passable(
                    v,
                    base as int,
                    i as int,
                    sub,
                    keys@,
                    params@,
                ),
            decreases i,
        {
            broadcast use vstd::std_specs::hash::group_hash_axioms;

            i = i - 1;
            let k: u64 = key_of(NodeId { generation: self.generation, index: i as u32 });
            assert(k == node_key(v.node(i as int)));
            if !keys.contains(&k) {
                continue;
            }
            let ghost before = keys@;
            let ghost had = params@;
            keys.remove(&k);
            let ghost rest = before.remove(k);
            assert(keys@ =~= rest);
            let op = &self.entries[i];
            if sub && is_passed_over(op) {
                continue;
            }
            assert(self.marks@[i as int].fits(v, i as int));
            if !self.marks[i].smooth {
                return false;
            }
            let mut again_there: bool = false;
            if let TapeOp::Leaf { param_id } = op {
                again_there = params.contains(&param_id.0);
                params.insert(param_id.0);
                assert(params@ =~= fed_params(*op, had));
            }
            let count: usize = input_count(op);
            let mut j: usize = 0;
            while j < count
                invariant
                    j <= count,
                    count == inputs_of(*op).len(),
                    *op == v.entries[i as int],
                    *op is Leaf ==> count == 0,
                    keys@ == fed(*op, rest, j as int),
                    op !is Leaf ==> again_there == exists|l: int|
                        0 <= l < j && ((#[trigger] inputs_of(*op)[l]) matches Some(n) && fed(
                            *op,
                            rest,
                            l,
                        ).contains(node_key(n))),
                    op is Leaf ==> again_there == again(*op, rest, had),
                decreases count - j,
            {
                broadcast use vstd::std_specs::hash::group_hash_axioms;

                if let Some(m) = input_at(op, j) {
                    let c: u64 = key_of(m);
                    let ghost old_there = again_there;
                    if keys.contains(&c) {
                        again_there = true;
                        assert(inputs_of(*op)[j as int] is Some);
                    }
                    keys.insert(c);
                    assert(keys@ =~= fed(*op, rest, j + 1));
                }
                j = j + 1;
            }
            assert(again_there == again(*op, rest, had));
            if again_there && !self.marks[i].short {
                return false;
            }
            assert(params@ =~= fed_params(*op, had));
        }
        true
    }
}

/// Whether the walk over a recomputation passes an operation over.
pub fn is_passed_over(op: &TapeOp) -> (r: bool)
    ensures
        r == passed_over(*op),
{
    match op {
        TapeOp::Embedding { .. }
        | TapeOp::Gather { .. }
        | TapeOp::Conv1d { .. }
        | TapeOp::LogSoftmax { .. }
        | TapeOp::RmsNorm { .. }
        | TapeOp::SsdScan(_) => true,
        _ => false,
    }
}

} // verus!
