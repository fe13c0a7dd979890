//! Reverse-mode differentiation: from a scalar loss down the tape to the
//! parameters, with scans differentiated by recomputation.

use crate::backend::{bound, can_bind, CudaBackend, Planned};
use crate::device::ones_val;
use crate::error::{CudaError, ShapeError};
use crate::grad::{accumulated, grad_ok, grads_ok, lemma_grads_kept, vals, CudaGradStore, GradMap};
use crate::launch::Buffer;
use crate::ops::{multipliable, plans, records_only};
use crate::param::{bind_all, leaf_of};
use crate::program::{Program, Val};
use crate::reach::{
    fed, fed_all, fed_params, is_passed_over, law_rules_reach_inputs_only, lemma_fed_more,
    lemma_passable_extends, lemma_passable_less, passable, passed_over,
};
use crate::rules::{differentiable, saved, times, vjp, GradView};
use crate::shape::{numel, regular, solid};
use crate::tape::{
    input_dims, input_ok, inputs_of, key_of, node_key, saved_f32, SsdScanData, Tape, TapeOp,
    TapeView,
};
use crate::tensor::{same_shape, CudaTensor, NodeId, ParamId};
use crate::walk::{lemma_entry, lemma_operand, placed, slot, Walk};
use std::sync::Arc;
use vstd::prelude::*;

verus! {

/// The gradients without the one at `k`.
pub open spec fn without(st: GradView, k: u64) -> GradView {
    GradView { nodes: st.nodes.remove(k), ..st }
}

/// The walk over the entries below position `i`, down to position `lo`: where
/// it stops, and the gradients then. An entry without a gradient is passed.
/// A walk over a recomputation passes what it cannot contain; any other stops
/// above a scan.
pub open spec fn walked(v: TapeView, lo: int, i: int, sub: bool, st: GradView) -> Result<
    (int, GradView),
    CudaError,
>
    decreases i - lo,
{
    let k = node_key(v.node(i - 1));
    let op = v.entries[i - 1];
    if i <= lo {
        Ok((i, st))
    } else if !st.nodes.contains_key(k) {
        walked(v, lo, i - 1, sub, st)
    } else if sub && passed_over(op) {
        walked(v, lo, i - 1, sub, without(st, k))
    } else if op is SsdScan {
        Ok((i, st))
    } else {
        match vjp(op, st.nodes[k], without(st, k)) {
            Err(e) => Err(e),
            Ok(s) => walked(v, lo, i - 1, sub, s),
        }
    }
}

/// The gradients that a walk begins with: one, at the root.
pub open spec fn seeded(root: NodeId, dims: Seq<usize>) -> GradView {
    GradView {
        nodes: Map::empty().insert(node_key(root), ones_val(dims)),
        params: Map::empty(),
    }
}

/// Whether all tensors of a map lie in lasting buffers.
pub open spec fn lasting(m: Map<u64, CudaTensor>) -> bool {
    forall|k: u64| #[trigger] m.contains_key(k) ==> m[k].buffer() is Global
}

/// Gradients in lasting buffers do not depend on a program.
proof fn lemma_lasting(
    p: Program,
    q: Program,
    m: Map<u64, CudaTensor>,
    shapes: Map<u64, Seq<usize>>,
)
    requires
        lasting(m),
        grads_ok(p, m, shapes),
    ensures
        grads_ok(q, m, shapes),
        vals(q, m) == vals(p, m),
{
    assert forall|k: u64| #[trigger] m.contains_key(k) implies grad_ok(q, m[k]) && q.val(m[k])
        == p.val(m[k]) by {
    }
    assert(vals(q, m) =~= vals(p, m));
}

/// What a walk knows of a tape still holds when the tape grows.
proof fn lemma_sound_extends(w: Walk, v: TapeView, u: TapeView)
    requires
        w.sound(v),
        u.extends(v),
    ensures
        w.sound(u),
{
    assert forall|k: u64| #[trigger] w.nodes@.contains_key(k) implies placed(u, k)
        && u.known.contains_key(k) && u.known[k] == v.known[k] by {
        assert(placed(v, k));
        let n = choose|n: NodeId| #[trigger]
            v.before(n, v.entries.len() as int) && node_key(n) == k;
        assert(u.before(n, u.entries.len() as int));
    }
}

/// Cutting off what was added to a tape leaves the walk as sound as it was.
proof fn lemma_cut(w: Walk, base: TapeView, u: TapeView)
    requires
        base.wf(),
        u.extends(base),
        w.sound(base),
    ensures
        u.cut(base.entries.len() as int).wf(),
        u.cut(base.entries.len() as int).extends(base),
        w.sound(u.cut(base.entries.len() as int)),
{
    let c = u.cut(base.entries.len() as int);
    assert(c.entries =~= base.entries);
    assert forall|j: int| 0 <= j < c.entries.len() implies c.known.contains_key(
        node_key(#[trigger] c.node(j)),
    ) && c.entry_ok(c.entries[j], j, c.out(j)) by {
        lemma_entry(u, j);
        let e = u.entries[j];
        assert(u.entries.subrange(0, base.entries.len() as int)[j] == e);
        assert(c.node(j) == u.node(j));
        assert forall|k: int| 0 <= k < inputs_of(e).len() implies ((#[trigger] inputs_of(
            e,
        )[k]) matches Some(m) ==> c.before(m, j) && input_ok(
            e,
            k,
            c.out(j),
            c.known[node_key(m)],
        )) by {
            if let Some(m) = inputs_of(e)[k] {
                assert(u.before(m, j));
            }
        }
    }
    assert(c.entries.subrange(0, base.entries.len() as int) =~= base.entries);
    lemma_sound_extends(w, base, c);
}

/// A shape of one element has extents of one.
proof fn lemma_single(s: Seq<usize>)
    requires
        numel(s) == 1,
    ensures
        regular(s),
    decreases s.len(),
{
    if s.len() > 0 {
        let t = s.drop_first();
        let a = s[0] as int;
        let b = numel(t) as int;
        assert(a == 1 && b == 1) by (nonlinear_arith)
            requires
                a * b == 1,
                a >= 0,
                b >= 0,
        ;
        lemma_single(t);
        assert forall|i: int| 0 <= i < s.len() implies #[trigger] s[i] >= 1 by {
            if i > 0 {
                assert(t[i - 1] == s[i]);
            }
        }
    }
}

/// How far down a walk has to be able to go: over a recomputation to where that
/// begins, and else to the end.
pub open spec fn base_of(lo: int, sub: bool) -> int {
    if sub {
        lo
    } else {
        0
    }
}

/// A walk's state has gradients where the walk has.
proof fn lemma_state_dom(w: Walk)
    ensures
        w.state().nodes.dom() == w.nodes@.dom(),
        w.state().params.dom() == w.params@.dom(),
{
    assert(w.state().nodes.dom() =~= w.nodes@.dom());
    assert(w.state().params.dom() =~= w.params@.dom());
}

impl Walk {
    /// Whether the walk can go on from position `i`.
    pub open spec fn passes(self, v: TapeView, lo: int, i: int, sub: bool) -> bool {
        passable(v, base_of(lo, sub), i, sub, self.nodes@.dom(), self.params@.dom())
    }

    /// A walk that begins at `root`, the node of a tensor of one element.
    fn start(tape: &Tape, root: NodeId, loss: &CudaTensor) -> (w: Walk)
        requires
            tape@.live(root, loss.dims()),
            loss.wf(),
            numel(loss.dims()) == 1,
        ensures
            w.sound(tape@),
            w.state() == seeded(root, loss.dims()),
            w.nodes@.dom() == Set::<u64>::empty().insert(node_key(root)),
            w.params@.dom() == Set::<u64>::empty(),
    {
        let mut program = Program::new();
        let seed = program.ones_tensor(&loss.shape);
        let mut nodes = GradMap::new();
        nodes.insert(key_of(root), seed);
        let w = Walk { program, nodes, params: GradMap::new() };
        proof {
            lemma_single(loss.dims());
            assert(tape@.before(root, tape@.entries.len() as int));
            assert(w.state().nodes =~= seeded(root, loss.dims()).nodes);
            assert(w.nodes@.dom() =~= Set::<u64>::empty().insert(node_key(root)));
            assert(w.params@.dom() =~= Set::<u64>::empty());
            assert(w.state().params =~= Map::<u64, Val>::empty());
        }
        w
    }

    /// Walks from position `from` down towards `lo`.
    pub fn advance(&mut self, tape: &Tape, lo: usize, from: usize, sub: bool) -> (r: Result<
        usize,
        CudaError,
    >)
        requires
            tape@.wf(),
            lo <= from <= tape@.entries.len(),
            old(self).sound(tape@),
            old(self).passes(tape@, lo as int, from as int, sub),
        ensures
            match walked(tape@, lo as int, from as int, sub, old(self).state()) {
                Err(e) => r == Err::<usize, CudaError>(e),
                Ok((j, s)) => {
                    &&& r matches Ok(n)
                    &&& n == j
                    &&& lo <= n <= from
                    &&& final(self).sound(tape@)
                    &&& final(self).passes(tape@, lo as int, n as int, sub)
                    &&& final(self).state() == s
                    &&& final(self).program.extends(old(self).program)
                    &&& n > lo ==> !sub && tape@.entries[n - 1] is SsdScan
                        && final(self).nodes@.contains_key(node_key(tape@.node(n - 1)))
                },
            },
    {
        let ghost w0 = *self;
        let ghost v = tape@;
        let mut i: usize = from;
        while i > lo
            invariant_except_break
                lo <= i <= from,
            invariant
                lo <= i <= from <= v.entries.len(),
                w0 == *old(self),
                v == tape@,
                v.wf(),
                self.sound(v),
                self.program.extends(w0.program),
                self.passes(v, lo as int, i as int, sub),
                walked(v, lo as int, from as int, sub, w0.state()) == walked(
                    v,
                    lo as int,
                    i as int,
                    sub,
                    self.state(),
                ),
            ensures
                i == lo || (!sub && v.entries[i - 1] is SsdScan && self.nodes@.contains_key(
                    node_key(v.node(i - 1)),
                )),
            decreases i,
        {
            let k: u64 = key_of(NodeId { generation: tape.generation, index: (i - 1) as u32 });
            assert(k == node_key(v.node(i - 1)));
            if self.nodes.has(k) {
                let skip: bool = sub && is_passed_over(&tape.entries[i - 1]);
                let scan: bool = match &tape.entries[i - 1] {
                    TapeOp::SsdScan(_) => true,
                    _ => false,
                };
                if !skip && scan {
                    break;
                }
                let ghost w1 = *self;
                let taken = self.nodes.remove(k);
                let ghost w2 = *self;
                proof {
                    assert(self.nodes@.dom() =~= w1.nodes@.dom().remove(k));
                    lemma_entry(v, i - 1);
                    assert(self.state().nodes =~= w1.state().nodes.remove(k));
                    assert(self.state() == without(w1.state(), k));
                    assert(w1.nodes@.contains_key(k));
                    assert forall|j: u64| #[trigger] self.nodes@.contains_key(j) implies placed(
                        v,
                        j,
                    ) by {
                        assert(w1.nodes@.contains_key(j));
                    }
                    assert(grads_ok(self.program, self.nodes@, v.known)) by {
                        assert forall|j: u64| #[trigger]
                            self.nodes@.contains_key(j) implies grad_ok(
                            self.program,
                            self.nodes@[j],
                        ) && v.known.contains_key(j) && self.nodes@[j].dims() == v.known[j]
                            && solid(v.known[j]) by {
                            assert(w1.nodes@.contains_key(j));
                        }
                    }
                }
                if !skip {
                    if let Some(g) = taken {
                        self.apply_vjp(tape, i - 1, &g)?;
                        proof {
                            let op = v.entries[i - 1];
                            law_rules_reach_inputs_only(op, w2.program.val(g), w2.state());
                            lemma_state_dom(w2);
                            lemma_state_dom(*self);
                            lemma_passable_less(
                                v,
                                base_of(lo as int, sub),
                                i - 1,
                                sub,
                                self.nodes@.dom(),
                                self.params@.dom(),
                                fed_all(op, w2.nodes@.dom()),
                                fed_params(op, w2.params@.dom()),
                            );
                        }
                    }
                }
            }
            i = i - 1;
        }
        Ok(i)
    }
}

/// A backward pass under way: the walk, and the position below which the tape
/// is still to be walked.
#[derive(Debug)]
pub struct Backward {
    pub walk: Walk,
    pub index: usize,
}

impl Backward {
    /// Whether the pass fits the tape.
    pub open spec fn ready(self, v: TapeView) -> bool {
        &&& v.wf()
        &&& self.index <= v.entries.len()
        &&& self.walk.sound(v)
        &&& self.walk.passes(v, 0, self.index as int, false)
    }

    /// Whether all gradients so far lie in lasting buffers.
    pub open spec fn settled(self) -> bool {
        lasting(self.walk.nodes@) && lasting(self.walk.params@)
    }

    /// Walks on: to the next scan with a gradient, or down to position `lo`.
    /// Says whether there is a scan.
    pub fn advance(&mut self, bk: &CudaBackend, lo: usize) -> (r: Result<bool, CudaError>)
        requires
            old(self).ready(bk.tape@),
            lo <= old(self).index,
        ensures
            match walked(
                bk.tape@,
                lo as int,
                old(self).index as int,
                false,
                old(self).walk.state(),
            ) {
                Err(e) => r == Err::<bool, CudaError>(e),
                Ok((j, s)) => {
                    &&& r == Ok::<bool, CudaError>(j > lo)
                    &&& final(self).index == j
                    &&& final(self).walk.state() == s
                    &&& final(self).ready(bk.tape@)
                    &&& final(self).walk.program.extends(old(self).walk.program)
                    &&& j > lo ==> bk.tape@.entries[j - 1] is SsdScan
                        && final(self).walk.nodes@.contains_key(node_key(bk.tape@.node(j - 1)))
                },
            },
    {
        let from: usize = self.index;
        let n: usize = self.walk.advance(&bk.tape, lo, from, false)?;
        self.index = n;
        Ok(n > lo)
    }

    /// Moves all gradients to lasting buffers once the program so far has run,
    /// and begins a new one.
    pub fn settle(&mut self, handles: &Vec<Arc<Buffer>>)
        requires
            forall|k: u64| #[trigger]
                old(self).walk.nodes@.contains_key(k) ==> can_bind(
                    old(self).walk.nodes@[k].buffer(),
                    handles@,
                ),
            forall|k: u64| #[trigger]
                old(self).walk.params@.contains_key(k) ==> can_bind(
                    old(self).walk.params@[k].buffer(),
                    handles@,
                ),
        ensures
            final(self).index == old(self).index,
            final(self).settled(),
            final(self).walk.program@.len() == 0,
            final(self).walk.nodes@.dom() == old(self).walk.nodes@.dom(),
            final(self).walk.params@.dom() == old(self).walk.params@.dom(),
            forall|k: u64| #[trigger]
                old(self).walk.nodes@.contains_key(k) ==> bound(
                    old(self).walk.nodes@[k],
                    final(self).walk.nodes@[k],
                    handles@,
                ),
            forall|k: u64| #[trigger]
                old(self).walk.params@.contains_key(k) ==> bound(
                    old(self).walk.params@[k],
                    final(self).walk.params@[k],
                    handles@,
                ),
            forall|v: TapeView| #[trigger] old(self).ready(v) ==> final(self).ready(v),
    {
        let ghost w0 = self.walk;
        self.walk = Walk {
            program: Program::new(),
            nodes: bind_all(&self.walk.nodes, handles),
            params: bind_all(&self.walk.params, handles),
        };
        proof {
            let w = self.walk;
            assert forall|v: TapeView| #[trigger] old(self).ready(v) implies self.ready(v) by {
                assert(grads_ok(w.program, w.nodes@, v.known)) by {
                    assert forall|k: u64| #[trigger] w.nodes@.contains_key(k) implies grad_ok(
                        w.program,
                        w.nodes@[k],
                    ) && v.known.contains_key(k) && w.nodes@[k].dims() == v.known[k] && solid(
                        v.known[k],
                    ) by {
                        assert(w0.nodes@.contains_key(k));
                        assert(bound(w0.nodes@[k], w.nodes@[k], handles@));
                    }
                }
                assert(grads_ok(w.program, w.params@, v.params)) by {
                    assert forall|k: u64| #[trigger] w.params@.contains_key(k) implies grad_ok(
                        w.program,
                        w.params@[k],
                    ) && v.params.contains_key(k) && w.params@[k].dims() == v.params[k] && solid(
                        v.params[k],
                    ) by {
                        assert(w0.params@.contains_key(k));
                        assert(bound(w0.params@[k], w.params@[k], handles@));
                    }
                }
                assert forall|k: u64| #[trigger] w.nodes@.contains_key(k) implies placed(v, k) by {
                    assert(w0.nodes@.contains_key(k));
                }
            }
            assert forall|k: u64| #[trigger] w.nodes@.contains_key(k) implies w.nodes@[k].buffer()
                is Global by {
                assert(w0.nodes@.contains_key(k));
            }
            assert forall|k: u64| #[trigger] w.params@.contains_key(k) implies w.params@[k].buffer()
                is Global by {
                assert(w0.params@.contains_key(k));
            }
        }
    }
}

/// A scan that is being recomputed.
pub struct ScanFrame {
    /// The length of the tape before the recomputation.
    pub start: usize,
    /// The gradient of the scan's output.
    pub grad: CudaTensor,
    pub x: ScanLeaf,
    pub a: ScanLeaf,
    pub b: ScanLeaf,
    pub c: ScanLeaf,
    pub block_len: usize,
    /// Whether recording was on before the recomputation.
    pub recording: bool,
    /// The tape before the recomputation.
    pub base: Ghost<TapeView>,
}

/// One input of a scan that is being recomputed.
pub struct ScanLeaf {
    /// Its value as a leaf of its own.
    pub leaf: CudaTensor,
    /// The parameter that the leaf stands for.
    pub id: ParamId,
    /// The node of the input itself.
    pub node: Option<NodeId>,
}

impl ScanLeaf {
    /// Whether the input's node has the shape of its leaf, and was there
    /// before the recomputation.
    pub open spec fn fits(self, base: TapeView, v: TapeView) -> bool {
        &&& slot(base, self.node, self.leaf.dims())
        &&& v.params.contains_key(self.id.0)
        &&& v.params[self.id.0] == self.leaf.dims()
    }

    /// `m` with the gradient that the leaf got, if it got any, added at the
    /// input's node.
    pub open spec fn passed(self, m: Map<u64, Val>, sub: Map<u64, Val>) -> Map<u64, Val> {
        if self.node is Some && sub.contains_key(self.id.0) {
            accumulated(m, node_key(self.node->0), sub[self.id.0])
        } else {
            m
        }
    }
}

/// The gradients after those of a recomputed scan's leaves, `sub`, went to its
/// inputs.
pub open spec fn passed_on(st: GradView, sub: Map<u64, Val>, f: ScanFrame) -> GradView {
    let m = f.x.passed(st.nodes, sub);
    let m = f.a.passed(m, sub);
    let m = f.b.passed(m, sub);
    GradView { nodes: f.c.passed(m, sub), ..st }
}

impl ScanLeaf {
    /// `keys` with the input's node.
    pub open spec fn fed(self, keys: Set<u64>) -> Set<u64> {
        match self.node {
            Some(n) => keys.insert(node_key(n)),
            None => keys,
        }
    }
}

impl ScanFrame {
    /// `keys` with the nodes of the scan's inputs.
    pub open spec fn fed(self, keys: Set<u64>) -> Set<u64> {
        self.c.fed(self.b.fed(self.a.fed(self.x.fed(keys))))
    }

    /// Whether a pass can go on once the scan's inputs have their gradients.
    pub open spec fn awaited(self, b: Backward) -> bool {
        passable(
            self.base@,
            0,
            b.index as int,
            false,
            self.fed(b.walk.nodes@.dom()),
            b.walk.params@.dom(),
        )
    }

    /// Whether the tape is the one before with more entries, and knows the
    /// scan's inputs.
    pub open spec fn fits(self, v: TapeView) -> bool {
        &&& v.extends(self.base@)
        &&& self.base@.wf()
        &&& self.start == self.base@.entries.len()
        &&& self.x.fits(self.base@, v)
        &&& self.a.fits(self.base@, v)
        &&& self.b.fits(self.base@, v)
        &&& self.c.fits(self.base@, v)
    }
}

/// Whether two tensors are one buffer under one shape.
pub open spec fn same_numbers(a: CudaTensor, b: CudaTensor) -> bool {
    a.buffer() == b.buffer() && a.dims() == b.dims()
}

fn are_same_numbers(a: &CudaTensor, b: &CudaTensor) -> (r: bool)
    requires
        a.wf(),
        b.wf(),
    ensures
        r == same_numbers(*a, *b),
{
    a.slice().id == b.slice().id && same_shape(a.shape(), b.shape())
}

impl TapeView {
    /// The entry of a node of the current generation, if there is one.
    pub open spec fn entry_of(self, n: NodeId) -> Option<TapeOp> {
        if n.generation == self.generation && n.index < self.entries.len() {
            Some(self.entries[n.index as int])
        } else {
            None
        }
    }
}

impl ScanFrame {
    /// Whether `phantom`, where it has a node at all, was recorded as the sum
    /// of `y` times the gradient of the scan's output.
    pub open spec fn weighed(self, v: TapeView, y: CudaTensor, phantom: CudaTensor) -> bool {
        phantom.node_id matches Some(root) ==> {
            &&& v.entry_of(root) matches Some(TapeOp::SumAll { input: Some(n), .. })
            &&& v.entry_of(n) matches Some(TapeOp::Mul { lhs, rhs, lhs_val, rhs_val })
            &&& same_numbers(lhs_val, y)
            &&& same_numbers(rhs_val, self.grad)
            &&& rhs is None
            &&& y.origin is None ==> lhs == y.node_id
        }
    }

    /// The same, decided.
    pub fn is_weighed(&self, tape: &Tape, y: &CudaTensor, phantom: &CudaTensor) -> (r: bool)
        requires
            tape.wf(),
            y.wf(),
            self.grad.wf(),
        ensures
            r == self.weighed(tape@, *y, *phantom),
    {
        let root = match phantom.node_id {
            None => return true,
            Some(n) => n,
        };
        if root.generation != tape.generation || root.index as usize >= tape.entries.len() {
            return false;
        }
        let n = match &tape.entries[root.index as usize] {
            TapeOp::SumAll { input: Some(n), input_shape: _ } => *n,
            _ => return false,
        };
        if n.generation != tape.generation || n.index as usize >= tape.entries.len() {
            return false;
        }
        proof {
            lemma_entry(tape@, n.index as int);
        }
        match &tape.entries[n.index as usize] {
            TapeOp::Mul { lhs, rhs, lhs_val, rhs_val } => {
                let tied: bool = match (y.origin, *lhs, y.node_id) {
                    (Some(_), _, _) => true,
                    (None, Some(a), Some(b)) => a == b,
                    (None, None, None) => true,
                    _ => false,
                };
                are_same_numbers(lhs_val, y) && are_same_numbers(rhs_val, &self.grad)
                    && rhs.is_none() && tied
            },
            _ => false,
        }
    }
}

impl Walk {
    /// Adds the gradient of a recomputed scan's leaf to that of the input.
    fn pass(&mut self, tape: &Tape, l: &ScanLeaf, sub: &GradMap, base: Ghost<TapeView>)
        requires
            old(self).sound(tape@),
            l.fits(base@, tape@),
            tape@.extends(base@),
            grads_ok(old(self).program, sub@, tape@.params),
        ensures
            final(self).sound(tape@),
            final(self).program.extends(old(self).program),
            final(self).state() == (GradView {
                nodes: l.passed(old(self).state().nodes, vals(old(self).program, sub@)),
                ..old(self).state()
            }),
    {
        if let Some(n) = l.node {
            if let Some(g) = sub.get(l.id.0) {
                assert(sub@.contains_key(l.id.0));
                assert(base@.before(n, base@.entries.len() as int));
                self.give(tape, n, g);
            }
        }
    }

    /// Adds the gradients of a recomputed scan's leaves to those of its
    /// inputs.
    fn pass_all(&mut self, tape: &Tape, f: &ScanFrame, sub: &GradMap)
        requires
            old(self).sound(tape@),
            f.fits(tape@),
            grads_ok(old(self).program, sub@, tape@.params),
        ensures
            final(self).sound(tape@),
            final(self).program.extends(old(self).program),
            final(self).state() == passed_on(
                old(self).state(),
                vals(old(self).program, sub@),
                *f,
            ),
    {
        let ghost v = tape@;
        let ghost p0 = self.program;
        self.pass(tape, &f.x, sub, f.base);
        let ghost p1 = self.program;
        proof {
            lemma_grads_kept(p0, p1, sub@, v.params);
        }
        self.pass(tape, &f.a, sub, f.base);
        let ghost p2 = self.program;
        proof {
            lemma_grads_kept(p1, p2, sub@, v.params);
        }
        self.pass(tape, &f.b, sub, f.base);
        proof {
            lemma_grads_kept(p2, self.program, sub@, v.params);
        }
        self.pass(tape, &f.c, sub, f.base);
    }
}

impl CudaBackend {
    /// Whether all entries of the tape that the gradient of `loss` reaches can
    /// be stepped over.
    pub open spec fn can_differentiate(self, loss: CudaTensor) -> bool {
        let (w, root) = self.tape@.resolved(loss);
        root matches Some(n) ==> passable(
            w,
            0,
            w.entries.len() as int,
            false,
            Set::empty().insert(node_key(n)),
            Set::empty(),
        )
    }

    /// Asks for the node of `loss`, and whether all entries that its gradient
    /// reaches can be stepped over.
    pub fn is_differentiable(&mut self, loss: &CudaTensor) -> (r: bool)
        requires
            old(self).wf(),
            old(self).tape@.tracks(*loss),
            old(self).tape@.entries.len() < u32::MAX,
        ensures
            r == old(self).can_differentiate(*loss),
            r == final(self).can_differentiate(*loss),
            final(self).tape@ == old(self).tape@.resolved(*loss).0,
            final(self).wf(),
            final(self).tape@.tracks(*loss),
            final(self).next_param_id == old(self).next_param_id,
            final(self).grad == old(self).grad,
    {
        let ghost v = self.tape@;
        proof {
            if let Some(p) = loss.origin {
                assert(v.params.insert(p.0, loss.dims()) =~= v.params);
            }
        }
        match loss.node_id(&mut self.tape) {
            None => true,
            Some(n) => self.tape.can_walk(n, 0, false),
        }
    }

    /// Begins the backward pass from a scalar loss. Where the loss depends on
    /// nothing recorded the pass is over at once, and the tape begins anew.
    pub fn backward(&mut self, loss: &CudaTensor) -> (r: Result<Option<Backward>, CudaError>)
        requires
            old(self).wf(),
            loss.wf(),
            old(self).tape@.tracks(*loss),
            old(self).tape@.entries.len() < u32::MAX,
            numel(loss.dims()) == 1 && loss.in_graph() ==> old(self).can_differentiate(*loss),
        ensures
            match r {
                Err(e) => {
                    &&& numel(loss.dims()) != 1
                    &&& e == CudaError::Shape(
                        ShapeError::NotScalar { numel: numel(loss.dims()) as usize },
                    )
                    &&& final(self).tape@ == old(self).tape@
                },
                Ok(None) => {
                    &&& numel(loss.dims()) == 1
                    &&& !loss.in_graph()
                    &&& final(self).tape@ == old(self).tape@.cleared()
                },
                Ok(Some(b)) => {
                    let (w, root) = old(self).tape@.resolved(*loss);
                    &&& numel(loss.dims()) == 1
                    &&& loss.in_graph()
                    &&& root is Some
                    &&& final(self).tape@ == w
                    &&& b.ready(w)
                    &&& b.index == w.entries.len()
                    &&& b.walk.state() == seeded(root->0, loss.dims())
                },
            },
            final(self).wf(),
            final(self).next_param_id == old(self).next_param_id,
            final(self).grad == old(self).grad,
    {
        let n: usize = loss.numel();
        if n != 1 {
            return Err(CudaError::Shape(ShapeError::NotScalar { numel: n }));
        }
        let ghost v = self.tape@;
        let root = match loss.node_id(&mut self.tape) {
            Some(n) => n,
            None => {
                self.tape.clear();
                return Ok(None);
            },
        };
        let walk = Walk::start(&self.tape, root, loss);
        Ok(Some(Backward { walk, index: self.tape.len() }))
    }

    /// Begins the recomputation of the scan that a backward pass has come to.
    /// The scan's inputs become leaves of their own, and what follows is
    /// recorded.
    pub fn begin_scan(&mut self, b: &mut Backward) -> (f: Option<ScanFrame>)
        requires
            old(self).wf(),
            old(b).ready(old(self).tape@),
            old(b).settled(),
            old(b).index > 0,
            old(self).tape@.entries[old(b).index - 1] is SsdScan,
            old(b).walk.nodes@.contains_key(node_key(old(self).tape@.node(old(b).index - 1))),
            old(self).tape@.entries.len() + 4 < u32::MAX,
            old(self).next_param_id + 4 < u64::MAX,
        ensures
            ({
                let v = old(self).tape@;
                let k = node_key(v.node(old(b).index - 1));
                let d = *v.entries[old(b).index - 1]->SsdScan_0;
                let n = v.entries.len() as int;
                let px = ParamId(old(self).next_param_id);
                let pa = ParamId((old(self).next_param_id + 1) as u64);
                let pb = ParamId((old(self).next_param_id + 2) as u64);
                let pc = ParamId((old(self).next_param_id + 3) as u64);
                &&& f matches Some(f)
                &&& f.start == n
                &&& f.base@ == v
                &&& f.block_len == d.block_len
                &&& f.recording == old(self).grad
                &&& f.grad == (CudaTensor {
                    node_id: None,
                    origin: None,
                    ..old(b).walk.nodes@[k]
                })
                &&& f.x == (ScanLeaf { leaf: leaf_of(d.x_val, px, v.node(n)), id: px, node: d.x })
                &&& f.a == (ScanLeaf {
                    leaf: leaf_of(d.a_val, pa, v.node(n + 1)),
                    id: pa,
                    node: d.a,
                })
                &&& f.b == (ScanLeaf {
                    leaf: leaf_of(d.b_val, pb, v.node(n + 2)),
                    id: pb,
                    node: d.b,
                })
                &&& f.c == (ScanLeaf {
                    leaf: leaf_of(d.c_val, pc, v.node(n + 3)),
                    id: pc,
                    node: d.c,
                })
                &&& final(self).tape@ == v.with_leaf(px, d.x_val.dims()).with_leaf(
                    pa,
                    d.a_val.dims(),
                ).with_leaf(pb, d.b_val.dims()).with_leaf(pc, d.c_val.dims())
                &&& f.fits(final(self).tape@)
                &&& f.awaited(*final(b))
                &&& final(b).index == old(b).index - 1
                &&& final(b).walk.nodes@ == old(b).walk.nodes@.remove(k)
                &&& final(b).walk.params@ == old(b).walk.params@
                &&& final(b).settled()
                &&& final(b).ready(v)
                &&& saved_f32(f.grad)
                &&& saved_f32(f.x.leaf) && saved_f32(f.a.leaf) && saved_f32(f.b.leaf) && saved_f32(
                    f.c.leaf,
                )
                &&& final(self).tape@.tracks(f.x.leaf) && final(self).tape@.tracks(f.a.leaf)
                    && final(self).tape@.tracks(f.b.leaf) && final(self).tape@.tracks(f.c.leaf)
            }),
            final(self).wf(),
            final(self).next_param_id == old(self).next_param_id + 4,
            final(self).grad,
            final(self).tape@.extends(old(self).tape@),
    {
        let ghost v = self.tape@;
        let ghost w0 = b.walk;
        let at: usize = b.index - 1;
        let k: u64 = key_of(NodeId { generation: self.tape.generation, index: at as u32 });
        proof {
            lemma_entry(v, at as int);
            let e = v.entries[at as int];
            assert(differentiable(v, e, v.out(at as int)));
            assert forall|j: int| 0 <= j < 4 && inputs_of(e)[j] is Some implies v.before(
                inputs_of(e)[j]->0,
                v.entries.len() as int,
            ) && v.known[node_key(inputs_of(e)[j]->0)] == input_dims(e, j, v.out(at as int))
                && regular(input_dims(e, j, v.out(at as int))) by {
                lemma_operand(v, at as int, j);
            }
        }
        let (d, g) = match (&self.tape.entries[at], b.walk.nodes.remove(k)) {
            (TapeOp::SsdScan(d), Some(g)) => (
                SsdScanData {
                    x: d.x,
                    a: d.a,
                    b: d.b,
                    c: d.c,
                    x_val: d.x_val.clone(),
                    a_val: d.a_val.clone(),
                    b_val: d.b_val.clone(),
                    c_val: d.c_val.clone(),
                    block_len: d.block_len,
                },
                g,
            ),
            _ => {
                assert(false);
                return None;
            },
        };
        b.index = at;
        proof {
            let e = v.entries[at as int];
            assert(e->SsdScan_0 == Box::new(d));
            assert(inputs_of(e)[0] == d.x && inputs_of(e)[1] == d.a && inputs_of(e)[2] == d.b
                && inputs_of(e)[3] == d.c);
            lemma_removed(w0, b.walk, v, k);
            let rest = b.walk.nodes@.dom();
            assert(rest =~= w0.nodes@.dom().remove(k));
            reveal_with_fuel(fed, 5);
            lemma_fed_more(e, rest, 0, 4);
            lemma_passable_less(
                v,
                0,
                at as int,
                false,
                rest,
                b.walk.params@.dom(),
                fed_all(e, rest),
                b.walk.params@.dom(),
            );
        }
        let start: usize = self.tape.len();
        let recording: bool = self.set_grad(true);
        let px = self.alloc_param_id();
        let pa = self.alloc_param_id();
        let pb = self.alloc_param_id();
        let pc = self.alloc_param_id();
        let x = self.register_leaf(d.x_val, px);
        let ghost v1 = self.tape@;
        let a = self.register_leaf(d.a_val, pa);
        let ghost v2 = self.tape@;
        let b_leaf = self.register_leaf(d.b_val, pb);
        let ghost v3 = self.tape@;
        let c = self.register_leaf(d.c_val, pc);
        proof {
            crate::backend::lemma_tape_extends(v, v1, v2);
            crate::backend::lemma_tape_extends(v, v2, v3);
            crate::backend::lemma_tape_extends(v, v3, self.tape@);
            assert forall|n: NodeId| #[trigger]
                v.before(n, v.entries.len() as int) implies self.tape@.before(
                n,
                self.tape@.entries.len() as int,
            ) && self.tape@.known[node_key(n)] == v.known[node_key(n)] by {
            }
        }
        Some(
            ScanFrame {
                start,
                grad: g.detached(),
                x: ScanLeaf { leaf: x, id: px, node: d.x },
                a: ScanLeaf { leaf: a, id: pa, node: d.a },
                b: ScanLeaf { leaf: b_leaf, id: pb, node: d.b },
                c: ScanLeaf { leaf: c, id: pc, node: d.c },
                block_len: d.block_len,
                recording,
                base: Ghost(v),
            },
        )
    }

    /// How the recomputed output `y` of a scan is weighted by the gradient of
    /// the scan's output. The sum of all elements of the result is what the
    /// recomputation is differentiated from.
    pub fn weigh_scan(&self, f: &ScanFrame, y: &CudaTensor) -> (r: Result<Planned, CudaError>)
        requires
            saved_f32(*y),
            saved_f32(f.grad),
            multipliable(y.dims(), f.grad.dims()),
        ensures
            plans(r, times(saved(*y), saved(f.grad))),
            records_only(
                r,
                TapeOp::Mul { lhs: None, rhs: None, lhs_val: *y, rhs_val: f.grad },
                seq![*y, f.grad],
            ),
    {
        self.mul(y, &f.grad)
    }

    /// Ends the recomputation of a scan: walks from `phantom`, the sum of the
    /// recomputed output `y` weighted by the scan's gradient, down to the
    /// leaves, and adds their gradients to those of the scan's inputs. The tape
    /// goes back to what it was before, and recording with it, whatever
    /// happens. Where the walk fails, no gradient changes.
    pub fn end_scan(
        &mut self,
        b: &mut Backward,
        f: ScanFrame,
        y: &CudaTensor,
        phantom: &CudaTensor,
    ) -> (r: Result<(), CudaError>)
        requires
            old(self).wf(),
            f.weighed(old(self).tape@, *y, *phantom),
            f.fits(old(self).tape@),
            f.awaited(*old(b)),
            old(b).ready(f.base@),
            old(b).settled(),
            phantom.wf(),
            numel(phantom.dims()) == 1,
            old(self).tape@.tracks(*phantom),
            phantom.origin is None,
            old(self).tape@.entries.len() < u32::MAX,
            phantom.node_id matches Some(n) ==> passable(
                old(self).tape@,
                f.start as int,
                old(self).tape@.entries.len() as int,
                true,
                Set::empty().insert(node_key(n)),
                Set::empty(),
            ),
        ensures
            final(self).tape@ == old(self).tape@.cut(f.start as int),
            final(self).wf(),
            final(self).next_param_id == old(self).next_param_id,
            final(self).grad == f.recording,
            final(b).index == old(b).index,
            match phantom.node_id {
                None => r is Ok && final(b).walk == old(b).walk && final(b).ready(
                    final(self).tape@,
                ),
                Some(root) => match walked(
                    old(self).tape@,
                    f.start as int,
                    old(self).tape@.entries.len() as int,
                    true,
                    seeded(root, phantom.dims()),
                ) {
                    Err(e) => r == Err::<(), CudaError>(e) && final(b).walk == old(b).walk
                        && final(b).ready(final(self).tape@),
                    Ok((_, s)) => {
                        &&& r is Ok
                        &&& final(b).walk.state() == passed_on(old(b).walk.state(), s.params, f)
                        &&& final(b).ready(final(self).tape@)
                    },
                },
            },
    {
        let ghost v = self.tape@;
        let ghost b0 = *b;
        proof {
            let c = v.cut(f.start as int);
            lemma_cut(b.walk, f.base@, v);
            lemma_passable_extends(
                f.base@,
                c,
                0,
                b.index as int,
                false,
                b.walk.nodes@.dom(),
                b.walk.params@.dom(),
            );
            lemma_passable_extends(
                f.base@,
                c,
                0,
                b.index as int,
                false,
                f.fed(b.walk.nodes@.dom()),
                b.walk.params@.dom(),
            );
        }
        self.grad = f.recording;
        let root = match phantom.node_id {
            Some(n) => n,
            None => {
                self.tape.truncate(f.start);
                return Ok(());
            },
        };
        let mut sub = Walk::start(&self.tape, root, phantom);
        let end: usize = self.tape.len();
        match sub.advance(&self.tape, f.start, end, true) {
            Err(e) => {
                self.tape.truncate(f.start);
                return Err(e);
            },
            Ok(_) => {},
        }
        let Walk { program, nodes: _, params } = sub;
        let ghost s = vals(program, params@);
        b.walk.program = program;
        proof {
            lemma_lasting(b0.walk.program, b.walk.program, b0.walk.nodes@, f.base@.known);
            lemma_lasting(b0.walk.program, b.walk.program, b0.walk.params@, f.base@.params);
            assert(b.walk.state() == b0.walk.state());
            lemma_sound_extends(b.walk, f.base@, v);
        }
        b.walk.pass_all(&self.tape, &f, &params);
        self.tape.truncate(f.start);
        proof {
            lemma_sound_cut(b.walk, f.base@, v, b0.walk, s, f);
            lemma_state_dom(b.walk);
            lemma_state_dom(b0.walk);
            let keys = f.fed(b0.walk.nodes@.dom());
            assert(b.walk.nodes@.dom().subset_of(keys));
            assert(b.walk.params@.dom() == b0.walk.params@.dom());
            lemma_passable_less(
                self.tape@,
                0,
                b.index as int,
                false,
                b.walk.nodes@.dom(),
                b.walk.params@.dom(),
                keys,
                b0.walk.params@.dom(),
            );
        }
        Ok(())
    }

    /// Gives the recomputation of a scan up: the tape goes back to what it was
    /// before, and recording with it.
    pub fn abandon_scan(&mut self, f: ScanFrame)
        requires
            old(self).wf(),
            f.start <= old(self).tape@.entries.len(),
        ensures
            final(self).tape@ == old(self).tape@.cut(f.start as int),
            final(self).wf(),
            final(self).next_param_id == old(self).next_param_id,
            final(self).grad == f.recording,
    {
        self.grad = f.recording;
        self.tape.truncate(f.start);
    }

    /// Ends a backward pass whose last program has run: the gradients of the
    /// parameters remain, and the tape begins anew.
    pub fn finish(&mut self, b: Backward, handles: &Vec<Arc<Buffer>>) -> (s: CudaGradStore)
        requires
            old(self).wf(),
            b.ready(old(self).tape@),
            b.index == 0,
            forall|k: u64| #[trigger]
                b.walk.params@.contains_key(k) ==> can_bind(
                    b.walk.params@[k].buffer(),
                    handles@,
                ),
        ensures
            final(self).tape@ == old(self).tape@.cleared(),
            final(self).wf(),
            final(self).next_param_id == old(self).next_param_id,
            final(self).grad == old(self).grad,
            s@.dom() == b.walk.params@.dom(),
            forall|k: u64| #[trigger]
                s@.contains_key(k) ==> bound(b.walk.params@[k], s@[k], handles@) && saved_f32(s@[k])
                    && s@[k].node_id is None && s@[k].origin is None
                    && old(self).tape@.params.contains_key(k) && s@[k].dims()
                    == old(self).tape@.params[k],
    {
        let s = CudaGradStore { grads: bind_all(&b.walk.params, handles) };
        self.tape.clear();
        proof {
            assert forall|k: u64| #[trigger] s@.contains_key(k) implies bound(
                b.walk.params@[k],
                s@[k],
                handles@,
            ) && saved_f32(s@[k]) && s@[k].node_id is None && s@[k].origin is None
                && old(self).tape@.params.contains_key(k) && s@[k].dims()
                == old(self).tape@.params[k] by {
                assert(b.walk.params@.contains_key(k));
            }
        }
        s
    }
}

/// Taking one gradient out leaves a walk sound.
proof fn lemma_removed(w: Walk, f: Walk, v: TapeView, k: u64)
    requires
        w.sound(v),
        f.program == w.program,
        f.params@ == w.params@,
        f.nodes@ == w.nodes@.remove(k),
    ensures
        f.sound(v),
        lasting(w.nodes@) ==> lasting(f.nodes@),
{
    assert forall|j: u64| #[trigger] f.nodes@.contains_key(j) implies w.nodes@.contains_key(j)
        && f.nodes@[j] == w.nodes@[j] by {
    }
    assert forall|j: u64| #[trigger] f.nodes@.contains_key(j) implies placed(v, j) by {
        assert(w.nodes@.contains_key(j));
    }
    assert(grads_ok(f.program, f.nodes@, v.known)) by {
        assert forall|j: u64| #[trigger] f.nodes@.contains_key(j) implies grad_ok(
            f.program,
            f.nodes@[j],
        ) && v.known.contains_key(j) && f.nodes@[j].dims() == v.known[j] && solid(v.known[j]) by {
            assert(w.nodes@.contains_key(j));
        }
    }
    if lasting(w.nodes@) {
        assert forall|j: u64| #[trigger] f.nodes@.contains_key(j) implies f.nodes@[j].buffer()
            is Global by {
            assert(w.nodes@.contains_key(j));
        }
    }
}

/// After a recomputation is cut off, all gradients still belong to nodes of
/// the tape.
proof fn lemma_sound_cut(
    w: Walk,
    base: TapeView,
    u: TapeView,
    w0: Walk,
    s: Map<u64, Val>,
    f: ScanFrame,
)
    requires
        base.wf(),
        u.extends(base),
        w.sound(u),
        w0.sound(base),
        f.fits(u),
        f.base@ == base,
        w.state() == passed_on(w0.state(), s, f),
    ensures
        w.sound(u.cut(base.entries.len() as int)),
{
    let c = u.cut(base.entries.len() as int);
    assert forall|k: u64| #[trigger] w.nodes@.contains_key(k) implies placed(c, k) by {
        assert(w.state().nodes.contains_key(k));
        if w0.state().nodes.contains_key(k) {
            assert(w0.nodes@.contains_key(k));
            assert(placed(base, k));
            let n = choose|n: NodeId| #[trigger]
                base.before(n, base.entries.len() as int) && node_key(n) == k;
            assert(c.before(n, c.entries.len() as int));
        } else if f.x.node is Some && node_key(f.x.node->0) == k {
            assert(c.before(f.x.node->0, c.entries.len() as int));
        } else if f.a.node is Some && node_key(f.a.node->0) == k {
            assert(c.before(f.a.node->0, c.entries.len() as int));
        } else if f.b.node is Some && node_key(f.b.node->0) == k {
            assert(c.before(f.b.node->0, c.entries.len() as int));
        } else {
            assert(c.before(f.c.node->0, c.entries.len() as int));
        }
    }
}

} // verus!
