//! Gradients by node and by parameter.

use crate::device::binary_val;
use crate::launch::Kernel;
use crate::program::{Program, Val};
use crate::shape::{numel, solid};
use crate::tensor::{CudaTensor, ParamId};
use std::collections::HashMap;
use vstd::prelude::*;

verus! {

/// A gradient under construction: a detached float tensor of the program.
pub open spec fn grad_ok(p: Program, t: CudaTensor) -> bool {
    &&& p.holds_f32(t)
    &&& t.node_id is None
    &&& t.origin is None
}

/// What the tensors of a map are when the program has run.
pub open spec fn vals(p: Program, m: Map<u64, CudaTensor>) -> Map<u64, Val> {
    Map::new(|k: u64| m.contains_key(k), |k: u64| p.val(m[k]))
}

/// Whether every tensor of a map is a gradient of the shape that `shapes`
/// gives for its key.
pub open spec fn grads_ok(
    p: Program,
    m: Map<u64, CudaTensor>,
    shapes: Map<u64, Seq<usize>>,
) -> bool {
    forall|k: u64| #[trigger]
        m.contains_key(k) ==> grad_ok(p, m[k]) && shapes.contains_key(k) && m[k].dims() == shapes[k]
            && solid(shapes[k])
}

/// A contribution `v` added to what `m` holds at `k`, if anything.
pub open spec fn accumulated(m: Map<u64, Val>, k: u64, v: Val) -> Map<u64, Val> {
    m.insert(
        k,
        if m.contains_key(k) {
            binary_val(Kernel::Add, m[k], v)
        } else {
            v
        },
    )
}

/// Going on with the program changes no gradient.
pub proof fn lemma_grads_kept(
    p: Program,
    q: Program,
    m: Map<u64, CudaTensor>,
    shapes: Map<u64, Seq<usize>>,
)
    requires
        q.extends(p),
        grads_ok(p, m, shapes),
    ensures
        grads_ok(q, m, shapes),
        vals(q, m) == vals(p, m),
{
    assert forall|k: u64| #[trigger] m.contains_key(k) implies grad_ok(q, m[k]) && q.val(m[k])
        == p.val(m[k]) by {
        crate::program::lemma_val_kept(p, q, m[k]);
    }
    assert(vals(q, m) =~= vals(p, m));
}

/// Gradients by key.
#[derive(Debug)]
pub struct GradMap {
    pub map: HashMap<u64, CudaTensor>,
}

impl View for GradMap {
    type V = Map<u64, CudaTensor>;

    open spec fn view(&self) -> Map<u64, CudaTensor> {
        self.map@
    }
}

impl GradMap {
    pub fn new() -> (m: GradMap)
        ensures
            m@ == Map::<u64, CudaTensor>::empty(),
    {
        broadcast use vstd::std_specs::hash::group_hash_axioms;

        let m = GradMap { map: HashMap::new() };
        assert(m@ =~= Map::<u64, CudaTensor>::empty());
        m
    }

    /// Takes the gradient at `k` out.
    pub fn remove(&mut self, k: u64) -> (r: Option<CudaTensor>)
        ensures
            final(self)@ == old(self)@.remove(k),
            match r {
                Some(t) => old(self)@.contains_key(k) && t == old(self)@[k],
                None => !old(self)@.contains_key(k),
            },
    {
        broadcast use vstd::std_specs::hash::group_hash_axioms;

        self.map.remove(&k)
    }

    pub fn insert(&mut self, k: u64, t: CudaTensor)
        ensures
            final(self)@ == old(self)@.insert(k, t),
    {
        broadcast use vstd::std_specs::hash::group_hash_axioms;

        self.map.insert(k, t);
    }

    /// Whether there is a gradient at `k`.
    pub fn has(&self, k: u64) -> (r: bool)
        ensures
            r == self@.contains_key(k),
    {
        broadcast use vstd::std_specs::hash::group_hash_axioms;

        self.map.contains_key(&k)
    }

    /// The keys, each once, in no particular order.
    pub fn keys(&self) -> (ks: Vec<u64>)
        ensures
            ks@.no_duplicates(),
            forall|k: u64| #[trigger] ks@.contains(k) <==> self@.contains_key(k),
    {
        broadcast use vstd::std_specs::hash::group_hash_axioms;

        let mut ks: Vec<u64> = Vec::new();
        let it = self.map.keys();
        let ghost s = vstd::std_specs::hash::into_iter_keys(it);
        for k in w: it
            invariant
                w.seq().unref() == s,
                ks@ == s.take(w.index()),
        {
            ks.push(*k);
            assert(ks@ =~= s.take(w.index() + 1));
        }
        proof {
            assert(s.to_set() == self@.dom());
            assert(ks@ =~= s);
            assert forall|k: u64| #[trigger] ks@.contains(k) <==> self@.contains_key(k) by {
                assert(s.to_set().contains(k) == s.contains(k));
            }
        }
        ks
    }

    /// The gradient at `k`.
    pub fn get(&self, k: u64) -> (r: Option<CudaTensor>)
        ensures
            r == (if self@.contains_key(k) {
                Some(self@[k])
            } else {
                None
            }),
    {
        broadcast use vstd::std_specs::hash::group_hash_axioms;

        match self.map.get(&k) {
            Some(t) => Some(t.clone()),
            None => None,
        }
    }
}

/// Adds a contribution to the gradient at `k`, or begins it.
pub(crate) fn accumulate(
    p: &mut Program,
    m: &mut GradMap,
    k: u64,
    part: CudaTensor,
    shapes: Ghost<Map<u64, Seq<usize>>>,
)
    requires
        old(p).wf(),
        grads_ok(*old(p), old(m)@, shapes@),
        grad_ok(*old(p), part),
        shapes@.contains_key(k),
        part.dims() == shapes@[k],
        solid(shapes@[k]),
        old(m)@.contains_key(k) ==> numel(shapes@[k]) <= u32::MAX,
    ensures
        final(p).extends(*old(p)),
        grads_ok(*final(p), final(m)@, shapes@),
        vals(*final(p), final(m)@) == accumulated(
            vals(*old(p), old(m)@),
            k,
            old(p).val(part),
        ),
{
    let ghost p0 = *p;
    let ghost m0 = m@;
    match m.remove(k) {
        None => {
            m.insert(k, part);
            proof {
                assert(vals(*p, m@) =~= accumulated(vals(p0, m0), k, p0.val(part)));
            }
        },
        Some(existing) => {
            let sum = p.add_inner(&existing, &part);
            m.insert(k, sum);
            proof {
                lemma_grads_kept(p0, *p, m0, shapes@);
                assert forall|j: u64| #[trigger] m@.contains_key(j) implies grad_ok(*p, m@[j])
                    && shapes@.contains_key(j) && m@[j].dims() == shapes@[j] && solid(
                    shapes@[j],
                ) by {
                    if j != k {
                        assert(m0.contains_key(j));
                        assert(m@[j] == m0[j]);
                    }
                }
                assert(vals(*p, m0) =~= vals(p0, m0));
                assert forall|j: u64| #[trigger] m@.contains_key(j) implies vals(*p, m@)[j]
                    == accumulated(vals(p0, m0), k, p0.val(part))[j] by {
                    if j != k {
                        assert(m0.contains_key(j));
                        assert(vals(*p, m0)[j] == vals(p0, m0)[j]);
                    }
                }
                assert(vals(*p, m@) =~= accumulated(vals(p0, m0), k, p0.val(part)));
            }
        },
    }
}

/// Maps each trainable parameter to its gradient.
#[derive(Debug)]
pub struct CudaGradStore {
    pub grads: GradMap,
}

impl View for CudaGradStore {
    type V = Map<u64, CudaTensor>;

    open spec fn view(&self) -> Map<u64, CudaTensor> {
        self.grads@
    }
}

impl CudaGradStore {
    pub fn new() -> (s: CudaGradStore)
        ensures
            s@ == Map::<u64, CudaTensor>::empty(),
    {
        CudaGradStore { grads: GradMap::new() }
    }

    /// The gradient of a parameter.
    pub fn gradient(&self, id: ParamId) -> (r: Option<CudaTensor>)
        ensures
            r == (if self@.contains_key(id.0) {
                Some(self@[id.0])
            } else {
                None
            }),
    {
        self.grads.get(id.0)
    }

    /// Replaces the gradient of a parameter.
    pub fn set_gradient(&mut self, id: ParamId, grad: CudaTensor)
        ensures
            final(self)@ == old(self)@.insert(id.0, grad),
    {
        self.grads.insert(id.0, grad);
    }
}

/// What is set is what is read, and nothing else changes.
pub proof fn law_gradient_reads_what_was_set(m: Map<u64, CudaTensor>, p: ParamId, q: ParamId, g: CudaTensor)
    ensures
        m.insert(p.0, g).contains_key(p.0) && m.insert(p.0, g)[p.0] == g,
        p != q ==> m.insert(p.0, g).contains_key(q.0) == m.contains_key(q.0),
        p != q && m.contains_key(q.0) ==> m.insert(p.0, g)[q.0] == m[q.0],
{
}

} // verus!
