//! What happens when a program runs: command by command, on all buffers, those
//! that outlive it among them.

use crate::backend::{bound, Planned};
use crate::compound::{concat_dims, concat_val, shapes_of};
use crate::device::transposed_val;
use crate::error::CudaError;
use crate::grad::vals;
use crate::launch::{ArgView, Buffer};
use crate::meaning::{Datum, Machine, World};
use crate::ops::{plans, window_val};
use crate::program::{
    all_runnable, held, held_all, held_args, outcome, runnable, step, there, CommandView, Program,
    Term, Val,
};
use crate::rules::saved;
use crate::shape::{regular, span};
use crate::tape::{extent_sum, TapeView};
use crate::tensor::CudaTensor;
use crate::walk::Walk;
use std::sync::Arc;
use vstd::prelude::*;

verus! {

/// What all buffers hold while a program runs: those that outlive it, and
/// those that its commands have made.
pub struct Memory<T> {
    pub lasting: spec_fn(u64) -> Datum<T>,
    pub own: Map<int, Datum<T>>,
}

impl<T> Memory<T> {
    /// Whether there is such a buffer.
    pub open spec fn has(self, b: Buffer) -> bool {
        b matches Buffer::Local(i) ==> self.own.contains_key(i as int)
    }

    /// What a buffer holds.
    pub open spec fn at(self, b: Buffer) -> Datum<T> {
        match b {
            Buffer::Global(id) => (self.lasting)(id),
            Buffer::Local(i) => self.own[i as int],
        }
    }

    /// What all buffers hold when `d` was written to one of them.
    pub open spec fn with(self, b: Buffer, d: Datum<T>) -> Memory<T> {
        match b {
            Buffer::Global(id) => Memory {
                lasting: |k: u64|
                    if k == id {
                        d
                    } else {
                        (self.lasting)(k)
                    },
                own: self.own,
            },
            Buffer::Local(i) => Memory { lasting: self.lasting, own: self.own.insert(i as int, d) },
        }
    }

    /// What all buffers hold when command `i` has made one that holds `d`.
    pub open spec fn and(self, i: int, d: Datum<T>) -> Memory<T> {
        Memory { lasting: self.lasting, own: self.own.insert(i, d) }
    }
}

/// Whether one of the handles names the lasting buffer `id`.
pub open spec fn named(handles: Seq<Arc<Buffer>>, id: u64) -> bool {
    exists|i: int| 0 <= i < handles.len() && *#[trigger] handles[i] == Buffer::Global(id)
}

/// Whether `world` is what remains of `m` when the buffers of a program have
/// been made lasting: each under its handle, and all others as they were.
pub open spec fn remains<T>(world: World<T>, m: Memory<T>, handles: Seq<Arc<Buffer>>) -> bool {
    &&& forall|i: int| #[trigger]
        m.own.contains_key(i) ==> 0 <= i < handles.len() && (*handles[i] matches Buffer::Global(id)
            && (world.inputs)(id) == m.own[i])
    &&& forall|id: u64| !named(handles, id) ==> #[trigger] (world.inputs)(id) == (m.lasting)(id)
}

impl<
    T: Copy,
    A: Fn(T, T) -> T,
    M: Fn(T, T) -> T,
    S: Fn(T, T) -> T,
    E: Fn(T) -> T,
    N: Fn(T) -> T,
    I: Fn(T) -> T,
    L: Fn(T) -> T,
    G: Fn(T, T) -> bool,
    P: Fn(T, T) -> T,
    R: Fn(T) -> T,
    D: Fn(T) -> T,
> Machine<T, A, M, S, E, N, I, L, G, P, R, D> {
    /// What a kernel is handed.
    pub open spec fn handed(self, m: Memory<T>, dst: Buffer, args: Seq<ArgView>) -> Seq<Datum<T>> {
        Seq::new(
            args.len(),
            |i: int|
                match args[i] {
                    ArgView::Dst => m.at(dst),
                    ArgView::Src(b) => m.at(b),
                    ArgView::Word(w) => Datum::Word(w),
                    ArgView::Real(r) => Datum::Real(r),
                    ArgView::Table(t) => Datum::Table(t),
                },
        )
    }

    /// What command `i` makes of the buffers, if all that it names are there.
    pub open spec fn done(self, m: Memory<T>, upload: Datum<T>, i: int, c: CommandView) -> Option<
        Memory<T>,
    > {
        match c {
            CommandView::Zeros { len } => Some(
                m.and(i, Datum::Numbers(Seq::new(len as nat, |j: int| self.arith.zero))),
            ),
            CommandView::Ones { len } => Some(
                m.and(i, Datum::Numbers(Seq::new(len as nat, |j: int| self.curve.one))),
            ),
            CommandView::Upload { .. } => Some(m.and(i, upload)),
            CommandView::Copy { src } => if m.has(src) {
                Some(m.and(i, m.at(src)))
            } else {
                None
            },
            CommandView::Host { task, inputs } => if forall|k: int|
                0 <= k < inputs.len() ==> m.has(#[trigger] inputs[k]) {
                let ins = Seq::new(inputs.len(), |k: int| m.at(inputs[k]));
                Some(m.and(i, self.host_left(task, ins)))
            } else {
                None
            },
            CommandView::Launch(l) => if m.has(l.dst) && (forall|k: int|
                0 <= k < l.args.len() ==> ((#[trigger] l.args[k]) matches ArgView::Src(b) ==> m.has(
                    b,
                ))) {
                Some(
                    m.with(
                        l.dst,
                        Datum::Numbers(
                            self.left_by(l.kernel, l.config, self.handed(m, l.dst, l.args)),
                        ),
                    ),
                )
            } else {
                None
            },
            CommandView::Gemm(g) => if m.has(g.dst) && m.has(g.a) && m.has(g.b) {
                Some(
                    m.with(
                        g.dst,
                        Datum::Numbers(
                            self.product(
                                g.config,
                                g.batching,
                                m.at(g.a).numbers(),
                                m.at(g.b).numbers(),
                                m.at(g.dst).numbers(),
                            ),
                        ),
                    ),
                )
            } else {
                None
            },
        }
    }

    /// What all buffers hold when the commands have run one after the other,
    /// if all that they name are there.
    pub open spec fn ran(self, world: World<T>, cs: Seq<CommandView>) -> Option<Memory<T>>
        decreases cs.len(),
    {
        if cs.len() == 0 {
            Some(Memory { lasting: world.inputs, own: Map::empty() })
        } else {
            match self.ran(world, cs.drop_last()) {
                None => None,
                Some(m) => self.done(m, world.upload, cs.len() - 1, cs.last()),
            }
        }
    }

    /// Whether `m` is what the terms of `s` say, beside untouched lasting
    /// buffers.
    pub open spec fn as_said(self, world: World<T>, m: Memory<T>, s: Map<int, Term>) -> bool {
        &&& m.lasting == world.inputs
        &&& m.own.dom() == s.dom()
        &&& forall|i: int| #[trigger]
            s.contains_key(i) ==> m.own[i] == self.data(world, s[i])
    }

    /// What a buffer that is there holds.
    proof fn lemma_said(self, world: World<T>, m: Memory<T>, s: Map<int, Term>, b: Buffer)
        requires
            self.as_said(world, m, s),
            there(s, b),
        ensures
            m.has(b),
            m.at(b) == self.data(world, held(s, b)),
    {
        if let Buffer::Local(i) = b {
            assert(s.contains_key(i as int));
            assert(m.own.dom().contains(i as int));
        }
    }

    /// One command does what it is said to do.
    proof fn lemma_done(
        self,
        world: World<T>,
        m: Memory<T>,
        s: Map<int, Term>,
        i: int,
        c: CommandView,
    )
        requires
            self.as_said(world, m, s),
            runnable(s, c),
        ensures
            self.done(m, world.upload, i, c) matches Some(f) && self.as_said(
                world,
                f,
                step(s, i, c),
            ),
    {
        let after = step(s, i, c);
        match c {
            CommandView::Copy { src } => {
                self.lemma_said(world, m, s, src);
            },
            CommandView::Host { task, inputs } => {
                assert forall|k: int| 0 <= k < inputs.len() implies m.has(#[trigger] inputs[k])
                    && m.at(inputs[k]) == self.data(world, held(s, inputs[k])) by {
                    self.lemma_said(world, m, s, inputs[k]);
                }
                let terms = held_all(s, inputs);
                self.lemma_all_data(world, terms);
                assert(Seq::new(inputs.len(), |k: int| m.at(inputs[k])) =~= self.all_data(
                    world,
                    terms,
                ));
            },
            CommandView::Launch(l) => {
                self.lemma_said(world, m, s, l.dst);
                assert forall|k: int| 0 <= k < l.args.len() implies ((#[trigger] l.args[k]) matches
                    ArgView::Src(b) ==> m.has(b) && m.at(b) == self.data(world, held(s, b))) by {
                    if let ArgView::Src(b) = l.args[k] {
                        self.lemma_said(world, m, s, b);
                    }
                }
                let args = held_args(s, l.dst, l.args);
                self.lemma_arguments(world, args);
                assert(self.handed(m, l.dst, l.args) =~= self.arguments(world, args));
            },
            CommandView::Gemm(g) => {
                self.lemma_said(world, m, s, g.dst);
                self.lemma_said(world, m, s, g.a);
                self.lemma_said(world, m, s, g.b);
            },
            _ => {},
        }
        let f = self.done(m, world.upload, i, c)->Some_0;
        assert(f.own.dom() =~= after.dom());
        assert forall|j: int| #[trigger] after.contains_key(j) implies f.own[j] == self.data(
            world,
            after[j],
        ) by {
            if s.contains_key(j) {
                assert(m.own[j] == self.data(world, s[j]));
            }
        }
    }

    /// The commands of a program, up to any of them, do what they are said to
    /// do.
    proof fn lemma_ran(self, world: World<T>, cs: Seq<CommandView>, n: int)
        requires
            all_runnable(cs),
            0 <= n <= cs.len(),
        ensures
            self.ran(world, cs.take(n)) matches Some(m) && self.as_said(
                world,
                m,
                outcome(cs.take(n)),
            ),
        decreases n,
    {
        if n > 0 {
            self.lemma_ran(world, cs, n - 1);
            reveal(all_runnable);
            assert(cs.take(n).drop_last() =~= cs.take(n - 1));
            assert(cs.take(n).last() == cs[n - 1]);
            assert(runnable(outcome(cs.take(n - 1)), cs[n - 1]));
            let m = self.ran(world, cs.take(n - 1))->Some_0;
            self.lemma_done(world, m, outcome(cs.take(n - 1)), n - 1, cs[n - 1]);
        } else {
            assert(outcome(cs.take(0)) =~= Map::empty());
        }
    }

    /// A program can be run: no command names a buffer that is not there. When
    /// it has run, every buffer that it made holds what its term says, and all
    /// buffers that were there before hold what they held.
    pub proof fn law_programs_run_as_said(self, world: World<T>, p: Program)
        requires
            p.wf(),
        ensures
            self.ran(world, p@) matches Some(m) && self.as_said(world, m, p.state()),
    {
        self.lemma_ran(world, p@, p@.len() as int);
        assert(p@.take(p@.len() as int) =~= p@);
    }

    /// The program of a planned operation can be run, leaves all operands as
    /// they were, and its output then holds what was planned.
    pub proof fn law_plans_run(self, world: World<T>, r: Result<Planned, CudaError>, v: Val)
        requires
            plans(r, Ok(v)),
        ensures
            self.ran(world, r->Ok_0.program@) matches Some(m) && m.lasting == world.inputs && m.at(
                r->Ok_0.out.buffer(),
            ) == self.data(world, v.term),
    {
        let p = r->Ok_0;
        self.law_programs_run_as_said(world, p.program);
        let m = self.ran(world, p.program@)->Some_0;
        self.lemma_said(world, m, p.program.state(), p.out.buffer());
    }

    /// A tensor that was planned, run and given lasting buffers may stand for
    /// its plan: it has the shape that was planned, and holds the numbers.
    pub proof fn law_committed_tensors_hold_the_plan(
        self,
        world: World<T>,
        after: World<T>,
        r: Result<Planned, CudaError>,
        v: Val,
        t: CudaTensor,
        handles: Seq<Arc<Buffer>>,
    )
        requires
            plans(r, Ok(v)),
            remains(after, self.ran(world, r->Ok_0.program@)->Some_0, handles),
            bound(r->Ok_0.out, t, handles),
            r->Ok_0.out.buffer() matches Buffer::Global(id) ==> !named(handles, id),
        ensures
            saved(t).dims == v.dims,
            self.data(after, saved(t).term) == self.data(world, v.term),
    {
        let p = r->Ok_0;
        self.law_programs_run_as_said(world, p.program);
        let m = self.ran(world, p.program@)->Some_0;
        self.lemma_said(world, m, p.program.state(), p.out.buffer());
        match p.out.buffer() {
            Buffer::Local(i) => {
                assert(m.own.contains_key(i as int));
            },
            Buffer::Global(id) => {
                assert((after.inputs)(id) == (m.lasting)(id));
            },
        }
    }

    /// The program of a walk can be run, leaves saved operands and all other
    /// lasting buffers as they were, and each gradient then holds what the
    /// walk says of it.
    pub proof fn law_walks_run(self, world: World<T>, w: Walk, v: TapeView)
        requires
            w.sound(v),
        ensures
            ({
                let m = self.ran(world, w.program@);
                &&& m is Some
                &&& m->Some_0.lasting == world.inputs
                &&& forall|k: u64| #[trigger]
                    w.nodes@.contains_key(k) ==> m->Some_0.at(w.nodes@[k].buffer()) == self.data(
                        world,
                        w.state().nodes[k].term,
                    )
                &&& forall|k: u64| #[trigger]
                    w.params@.contains_key(k) ==> m->Some_0.at(w.params@[k].buffer()) == self.data(
                        world,
                        w.state().params[k].term,
                    )
            }),
    {
        self.law_programs_run_as_said(world, w.program);
        let m = self.ran(world, w.program@)->Some_0;
        assert forall|k: u64| #[trigger] w.nodes@.contains_key(k) implies m.at(
            w.nodes@[k].buffer(),
        ) == self.data(world, w.state().nodes[k].term) by {
            self.lemma_said(world, m, w.program.state(), w.nodes@[k].buffer());
            assert(vals(w.program, w.nodes@)[k] == w.program.val(w.nodes@[k]));
        }
        assert forall|k: u64| #[trigger] w.params@.contains_key(k) implies m.at(
            w.params@[k].buffer(),
        ) == self.data(world, w.state().params[k].term) by {
            self.lemma_said(world, m, w.program.state(), w.params@[k].buffer());
            assert(vals(w.program, w.params@)[k] == w.program.val(w.params@[k]));
        }
    }

    /// A transposition that was run and committed can be undone by another.
    pub proof fn law_committed_transpositions_can_be_undone(
        self,
        world: World<T>,
        after: World<T>,
        op: &'static str,
        v: Val,
        a: usize,
        b: usize,
        r: Result<Planned, CudaError>,
        t: CudaTensor,
        handles: Seq<Arc<Buffer>>,
    )
        requires
            self.filled(world, v),
            transposed_val(op, v, a, b) is Ok,
            plans(r, transposed_val(op, v, a, b)),
            remains(after, self.ran(world, r->Ok_0.program@)->Some_0, handles),
            bound(r->Ok_0.out, t, handles),
            r->Ok_0.out.buffer() matches Buffer::Global(id) ==> !named(handles, id),
        ensures
            transposed_val(op, saved(t), a, b) matches Ok(z) && z.dims == v.dims && self.data(
                after,
                z.term,
            ) == self.data(world, v.term),
    {
        let y = transposed_val(op, v, a, b)->Ok_0;
        self.law_committed_tensors_hold_the_plan(world, after, r, y, t, handles);
        self.law_transposing_twice_gives_the_tensor_back(world, after, op, v, saved(t), a, b);
    }

    /// The parts of a concatenation that was run and committed can be taken out
    /// of it again.
    pub proof fn law_committed_concatenations_keep_their_parts(
        self,
        world: World<T>,
        after: World<T>,
        ts: Seq<CudaTensor>,
        dim: usize,
        k: int,
        r: Result<Planned, CudaError>,
        t: CudaTensor,
        handles: Seq<Arc<Buffer>>,
    )
        requires
            concat_val(ts, dim) is Ok,
            0 <= k < ts.len(),
            forall|i: int|
                0 <= i < ts.len() ==> (#[trigger] ts[i]).wf() && self.filled(world, saved(ts[i])),
            extent_sum(shapes_of(ts), dim as int, ts.len() as int) <= usize::MAX,
            span(concat_dims(ts, dim as int)) <= usize::MAX,
            plans(r, concat_val(ts, dim)),
            remains(after, self.ran(world, r->Ok_0.program@)->Some_0, handles),
            bound(r->Ok_0.out, t, handles),
            r->Ok_0.out.buffer() matches Buffer::Global(id) ==> !named(handles, id),
        ensures
            ({
                let start = extent_sum(shapes_of(ts), dim as int, k) as usize;
                let w = window_val(saved(t), dim, start, ts[k].dims()[dim as int]);
                &&& w matches Ok(z) ==> z.dims == ts[k].dims() && self.data(after, z.term)
                    == self.data(world, saved(ts[k]).term)
                &&& regular(t.dims()) ==> w is Ok
            }),
    {
        let y = concat_val(ts, dim)->Ok_0;
        self.law_committed_tensors_hold_the_plan(world, after, r, y, t, handles);
        self.law_window_of_a_concatenation_is_the_part(world, after, ts, saved(t), dim, k);
    }
}

} // verus!
