//! Device programs: lists of commands, and what each buffer they make holds.

use crate::conv::ConvDims;
use crate::gemm::{Batching, Gemm, GemmConfig};
use crate::launch::{ArgView, Buffer, Kernel, Launch, LaunchConfig, LaunchView, Real};
use crate::shape::numel;
use crate::tensor::{CudaTensor, Shape};
use std::sync::Arc;
use vstd::prelude::*;

verus! {

/// Work on host copies of buffers, whose result is uploaded as a new buffer.
/// The inputs are listed beside it.
#[derive(Debug)]
pub enum HostTask {
    /// Broadcast sum, or difference, of two operands.
    Broadcast { subtract: bool, a: Shape, b: Shape, out: Shape },
    /// Repetition of the slices of a stack.
    ExpandBatch { lead: Shape, wide: Shape, slice: usize },
    /// Concatenation along an axis.
    Concat { outer: usize, lens: Shape, inner: usize },
    /// Exchange of two axes of an index tensor.
    SwapIndexAxes { shape: Shape, first: usize, second: usize },
    /// A run of columns of a matrix.
    TakeColumns { rows: usize, cols: usize, from: usize, width: usize },
    /// A run of elements.
    TakeRange { from: usize, len: usize },
    /// The outputs of the groups of a convolution, put together.
    AssembleGroups { batch: usize, per_group: usize, t_out: usize },
    /// A bias added to every channel.
    AddBias { batch: usize, c_out: usize, t_out: usize },
    /// Gradient of a convolution's bias.
    ConvBiasGrad { batch: usize, c_out: usize, t_out: usize },
    /// Gradient of a convolution's weight.
    ConvWeightGrad { dims: ConvDims, c_out: usize, groups: usize },
    /// Gradient of a convolution's input.
    ConvInputGrad { dims: ConvDims, c_out: usize, groups: usize },
}

#[verifier::ext_equal]
pub enum HostTaskView {
    Broadcast { subtract: bool, a: Seq<usize>, b: Seq<usize>, out: Seq<usize> },
    ExpandBatch { lead: Seq<usize>, wide: Seq<usize>, slice: usize },
    Concat { outer: usize, lens: Seq<usize>, inner: usize },
    SwapIndexAxes { shape: Seq<usize>, first: usize, second: usize },
    TakeColumns { rows: usize, cols: usize, from: usize, width: usize },
    TakeRange { from: usize, len: usize },
    AssembleGroups { batch: usize, per_group: usize, t_out: usize },
    AddBias { batch: usize, c_out: usize, t_out: usize },
    ConvBiasGrad { batch: usize, c_out: usize, t_out: usize },
    ConvWeightGrad { dims: ConvDims, c_out: usize, groups: usize },
    ConvInputGrad { dims: ConvDims, c_out: usize, groups: usize },
}

impl View for HostTask {
    type V = HostTaskView;

    open spec fn view(&self) -> HostTaskView {
        match *self {
            HostTask::Broadcast { subtract, a, b, out } => HostTaskView::Broadcast {
                subtract,
                a: a@,
                b: b@,
                out: out@,
            },
            HostTask::ExpandBatch { lead, wide, slice } => HostTaskView::ExpandBatch {
                lead: lead@,
                wide: wide@,
                slice,
            },
            HostTask::Concat { outer, lens, inner } => HostTaskView::Concat {
                outer,
                lens: lens@,
                inner,
            },
            HostTask::SwapIndexAxes { shape, first, second } => HostTaskView::SwapIndexAxes {
                shape: shape@,
                first,
                second,
            },
            HostTask::TakeColumns { rows, cols, from, width } => HostTaskView::TakeColumns {
                rows,
                cols,
                from,
                width,
            },
            HostTask::TakeRange { from, len } => HostTaskView::TakeRange { from, len },
            HostTask::AssembleGroups { batch, per_group, t_out } => HostTaskView::AssembleGroups {
                batch,
                per_group,
                t_out,
            },
            HostTask::AddBias { batch, c_out, t_out } => HostTaskView::AddBias {
                batch,
                c_out,
                t_out,
            },
            HostTask::ConvBiasGrad { batch, c_out, t_out } => HostTaskView::ConvBiasGrad {
                batch,
                c_out,
                t_out,
            },
            HostTask::ConvWeightGrad { dims, c_out, groups } => HostTaskView::ConvWeightGrad {
                dims,
                c_out,
                groups,
            },
            HostTask::ConvInputGrad { dims, c_out, groups } => HostTaskView::ConvInputGrad {
                dims,
                c_out,
                groups,
            },
        }
    }
}

/// One step of a device program. A step that makes a buffer makes the one
/// that is named after the step's own position.
#[derive(Debug)]
pub enum Command {
    /// A new buffer of zeros.
    Zeros { len: usize },
    /// A new buffer of ones.
    Ones { len: usize },
    /// A new buffer that receives the caller's data.
    Upload { len: usize },
    /// A new buffer with the contents of another.
    Copy { src: Buffer },
    /// A new buffer computed on the host.
    Host { task: HostTask, inputs: Vec<Buffer> },
    /// A kernel launch onto a buffer of this program.
    Launch(Launch),
    /// A matrix product onto a buffer of this program.
    Gemm(Gemm),
}

#[verifier::ext_equal]
pub enum CommandView {
    Zeros { len: usize },
    Ones { len: usize },
    Upload { len: usize },
    Copy { src: Buffer },
    Host { task: HostTaskView, inputs: Seq<Buffer> },
    Launch(LaunchView),
    Gemm(Gemm),
}

impl View for Command {
    type V = CommandView;

    open spec fn view(&self) -> CommandView {
        match *self {
            Command::Zeros { len } => CommandView::Zeros { len },
            Command::Ones { len } => CommandView::Ones { len },
            Command::Upload { len } => CommandView::Upload { len },
            Command::Copy { src } => CommandView::Copy { src },
            Command::Host { task, inputs } => CommandView::Host { task: task@, inputs: inputs@ },
            Command::Launch(l) => CommandView::Launch(l@),
            Command::Gemm(g) => CommandView::Gemm(g),
        }
    }
}

/// What a buffer holds, as an expression over the buffers that were there
/// before the program ran.
pub enum Term {
    /// The contents of a buffer that outlives the program.
    Input(u64),
    /// Zeros.
    Zeros(nat),
    /// Ones.
    Ones(nat),
    /// The caller's data.
    Upload(nat),
    /// What a kernel leaves in the buffer it writes.
    Run { kernel: Kernel, config: LaunchConfig, args: Seq<TermArg> },
    /// A matrix product onto what a buffer held.
    Product {
        gemm: GemmConfig,
        batching: Option<Batching>,
        a: Box<Term>,
        b: Box<Term>,
        onto: Box<Term>,
    },
    /// A result of host work.
    Host { task: HostTaskView, inputs: Seq<Term> },
    /// A buffer that the program does not make.
    Unknown,
}

/// One argument of a kernel, with buffers replaced by what they hold.
pub enum TermArg {
    Value(Term),
    Word(u32),
    Real(Real),
    Table(Seq<u32>),
}

/// Whether `b` is the buffer that the command at position `i` makes.
pub open spec fn is_local(b: Buffer, i: int) -> bool {
    b matches Buffer::Local(k) && k == i
}

/// What the buffer `b` holds, given what the program's own buffers hold.
pub open spec fn held(m: Map<int, Term>, b: Buffer) -> Term {
    match b {
        Buffer::Global(id) => Term::Input(id),
        Buffer::Local(i) => if m.contains_key(i as int) {
            m[i as int]
        } else {
            Term::Unknown
        },
    }
}

/// Kernel arguments with buffers replaced by what they hold.
pub open spec fn held_args(m: Map<int, Term>, dst: Buffer, args: Seq<ArgView>) -> Seq<TermArg> {
    Seq::new(
        args.len(),
        |i: int|
            match args[i] {
                ArgView::Dst => TermArg::Value(held(m, dst)),
                ArgView::Src(b) => TermArg::Value(held(m, b)),
                ArgView::Word(w) => TermArg::Word(w),
                ArgView::Real(r) => TermArg::Real(r),
                ArgView::Table(t) => TermArg::Table(t),
            },
    )
}

/// What the buffers of a list hold.
pub open spec fn held_all(m: Map<int, Term>, bs: Seq<Buffer>) -> Seq<Term> {
    Seq::new(bs.len(), |i: int| held(m, bs[i]))
}

/// What a launch leaves in its destination.
pub open spec fn launched(m: Map<int, Term>, l: LaunchView) -> Term {
    Term::Run { kernel: l.kernel, config: l.config, args: held_args(m, l.dst, l.args) }
}

/// What a matrix product leaves in its destination.
pub open spec fn multiplied(m: Map<int, Term>, g: Gemm) -> Term {
    Term::Product {
        gemm: g.config,
        batching: g.batching,
        a: Box::new(held(m, g.a)),
        b: Box::new(held(m, g.b)),
        onto: Box::new(held(m, g.dst)),
    }
}

/// Replaces what a buffer of the program holds.
pub open spec fn written(m: Map<int, Term>, dst: Buffer, t: Term) -> Map<int, Term> {
    match dst {
        Buffer::Global(_) => m,
        Buffer::Local(i) => m.insert(i as int, t),
    }
}

/// The effect of the command at position `i`.
pub open spec fn step(m: Map<int, Term>, i: int, c: CommandView) -> Map<int, Term> {
    match c {
        CommandView::Zeros { len } => m.insert(i, Term::Zeros(len as nat)),
        CommandView::Ones { len } => m.insert(i, Term::Ones(len as nat)),
        CommandView::Upload { len } => m.insert(i, Term::Upload(len as nat)),
        CommandView::Copy { src } => m.insert(i, held(m, src)),
        CommandView::Host { task, inputs } => m.insert(
            i,
            Term::Host { task, inputs: held_all(m, inputs) },
        ),
        CommandView::Launch(l) => written(m, l.dst, launched(m, l)),
        CommandView::Gemm(g) => written(m, g.dst, multiplied(m, g)),
    }
}

/// Whether the buffer `b` is there once those of `m` have been made.
pub open spec fn there(m: Map<int, Term>, b: Buffer) -> bool {
    b matches Buffer::Local(i) ==> m.contains_key(i as int)
}

/// Whether `dst` is a buffer of the program that is there: lasting buffers are
/// never written to.
pub open spec fn own(m: Map<int, Term>, dst: Buffer) -> bool {
    dst is Local && there(m, dst)
}

/// Whether a command can run when the buffers of `m` have been made: what it
/// reads is there, and it writes to nothing but a buffer of the program that
/// it does not read by another name.
pub open spec fn runnable(m: Map<int, Term>, c: CommandView) -> bool {
    match c {
        CommandView::Zeros { .. } => true,
        CommandView::Ones { .. } => true,
        CommandView::Upload { .. } => true,
        CommandView::Copy { src } => there(m, src),
        CommandView::Host { inputs, .. } => forall|k: int|
            0 <= k < inputs.len() ==> there(m, #[trigger] inputs[k]),
        CommandView::Launch(l) => {
            &&& own(m, l.dst)
            &&& reads_apart(m, l)
        },
        CommandView::Gemm(g) => {
            &&& own(m, g.dst)
            &&& there(m, g.a) && g.a != g.dst
            &&& there(m, g.b) && g.b != g.dst
        },
    }
}

/// Whether all buffers that a launch reads are there, and are not the one that
/// it writes.
pub open spec fn reads_apart(m: Map<int, Term>, l: LaunchView) -> bool {
    forall|k: int|
        0 <= k < l.args.len() ==> ((#[trigger] l.args[k]) matches ArgView::Src(b) ==> there(m, b)
            && b != l.dst)
}

/// What the buffers hold after all of `cs`.
pub open spec fn outcome(cs: Seq<CommandView>) -> Map<int, Term>
    decreases cs.len(),
{
    if cs.len() == 0 {
        Map::empty()
    } else {
        step(outcome(cs.drop_last()), cs.len() - 1, cs.last())
    }
}

/// Whether every command can run when those before it have.
#[verifier::opaque]
pub open spec fn all_runnable(cs: Seq<CommandView>) -> bool {
    forall|i: int| 0 <= i < cs.len() ==> runnable(outcome(cs.take(i)), #[trigger] cs[i])
}

/// The views of a list of commands.
pub open spec fn command_views(cs: Seq<Command>) -> Seq<CommandView> {
    Seq::new(cs.len(), |i: int| cs[i]@)
}

/// A tensor's contents and shape.
#[verifier::ext_equal]
pub struct Val {
    pub term: Term,
    pub dims: Seq<usize>,
}

impl Val {
    /// The number of elements.
    pub open spec fn count(self) -> nat {
        numel(self.dims)
    }
}

/// A device program under construction.
#[derive(Debug)]
pub struct Program {
    pub commands: Vec<Command>,
}

impl View for Program {
    type V = Seq<CommandView>;

    open spec fn view(&self) -> Seq<CommandView> {
        command_views(self.commands@)
    }
}

impl Program {
    /// What the program's buffers hold when it has run.
    pub open spec fn state(self) -> Map<int, Term> {
        outcome(self@)
    }

    /// No buffer is named after a command that is not there, and every command
    /// can run when those before it have.
    pub open spec fn wf(self) -> bool {
        &&& forall|i: int| #[trigger]
            self.state().contains_key(i) ==> 0 <= i < self.commands@.len()
        &&& all_runnable(self@)
    }

    /// Whether a tensor's buffer exists when the program has run.
    pub open spec fn holds(self, t: CudaTensor) -> bool {
        &&& t.wf()
        &&& match t.buffer() {
            Buffer::Global(_) => true,
            Buffer::Local(i) => self.state().contains_key(i as int),
        }
    }

    /// Whether a tensor is one of floats whose buffer exists.
    pub open spec fn holds_f32(self, t: CudaTensor) -> bool {
        self.holds(t) && t.storage is F32
    }

    /// What a tensor is when the program has run.
    pub open spec fn val(self, t: CudaTensor) -> Val {
        Val { term: held(self.state(), t.buffer()), dims: t.dims() }
    }

    /// Whether this program goes on from `p` without touching a buffer that
    /// `p` made.
    pub open spec fn extends(self, p: Program) -> bool {
        &&& self.wf()
        &&& p@.len() <= self@.len()
        &&& forall|i: int| #[trigger]
            p.state().contains_key(i) ==> self.state().contains_key(i) && self.state()[i]
                == p.state()[i]
    }

    pub fn new() -> (p: Program)
        ensures
            p.wf(),
            p@ == Seq::<CommandView>::empty(),
    {
        let p = Program { commands: Vec::new() };
        proof {
            reveal(all_runnable);
            assert(p@ =~= Seq::<CommandView>::empty());
        }
        p
    }

    fn push(&mut self, c: Command)
        requires
            old(self).wf(),
            runnable(old(self).state(), c@),
        ensures
            final(self)@ == old(self)@.push(c@),
            final(self).commands@.len() == old(self).commands@.len() + 1,
            final(self).state() == step(old(self).state(), old(self).commands@.len() as int, c@),
            final(self).wf(),
    {
        self.commands.push(c);
        proof {
            let n = old(self)@.len() as int;
            reveal(all_runnable);
            assert(self@ =~= old(self)@.push(c@));
            assert(self@.drop_last() =~= old(self)@);
            assert forall|i: int| 0 <= i < self@.len() implies runnable(
                outcome(self@.take(i)),
                #[trigger] self@[i],
            ) by {
                if i < n {
                    assert(self@.take(i) =~= old(self)@.take(i));
                    assert(self@[i] == old(self)@[i]);
                } else {
                    assert(self@.take(i) =~= old(self)@);
                }
            }
        }
    }

    /// Adds a command that makes a buffer holding `t`.
    fn make(&mut self, c: Command, t: Ghost<Term>) -> (b: Arc<Buffer>)
        requires
            old(self).wf(),
            runnable(old(self).state(), c@),
            step(old(self).state(), old(self).commands@.len() as int, c@) == old(
                self,
            ).state().insert(old(self).commands@.len() as int, t@),
        ensures
            final(self).extends(*old(self)),
            is_local(*b, old(self).commands@.len() as int),
            final(self).state() == old(self).state().insert(
                old(self).commands@.len() as int,
                t@,
            ),
            final(self).commands@.len() == old(self).commands@.len() + 1,
            held(final(self).state(), *b) == t@,
            !old(self).state().contains_key(old(self).commands@.len() as int),
    {
        let i: usize = self.commands.len();
        self.push(c);
        Arc::new(Buffer::Local(i))
    }

    /// A new buffer of `len` zeros.
    pub fn zeros(&mut self, len: usize) -> (b: Arc<Buffer>)
        requires
            old(self).wf(),
        ensures
            final(self).extends(*old(self)),
            is_local(*b, old(self).commands@.len() as int),
            final(self).state() == old(self).state().insert(
                old(self).commands@.len() as int,
                Term::Zeros(len as nat),
            ),
            final(self).commands@.len() == old(self).commands@.len() + 1,
            !old(self).state().contains_key(old(self).commands@.len() as int),
    {
        self.make(Command::Zeros { len }, Ghost(Term::Zeros(len as nat)))
    }

    /// A new buffer of `len` ones.
    pub fn ones(&mut self, len: usize) -> (b: Arc<Buffer>)
        requires
            old(self).wf(),
        ensures
            final(self).extends(*old(self)),
            is_local(*b, old(self).commands@.len() as int),
            final(self).state() == old(self).state().insert(
                old(self).commands@.len() as int,
                Term::Ones(len as nat),
            ),
            final(self).commands@.len() == old(self).commands@.len() + 1,
            !old(self).state().contains_key(old(self).commands@.len() as int),
    {
        self.make(Command::Ones { len }, Ghost(Term::Ones(len as nat)))
    }

    /// A new buffer for `len` elements of the caller's data.
    pub fn upload(&mut self, len: usize) -> (b: Arc<Buffer>)
        requires
            old(self).wf(),
        ensures
            final(self).extends(*old(self)),
            is_local(*b, old(self).commands@.len() as int),
            final(self).state() == old(self).state().insert(
                old(self).commands@.len() as int,
                Term::Upload(len as nat),
            ),
            final(self).commands@.len() == old(self).commands@.len() + 1,
    {
        self.make(Command::Upload { len }, Ghost(Term::Upload(len as nat)))
    }

    /// A new buffer with the contents of another.
    pub fn copy(&mut self, src: Buffer) -> (b: Arc<Buffer>)
        requires
            old(self).wf(),
            there(old(self).state(), src),
        ensures
            final(self).extends(*old(self)),
            is_local(*b, old(self).commands@.len() as int),
            final(self).state() == old(self).state().insert(
                old(self).commands@.len() as int,
                held(old(self).state(), src),
            ),
            final(self).commands@.len() == old(self).commands@.len() + 1,
    {
        let ghost t = held(self.state(), src);
        self.make(Command::Copy { src }, Ghost(t))
    }

    /// A new buffer computed on the host.
    pub fn host(&mut self, task: HostTask, inputs: Vec<Buffer>) -> (b: Arc<Buffer>)
        requires
            old(self).wf(),
            forall|k: int|
                0 <= k < inputs@.len() ==> there(old(self).state(), #[trigger] inputs@[k]),
        ensures
            final(self).extends(*old(self)),
            is_local(*b, old(self).commands@.len() as int),
            final(self).state() == old(self).state().insert(
                old(self).commands@.len() as int,
                Term::Host { task: task@, inputs: held_all(old(self).state(), inputs@) },
            ),
            final(self).commands@.len() == old(self).commands@.len() + 1,
    {
        let ghost t = Term::Host { task: task@, inputs: held_all(self.state(), inputs@) };
        self.make(Command::Host { task, inputs }, Ghost(t))
    }

    /// Runs a launch onto the buffer that the last zero fill made.
    pub(crate) fn launch(&mut self, l: Launch, base: Ghost<Program>)
        requires
            old(self).wf(),
            old(self).extends(base@),
            l.dst matches Buffer::Local(i) && old(self).state().contains_key(i as int)
                && !base@.state().contains_key(i as int),
            reads_apart(old(self).state(), l@),
        ensures
            final(self).extends(base@),
            final(self).state() == written(
                old(self).state(),
                l@.dst,
                launched(old(self).state(), l@),
            ),
            final(self).commands@.len() == old(self).commands@.len() + 1,
    {
        self.push(Command::Launch(l));
    }

    /// Runs a matrix product onto the buffer that the last zero fill made.
    pub(crate) fn gemm(&mut self, g: Gemm, base: Ghost<Program>)
        requires
            old(self).wf(),
            old(self).extends(base@),
            g.dst matches Buffer::Local(i) && old(self).state().contains_key(i as int)
                && !base@.state().contains_key(i as int),
            there(old(self).state(), g.a) && g.a != g.dst,
            there(old(self).state(), g.b) && g.b != g.dst,
        ensures
            final(self).extends(base@),
            final(self).state() == written(
                old(self).state(),
                g.dst,
                multiplied(old(self).state(), g),
            ),
            final(self).commands@.len() == old(self).commands@.len() + 1,
    {
        self.push(Command::Gemm(g));
    }
}

/// A tensor is after an extension what it was before.
pub proof fn lemma_val_kept(a: Program, b: Program, t: CudaTensor)
    requires
        b.extends(a),
        a.holds(t),
    ensures
        b.holds(t),
        b.val(t) == a.val(t),
{
}

} // verus!
