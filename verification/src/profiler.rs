//! Bookkeeping of the per-operation profiler: which scopes are timed, how
//! times are added up by phase and operation, and what a report says.

use vstd::prelude::*;
use vstd::string::{StrSliceExecFns, StringExecFns};

verus! {

/// Phase of a training step.
#[derive(Clone, Copy, Debug, PartialEq, Eq, Structural)]
pub enum Phase {
    Fwd,
    Bwd,
    Post,
}

impl Phase {
    /// The phase's name.
    pub open spec fn name(self) -> &'static str {
        match self {
            Phase::Fwd => "fwd",
            Phase::Bwd => "bwd",
            Phase::Post => "post",
        }
    }

    pub fn as_str(self) -> (s: &'static str)
        ensures
            s == self.name(),
    {
        match self {
            Phase::Fwd => "fwd",
            Phase::Bwd => "bwd",
            Phase::Post => "post",
        }
    }
}

/// How often an operation ran, and how long altogether.
#[derive(Clone, Copy, Debug, PartialEq, Eq, Structural)]
pub struct OpStat {
    pub calls: u64,
    pub total_ns: u64,
}

/// What is recorded of one operation in one phase.
#[derive(Clone, Copy, Debug)]
pub struct Row {
    pub phase: &'static str,
    pub op: &'static str,
    pub stat: OpStat,
}

impl Row {
    /// Whether this is the row of `op` in `phase`.
    pub open spec fn is_of(self, phase: Seq<char>, op: Seq<char>) -> bool {
        self.phase@ == phase && self.op@ == op
    }
}

/// Whether no operation has two rows in one phase.
pub open spec fn keyed(rows: Seq<Row>) -> bool {
    forall|i: int, j: int|
        #![trigger rows[i], rows[j]]
        0 <= i < rows.len() && 0 <= j < rows.len() && rows[i].is_of(rows[j].phase@, rows[j].op@)
            ==> i == j
}

/// The statistics of `op` in `phase`, where there are any.
pub open spec fn stat_of(rows: Seq<Row>, phase: Seq<char>, op: Seq<char>) -> Option<OpStat>
    decreases rows.len(),
{
    if rows.len() == 0 {
        None
    } else if rows.last().is_of(phase, op) {
        Some(rows.last().stat)
    } else {
        stat_of(rows.drop_last(), phase, op)
    }
}

/// The statistics after one more call of `ns`.
pub open spec fn bumped(s: Option<OpStat>, ns: u64) -> OpStat {
    match s {
        None => OpStat { calls: 1, total_ns: ns },
        Some(s) => OpStat {
            calls: (s.calls + 1) as u64,
            total_ns: (s.total_ns + ns) as u64,
        },
    }
}

/// Whether one more call of `ns` can be counted.
pub open spec fn countable(s: Option<OpStat>, ns: u64) -> bool {
    s matches Some(s) ==> s.calls < u64::MAX && s.total_ns + ns <= u64::MAX
}

/// Whether two texts are the same.
pub fn same_text(a: &str, b: &str) -> (r: bool)
    ensures
        r == (a@ == b@),
{
    a.to_owned() == b.to_owned()
}

/// Whether `s` begins with `p`.
pub open spec fn begins(s: Seq<char>, p: Seq<char>) -> bool {
    p.len() <= s.len() && s.subrange(0, p.len() as int) == p
}

pub fn begins_with(s: &str, p: &str) -> (r: bool)
    ensures
        r == begins(s@, p@),
{
    let n: usize = p.unicode_len();
    if s.unicode_len() < n {
        return false;
    }
    let mut i: usize = 0;
    while i < n
        invariant
            i <= n,
            n == p@.len(),
            n <= s@.len(),
            forall|k: int| 0 <= k < i ==> s@[k] == p@[k],
        decreases n - i,
    {
        if s.get_char(i) != p.get_char(i) {
            assert(s@.subrange(0, n as int)[i as int] != p@[i as int]);
            return false;
        }
        i = i + 1;
    }
    assert(s@.subrange(0, n as int) =~= p@);
    true
}

/// All rows recorded so far.
#[derive(Debug)]
pub struct Registry {
    pub rows: Vec<Row>,
}

/// Looking a row up finds the only one there is.
proof fn lemma_stat_at(rows: Seq<Row>, i: int)
    requires
        keyed(rows),
        0 <= i < rows.len(),
    ensures
        stat_of(rows, rows[i].phase@, rows[i].op@) == Some(rows[i].stat),
    decreases rows.len(),
{
    let last = rows.len() - 1;
    if i < last {
        let r = rows.drop_last();
        assert(keyed(r)) by {
            assert forall|a: int, b: int|
                #![trigger r[a], r[b]]
                0 <= a < r.len() && 0 <= b < r.len() && r[a].is_of(
                    r[b].phase@,
                    r[b].op@,
                ) implies a == b by {
                assert(rows[a] == r[a] && rows[b] == r[b]);
            }
        }
        lemma_stat_at(r, i);
        assert(r[i] == rows[i]);
        if rows[last].is_of(rows[i].phase@, rows[i].op@) {
            assert(last == i);
        }
    }
}

/// Without a row there are no statistics.
proof fn lemma_no_stat(rows: Seq<Row>, phase: Seq<char>, op: Seq<char>)
    requires
        forall|i: int| 0 <= i < rows.len() ==> !(#[trigger] rows[i]).is_of(phase, op),
    ensures
        stat_of(rows, phase, op) is None,
    decreases rows.len(),
{
    if rows.len() > 0 {
        let r = rows.drop_last();
        assert forall|i: int| 0 <= i < r.len() implies !(#[trigger] r[i]).is_of(phase, op) by {
            assert(r[i] == rows[i]);
        }
        lemma_no_stat(r, phase, op);
        assert(!rows[rows.len() - 1].is_of(phase, op));
    }
}

/// Changing one row's statistics changes nothing else.
proof fn lemma_stat_update(rows: Seq<Row>, i: int, s: OpStat, phase: Seq<char>, op: Seq<char>)
    requires
        0 <= i < rows.len(),
        !rows[i].is_of(phase, op),
    ensures
        stat_of(rows.update(i, Row { stat: s, ..rows[i] }), phase, op) == stat_of(rows, phase, op),
    decreases rows.len(),
{
    let u = rows.update(i, Row { stat: s, ..rows[i] });
    let last = rows.len() - 1;
    if i < last {
        assert(u.drop_last() =~= rows.drop_last().update(
            i,
            Row { stat: s, ..rows.drop_last()[i] },
        ));
        lemma_stat_update(rows.drop_last(), i, s, phase, op);
    } else {
        assert(u.drop_last() =~= rows.drop_last());
    }
}

impl Registry {
    pub open spec fn wf(self) -> bool {
        keyed(self.rows@)
    }

    /// The statistics of `op` in `phase`, where there are any.
    pub open spec fn stat(self, phase: Seq<char>, op: Seq<char>) -> Option<OpStat> {
        stat_of(self.rows@, phase, op)
    }

    pub fn new() -> (r: Registry)
        ensures
            r.wf(),
            r.rows@.len() == 0,
    {
        Registry { rows: Vec::new() }
    }

    /// Counts one call of `op` in `phase` that took `ns` nanoseconds.
    pub fn record(&mut self, phase: &'static str, op: &'static str, ns: u64)
        requires
            old(self).wf(),
            countable(old(self).stat(phase@, op@), ns),
        ensures
            final(self).wf(),
            final(self).stat(phase@, op@) == Some(bumped(old(self).stat(phase@, op@), ns)),
            forall|p: Seq<char>, o: Seq<char>|
                p != phase@ || o != op@ ==> #[trigger] final(self).stat(p, o) == old(self).stat(
                    p,
                    o,
                ),
            final(self).rows@.len() == old(self).rows@.len() + (if old(self).stat(
                phase@,
                op@,
            ) is None {
                1int
            } else {
                0
            }),
    {
        let ghost rows = self.rows@;
        let mut i: usize = 0;
        while i < self.rows.len()
            invariant
                i <= self.rows@.len(),
                rows == self.rows@,
                rows == old(self).rows@,
                keyed(rows),
                countable(stat_of(rows, phase@, op@), ns),
                forall|k: int| 0 <= k < i ==> !(#[trigger] rows[k]).is_of(phase@, op@),
            decreases self.rows@.len() - i,
        {
            let r: Row = self.rows[i];
            if same_text(r.phase, phase) && same_text(r.op, op) {
                proof {
                    lemma_stat_at(rows, i as int);
                }
                let s = OpStat { calls: r.stat.calls + 1, total_ns: r.stat.total_ns + ns };
                let row = Row { phase: r.phase, op: r.op, stat: s };
                self.rows.set(i, row);
                proof {
                    let u = self.rows@;
                    assert(u == rows.update(i as int, Row { stat: s, ..rows[i as int] }));
                    assert(keyed(u)) by {
                        assert forall|a: int, b: int|
                            #![trigger u[a], u[b]]
                            0 <= a < u.len() && 0 <= b < u.len() && u[a].is_of(
                                u[b].phase@,
                                u[b].op@,
                            ) implies a == b by {
                            assert(rows[a].is_of(rows[b].phase@, rows[b].op@));
                        }
                    }
                    lemma_stat_at(u, i as int);
                    assert(u[i as int].is_of(phase@, op@));
                    assert forall|p: Seq<char>, o: Seq<char>|
                        p != phase@ || o != op@ implies #[trigger] stat_of(u, p, o) == stat_of(
                        rows,
                        p,
                        o,
                    ) by {
                        lemma_stat_update(rows, i as int, s, p, o);
                    }
                    assert forall|p: Seq<char>, o: Seq<char>|
                        p != phase@ || o != op@ implies #[trigger] self.stat(p, o) == old(self).stat(
                        p,
                        o,
                    ) by {
                        assert(stat_of(u, p, o) == stat_of(rows, p, o));
                    }
                }
                return;
            }
            i = i + 1;
        }
        proof {
            lemma_no_stat(rows, phase@, op@);
        }
        self.rows.push(Row { phase, op, stat: OpStat { calls: 1, total_ns: ns } });
        proof {
            let u = self.rows@;
            assert(u.drop_last() =~= rows);
            assert(keyed(u)) by {
                assert forall|a: int, b: int|
                    #![trigger u[a], u[b]]
                    0 <= a < u.len() && 0 <= b < u.len() && u[a].is_of(
                        u[b].phase@,
                        u[b].op@,
                    ) implies a == b by {
                    if a < rows.len() && b < rows.len() {
                        assert(rows[a].is_of(rows[b].phase@, rows[b].op@));
                    } else if a < rows.len() {
                        assert(!rows[a].is_of(phase@, op@));
                    } else if b < rows.len() {
                        assert(!rows[b].is_of(phase@, op@));
                    }
                }
            }
            assert forall|p: Seq<char>, o: Seq<char>|
                p != phase@ || o != op@ implies #[trigger] self.stat(p, o) == old(self).stat(
                p,
                o,
            ) by {
                assert(stat_of(u, p, o) == stat_of(rows, p, o));
            }
        }
    }

    /// A copy of all rows.
    pub fn snapshot_registry(&self) -> (rows: Vec<Row>)
        ensures
            rows@ == self.rows@,
    {
        let mut rows: Vec<Row> = Vec::new();
        let mut i: usize = 0;
        while i < self.rows.len()
            invariant
                i <= self.rows@.len(),
                rows@ == self.rows@.take(i as int),
            decreases self.rows@.len() - i,
        {
            rows.push(self.rows[i]);
            i = i + 1;
            assert(rows@ =~= self.rows@.take(i as int));
        }
        assert(self.rows@.take(i as int) =~= self.rows@);
        rows
    }
}

/// Where one thread stands in a step.
#[derive(Clone, Copy, Debug, PartialEq, Eq, Structural)]
pub struct Lane {
    /// How many scopes are open.
    pub depth: u32,
    pub phase: Phase,
    /// Completed steps.
    pub step: u64,
}

/// A scope that has been entered, to be left again.
#[derive(Clone, Copy, Debug)]
pub enum Scope {
    /// Inside another scope: nothing is timed.
    Nested,
    /// To be recorded under this operation and phase.
    Recording { op: &'static str, phase: &'static str },
    /// The backward pass as a whole.
    BackwardTotal { timed: bool },
}

impl Lane {
    pub fn new() -> (l: Lane)
        ensures
            l == (Lane { depth: 0, phase: Phase::Fwd, step: 0 }),
    {
        Lane { depth: 0, phase: Phase::Fwd, step: 0 }
    }

    /// The lane when `op` begins: an embedding after the end of a step begins
    /// the next.
    pub open spec fn advanced(self, op: Seq<char>) -> Lane {
        if op == "embedding"@ && self.phase == Phase::Post {
            Lane { phase: Phase::Fwd, step: (self.step + 1) as u64, ..self }
        } else {
            self
        }
    }

    /// Begins the next step where `op` says so.
    pub fn maybe_advance_step(&mut self, op: &'static str)
        requires
            old(self).step < u64::MAX,
        ensures
            *final(self) == old(self).advanced(op@),
    {
        if !same_text(op, "embedding") {
            return;
        }
        if self.phase == Phase::Post {
            self.phase = Phase::Fwd;
            self.step = self.step + 1;
        }
    }

    /// The lane with one more scope open.
    pub open spec fn entered(self) -> Lane {
        Lane { depth: (self.depth + 1) as u32, ..self }
    }

    /// Enters a scope: only the outermost one is recorded.
    pub fn enter_scoped(&mut self, op: &'static str) -> (s: Scope)
        requires
            old(self).depth < u32::MAX,
        ensures
            *final(self) == old(self).entered(),
            s == (if old(self).depth > 0 {
                Scope::Nested
            } else {
                Scope::Recording { op, phase: old(self).phase.name() }
            }),
    {
        let before: u32 = self.depth;
        self.depth = before + 1;
        if before > 0 {
            return Scope::Nested;
        }
        Scope::Recording { op, phase: self.phase.as_str() }
    }

    /// The lane when `s` has been left.
    pub open spec fn left(self, s: Scope) -> Lane {
        match s {
            Scope::BackwardTotal { .. } => Lane { phase: Phase::Post, ..self },
            _ => Lane {
                depth: if self.depth == 0 {
                    0
                } else {
                    (self.depth - 1) as u32
                },
                ..self
            },
        }
    }

    /// Leaves a scope.
    pub fn leave(&mut self, s: Scope)
        ensures
            *final(self) == old(self).left(s),
    {
        match s {
            Scope::BackwardTotal { .. } => {
                self.phase = Phase::Post;
            },
            _ => {
                if self.depth > 0 {
                    self.depth = self.depth - 1;
                }
            },
        }
    }
}

/// The profiler: whether it is on, how many steps it skips, what it has
/// recorded, and where the current thread stands.
#[derive(Debug)]
pub struct Profiler {
    pub enabled: bool,
    pub skip: u64,
    pub registry: Registry,
    pub lane: Lane,
}

/// The key under which leaving `s` records, where it does.
pub open spec fn key_of_scope(s: Scope) -> Option<(Seq<char>, Seq<char>)> {
    match s {
        Scope::Recording { op, phase } => Some((phase@, op@)),
        Scope::BackwardTotal { timed: true } => Some(("bwd"@, "backward_total"@)),
        _ => None,
    }
}

impl Profiler {
    pub fn new(enabled: bool, skip: u64) -> (p: Profiler)
        ensures
            p.enabled == enabled,
            p.skip == skip,
            p.registry.wf(),
            p.registry.rows@.len() == 0,
            p.lane == (Lane { depth: 0, phase: Phase::Fwd, step: 0 }),
    {
        Profiler { enabled, skip, registry: Registry::new(), lane: Lane::new() }
    }

    /// Begins a scope for `op`, unless the profiler is off or still skips.
    pub fn timer(&mut self, op: &'static str) -> (s: Option<Scope>)
        requires
            old(self).lane.step < u64::MAX,
            old(self).lane.depth < u32::MAX,
        ensures
            final(self).enabled == old(self).enabled,
            final(self).skip == old(self).skip,
            final(self).registry == old(self).registry,
            ({
                let l = old(self).lane.advanced(op@);
                if !old(self).enabled {
                    s is None && final(self).lane == old(self).lane
                } else if l.step < old(self).skip {
                    s is None && final(self).lane == l
                } else {
                    &&& final(self).lane == l.entered()
                    &&& s == Some(
                        if l.depth > 0 {
                            Scope::Nested
                        } else {
                            Scope::Recording { op, phase: l.phase.name() }
                        },
                    )
                }
            }),
    {
        if !self.enabled {
            return None;
        }
        self.lane.maybe_advance_step(op);
        if self.lane.step < self.skip {
            return None;
        }
        Some(self.lane.enter_scoped(op))
    }

    /// Begins the scope of a backward pass. It stands beside the nested
    /// scopes, so that the passes' own scopes are still recorded.
    pub fn enter_backward(&mut self) -> (s: Option<Scope>)
        ensures
            final(self).enabled == old(self).enabled,
            final(self).skip == old(self).skip,
            final(self).registry == old(self).registry,
            if !old(self).enabled {
                s is None && final(self).lane == old(self).lane
            } else {
                &&& final(self).lane == (Lane { phase: Phase::Bwd, ..old(self).lane })
                &&& s == Some(
                    Scope::BackwardTotal { timed: old(self).lane.step >= old(self).skip },
                )
            },
    {
        if !self.enabled {
            return None;
        }
        self.lane.phase = Phase::Bwd;
        Some(Scope::BackwardTotal { timed: self.lane.step >= self.skip })
    }

    /// Leaves a scope that took `ns` nanoseconds.
    pub fn leave(&mut self, s: Scope, ns: u64)
        requires
            old(self).registry.wf(),
            key_of_scope(s) matches Some(k) ==> countable(old(self).registry.stat(k.0, k.1), ns),
        ensures
            final(self).enabled == old(self).enabled,
            final(self).skip == old(self).skip,
            final(self).lane == old(self).lane.left(s),
            final(self).registry.wf(),
            match key_of_scope(s) {
                None => final(self).registry == old(self).registry,
                Some(k) => {
                    &&& final(self).registry.stat(k.0, k.1) == Some(
                        bumped(old(self).registry.stat(k.0, k.1), ns),
                    )
                    &&& forall|p: Seq<char>, o: Seq<char>|
                        p != k.0 || o != k.1 ==> #[trigger] final(self).registry.stat(p, o) == old(
                            self,
                        ).registry.stat(p, o)
                },
            },
    {
        match s {
            Scope::Nested => {},
            Scope::Recording { op, phase } => {
                self.registry.record(phase, op, ns);
            },
            Scope::BackwardTotal { timed } => {
                if timed {
                    self.registry.record("bwd", "backward_total", ns);
                }
            },
        }
        self.lane.leave(s);
    }
}

/// The number that a text of decimal digits stands for.
pub open spec fn decimal(s: Seq<char>) -> Option<nat>
    decreases s.len(),
{
    if s.len() == 0 {
        Some(0)
    } else {
        match (decimal(s.drop_last()), digit_value(s.last())) {
            (Some(n), Some(d)) => Some(n * 10 + d),
            _ => None,
        }
    }
}

/// The value of a decimal digit.
pub open spec fn digit_value(c: char) -> Option<nat> {
    if '0' <= c && c <= '9' {
        Some((c as nat - '0' as nat) as nat)
    } else {
        None
    }
}

/// The digits of a number: what follows a plus sign, if there is one.
pub open spec fn unsigned(s: Seq<char>) -> Seq<char> {
    if s.len() > 0 && s[0] == '+' {
        s.drop_first()
    } else {
        s
    }
}

/// The number of steps that a setting asks to skip: none where it is absent
/// or not a number of 64 bits.
pub open spec fn skip_of(setting: Option<Seq<char>>) -> (u64, bool) {
    match setting {
        None => (0, false),
        Some(s) => match decimal(unsigned(s)) {
            Some(n) => if unsigned(s).len() > 0 && n <= u64::MAX {
                (n as u64, false)
            } else {
                (0, true)
            },
            None => (0, true),
        },
    }
}

/// A text that does not begin with a number is no number, and more digits
/// make no smaller one.
proof fn lemma_decimal_prefix(s: Seq<char>, i: int)
    requires
        0 <= i <= s.len(),
    ensures
        decimal(s) is Some ==> decimal(s.take(i)) is Some && decimal(s)->0 >= decimal(
            s.take(i),
        )->0,
    decreases s.len(),
{
    if i == s.len() {
        assert(s.take(i) =~= s);
    } else {
        lemma_decimal_prefix(s.drop_last(), i);
        assert(s.drop_last().take(i) =~= s.take(i));
    }
}

/// Reads the number of steps to skip, and says whether the setting deserves a
/// warning.
pub fn skip_steps(setting: Option<&str>) -> (r: (u64, bool))
    ensures
        r == skip_of(
            match setting {
                Some(s) => Some(s@),
                None => None,
            },
        ),
{
    let s = match setting {
        None => {
            return (0, false);
        },
        Some(s) => s,
    };
    let n: usize = s.unicode_len();
    let start: usize = if n > 0 && s.get_char(0) == '+' {
        1
    } else {
        0
    };
    let ghost t = unsigned(s@);
    if start == n {
        return (0, true);
    }
    let mut v: u64 = 0;
    let mut i: usize = start;
    proof {
        assert(t.take(0) =~= Seq::<char>::empty());
        assert(t.len() == n - start);
    }
    while i < n
        invariant
            setting == Some(s),
            start <= i <= n,
            start < n,
            n == s@.len(),
            t == unsigned(s@),
            t.len() == n - start,
            forall|k: int| 0 <= k < t.len() ==> t[k] == s@[k + start],
            decimal(t.take(i - start)) == Some(v as nat),
        decreases n - i,
    {
        let c: char = s.get_char(i);
        proof {
            let k = i - start;
            lemma_decimal_prefix(t, k + 1);
            assert(t.take(k + 1).drop_last() =~= t.take(k));
            assert(t.take(k + 1).last() == c);
        }
        if c < '0' || c > '9' {
            return (0, true);
        }
        let d: u64 = (c as u32 - '0' as u32) as u64;
        if v > u64::MAX / 10 || v * 10 > u64::MAX - d {
            return (0, true);
        }
        v = v * 10 + d;
        i = i + 1;
    }
    assert(t.take(n - start) =~= t);
    (v, false)
}

/// The number of steps to skip, once it has been read.
#[derive(Clone, Copy, Debug)]
pub struct SkipSetting {
    pub read: Option<u64>,
}

impl SkipSetting {
    pub fn new() -> (s: SkipSetting)
        ensures
            s.read is None,
    {
        SkipSetting { read: None }
    }

    /// What reading the setting gives, and whether it deserves a warning: only
    /// the first reading looks at the setting.
    pub open spec fn answer(self, setting: Option<Seq<char>>) -> (u64, bool) {
        match self.read {
            Some(n) => (n, false),
            None => skip_of(setting),
        }
    }

    /// After reading the setting.
    pub open spec fn after(self, setting: Option<Seq<char>>) -> SkipSetting {
        SkipSetting { read: Some(self.answer(setting).0) }
    }

    /// Reads the setting, and remembers what was read.
    pub fn get(&mut self, setting: Option<&str>) -> (r: (u64, bool))
        ensures
            ({
                let text = match setting {
                    Some(s) => Some(s@),
                    None => None,
                };
                &&& r == old(self).answer(text)
                &&& *final(self) == old(self).after(text)
            }),
    {
        if let Some(n) = self.read {
            return (n, false);
        }
        let r = skip_steps(setting);
        self.read = Some(r.0);
        r
    }
}

/// Every later reading gives what the first one gave, whatever became of the
/// setting, and none but the first warns.
pub proof fn law_skip_is_read_once(
    s: SkipSetting,
    first: Option<Seq<char>>,
    later: Option<Seq<char>>,
)
    ensures
        s.after(first).answer(later) == (s.answer(first).0, false),
        s.after(first).after(later) == s.after(first),
{
}

/// Whether the profiler is on, once it has been decided.
#[derive(Clone, Copy, Debug)]
pub struct EnabledSetting {
    pub read: Option<bool>,
}

impl EnabledSetting {
    pub fn new() -> (s: EnabledSetting)
        ensures
            s.read is None,
    {
        EnabledSetting { read: None }
    }

    /// Whether the profiler is on: only the first reading looks at the
    /// setting, which has to be exactly `1`.
    pub open spec fn answer(self, setting: Option<Seq<char>>) -> bool {
        match self.read {
            Some(b) => b,
            None => setting == Some("1"@),
        }
    }

    /// After reading the setting.
    pub open spec fn after(self, setting: Option<Seq<char>>) -> EnabledSetting {
        EnabledSetting { read: Some(self.answer(setting)) }
    }

    /// Reads the setting, and remembers what was read.
    pub fn get(&mut self, setting: Option<&str>) -> (r: bool)
        ensures
            ({
                let text = match setting {
                    Some(s) => Some(s@),
                    None => None,
                };
                &&& r == old(self).answer(text)
                &&& *final(self) == old(self).after(text)
            }),
    {
        if let Some(b) = self.read {
            return b;
        }
        let r: bool = match setting {
            Some(s) => same_text(s, "1"),
            None => false,
        };
        self.read = Some(r);
        r
    }

    /// Switches the profiler on for good, whatever the setting says.
    pub fn force(&mut self)
        ensures
            final(self).read == Some(true),
    {
        self.read = Some(true);
    }
}

/// Every later reading gives what the first one gave, whatever became of the
/// setting.
pub proof fn law_enabling_is_read_once(
    s: EnabledSetting,
    first: Option<Seq<char>>,
    later: Option<Seq<char>>,
)
    ensures
        s.after(first).answer(later) == s.answer(first),
        s.after(first).after(later) == s.after(first),
        s.read == Some(true) ==> s.answer(later),
{
}

/// Switches the profiler on.
pub fn force_enable_for_tests(p: &mut Profiler)
    ensures
        *final(p) == (Profiler { enabled: true, ..*old(p) }),
{
    p.enabled = true;
}

/// Forgets everything recorded, and where the thread stands.
pub fn reset(p: &mut Profiler)
    ensures
        final(p).enabled == old(p).enabled,
        final(p).skip == old(p).skip,
        final(p).registry.rows@.len() == 0,
        final(p).registry.wf(),
        final(p).lane == (Lane { depth: 0, phase: Phase::Fwd, step: 0 }),
{
    p.registry = Registry::new();
    p.lane = Lane::new();
}

/// A scope that is entered and left again leaves the depth as it was.
pub proof fn law_scopes_balance(l: Lane, s: Scope)
    requires
        l.depth < u32::MAX,
        s is Nested || s is Recording,
    ensures
        l.entered().left(s) == l,
{
}

/// A backward pass takes the phase to its end, whatever happens in between,
/// and the next embedding, and nothing else, begins the next step.
pub proof fn law_steps_follow_backward_passes(l: Lane, timed: bool, op: Seq<char>)
    requires
        l.step < u64::MAX,
    ensures
        ({
            let after = l.left(Scope::BackwardTotal { timed });
            &&& after.phase == Phase::Post
            &&& after.advanced("embedding"@) == (Lane {
                phase: Phase::Fwd,
                step: (l.step + 1) as u64,
                ..after
            })
            &&& op != "embedding"@ ==> after.advanced(op) == after
            &&& l.phase != Phase::Post ==> l.advanced(op) == l
        }),
{
}

} // verus!
