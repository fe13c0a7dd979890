//! The profiler's report: rows by time, shares and subtotals, and the same
//! rows as tab-separated text.

use crate::profiler::{begins, begins_with, same_text, OpStat, Profiler, Row};
use vstd::prelude::*;
use vstd::string::StringExecFns;

verus! {

/// Whether rows come in order of their time, longest first.
pub open spec fn longest_first(rows: Seq<Row>) -> bool {
    forall|i: int, j: int|
        0 <= i <= j < rows.len() ==> #[trigger] rows[i].stat.total_ns
            >= #[trigger] rows[j].stat.total_ns
}

/// The rows in order of their time, longest first.
pub fn sort_rows(rows: Vec<Row>) -> (r: Vec<Row>)
    ensures
        longest_first(r@),
        r@.to_multiset() == rows@.to_multiset(),
        r@.len() == rows@.len(),
{
    let mut r: Vec<Row> = Vec::new();
    let mut i: usize = 0;
    proof {
        assert(rows@.take(0) =~= r@);
    }
    while i < rows.len()
        invariant
            i <= rows@.len(),
            r@.len() == i,
            longest_first(r@),
            r@.to_multiset() == rows@.take(i as int).to_multiset(),
        decreases rows@.len() - i,
    {
        let x: Row = rows[i];
        let mut j: usize = r.len();
        while j > 0 && r[j - 1].stat.total_ns < x.stat.total_ns
            invariant
                j <= r@.len(),
                longest_first(r@),
                forall|k: int| j <= k < r@.len() ==> (#[trigger] r@[k]).stat.total_ns
                    < x.stat.total_ns,
            decreases j,
        {
            j = j - 1;
        }
        let ghost before = r@;
        r.insert(j, x);
        proof {
            assert(longest_first(r@)) by {
                assert forall|a: int, b: int| 0 <= a <= b < r@.len() implies #[trigger] r@[a].stat.total_ns
                    >= #[trigger] r@[b].stat.total_ns by {
                    let p = if a < j { a } else { a - 1 };
                    let q = if b < j { b } else { b - 1 };
                    if a != j && b != j {
                        assert(r@[a] == before[p] && r@[b] == before[q]);
                        assert(before[p].stat.total_ns >= before[q].stat.total_ns);
                    } else if a == j && b != j {
                        assert(r@[b] == before[q]);
                    } else if b == j && a != j {
                        assert(r@[a] == before[p]);
                        assert(before[p].stat.total_ns >= before[j - 1].stat.total_ns);
                    }
                }
            }
            before.to_multiset_ensures();
            broadcast use vstd::seq_lib::group_to_multiset_ensures;
            assert(r@ =~= before.insert(j as int, x));
            let t = rows@.take(i as int);
            assert(rows@.take(i + 1) =~= t.push(x));
        }
        i = i + 1;
    }
    proof {
        assert(rows@.take(i as int) =~= rows@);
    }
    r
}

/// Whether a row stands for the backward pass as a whole.
pub open spec fn umbrella(r: Row) -> bool {
    r.op@ == "backward_total"@
}

/// Which rows a sum counts.
pub enum Which {
    /// All but the backward pass as a whole.
    Regular,
    /// Those of one phase.
    OfPhase(&'static str),
    /// The gradient rules of the backward pass.
    Rules,
}

impl Which {
    pub open spec fn counts(self, r: Row) -> bool {
        &&& !umbrella(r)
        &&& match self {
            Which::Regular => true,
            Which::OfPhase(p) => r.phase@ == p@,
            Which::Rules => r.phase@ == "bwd"@ && begins(r.op@, "vjp:"@),
        }
    }
}

/// The time of the counted rows.
pub open spec fn time_of(rows: Seq<Row>, which: Which) -> int
    decreases rows.len(),
{
    if rows.len() == 0 {
        0
    } else {
        time_of(rows.drop_last(), which) + (if which.counts(rows.last()) {
            rows.last().stat.total_ns as int
        } else {
            0
        })
    }
}

/// Part of the regular rows takes part of their time.
pub proof fn lemma_time_part(rows: Seq<Row>, which: Which, n: int)
    requires
        0 <= n <= rows.len(),
    ensures
        0 <= time_of(rows.take(n), which) <= time_of(rows, Which::Regular),
        time_of(rows.take(n), which) <= time_of(rows, which),
    decreases rows.len(),
{
    if n < rows.len() {
        lemma_time_part(rows.drop_last(), which, n);
        assert(rows.drop_last().take(n) =~= rows.take(n));
    } else {
        assert(rows.take(n) =~= rows);
        if rows.len() > 0 {
            lemma_time_part(rows.drop_last(), which, rows.len() - 1);
            assert(rows.drop_last().take(rows.len() - 1) =~= rows.drop_last());
        }
    }
}

/// The time of the counted rows.
pub fn sum_time(rows: &Vec<Row>, which: &Which) -> (n: u64)
    requires
        time_of(rows@, Which::Regular) <= u64::MAX,
    ensures
        n == time_of(rows@, *which),
{
    let mut n: u64 = 0;
    let mut i: usize = 0;
    assert(rows@.take(0) =~= Seq::<Row>::empty());
    while i < rows.len()
        invariant
            i <= rows@.len(),
            time_of(rows@, Which::Regular) <= u64::MAX,
            n == time_of(rows@.take(i as int), *which),
        decreases rows@.len() - i,
    {
        let r: Row = rows[i];
        proof {
            lemma_time_part(rows@, *which, i + 1);
            assert(rows@.take(i + 1).drop_last() =~= rows@.take(i as int));
        }
        let counted: bool = !same_text(r.op, "backward_total") && match which {
            Which::Regular => true,
            Which::OfPhase(p) => same_text(r.phase, p),
            Which::Rules => same_text(r.phase, "bwd") && begins_with(r.op, "vjp:"),
        };
        if counted {
            n = n + r.stat.total_ns;
        }
        i = i + 1;
    }
    assert(rows@.take(i as int) =~= rows@);
    n
}

/// One line of a report.
#[derive(Debug)]
pub enum Line {
    NothingRecorded,
    Header,
    /// An operation and its share of all time.
    Entry { row: Row, of: u64 },
    Blank,
    Subtotal { phase: &'static str, ns: u64, of: u64 },
    GrandTotal { ns: u64 },
    UmbrellaTitle,
    Umbrella { ns: u64, calls: u64 },
    /// What the backward pass took beyond its rules.
    Overhead { ns: u64 },
    Footnote,
}

/// The entries of the regular rows.
pub open spec fn entries(rows: Seq<Row>, of: u64) -> Seq<Line>
    decreases rows.len(),
{
    if rows.len() == 0 {
        Seq::empty()
    } else if umbrella(rows.last()) {
        entries(rows.drop_last(), of)
    } else {
        entries(rows.drop_last(), of).push(Line::Entry { row: rows.last(), of })
    }
}

/// The line for one phase, unless it took no time.
pub open spec fn subtotal(rows: Seq<Row>, phase: &'static str, of: u64) -> Seq<Line> {
    let ns = time_of(rows, Which::OfPhase(phase));
    if ns == 0 {
        Seq::empty()
    } else {
        Seq::empty().push(Line::Subtotal { phase, ns: ns as u64, of })
    }
}

/// The first row of the backward pass as a whole.
pub open spec fn first_umbrella(rows: Seq<Row>) -> Option<OpStat>
    decreases rows.len(),
{
    if rows.len() == 0 {
        None
    } else {
        match first_umbrella(rows.drop_last()) {
            Some(s) => Some(s),
            None => if umbrella(rows.last()) {
                Some(rows.last().stat)
            } else {
                None
            },
        }
    }
}

/// The section on the backward pass as a whole.
pub open spec fn umbrella_lines(rows: Seq<Row>) -> Seq<Line> {
    match first_umbrella(rows) {
        None => Seq::empty(),
        Some(s) => {
            let rules = time_of(rows, Which::Rules);
            Seq::empty().push(Line::Blank).push(Line::UmbrellaTitle).push(
                Line::Umbrella { ns: s.total_ns, calls: s.calls },
            ).push(
                Line::Overhead {
                    ns: if s.total_ns <= rules {
                        0
                    } else {
                        (s.total_ns - rules) as u64
                    },
                },
            ).push(Line::Footnote)
        },
    }
}

/// What a report on `rows` says.
pub open spec fn report_lines(rows: Seq<Row>) -> Seq<Line> {
    let all = time_of(rows, Which::Regular) as u64;
    if rows.len() == 0 {
        Seq::empty().push(Line::NothingRecorded)
    } else {
        (Seq::empty().push(Line::Header) + entries(rows, all)).push(Line::Blank) + subtotal(
            rows,
            "fwd",
            all,
        ) + subtotal(rows, "bwd", all) + subtotal(rows, "post", all) + Seq::empty().push(
            Line::GrandTotal { ns: all },
        ) + umbrella_lines(rows)
    }
}

/// Adds the line for one phase, unless it took no time.
fn push_subtotal(out: &mut Vec<Line>, rows: &Vec<Row>, phase: &'static str, of: u64)
    requires
        time_of(rows@, Which::Regular) <= u64::MAX,
    ensures
        final(out)@ == old(out)@ + subtotal(rows@, phase, of),
{
    let ns: u64 = sum_time(rows, &Which::OfPhase(phase));
    if ns == 0 {
        assert(out@ =~= old(out)@ + subtotal(rows@, phase, of));
        return;
    }
    out.push(Line::Subtotal { phase, ns, of });
    assert(out@ =~= old(out)@ + subtotal(rows@, phase, of));
}

/// The first row of the backward pass as a whole.
fn find_umbrella(rows: &Vec<Row>) -> (s: Option<OpStat>)
    ensures
        s == first_umbrella(rows@),
{
    let mut found: Option<OpStat> = None;
    let mut i: usize = 0;
    assert(rows@.take(0) =~= Seq::<Row>::empty());
    while i < rows.len()
        invariant
            i <= rows@.len(),
            found == first_umbrella(rows@.take(i as int)),
        decreases rows@.len() - i,
    {
        let r: Row = rows[i];
        assert(rows@.take(i + 1).drop_last() =~= rows@.take(i as int));
        if found.is_none() && same_text(r.op, "backward_total") {
            found = Some(r.stat);
        }
        i = i + 1;
    }
    assert(rows@.take(i as int) =~= rows@);
    found
}

/// The lines of a report on `rows`, in the order given.
pub fn format_report(rows: &Vec<Row>) -> (lines: Vec<Line>)
    requires
        time_of(rows@, Which::Regular) <= u64::MAX,
    ensures
        lines@ == report_lines(rows@),
{
    let mut out: Vec<Line> = Vec::new();
    if rows.len() == 0 {
        out.push(Line::NothingRecorded);
        return out;
    }
    let all: u64 = sum_time(rows, &Which::Regular);
    out.push(Line::Header);
    let ghost head = Seq::<Line>::empty().push(Line::Header);
    let mut i: usize = 0;
    proof {
        assert(rows@.take(0) =~= Seq::<Row>::empty());
        assert(out@ =~= head + entries(rows@.take(0), all));
    }
    while i < rows.len()
        invariant
            i <= rows@.len(),
            out@ == head + entries(rows@.take(i as int), all),
        decreases rows@.len() - i,
    {
        let row: Row = rows[i];
        let ghost part = entries(rows@.take(i as int), all);
        assert(rows@.take(i + 1).drop_last() =~= rows@.take(i as int));
        if !same_text(row.op, "backward_total") {
            out.push(Line::Entry { row, of: all });
            assert(out@ =~= head + part.push(Line::Entry { row, of: all }));
        }
        i = i + 1;
    }
    assert(rows@.take(i as int) =~= rows@);
    out.push(Line::Blank);
    push_subtotal(&mut out, rows, "fwd", all);
    push_subtotal(&mut out, rows, "bwd", all);
    push_subtotal(&mut out, rows, "post", all);
    out.push(Line::GrandTotal { ns: all });
    let ghost upper = out@;
    proof {
        assert(upper =~= (head + entries(rows@, all)).push(Line::Blank) + subtotal(
            rows@,
            "fwd",
            all,
        ) + subtotal(rows@, "bwd", all) + subtotal(rows@, "post", all) + Seq::empty().push(
            Line::GrandTotal { ns: all },
        ));
    }
    if let Some(s) = find_umbrella(rows) {
        let rules: u64 = sum_time(rows, &Which::Rules);
        let over: u64 = if s.total_ns <= rules {
            0
        } else {
            s.total_ns - rules
        };
        out.push(Line::Blank);
        out.push(Line::UmbrellaTitle);
        out.push(Line::Umbrella { ns: s.total_ns, calls: s.calls });
        out.push(Line::Overhead { ns: over });
        out.push(Line::Footnote);
    }
    assert(out@ =~= upper + umbrella_lines(rows@));
    out
}

/// A report: the rows in its order, its lines, and the rows as tab-separated
/// text where they are to go to a file.
#[derive(Debug)]
pub struct Report {
    pub rows: Vec<Row>,
    pub lines: Vec<Line>,
    pub file: Option<String>,
}

/// The report on everything recorded, longest first, and the same rows in the
/// same order for a file where one is wanted. There is none while the profiler
/// is off.
pub fn report(p: &Profiler, to_file: bool) -> (r: Option<Report>)
    requires
        time_of(p.registry.rows@, Which::Regular) <= u64::MAX,
    ensures
        r is Some == p.enabled,
        r matches Some(x) ==> {
            &&& longest_first(x.rows@)
            &&& x.rows@.to_multiset() == p.registry.rows@.to_multiset()
            &&& x.lines@ == report_lines(x.rows@)
            &&& x.file is Some == to_file
            &&& x.file matches Some(text) ==> text@ == tsv(x.rows@)
        },
{
    if !p.enabled {
        return None;
    }
    let rows = sort_rows(p.registry.snapshot_registry());
    proof {
        law_order_does_not_matter_to_sums(rows@, p.registry.rows@, Which::Regular);
    }
    let lines = format_report(&rows);
    let file: Option<String> = if to_file {
        Some(tsv_text(&rows))
    } else {
        None
    };
    Some(Report { rows, lines, file })
}

/// Part of a line. Numbers are left to be written out.
#[derive(Debug)]
pub enum Piece {
    Text(&'static str),
    /// A name, filled up on the right to a width.
    Name { text: &'static str, width: usize },
    /// A count, filled up on the left to a width.
    Count { n: u64, width: usize },
    /// Milliseconds to three places, ten wide.
    Ms { ns: u64 },
    /// Microseconds per call to three places, ten wide.
    AvgUs { ns: u64, calls: u64 },
    /// A share in percent to one place, five wide.
    Percent { part: u64, whole: u64 },
}

impl Line {
    /// What the line consists of.
    pub open spec fn parts(self) -> Seq<Piece> {
        let e = Seq::<Piece>::empty();
        match self {
            Line::NothingRecorded => e.push(
                Piece::Text("PM_CUDA_PROFILE: no operations recorded\n"),
            ),
            Line::Header => e.push(
                Piece::Text(
                    "phase   op                           calls    total_ms      avg_us       %\n",
                ),
            ),
            Line::Entry { row, of } => e.push(Piece::Name { text: row.phase, width: 6 }).push(
                Piece::Text("  "),
            ).push(Piece::Name { text: row.op, width: 24 }).push(Piece::Text("  ")).push(
                Piece::Count { n: row.stat.calls, width: 8 },
            ).push(Piece::Text("  ")).push(Piece::Ms { ns: row.stat.total_ns }).push(
                Piece::Text("  "),
            ).push(Piece::AvgUs { ns: row.stat.total_ns, calls: row.stat.calls }).push(
                Piece::Text("  "),
            ).push(Piece::Percent { part: row.stat.total_ns, whole: of }).push(Piece::Text("%\n")),
            Line::Blank => e.push(Piece::Text("\n")),
            Line::Subtotal { phase, ns, of } => e.push(Piece::Text("  subtotal[")).push(
                Piece::Name { text: phase, width: 4 },
            ).push(Piece::Text("] = ")).push(Piece::Ms { ns }).push(Piece::Text(" ms (")).push(
                Piece::Percent { part: ns, whole: of },
            ).push(Piece::Text("%)\n")),
            Line::GrandTotal { ns } => e.push(Piece::Text("  grand total  = ")).push(
                Piece::Ms { ns },
            ).push(Piece::Text(" ms\n")),
            Line::UmbrellaTitle => e.push(
                Piece::Text("--- backward_total* (umbrella, excluded above) ---\n"),
            ),
            Line::Umbrella { ns, calls } => e.push(Piece::Text("  backward_total*      = ")).push(
                Piece::Ms { ns },
            ).push(Piece::Text(" ms  (")).push(Piece::Count { n: calls, width: 0 }).push(
                Piece::Text(" calls)\n"),
            ),
            Line::Overhead { ns } => e.push(Piece::Text("  backward_total*\u{2212}\u{3a3}vjp = ")).push(
                Piece::Ms { ns },
            ).push(Piece::Text(" ms  (tape-walk + sync overhead)\n")),
            Line::Footnote => e.push(
                Piece::Text(
                    "  * umbrella row = \u{3a3}vjp:* + tape-walk overhead; excluded from subtotals/%\n",
                ),
            ),
        }
    }

    pub fn pieces(&self) -> (v: Vec<Piece>)
        ensures
            v@ == self.parts(),
    {
        let mut v: Vec<Piece> = Vec::new();
        match self {
            Line::NothingRecorded => {
                v.push(Piece::Text("PM_CUDA_PROFILE: no operations recorded\n"));
            },
            Line::Header => {
                v.push(
                    Piece::Text(
                        "phase   op                           calls    total_ms      avg_us       %\n",
                    ),
                );
            },
            Line::Entry { row, of } => {
                v.push(Piece::Name { text: row.phase, width: 6 });
                v.push(Piece::Text("  "));
                v.push(Piece::Name { text: row.op, width: 24 });
                v.push(Piece::Text("  "));
                v.push(Piece::Count { n: row.stat.calls, width: 8 });
                v.push(Piece::Text("  "));
                v.push(Piece::Ms { ns: row.stat.total_ns });
                v.push(Piece::Text("  "));
                v.push(Piece::AvgUs { ns: row.stat.total_ns, calls: row.stat.calls });
                v.push(Piece::Text("  "));
                v.push(Piece::Percent { part: row.stat.total_ns, whole: *of });
                v.push(Piece::Text("%\n"));
            },
            Line::Blank => {
                v.push(Piece::Text("\n"));
            },
            Line::Subtotal { phase, ns, of } => {
                v.push(Piece::Text("  subtotal["));
                v.push(Piece::Name { text: phase, width: 4 });
                v.push(Piece::Text("] = "));
                v.push(Piece::Ms { ns: *ns });
                v.push(Piece::Text(" ms ("));
                v.push(Piece::Percent { part: *ns, whole: *of });
                v.push(Piece::Text("%)\n"));
            },
            Line::GrandTotal { ns } => {
                v.push(Piece::Text("  grand total  = "));
                v.push(Piece::Ms { ns: *ns });
                v.push(Piece::Text(" ms\n"));
            },
            Line::UmbrellaTitle => {
                v.push(Piece::Text("--- backward_total* (umbrella, excluded above) ---\n"));
            },
            Line::Umbrella { ns, calls } => {
                v.push(Piece::Text("  backward_total*      = "));
                v.push(Piece::Ms { ns: *ns });
                v.push(Piece::Text(" ms  ("));
                v.push(Piece::Count { n: *calls, width: 0 });
                v.push(Piece::Text(" calls)\n"));
            },
            Line::Overhead { ns } => {
                v.push(Piece::Text("  backward_total*\u{2212}\u{3a3}vjp = "));
                v.push(Piece::Ms { ns: *ns });
                v.push(Piece::Text(" ms  (tape-walk + sync overhead)\n"));
            },
            Line::Footnote => {
                v.push(
                    Piece::Text(
                        "  * umbrella row = \u{3a3}vjp:* + tape-walk overhead; excluded from subtotals/%\n",
                    ),
                );
            },
        }
        v
    }
}

/// The digits of a number, most significant first.
pub open spec fn digits(n: nat) -> Seq<char>
    decreases n,
{
    if n < 10 {
        Seq::empty().push(digit(n))
    } else {
        digits(n / 10).push(digit(n % 10))
    }
}

/// One digit.
pub open spec fn digit(d: nat) -> char {
    if d == 0 {
        '0'
    } else if d == 1 {
        '1'
    } else if d == 2 {
        '2'
    } else if d == 3 {
        '3'
    } else if d == 4 {
        '4'
    } else if d == 5 {
        '5'
    } else if d == 6 {
        '6'
    } else if d == 7 {
        '7'
    } else if d == 8 {
        '8'
    } else {
        '9'
    }
}

fn digit_text(d: u64) -> (s: &'static str)
    requires
        d < 10,
    ensures
        s@ == Seq::empty().push(digit(d as nat)),
{
    proof {
        reveal_strlit("0");
        reveal_strlit("1");
        reveal_strlit("2");
        reveal_strlit("3");
        reveal_strlit("4");
        reveal_strlit("5");
        reveal_strlit("6");
        reveal_strlit("7");
        reveal_strlit("8");
        reveal_strlit("9");
    }
    let s: &'static str = match d {
        0 => "0",
        1 => "1",
        2 => "2",
        3 => "3",
        4 => "4",
        5 => "5",
        6 => "6",
        7 => "7",
        8 => "8",
        _ => "9",
    };
    assert(s@ =~= Seq::empty().push(digit(d as nat)));
    s
}

/// Appends the digits of a number.
pub fn append_number(buf: &mut String, n: u64)
    ensures
        final(buf)@ == old(buf)@ + digits(n as nat),
    decreases n,
{
    if n >= 10 {
        append_number(buf, n / 10);
    }
    buf.append(digit_text(n % 10));
    proof {
        assert(buf@ =~= old(buf)@ + digits(n as nat));
    }
}

/// One row as tab-separated text. The backward pass as a whole gets a phase of
/// its own.
pub open spec fn tsv_row(r: Row) -> Seq<char> {
    (if umbrella(r) {
        "bwd*"@
    } else {
        r.phase@
    }) + "\t"@ + r.op@ + "\t"@ + digits(r.stat.calls as nat) + "\t"@ + digits(
        r.stat.total_ns as nat,
    ) + "\n"@
}

/// All rows as tab-separated text, below a header.
pub open spec fn tsv(rows: Seq<Row>) -> Seq<char>
    decreases rows.len(),
{
    if rows.len() == 0 {
        "phase\top\tcalls\ttotal_ns\n"@
    } else {
        tsv(rows.drop_last()) + tsv_row(rows.last())
    }
}

/// The rows as tab-separated text, in the order given.
pub fn tsv_text(rows: &Vec<Row>) -> (s: String)
    ensures
        s@ == tsv(rows@),
{
    let mut buf: String = String::from_str("phase\top\tcalls\ttotal_ns\n");
    let mut i: usize = 0;
    assert(rows@.take(0) =~= Seq::<Row>::empty());
    while i < rows.len()
        invariant
            i <= rows@.len(),
            buf@ == tsv(rows@.take(i as int)),
        decreases rows@.len() - i,
    {
        let r: Row = rows[i];
        let ghost before = buf@;
        if same_text(r.op, "backward_total") {
            buf.append("bwd*");
        } else {
            buf.append(r.phase);
        }
        buf.append("\t");
        buf.append(r.op);
        buf.append("\t");
        append_number(&mut buf, r.stat.calls);
        buf.append("\t");
        append_number(&mut buf, r.stat.total_ns);
        buf.append("\n");
        proof {
            assert(rows@.take(i + 1).drop_last() =~= rows@.take(i as int));
            assert(buf@ =~= before + tsv_row(r));
        }
        i = i + 1;
    }
    assert(rows@.take(i as int) =~= rows@);
    buf
}

/// The backward pass as a whole does not count towards any sum, wherever its
/// row stands.
pub proof fn law_umbrella_rows_do_not_count(rows: Seq<Row>, k: int, which: Which)
    requires
        0 <= k < rows.len(),
        umbrella(rows[k]),
    ensures
        time_of(rows, which) == time_of(rows.remove(k), which),
{
    lemma_time_remove(rows, k, which);
}

/// The subtotals of the three phases make up the grand total.
pub proof fn law_subtotals_add_up(rows: Seq<Row>)
    requires
        forall|i: int|
            0 <= i < rows.len() ==> (#[trigger] rows[i]).phase@ == "fwd"@ || rows[i].phase@
                == "bwd"@ || rows[i].phase@ == "post"@,
    ensures
        time_of(rows, Which::OfPhase("fwd")) + time_of(rows, Which::OfPhase("bwd")) + time_of(
            rows,
            Which::OfPhase("post"),
        ) == time_of(rows, Which::Regular),
    decreases rows.len(),
{
    if rows.len() > 0 {
        let r = rows.drop_last();
        assert forall|i: int| 0 <= i < r.len() implies (#[trigger] r[i]).phase@ == "fwd"@
            || r[i].phase@ == "bwd"@ || r[i].phase@ == "post"@ by {
            assert(r[i] == rows[i]);
        }
        law_subtotals_add_up(r);
        reveal_strlit("fwd");
        reveal_strlit("bwd");
        reveal_strlit("post");
        assert("fwd"@[0] != "bwd"@[0]);
        assert("fwd"@.len() != "post"@.len());
        assert("bwd"@.len() != "post"@.len());
    }
}

/// The time of the rows does not depend on their order.
pub proof fn law_order_does_not_matter_to_sums(a: Seq<Row>, b: Seq<Row>, which: Which)
    requires
        a.to_multiset() == b.to_multiset(),
    ensures
        time_of(a, which) == time_of(b, which),
    decreases a.len(),
{
    broadcast use vstd::seq_lib::group_to_multiset_ensures;

    a.to_multiset_ensures();
    b.to_multiset_ensures();
    assert(a.len() == a.to_multiset().len());
    assert(b.len() == b.to_multiset().len());
    if a.len() > 0 {
        let x = a.last();
        assert(a.to_multiset().count(x) > 0) by {
            assert(a.contains(x)) by {
                assert(a[a.len() - 1] == x);
            }
        }
        assert(b.contains(x));
        let k = choose|k: int| 0 <= k < b.len() && b[k] == x;
        let c = b.remove(k);
        assert(a.drop_last() =~= a.remove(a.len() - 1));
        assert(a.drop_last().to_multiset() =~= c.to_multiset());
        law_order_does_not_matter_to_sums(a.drop_last(), c, which);
        lemma_time_remove(b, k, which);
    }
}

proof fn lemma_time_remove(b: Seq<Row>, k: int, which: Which)
    requires
        0 <= k < b.len(),
    ensures
        time_of(b, which) == time_of(b.remove(k), which) + (if which.counts(b[k]) {
            b[k].stat.total_ns as int
        } else {
            0
        }),
    decreases b.len(),
{
    let last = b.len() - 1;
    if k == last {
        assert(b.remove(k) =~= b.drop_last());
    } else {
        lemma_time_remove(b.drop_last(), k, which);
        assert(b.remove(k).drop_last() =~= b.drop_last().remove(k));
        assert(b.remove(k).last() == b.last());
    }
}

} // verus!
