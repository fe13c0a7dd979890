//! What the profiler's numbers and reports hold: every call counted once, every
//! row listed once, and every number readable again.

use crate::adjoint::{lemma_sum_same, sum};
use crate::profiler::{
    bumped, countable, decimal, digit_value, skip_of, OpStat, Row,
};
use crate::report::{
    digit, digits, entries, first_umbrella, report_lines, subtotal, time_of,
    umbrella_lines, Line, Which,
};
use vstd::prelude::*;

verus! {

/// A number that is written out in digits is read as that number, with or
/// without a plus sign, and as a count of steps to skip where it has 64 bits.
pub proof fn law_written_numbers_are_read_back(n: nat)
    ensures
        digits(n).len() >= 1,
        decimal(digits(n)) == Some(n),
        n <= u64::MAX ==> skip_of(Some(digits(n))) == (n as u64, false),
        n <= u64::MAX ==> skip_of(Some(seq!['+'] + digits(n))) == (n as u64, false),
        n > u64::MAX ==> skip_of(Some(digits(n))) == (0u64, true),
    decreases n,
{
    let s = digits(n);
    let d = digit(n % 10);
    assert(digit_value(digit(n % 10)) == Some((n % 10) as nat));
    if n < 10 {
        assert(s.drop_last() =~= Seq::<char>::empty());
        assert(decimal(s.drop_last()) == Some(0nat));
        assert(s.last() == d);
    } else {
        law_written_numbers_are_read_back(n / 10);
        assert(s.drop_last() =~= digits(n / 10));
    }
    assert(s[0] != '+') by {
        lemma_first_digit(n);
    }
    let p = seq!['+'] + s;
    assert(p.drop_first() =~= s);
}

proof fn lemma_first_digit(n: nat)
    ensures
        digits(n).len() >= 1,
        digits(n)[0] != '+',
    decreases n,
{
    if n >= 10 {
        lemma_first_digit(n / 10);
    }
}

/// One more call counts one and adds its time.
pub proof fn law_calls_add_their_time(s: Option<OpStat>, ns: u64)
    requires
        countable(s, ns),
    ensures
        bumped(s, ns).calls == (match s {
            Some(t) => t.calls as int,
            None => 0,
        }) + 1,
        bumped(s, ns).total_ns == (match s {
            Some(t) => t.total_ns as int,
            None => 0,
        }) + ns,
{
}

/// The time of all rows but the backward pass as a whole, or of those of one
/// phase among them, or of the gradient rules: each row counts once.
pub proof fn law_times_sum_the_rows(rows: Seq<Row>, phase: &'static str)
    ensures
        time_of(rows, Which::Regular) == sum(
            rows.len() as int,
            |i: int|
                if rows[i].op@ == "backward_total"@ {
                    0int
                } else {
                    rows[i].stat.total_ns as int
                },
        ),
        time_of(rows, Which::OfPhase(phase)) == sum(
            rows.len() as int,
            |i: int|
                if rows[i].op@ != "backward_total"@ && rows[i].phase@ == phase@ {
                    rows[i].stat.total_ns as int
                } else {
                    0int
                },
        ),
        time_of(rows, Which::Rules) == sum(
            rows.len() as int,
            |i: int|
                if rows[i].op@ != "backward_total"@ && rows[i].phase@ == "bwd"@ && rows[i].op@.len()
                    >= "vjp:"@.len() && rows[i].op@.take("vjp:"@.len() as int) == "vjp:"@ {
                    rows[i].stat.total_ns as int
                } else {
                    0int
                },
        ),
    decreases rows.len(),
{
    if rows.len() > 0 {
        let r = rows.drop_last();
        let n = r.len() as int;
        law_times_sum_the_rows(r, phase);
        let last = rows.last();
        let word = "vjp:"@;
        assert(last.op@.len() >= word.len() ==> last.op@.subrange(0, word.len() as int)
            =~= last.op@.take(word.len() as int));
        lemma_sum_same(
            n,
            |i: int|
                if r[i].op@ == "backward_total"@ {
                    0int
                } else {
                    r[i].stat.total_ns as int
                },
            |i: int|
                if rows[i].op@ == "backward_total"@ {
                    0int
                } else {
                    rows[i].stat.total_ns as int
                },
        );
        lemma_sum_same(
            n,
            |i: int|
                if r[i].op@ != "backward_total"@ && r[i].phase@ == phase@ {
                    r[i].stat.total_ns as int
                } else {
                    0int
                },
            |i: int|
                if rows[i].op@ != "backward_total"@ && rows[i].phase@ == phase@ {
                    rows[i].stat.total_ns as int
                } else {
                    0int
                },
        );
        lemma_sum_same(
            n,
            |i: int|
                if r[i].op@ != "backward_total"@ && r[i].phase@ == "bwd"@ && r[i].op@.len()
                    >= "vjp:"@.len() && r[i].op@.take("vjp:"@.len() as int) == "vjp:"@ {
                    r[i].stat.total_ns as int
                } else {
                    0int
                },
            |i: int|
                if rows[i].op@ != "backward_total"@ && rows[i].phase@ == "bwd"@ && rows[i].op@.len()
                    >= "vjp:"@.len() && rows[i].op@.take("vjp:"@.len() as int) == "vjp:"@ {
                    rows[i].stat.total_ns as int
                } else {
                    0int
                },
        );
    }
}

/// How many of the first `n` rows are listed.
pub open spec fn listed_before(rows: Seq<Row>, n: int) -> int
    decreases n,
{
    if n <= 0 {
        0
    } else {
        listed_before(rows, n - 1) + (if rows[n - 1].op@ == "backward_total"@ {
            0int
        } else {
            1
        })
    }
}

proof fn lemma_entries(rows: Seq<Row>, of: u64, i: int)
    requires
        0 <= i < rows.len(),
    ensures
        entries(rows, of).len() == listed_before(rows, rows.len() as int),
        0 <= listed_before(rows, i) <= listed_before(rows, rows.len() as int),
        rows[i].op@ != "backward_total"@ ==> listed_before(rows, i) < entries(rows, of).len()
            && entries(rows, of)[listed_before(rows, i)] == (Line::Entry { row: rows[i], of }),
    decreases rows.len(),
{
    let r = rows.drop_last();
    let n = r.len() as int;
    lemma_listed_same(r, rows, n);
    if n > 0 {
        let j = if i < n {
            i
        } else {
            0
        };
        lemma_entries(r, of, j);
        lemma_listed_same(r, rows, j);
        assert(r[j] == rows[j]);
    }
    if i == n {
        assert(listed_before(rows, n) == entries(r, of).len());
    }
}

proof fn lemma_listed_same(a: Seq<Row>, b: Seq<Row>, n: int)
    requires
        n <= a.len(),
        n <= b.len(),
        forall|i: int| 0 <= i < n ==> #[trigger] a[i] == b[i],
    ensures
        listed_before(a, n) == listed_before(b, n),
        listed_before(a, n) >= 0,
    decreases n,
{
    if n > 0 {
        lemma_listed_same(a, b, n - 1);
        assert(a[n - 1] == b[n - 1]);
    }
}

/// A report of recorded rows begins with its header, then lists every row but
/// the backward pass as a whole, in order and with the whole time that shares
/// are of, and then a blank line. Nothing recorded is reported as such.
pub proof fn law_reports_list_every_regular_row(rows: Seq<Row>, i: int)
    requires
        0 <= i < rows.len(),
    ensures
        report_lines(Seq::empty()) == seq![Line::NothingRecorded],
        ({
            let lines = report_lines(rows);
            let all = time_of(rows, Which::Regular) as u64;
            let n = listed_before(rows, rows.len() as int);
            let at = 1 + listed_before(rows, i);
            &&& lines.len() > n + 1
            &&& lines[0] == Line::Header
            &&& lines[n + 1] == Line::Blank
            &&& rows[i].op@ != "backward_total"@ ==> 0 < at <= n && lines[at] == (Line::Entry {
                row: rows[i],
                of: all,
            })
        }),
{
    let all = time_of(rows, Which::Regular) as u64;
    lemma_entries(rows, all, i);
    let e = entries(rows, all);
    assert(report_lines(Seq::empty()) =~= seq![Line::NothingRecorded]);
    let head = Seq::<Line>::empty().push(Line::Header) + e;
    assert(head[0] == Line::Header);
    if rows[i].op@ != "backward_total"@ {
        assert(head[1 + listed_before(rows, i)] == e[listed_before(rows, i)]);
    }
}

/// After the rows come the subtotals of the phases that took time, in the order
/// of a step, the grand total, and, where a backward pass was timed as a whole,
/// its time and what of it the gradient rules do not account for.
pub proof fn law_reports_end_with_the_totals(rows: Seq<Row>)
    requires
        rows.len() > 0,
    ensures
        ({
            let lines = report_lines(rows);
            let all = time_of(rows, Which::Regular) as u64;
            let n = listed_before(rows, rows.len() as int) + 2;
            let f = time_of(rows, Which::OfPhase("fwd"));
            let b = time_of(rows, Which::OfPhase("bwd"));
            let p = time_of(rows, Which::OfPhase("post"));
            let k1 = n + (if f == 0 {
                0int
            } else {
                1
            });
            let k2 = k1 + (if b == 0 {
                0int
            } else {
                1
            });
            let k3 = k2 + (if p == 0 {
                0int
            } else {
                1
            });
            &&& f != 0 ==> lines[n] == (Line::Subtotal { phase: "fwd", ns: f as u64, of: all })
            &&& b != 0 ==> lines[k1] == (Line::Subtotal { phase: "bwd", ns: b as u64, of: all })
            &&& p != 0 ==> lines[k2] == (Line::Subtotal { phase: "post", ns: p as u64, of: all })
            &&& lines[k3] == (Line::GrandTotal { ns: all })
            &&& match first_umbrella(rows) {
                None => lines.len() == k3 + 1,
                Some(s) => {
                    let rules = time_of(rows, Which::Rules);
                    &&& lines.len() == k3 + 6
                    &&& lines[k3 + 3] == (Line::Umbrella { ns: s.total_ns, calls: s.calls })
                    &&& lines[k3 + 4] is Overhead
                    &&& lines[k3 + 4]->Overhead_ns == (if s.total_ns >= rules {
                        s.total_ns - rules
                    } else {
                        0
                    })
                },
            }
        }),
{
    let all = time_of(rows, Which::Regular) as u64;
    lemma_entries(rows, all, 0);
    let e = entries(rows, all);
    let (f, b, p) = (
        subtotal(rows, "fwd", all),
        subtotal(rows, "bwd", all),
        subtotal(rows, "post", all),
    );
    let head = (Seq::<Line>::empty().push(Line::Header) + e).push(Line::Blank);
    let total = Seq::<Line>::empty().push(Line::GrandTotal { ns: all });
    let u = umbrella_lines(rows);
    let lines = report_lines(rows);
    assert(lines == head + f + b + p + total + u);
    lemma_times_not_negative(rows, Which::Rules);
}

proof fn lemma_times_not_negative(rows: Seq<Row>, which: Which)
    ensures
        time_of(rows, which) >= 0,
    decreases rows.len(),
{
    if rows.len() > 0 {
        lemma_times_not_negative(rows.drop_last(), which);
    }
}

} // verus!
