use pm_cuda::profiler::{
    force_enable_for_tests, reset, skip_steps, EnabledSetting, Lane, OpStat, Phase, Profiler, Row,
    Scope, SkipSetting,
};
use pm_cuda::report::{format_report, report, sort_rows, sum_time, tsv_text, Line, Piece, Which};

fn write_out(lines: &[Line]) -> String {
    let mut out = String::new();
    for line in lines {
        for piece in line.pieces() {
            match piece {
                Piece::Text(t) => out.push_str(t),
                Piece::Name { text, width } => out.push_str(&format!("{text:<width$}")),
                Piece::Count { n, width } => out.push_str(&format!("{n:>width$}")),
                Piece::Ms { ns } => out.push_str(&format!("{:>10.3}", ns as f64 / 1_000_000.0)),
                Piece::AvgUs { ns, calls } => out.push_str(&format!(
                    "{:>10.3}",
                    ns as f64 / (calls.max(1) as f64) / 1_000.0
                )),
                Piece::Percent { part, whole } => {
                    let pct = if whole == 0 { 0.0 } else { part as f64 / whole as f64 * 100.0 };
                    out.push_str(&format!("{pct:>5.1}"));
                }
            }
        }
    }
    out
}

fn row(phase: &'static str, op: &'static str, calls: u64, total_ns: u64) -> Row {
    Row { phase, op, stat: OpStat { calls, total_ns } }
}

#[test]
fn profiler_bookkeeping() {
    let mut p = Profiler::new(false, 0);
    assert!(
        report(&p, false).is_none(),
        "report() must return None while the profiler is disabled"
    );

    force_enable_for_tests(&mut p);
    reset(&mut p);

    p.registry.record("fwd", "unit_test_op", 1_000);
    p.registry.record("fwd", "unit_test_op", 2_000);
    p.registry.record("bwd", "vjp:UnitTest", 500);
    p.registry.record("post", "mid_op", 1_500);
    p.registry.record("bwd", "backward_total", 10_000);

    let rows = p.registry.snapshot_registry();
    assert_eq!(rows.len(), 4);
    let stat_of = |phase: &str, op: &str| -> OpStat {
        rows.iter()
            .find(|r| r.phase == phase && r.op == op)
            .map(|r| r.stat)
            .unwrap_or_else(|| panic!("{phase}/{op} not recorded"))
    };
    assert_eq!(stat_of("fwd", "unit_test_op").calls, 2);
    assert_eq!(stat_of("fwd", "unit_test_op").total_ns, 3_000);
    assert_eq!(stat_of("bwd", "vjp:UnitTest").calls, 1);
    assert_eq!(stat_of("bwd", "backward_total").total_ns, 10_000);
    assert_eq!(stat_of("post", "mid_op").calls, 1);

    let text = write_out(&report(&p, false).expect("profiler enabled -> Some").lines);
    let pos_unit = text.find("unit_test_op").expect("unit_test_op in report");
    let pos_mid = text.find("mid_op").expect("mid_op in report");
    let pos_vjp = text.find("vjp:UnitTest").expect("vjp:UnitTest in report");
    assert!(
        pos_unit < pos_mid && pos_mid < pos_vjp,
        "rows must be sorted by total_ns descending (3000 > 1500 > 500):\n{text}"
    );
    assert!(text.contains("subtotal[fwd"));
    assert!(text.contains("subtotal[bwd"));
    assert!(text.contains("subtotal[post"));
    assert!(text.contains("grand total"));
    let pos_grand = text.find("grand total").expect("grand total in report");
    let pos_umbrella = text
        .find("backward_total*")
        .expect("backward_total* must appear in umbrella section");
    assert!(
        pos_grand < pos_umbrella,
        "backward_total* section must follow grand total (excluded from it):\n{text}"
    );
    assert!(
        text.contains("excluded from subtotals/%"),
        "umbrella footnote must be present:\n{text}"
    );

    reset(&mut p);
    assert!(p.registry.snapshot_registry().is_empty());

    assert!(write_out(&report(&p, false).expect("still enabled -> Some").lines)
        .contains("no operations recorded"));

    let tsv_rows = vec![
        row("fwd", "tsv_test_op", 3, 9_000),
        row("bwd", "backward_total", 1, 50_000),
    ];
    let tsv_content = tsv_text(&tsv_rows);
    assert!(tsv_content.contains("phase\top\tcalls\ttotal_ns"));
    assert!(tsv_content.contains("fwd\ttsv_test_op\t3\t9000"));
    assert!(
        tsv_content.contains("bwd*\tbackward_total\t1\t50000"),
        "backward_total must use 'bwd*' phase in TSV:\n{tsv_content}"
    );

    reset(&mut p);
    p.lane.maybe_advance_step("embedding");
    assert_eq!(p.lane.step, 0);
    assert!(matches!(p.lane.phase, Phase::Fwd));

    p.lane.phase = Phase::Post;
    p.lane.maybe_advance_step("matmul");
    assert!(matches!(p.lane.phase, Phase::Post));

    p.lane.maybe_advance_step("embedding");
    assert_eq!(p.lane.step, 1);
    assert!(matches!(p.lane.phase, Phase::Fwd));

    reset(&mut p);
}

#[test]
fn report_text_is_exact() {
    let rows = vec![
        row("bwd", "backward_total", 1, 10_000_000),
        row("fwd", "matmul", 4, 6_000_000),
        row("bwd", "vjp:MatMul", 2, 2_000_000),
    ];
    let want = "phase   op                           calls    total_ms      avg_us       %\n\
                fwd     matmul                           4       6.000    1500.000   75.0%\n\
                bwd     vjp:MatMul                       2       2.000    1000.000   25.0%\n\
                \n\
                \u{20}\u{20}subtotal[fwd ] =      6.000 ms ( 75.0%)\n\
                \u{20}\u{20}subtotal[bwd ] =      2.000 ms ( 25.0%)\n\
                \u{20}\u{20}grand total  =      8.000 ms\n\
                \n\
                --- backward_total* (umbrella, excluded above) ---\n\
                \u{20}\u{20}backward_total*      =     10.000 ms  (1 calls)\n\
                \u{20}\u{20}backward_total*\u{2212}\u{3a3}vjp =      8.000 ms  (tape-walk + sync overhead)\n\
                \u{20}\u{20}* umbrella row = \u{3a3}vjp:* + tape-walk overhead; excluded from subtotals/%\n";
    assert_eq!(write_out(&format_report(&rows)), want);
}

#[test]
fn sums_exclude_the_umbrella_row_and_add_up() {
    let rows = vec![
        row("fwd", "add", 1, 3),
        row("bwd", "vjp:Add", 1, 5),
        row("bwd", "transpose", 1, 7),
        row("post", "mul", 1, 11),
        row("bwd", "backward_total", 1, 1_000),
    ];
    assert_eq!(sum_time(&rows, &Which::Regular), 26);
    assert_eq!(sum_time(&rows, &Which::OfPhase("fwd")), 3);
    assert_eq!(sum_time(&rows, &Which::OfPhase("bwd")), 12);
    assert_eq!(sum_time(&rows, &Which::OfPhase("post")), 11);
    assert_eq!(sum_time(&rows, &Which::Rules), 5);
}

#[test]
fn overhead_does_not_go_below_zero() {
    let rows = vec![row("bwd", "vjp:Add", 1, 9), row("bwd", "backward_total", 1, 4)];
    let lines = format_report(&rows);
    assert!(lines.iter().any(|l| matches!(l, Line::Overhead { ns: 0 })));
}

#[test]
fn sort_keeps_all_rows() {
    let rows = vec![row("fwd", "a", 1, 2), row("fwd", "b", 1, 9), row("fwd", "c", 1, 5)];
    let sorted = sort_rows(rows);
    let ops: Vec<&str> = sorted.iter().map(|r| r.op).collect();
    assert_eq!(ops, vec!["b", "c", "a"]);
}

#[test]
fn only_the_outermost_scope_is_recorded() {
    let mut p = Profiler::new(true, 0);
    let outer = p.timer("cumsum").unwrap();
    let inner = p.timer("transpose").unwrap();
    assert!(matches!(inner, Scope::Nested));
    assert!(matches!(outer, Scope::Recording { op: "cumsum", phase: "fwd" }));
    p.leave(inner, 40);
    p.leave(outer, 100);
    assert_eq!(p.lane.depth, 0);
    let rows = p.registry.snapshot_registry();
    assert_eq!(rows.len(), 1);
    assert_eq!((rows[0].op, rows[0].stat.calls, rows[0].stat.total_ns), ("cumsum", 1, 100));
}

#[test]
fn backward_scope_stands_beside_the_others() {
    let mut p = Profiler::new(true, 0);
    let total = p.enter_backward().unwrap();
    assert!(matches!(total, Scope::BackwardTotal { timed: true }));
    let rule = p.timer("vjp:Mul").unwrap();
    assert!(matches!(rule, Scope::Recording { op: "vjp:Mul", phase: "bwd" }));
    p.leave(rule, 3);
    p.leave(total, 5);
    assert!(matches!(p.lane.phase, Phase::Post));
    let s = p.timer("embedding").unwrap();
    assert!(matches!(s, Scope::Recording { op: "embedding", phase: "fwd" }));
    assert_eq!(p.lane.step, 1);
    assert_eq!(p.registry.snapshot_registry().len(), 2);
}

#[test]
fn skipped_steps_are_not_timed() {
    let mut p = Profiler::new(true, 1);
    assert!(p.timer("matmul").is_none());
    let total = p.enter_backward().unwrap();
    assert!(matches!(total, Scope::BackwardTotal { timed: false }));
    p.leave(total, 7);
    assert!(p.registry.snapshot_registry().is_empty());
    assert!(p.timer("embedding").is_some());
    let mut off = Profiler::new(false, 0);
    assert!(off.timer("embedding").is_none());
    assert!(off.enter_backward().is_none());
}

#[test]
fn skip_setting_is_read_as_a_number() {
    assert_eq!(skip_steps(None), (0, false));
    assert_eq!(skip_steps(Some("12")), (12, false));
    assert_eq!(skip_steps(Some("+7")), (7, false));
    assert_eq!(skip_steps(Some("")), (0, true));
    assert_eq!(skip_steps(Some("+")), (0, true));
    assert_eq!(skip_steps(Some("-1")), (0, true));
    assert_eq!(skip_steps(Some("1x")), (0, true));
    assert_eq!(skip_steps(Some("18446744073709551615")), (u64::MAX, false));
    assert_eq!(skip_steps(Some("18446744073709551616")), (0, true));
}

#[test]
fn phases_have_names() {
    assert_eq!(Phase::Fwd.as_str(), "fwd");
    assert_eq!(Phase::Bwd.as_str(), "bwd");
    assert_eq!(Phase::Post.as_str(), "post");
    assert_eq!(Lane::new(), Lane { depth: 0, phase: Phase::Fwd, step: 0 });
}

#[test]
fn empty_table_is_only_a_header() {
    assert_eq!(tsv_text(&vec![]), "phase\top\tcalls\ttotal_ns\n");
}

#[test]
fn file_has_the_rows_of_the_report() {
    let mut p = Profiler::new(true, 0);
    p.registry.record("fwd", "short", 5);
    p.registry.record("fwd", "one", 70);
    p.registry.record("bwd", "other", 70);
    p.registry.record("bwd", "backward_total", 90);
    let r = report(&p, true).expect("profiler enabled");
    let text = r.file.expect("a file was wanted");
    assert_eq!(text, tsv_text(&r.rows));
    let names: Vec<&str> = r.rows.iter().map(|x| x.op).collect();
    assert_eq!(names[0], "backward_total");
    assert_eq!(names[3], "short");
    let order: Vec<&str> = text.lines().skip(1).map(|l| l.split('\t').nth(1).unwrap()).collect();
    assert_eq!(order, names);
    assert!(report(&p, false).expect("profiler enabled").file.is_none());
}

#[test]
fn skip_setting_is_read_once() {
    let mut s = SkipSetting::new();
    assert_eq!(s.get(Some("12")), (12, false));
    assert_eq!(s.get(Some("7")), (12, false));
    assert_eq!(s.get(None), (12, false));
    let mut bad = SkipSetting::new();
    assert_eq!(bad.get(Some("many")), (0, true));
    assert_eq!(bad.get(Some("3")), (0, false));
}

#[test]
fn enabling_is_read_once() {
    let mut s = EnabledSetting::new();
    assert!(s.get(Some("1")));
    assert!(s.get(Some("0")));
    assert!(s.get(None));
    for text in [None, Some(""), Some("0"), Some("true"), Some("11"), Some(" 1")] {
        let mut off = EnabledSetting::new();
        assert!(!off.get(text));
        assert!(!off.get(Some("1")));
        off.force();
        assert!(off.get(None));
    }
}

#[test]
fn scopes_can_be_left_without_recording() {
    let mut l = Lane { depth: 1, phase: Phase::Bwd, step: 3 };
    l.leave(Scope::Nested);
    assert_eq!(l.depth, 0);
    l.leave(Scope::Nested);
    assert_eq!(l.depth, 0);
    l.leave(Scope::BackwardTotal { timed: true });
    assert!(matches!(l.phase, Phase::Post));
    assert_eq!(l.step, 3);
}
