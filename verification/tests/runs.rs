use std::collections::HashSet;
use std::time::Duration;
use symcc_fuzzing_helper::config::{map_size_setting, parse_afl_command, AflConfig, StatsError};
use symcc_fuzzing_helper::stats::{report_due, Stats, StatsLine};
use symcc_fuzzing_helper::symcc::{direct_targets, parse_solver_time, was_killed, SymCCResult};
use symcc_fuzzing_helper::text::parse_u64;

#[test]
fn test_solver_time_parsing() {
    let output = r#"[INFO] New testcase: /tmp/output/000005
[STAT] SMT: { "solving_time": 14539, "total_time": 185091 }
[STAT] SMT: { "solving_time": 14869 }
[STAT] SMT: { "solving_time": 14869, "total_time": 185742 }
[STAT] SMT: { "solving_time": 15106 }"#;

    assert_eq!(
        parse_solver_time(output.as_bytes().to_vec()).map(Duration::from_micros),
        Some(Duration::from_micros(15106))
    );
    assert_eq!(
        parse_solver_time("whatever".as_bytes().to_vec()).map(Duration::from_micros),
        None
    );
}

#[test]
fn solver_time_skips_unfit_lines() {
    let mut out = b"  [STAT] SMT: { \"solving_time\": 12 }\n".to_vec();
    out.extend_from_slice(b"[STAT] SMT: { \"solving_time\": 99999999999999999999 }\n");
    out.extend_from_slice(&[0xff, 0xfe, b'\n']);
    out.extend_from_slice(b"[INFO] SMT: { \"solving_time\": 7 }\n");
    assert_eq!(parse_solver_time(out), Some(12));
    assert_eq!(parse_solver_time(Vec::new()), None);
}

#[test]
fn decimal_parsing() {
    assert_eq!(parse_u64("15106"), Some(15106));
    assert_eq!(parse_u64("+7"), Some(7));
    assert_eq!(parse_u64("18446744073709551615"), Some(u64::MAX));
    assert_eq!(parse_u64("18446744073709551616"), None);
    assert_eq!(parse_u64(""), None);
    assert_eq!(parse_u64("+"), None);
    assert_eq!(parse_u64("-1"), None);
    assert_eq!(parse_u64("1a"), None);
}

#[test]
fn kill_detection() {
    assert!(was_killed(Some(124), None));
    assert!(was_killed(Some(-9), None));
    assert!(!was_killed(Some(0), None));
    assert!(was_killed(None, Some(11)));
    assert!(!was_killed(None, None));
}

#[test]
fn result_caps_solver_time() {
    let r = SymCCResult::new(vec![], vec![], Some(0), None, 5_000_000, Some(7_000));
    assert_eq!(r.solver_time, Some(5_000_000));
    let r = SymCCResult::new(vec![], vec![], Some(124), None, 5_000_000, Some(3));
    assert_eq!(r.solver_time, Some(3_000));
    assert!(r.killed);
    let r = SymCCResult::new(vec![], vec![], None, None, 1, None);
    assert_eq!(r.solver_time, None);
}

#[test]
fn direct_targets_are_sorted_and_joined() {
    let f: HashSet<u32> = [40, 3, 1000, 7].into_iter().collect();
    assert_eq!(direct_targets(&f), "3,7,40,1000");
    assert_eq!(direct_targets(&HashSet::new()), "");
}

fn result(killed: bool, time: u128, solver: Option<u128>) -> SymCCResult {
    SymCCResult { test_cases: vec![], symdict: vec![], killed, time, solver_time: solver }
}

#[test]
fn stats_accumulate() {
    let mut s = Stats::new();
    s.add_execution(&result(false, 3_000_000_000, None));
    s.add_execution(&result(false, 1_500_000_000, Some(500_000_000)));
    s.add_execution(&result(true, 2_000_000, Some(1)));
    s.add_execution(&result(false, 500_000_000, Some(250_000_000)));
    assert_eq!(s.total_count, 3);
    assert_eq!(s.total_time, 5_000_000_000);
    assert_eq!(s.solver_time, Some(750_000_000));
    assert_eq!(s.failed_count, 1);
    assert_eq!(s.failed_time, 2_000_000);
    assert_eq!(
        s.log(),
        vec![
            StatsLine::SuccessfulExecutions(3),
            StatsLine::SuccessfulTime(5000),
            StatsLine::AverageSuccessfulTime(1666),
            StatsLine::SolverTime(750),
            StatsLine::SolverShare { solver_millis: 750, total_millis: 5000 },
            StatsLine::AverageSolverTime(250),
            StatsLine::FailedExecutions(1),
            StatsLine::FailedTime(2),
            StatsLine::AverageFailedTime(2),
            StatsLine::Separator,
        ]
    );
    assert_eq!(
        (Duration::from_nanos(5_000_000_000) / 3).as_millis(),
        1666
    );
}

#[test]
fn stats_report_without_executions() {
    assert_eq!(
        Stats::new().log(),
        vec![
            StatsLine::SuccessfulExecutions(0),
            StatsLine::SuccessfulTime(0),
            StatsLine::FailedExecutions(0),
            StatsLine::FailedTime(0),
            StatsLine::Separator,
        ]
    );
}

#[test]
fn afl_command_line_parsing() {
    let stats = "start_time        : 1\r\ncommand_line      : /afl/afl-fuzz -Q -i in -o out -- ./target @@\r\nbanner : x\n";
    let words = parse_afl_command(stats).unwrap();
    let words: Vec<String> = words.into_iter().map(|w| w.into_iter().collect()).collect();
    assert_eq!(words, vec!["/afl/afl-fuzz", "-Q", "-i", "in", "-o", "out", "--", "./target", "@@"]);
    assert_eq!(parse_afl_command("banner: x\n"), Err(StatsError::NoCommandLine));
    assert_eq!(parse_afl_command("command_line\n"), Err(StatsError::UnknownFormat));
    let bytes: Vec<Vec<u8>> = words.iter().map(|w| w.clone().into_bytes()).collect();
    let cfg = AflConfig::new(&bytes, "/afl/afl-showmap".into(), "out/queue".into(), 65536);
    assert_eq!(cfg.target_command, vec![b"--".to_vec(), b"./target".to_vec(), b"@@".to_vec()]);
    assert!(!cfg.use_standard_input);
    assert!(cfg.use_qemu_mode);
    let plain: Vec<Vec<u8>> = vec![b"afl-fuzz".to_vec(), b"--".to_vec(), b"./t".to_vec()];
    let cfg = AflConfig::new(&plain, "x".into(), "y".into(), 1);
    assert!(cfg.use_standard_input && !cfg.use_qemu_mode);
    let none: Vec<Vec<u8>> = vec![b"afl-fuzz".to_vec()];
    assert!(AflConfig::new(&none, "x".into(), "y".into(), 1).target_command.is_empty());
}

#[test]
fn map_size_from_setting() {
    assert_eq!(map_size_setting(None), 65536);
    assert_eq!(map_size_setting(Some("131072")), 131072);
    assert_eq!(map_size_setting(Some("big")), 65536);
}

#[test]
fn average_carries_the_nanosecond_remainder() {
    let mut s = Stats::new();
    s.add_execution(&result(false, 1_000_000_000, None));
    s.add_execution(&result(false, 1_000_000, None));
    s.add_execution(&result(false, 1_000_000, None));
    assert_eq!(s.total_time, 1_002_000_000);
    assert_eq!(s.log()[2], StatsLine::AverageSuccessfulTime(334));
    assert_eq!((Duration::from_nanos(1_002_000_000) / 3).as_millis(), 334);
}

#[test]
fn stats_sum_over_executions() {
    let runs = vec![
        result(true, 7, None),
        result(false, 5, Some(2)),
        result(false, 11, None),
        result(true, 13, Some(4)),
        result(false, 17, Some(3)),
    ];
    let mut s = Stats::new();
    for r in runs.iter() {
        s.add_execution(r);
    }
    assert_eq!(s.total_count, 3);
    assert_eq!(s.total_time, 5 + 11 + 17);
    assert_eq!(s.solver_time, Some(5));
    assert_eq!(s.failed_count, 2);
    assert_eq!(s.failed_time, 7 + 13);
}

#[test]
fn report_interval() {
    assert!(!report_due(0));
    assert!(!report_due(60));
    assert!(report_due(61));
}

#[test]
fn unicode_whitespace_separates_words() {
    let stats = "command_line : afl-fuzz\u{3000}-Q\u{85}--\t./t\u{a0}@@\n";
    let words = parse_afl_command(stats).unwrap();
    let words: Vec<String> = words.into_iter().map(|w| w.into_iter().collect()).collect();
    assert_eq!(words, vec!["afl-fuzz", "-Q", "--", "./t", "@@"]);
}
