//! The list of processes and the comparison of two samples.

use macswapi::double::Double;
use macswapi::kernel::ProcBsdInfo;
use macswapi::order::{in_order, shown_count};
use macswapi::rate::elapsed_seconds;
use macswapi::snapshot::{swap_warning, Probe, Reading, Row, Snapshot};
use macswapi::watch::{
    compare, delta_parents_to_name, pause_secs, pids_to_name, same_process_start, sample,
    watch_report, Delta, Sample, SampleProbe, WatchEvent, WatchStep,
};
use std::collections::HashMap;

fn info(ppid: u32, start: (u64, u64)) -> Option<ProcBsdInfo> {
    let mut buf = vec![0u8; 136];
    buf[16..20].copy_from_slice(&ppid.to_le_bytes());
    buf[120..128].copy_from_slice(&start.0.to_le_bytes());
    buf[128..136].copy_from_slice(&start.1.to_le_bytes());
    ProcBsdInfo::from_bytes(&buf)
}

fn readable(pid: i32, name: &str, compressed: u64, footprint: u64, ppid: u32) -> Probe {
    Probe {
        pid,
        reading: Some(Reading {
            name: name.to_string(),
            memory: (compressed, footprint),
            info: info(ppid, (0, 0)),
        }),
    }
}

fn row(pid: i32, name: &str, compressed: u64) -> Row {
    Row { pid, name: name.to_string(), compressed, footprint: 0, ppid: 0 }
}

fn no_names() -> HashMap<i32, String> {
    HashMap::new()
}

#[test]
fn rows_are_ordered_by_memory_and_number() {
    let rows = vec![row(5, "a", 10), row(9, "b", 30), row(2, "c", 10), row(7, "d", 0)];
    let pids: Vec<i32> = in_order(rows).iter().map(|r| r.pid).collect();
    assert_eq!(pids, vec![9, 2, 5, 7]);
    let twice = vec![row(5, "first", 1), row(4, "x", 1), row(5, "second", 1)];
    let names: Vec<String> = in_order(twice).into_iter().map(|r| r.name).collect();
    assert_eq!(names, vec!["x", "first", "second"]);
    assert_eq!(in_order::<Row>(vec![]), vec![]);
}

#[test]
fn rows_are_counted() {
    assert_eq!(shown_count(0, 7), 7);
    assert_eq!(shown_count(3, 7), 3);
    assert_eq!(shown_count(7, 7), 7);
    assert_eq!(shown_count(20, 7), 7);
    assert_eq!(shown_count(20, 0), 0);
}

#[test]
fn unreadable_processes_are_counted() {
    let probes = vec![
        readable(3, "c", 1, 2, 1),
        Probe { pid: 4, reading: None },
        readable(5, "e", 9, 8, 3),
        Probe { pid: 6, reading: None },
    ];
    let s = Snapshot::take(&probes, true);
    assert_eq!(s.denied, 2);
    assert_eq!(
        s.rows,
        vec![
            Row { pid: 5, name: "e".to_string(), compressed: 9, footprint: 8, ppid: 3 },
            Row { pid: 3, name: "c".to_string(), compressed: 1, footprint: 2, ppid: 1 },
        ]
    );
    assert_eq!(Snapshot::take(&probes, false).rows[0].ppid, 0);
}

#[test]
fn the_list_is_written() {
    let probes = vec![
        readable(10, "small", 1024, 2048, 1),
        readable(11, "a name that is far too long for it", 3072, 1 << 20, 10),
        Probe { pid: 12, reading: None },
    ];
    let s = Snapshot::take(&probes, false);
    assert!(s.check_sums(0));
    let report = s.report(Some(4096), 1, false, &no_names());
    assert_eq!(
        report.lines,
        vec![
            "PID     NAME                            CMPRS    FOOTPRINT        SWAP~",
            "11      a name that is far too …        3.00K        1.00M        3.00K",
            "",
            "shown 1/2 procs  (1 denied — need sudo for other users)",
            "shown totals: CMPRS 3.00K  FOOTPRINT 1.00M  SWAP~ 3.00K",
            "swap (sysctl vm.swapusage used): 4.00K   Σ est over readable procs: 4.00K",
        ]
    );
    assert_eq!(
        report.warning.unwrap(),
        "WARNING: 1 proc(s) denied — SWAP~ estimates cover only visible processes; \
         a single visible process may absorb all system swap. Run as root for accuracy."
    );
}

#[test]
fn lines_are_those_of_the_formatter() {
    let probes = vec![readable(123456789, "näme", 5_000_000, 7_000_000_000, 1)];
    let s = Snapshot::take(&probes, true);
    assert_eq!(s.parents_to_name(0), vec![1]);
    let mut parents = no_names();
    parents.insert(1, "launchd".to_string());
    let report = s.report(Some(1_000_000), 0, true, &parents);
    assert_eq!(
        report.lines[0],
        format!(
            "{:<7} {:<7} {:<24} {:<20} {:>12} {:>12} {:>12}",
            "PID", "PPID", "NAME", "PARENT", "CMPRS", "FOOTPRINT", "SWAP~"
        )
    );
    assert_eq!(
        report.lines[1],
        format!(
            "{:<7} {:<7} {:<24} {:<20} {:>12} {:>12} {:>12}",
            123456789, 1, "näme", "launchd", "4.77M", "6.52G", "976.56K"
        )
    );
    assert_eq!(report.warning, None);
}

#[test]
fn estimates_need_a_total_and_a_denominator() {
    let s = Snapshot::take(&vec![readable(1, "x", 5, 5, 0)], false);
    let report = s.report(None, 0, false, &no_names());
    assert!(report.lines[1].ends_with(" N/A"));
    assert_eq!(report.lines[4], "shown totals: CMPRS 5B  FOOTPRINT 5B  SWAP~ N/A");
    assert_eq!(
        report.lines[5],
        "swap (sysctl vm.swapusage used): N/A   \
         Σ est over readable procs: N/A (vm.swapusage unavailable)"
    );
    let probes = vec![readable(1, "x", 0, 5, 0), Probe { pid: 2, reading: None }];
    let report = Snapshot::take(&probes, false).report(Some(9), 0, false, &no_names());
    assert_eq!(
        report.lines[5],
        "swap (sysctl vm.swapusage used): 9B   \
         Σ est over readable procs: N/A (denominator is 0 — run as root for accurate estimates)"
    );
    assert_eq!(report.warning, None);
}

#[test]
fn parents_are_named_once() {
    let probes = vec![
        readable(1, "a", 9, 0, 7),
        readable(2, "b", 8, 0, 5),
        readable(3, "c", 7, 0, 7),
        readable(4, "d", 6, 0, 1),
    ];
    let s = Snapshot::take(&probes, true);
    assert_eq!(s.parents_to_name(0), vec![7, 5, 1]);
    assert_eq!(s.parents_to_name(3), vec![7, 5]);
}

#[test]
fn sums_are_checked() {
    let probes = vec![readable(1, "a", 9, u64::MAX, 7), readable(2, "b", 8, 1, 5)];
    let s = Snapshot::take(&probes, false);
    assert!(s.check_sums(1));
    assert!(!s.check_sums(2));
    let probes = vec![readable(1, "a", u64::MAX, 0, 7), readable(2, "b", 8, 1, 5)];
    assert!(!Snapshot::take(&probes, false).check_sums(1));
}

#[test]
fn a_missing_total_is_reported() {
    assert_eq!(
        swap_warning("No such file"),
        "WARNING: could not read sysctl vm.swapusage: No such file; SWAP~ unavailable."
    );
}

#[test]
fn test_same_process_start_fails_closed() {
    assert!(same_process_start(Some((10, 20)), Some((10, 20))));
    assert!(!same_process_start(Some((10, 20)), Some((10, 21))));
    assert!(!same_process_start(None, Some((10, 20))));
    assert!(!same_process_start(Some((10, 20)), None));
    assert!(!same_process_start(None, None));
}

fn probe(pid: i32, footprint: u64, ppid: u32, start: u64) -> SampleProbe {
    SampleProbe { pid, memory: Some((0, footprint)), info: info(ppid, (start, 1)) }
}

#[test]
fn samples_are_collected() {
    let set = sample(&vec![
        probe(1, 10, 0, 5),
        SampleProbe { pid: 2, memory: None, info: None },
        SampleProbe { pid: 3, memory: Some((4, 30)), info: None },
        probe(1, 11, 9, 6),
    ]);
    assert_eq!(set.denied, 1);
    assert_eq!(set.rows.len(), 2);
    assert_eq!(set.total(), 3);
    assert_eq!(set.rows[&1], Sample { footprint: 11, start: Some((6, 1)), ppid: 9 });
    assert_eq!(set.rows[&3], Sample { footprint: 30, start: None, ppid: 0 });
}

#[test]
fn only_the_same_process_is_compared() {
    let a = sample(&vec![
        probe(1, 100, 0, 5),
        probe(2, 100, 0, 5),
        probe(3, 500, 0, 5),
        probe(4, 1, 0, 5),
        SampleProbe { pid: 5, memory: Some((0, 1)), info: None },
        probe(7, 50, 0, 5),
    ]);
    let b = sample(&vec![
        probe(1, 150, 8, 5),
        probe(2, 900, 0, 6),
        probe(3, 100, 9, 5),
        SampleProbe { pid: 5, memory: Some((0, 9)), info: None },
        probe(6, 1, 0, 5),
        probe(7, 100, 8, 5),
    ]);
    let deltas = compare(&a, &b, true);
    assert_eq!(
        deltas,
        vec![
            Delta { pid: 1, ppid: 8, foot0: 100, foot1: 150, delta: 50 },
            Delta { pid: 7, ppid: 8, foot0: 50, foot1: 100, delta: 50 },
            Delta { pid: 3, ppid: 9, foot0: 500, foot1: 100, delta: -400 },
        ]
    );
    assert_eq!(compare(&a, &b, false)[2].ppid, 0);
    assert_eq!(pids_to_name(&deltas, 2), vec![1, 7]);
    assert_eq!(delta_parents_to_name(&deltas, 0), vec![8, 9]);
}

fn seconds(x: f64) -> Double {
    elapsed_seconds(x.to_bits()).unwrap()
}

#[test]
fn the_comparison_is_written() {
    let a = sample(&vec![probe(1, 2048, 0, 5), probe(2, 5_000_000, 0, 5)]);
    let b = sample(&vec![
        probe(1, 1024, 7, 5),
        probe(2, 9_000_000, 7, 5),
        SampleProbe { pid: 3, memory: None, info: None },
    ]);
    let deltas = compare(&a, &b, true);
    let names = vec!["two".to_string(), "one".to_string()];
    let mut parents = no_names();
    parents.insert(7, "shell".to_string());
    let lines = watch_report(&a, &b, &deltas, 0, &names, true, &parents, seconds(3.25));
    let table = |c: [&str; 8]| {
        format!(
            "{:<7} {:<7} {:<24} {:<20} {:>12} {:>12} {:>12} {:>12}",
            c[0], c[1], c[2], c[3], c[4], c[5], c[6], c[7]
        )
    };
    assert_eq!(
        lines,
        vec![
            table(["PID", "PPID", "NAME", "PARENT", "FOOT0", "FOOT1", "DELTA", "RATE/s"]),
            table(["2", "7", "two", "shell", "4.77M", "8.58M", "+3.81M", "+1.17M"]),
            table(["1", "7", "one", "shell", "2.00K", "1.00K", "-1.00K", "-315B"]),
            String::new(),
            "interval 3.2s — one interval = allocation churn; \
             trust SUSTAINED growth as leak signal."
                .to_string(),
            "sampled procs: first 2/2 readable (0 denied), second 2/3 readable (1 denied)"
                .to_string(),
        ]
    );
    let names = vec!["two".to_string()];
    let deltas = compare(&a, &b, false);
    let lines = watch_report(&a, &b, &deltas, 1, &names, false, &no_names(), seconds(1.0));
    assert_eq!(
        lines[0..2],
        [
            format!(
                "{:<7} {:<24} {:>12} {:>12} {:>12} {:>12}",
                "PID", "NAME", "FOOT0", "FOOT1", "DELTA", "RATE/s"
            ),
            format!(
                "{:<7} {:<24} {:>12} {:>12} {:>12} {:>12}",
                2, "two", "4.77M", "8.58M", "+3.81M", "+3.81M"
            ),
        ]
    );
    assert_eq!(lines.len(), 5);
}

#[test]
fn the_interval_is_written_as_the_machine_writes_it() {
    let empty = sample(&vec![]);
    for x in [1e-9, 0.04, 0.05, 0.25, 0.35, 0.75, 1.0, 2.949_999, 3.05, 59.95, 86400.123, 1e18] {
        let lines = watch_report(&empty, &empty, &vec![], 0, &vec![], false, &no_names(), seconds(x));
        let start = format!("interval {:.1}s ", x);
        assert!(lines[2].starts_with(&start), "{} {}", lines[2], start);
    }
}

#[test]
fn the_pause_is_at_least_a_second() {
    assert_eq!(pause_secs(0), 1);
    assert_eq!(pause_secs(1), 1);
    assert_eq!(pause_secs(30), 30);
}

#[test]
fn a_comparison_takes_two_samples_with_a_pause_between_them() {
    for (interval, wait) in [(0, 1), (1, 1), (5, 5)] {
        let step = WatchStep::start(interval).next(WatchEvent::Paused);
        assert!(matches!(step, WatchStep::SampleFirst { .. }));
        let step = step.next(WatchEvent::Sampled { samples: sample(&vec![probe(1, 10, 0, 5)]) });
        let step = step.next(WatchEvent::Sampled { samples: sample(&vec![]) });
        assert!(matches!(step, WatchStep::Pause { secs, .. } if secs == wait));
        let step = step.next(WatchEvent::Paused);
        assert!(matches!(step, WatchStep::SampleSecond { .. }));
        let step = step.next(WatchEvent::Sampled { samples: sample(&vec![probe(1, 30, 0, 5)]) });
        assert!(matches!(step, WatchStep::ReadClock { .. }));
        let step = step.next(WatchEvent::Clock { bits: f64::to_bits(2.5) });
        let step = step.next(WatchEvent::Clock { bits: f64::to_bits(9.0) });
        match step {
            WatchStep::Done { first, second, elapsed } => {
                assert_eq!(first.rows[&1].footprint, 10);
                assert_eq!(second.rows[&1].footprint, 30);
                assert_eq!(elapsed, Some(seconds(2.5)));
            }
            other => panic!("{other:?}"),
        }
    }
}

/// A line with the cells of a parent taken out.
fn without_parent(line: &str) -> String {
    let chars: Vec<char> = line.chars().collect();
    let part = |from: usize, to: usize| chars[from..to].iter().collect::<String>();
    part(0, 8) + &part(16, 41) + &part(62, chars.len())
}

#[test]
fn parents_only_add_cells_to_the_list() {
    let probes = vec![
        readable(3, "gamma", 500, 900, 7),
        Probe { pid: 4, reading: None },
        readable(1, "alpha", 700, 100, 8),
        readable(2, "beta", 500, 200, 7),
    ];
    let wide = Snapshot::take(&probes, true);
    let narrow = Snapshot::take(&probes, false);
    let mut parents = no_names();
    parents.insert(7, "shell".to_string());
    parents.insert(8, "launcher".to_string());
    for topn in [0, 2] {
        let x = wide.report(Some(4096), topn, true, &parents);
        let y = narrow.report(Some(4096), topn, false, &no_names());
        let rows = if topn == 0 { 3 } else { topn };
        assert_eq!(x.warning, y.warning);
        assert_eq!(x.lines.len(), y.lines.len());
        for i in 0..x.lines.len() {
            if i <= rows {
                assert_eq!(without_parent(&x.lines[i]), y.lines[i]);
            } else {
                assert_eq!(x.lines[i], y.lines[i]);
            }
        }
    }
}

#[test]
fn parents_only_add_cells_to_the_comparison() {
    let a = sample(&vec![probe(1, 2048, 7, 5), probe(2, 5_000_000, 8, 5)]);
    let b = sample(&vec![probe(1, 1024, 7, 5), probe(2, 9_000_000, 8, 5)]);
    let names = vec!["two".to_string(), "one".to_string()];
    let mut parents = no_names();
    parents.insert(7, "shell".to_string());
    parents.insert(8, "launcher".to_string());
    let (with, without) = (compare(&a, &b, true), compare(&a, &b, false));
    let x = watch_report(&a, &b, &with, 0, &names, true, &parents, seconds(3.25));
    let y = watch_report(&a, &b, &without, 0, &names, false, &no_names(), seconds(3.25));
    assert_eq!(x.len(), y.len());
    for i in 0..3 {
        assert_eq!(without_parent(&x[i]), y[i]);
    }
    assert_eq!(x[3..], y[3..]);
}
