use benchmark::bench::collector::{
    build_records, min_max_i32, min_max_i64, outputs_are_well_formed, process_outputs, record_of,
    scan_run, sum_i32, sum_i64, Metric,
};
use benchmark::bench::Record;

const REPORT: &str = "\tCommand being timed: \"./app\"
\tUser time (seconds): 0.05
\tSystem time (seconds): 0.01
\tPercent of CPU this job got: 144%
\tElapsed (wall clock) time (h:mm:ss or m:ss): 0:00.04
\tAverage shared text size (kbytes): 0
\tAverage unshared data size (kbytes): 0
\tAverage stack size (kbytes): 0
\tAverage total size (kbytes): 0
\tMaximum resident set size (kbytes): 19076
\tAverage resident set size (kbytes): 0
\tMajor (requiring I/O) page faults: 0
\tMinor (reclaiming a frame) page faults: 5450
\tVoluntary context switches: 0
\tInvoluntary context switches: 305
\tSwaps: 0
\tFile system inputs: 0
\tFile system outputs: 0
\tSocket messages sent: 0
\tSocket messages received: 0
\tSignals delivered: 0
\tPage size (bytes): 4096
\tExit status: 0
";

fn views<'a>(rs: &[benchmark::bench::collector::Reading<'a>]) -> Vec<(Metric, &'a str)> {
    rs.iter().map(|r| (r.metric, r.value)).collect()
}

#[test]
fn scan_run_reads_the_three_measurements() {
    let rs = scan_run(REPORT, "\n").expect("report is well formed");
    assert_eq!(
        views(&rs),
        vec![
            (Metric::UserTime, "0.05"),
            (Metric::CpuPercent, "144"),
            (Metric::MaxResident, "19076"),
        ]
    );
}

#[test]
fn scan_run_of_empty_report_has_no_readings() {
    let rs = scan_run("", "\n").expect("empty report is well formed");
    assert!(rs.is_empty());
}

#[test]
fn scan_run_keeps_every_line_order() {
    let run = "User time (seconds): 1.5\nUser time (seconds): 2.5\n";
    let rs = scan_run(run, "\n").unwrap();
    assert_eq!(views(&rs), vec![(Metric::UserTime, "1.5"), (Metric::UserTime, "2.5")]);
}

#[test]
fn scan_run_reads_two_keys_on_one_line_in_fixed_order() {
    let run = "Maximum resident, Percent of CPU: 12";
    let rs = scan_run(run, "\n").unwrap();
    assert_eq!(views(&rs), vec![(Metric::CpuPercent, "1"), (Metric::MaxResident, "12")]);
}

#[test]
fn scan_run_refuses_memory_that_is_not_a_number() {
    assert!(scan_run("Maximum resident set size (kbytes): lots", "\n").is_none());
}

#[test]
fn scan_run_refuses_a_line_without_colon() {
    assert!(scan_run("User time 0.05", "\n").is_none());
}

#[test]
fn scan_run_refuses_a_colon_at_line_end() {
    assert!(scan_run("User time:", "\n").is_none());
}

#[test]
fn scan_run_refuses_a_wide_character_after_colon() {
    assert!(scan_run("User time:é0.05", "\n").is_none());
}

#[test]
fn scan_run_refuses_cpu_without_room_for_a_value() {
    assert!(scan_run("Percent of CPU: ", "\n").is_none());
}

#[test]
fn scan_run_value_may_be_empty_for_memory_refused() {
    assert!(scan_run("Maximum resident: ", "\n").is_none());
}

#[test]
fn scan_run_refuses_a_user_time_that_is_no_float() {
    assert!(scan_run("User time (seconds): n/a", "\n").is_none());
    assert!(scan_run("User time: ", "\n").is_none());
}

#[test]
fn scan_run_splits_windows_lines_at_crlf() {
    let run = "User time (seconds): 0.05\r\nPercent of CPU this job got: 144%\r\n";
    let rs = scan_run(run, "\r\n").unwrap();
    assert_eq!(views(&rs), vec![(Metric::UserTime, "0.05"), (Metric::CpuPercent, "144")]);
    assert!(scan_run(run, "\n").is_none());
}

#[test]
fn keyless_lines_change_nothing() {
    let a = scan_run("User time: 1.0\nPercent of CPU: 5%", "\n").unwrap();
    let b = scan_run("User time: 1.0\nnoise: x\n\nPercent of CPU: 5%", "\n").unwrap();
    assert_eq!(views(&a), views(&b));
}

#[test]
fn record_of_keeps_last_of_each() {
    let run = "User time: 1\nPercent of CPU: 50%\nUser time: 2\n";
    let rs = scan_run(run, "\n").unwrap();
    let r = record_of(&rs, Some(2000));
    assert_eq!((r.time, r.cpu, r.mem), (Some(2000), "50", ""));
}

#[test]
fn record_default_is_empty() {
    let r = Record::default();
    assert_eq!((r.time, r.cpu, r.mem), (None, "", ""));
}

#[test]
fn process_outputs_collects_all_runs() {
    let runs = vec![
        REPORT.to_string(),
        "User time (seconds): 0.10\nPercent of CPU this job got: 99%\nMaximum resident set size (kbytes): 2000\n"
            .to_string(),
    ];
    assert!(outputs_are_well_formed(&runs, "\n"));
    let p = process_outputs(&runs, "\n");
    assert_eq!(p.readings.len(), 2);
    assert_eq!(p.time, vec!["0.05", "0.10"]);
    assert_eq!(p.cpu, vec![144, 99]);
    assert_eq!(p.mem, vec![19076, 2000]);
}

#[test]
fn records_carry_milliseconds_of_the_last_user_time() {
    let runs = vec![
        REPORT.to_string(),
        "Percent of CPU: 7%\n".to_string(),
        "User time: 0.1\nUser time: 0.2\nMaximum resident: 3\n".to_string(),
    ];
    assert!(outputs_are_well_formed(&runs, "\n"));
    let p = process_outputs(&runs, "\n");
    let millis = vec![50, 100, 200];
    let records = build_records(&p.readings, &millis);
    let cols: Vec<_> = records.iter().map(|r| (r.time, r.cpu, r.mem)).collect();
    assert_eq!(
        cols,
        vec![(Some(50), "144", "19076"), (None, "7", ""), (Some(200), "", "3")]
    );
}

#[test]
fn outputs_are_well_formed_spots_a_bad_run() {
    let runs = vec![REPORT.to_string(), "Percent of CPU this job got: x%".to_string()];
    assert!(!outputs_are_well_formed(&runs, "\n"));
}

#[test]
fn outputs_are_well_formed_needs_every_measurement() {
    assert!(!outputs_are_well_formed(&vec![], "\n"));
    let runs = vec!["User time: 1\nPercent of CPU: 3%".to_string()];
    assert!(!outputs_are_well_formed(&runs, "\n"));
}

#[test]
fn min_max_of_values() {
    assert_eq!(min_max_i64(&vec![50, 20, 70]), Some((20, 70)));
    assert_eq!(min_max_i32(&vec![144]), Some((144, 144)));
    assert_eq!(min_max_i64(&vec![]), None);
    assert_eq!(min_max_i32(&vec![]), None);
}

#[test]
fn sums_of_values() {
    assert_eq!(sum_i64(&vec![50, 20, 70]), Some(140));
    assert_eq!(sum_i32(&vec![]), Some(0));
    assert_eq!(sum_i32(&vec![i32::MAX, 1, -1]), None);
    assert_eq!(sum_i64(&vec![i64::MIN, -1]), None);
    assert_eq!(sum_i32(&vec![i32::MAX, -1, 1]), Some(i32::MAX));
}

#[test]
fn batches_concatenate_on_concrete_runs() {
    let a = vec!["User time: 1\nPercent of CPU: 10%\nMaximum resident: 1\n".to_string()];
    let b = vec!["User time: 2\nPercent of CPU: 20%\nMaximum resident: 2\nPercent of CPU: 30%".to_string()];
    let mut ab = a.clone();
    ab.extend(b.clone());
    let (pa, pb, pab) = (process_outputs(&a, "\n"), process_outputs(&b, "\n"), process_outputs(&ab, "\n"));
    let mut joined = pa.cpu.clone();
    joined.extend(pb.cpu.clone());
    assert_eq!(pab.cpu, joined);
    assert_eq!(pab.cpu, vec![10, 20, 30]);
}

#[test]
fn keyless_lines_across_runs_change_nothing() {
    let runs = vec![
        "User time: 0.5\nPercent of CPU: 9%\n".to_string(),
        "Maximum resident: 7".to_string(),
    ];
    let runs2 = vec![
        "header\nUser time: 0.5\n\nother: 1\nPercent of CPU: 9%".to_string(),
        "Maximum resident: 7\nExit status: 0\n".to_string(),
    ];
    assert!(outputs_are_well_formed(&runs, "\n"));
    assert!(outputs_are_well_formed(&runs2, "\n"));
    let (p, p2) = (process_outputs(&runs, "\n"), process_outputs(&runs2, "\n"));
    assert_eq!(p.time, p2.time);
    assert_eq!(p.cpu, p2.cpu);
    assert_eq!(p.mem, p2.mem);
    for (a, b) in p.readings.iter().zip(p2.readings.iter()) {
        assert_eq!(views(a), views(b));
    }
}
