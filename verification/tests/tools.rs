use leanda::bench::{
    benchmark_child_args, core_range, parse_child_csv, sum_worker_peak_rss_bytes, BenchOptions, CsvError, WorkerPeak,
};
use leanda::gpu::{configure_gpu, gpu_enabled, metal_available, set_gpu_enabled, GpuChoice, GpuSwitch};
use leanda::stages::{
    cpu_stage_profiling_enabled, current_cpu_stage, enter_cpu_stage, leave_cpu_stage, mean_stage_duration, peak_bytes,
    process_nanos, reset_cpu_stage_timings, stage_duration, take_cpu_stage_timings, CpuStages, StageTiming,
};
use leanda::text::{decimal, split, xml_escape};
use leanda::timeline::{cpu_stage_segments, short_stage_label, stage_color, stage_phase, TimelineSample};
use leanda::traffic::{
    combine_statement_bytes, initial_product_sumcheck_bytes, memory_traffic_estimates, TrafficInputs,
};

fn options() -> BenchOptions {
    BenchOptions {
        log_m: 13,
        n_rows: 101,
        cell_len_ext: 128,
        runs_per_worker: 2,
        max_num_variables_to_send_coeffs: 12,
        initial_folding_factor: 8,
        subsequent_folding_factor: 5,
        cpu: true,
        gpu: false,
    }
}

#[test]
fn numbers_and_pieces() {
    assert_eq!(decimal(0), "0");
    assert_eq!(decimal(90), "90");
    assert_eq!(decimal(u64::MAX), "18446744073709551615");
    assert_eq!(split("a,,b", ','), vec!["a", "", "b"]);
    assert_eq!(split("", ','), vec![""]);
    assert_eq!(xml_escape("<a & \"b\">"), "&lt;a &amp; &quot;b&quot;&gt;");
    assert_eq!(xml_escape("é&amp;"), "é&amp;amp;");
}

#[test]
fn workers_are_started_with_their_options() {
    let words = benchmark_child_args(options());
    assert_eq!(
        words,
        vec![
            "--log-m", "13", "--n-rows", "101", "--cell-len-ext", "128", "--prove", "--runs", "2", "--csv",
            "--max-num-variables-to-send-coeffs", "12", "--initial-folding-factor", "8",
            "--subsequent-folding-factor", "5", "--cpu",
        ]
    );
    let both = benchmark_child_args(BenchOptions { gpu: true, cpu: false, ..options() });
    assert_eq!(both.last().unwrap(), "--gpu");
    assert_eq!(core_range(0, 4), "0-3");
    assert_eq!(core_range(3, 4), "12-15");
}

#[test]
fn reports_are_read() {
    let text = "\n  \t\r\nrun,ms,run\r\n1,2.5,7\r\n \n2,3.5,8";
    let report = parse_child_csv(text).unwrap();
    assert_eq!(report.headers, vec!["run", "ms", "run"]);
    assert_eq!(report.lines.len(), 2);
    let cells = report.row(0).unwrap();
    assert_eq!(cells, vec!["1", "2.5", "7"]);
    // Of two columns with one name the last counts.
    assert_eq!(report.cell(&cells, "run").unwrap(), "7");
    assert_eq!(report.optional_cell(&cells, "ms"), Some("2.5".to_string()));
    assert_eq!(report.optional_cell(&cells, "kib"), None);
    assert_eq!(report.cell(&cells, "kib"), Err(CsvError::MissingColumn { name: "kib".to_string() }));
    assert_eq!(report.row(1).unwrap()[0], "2");
}

#[test]
fn broken_reports_are_refused() {
    assert_eq!(parse_child_csv(" \n\u{2003}\n"), Err(CsvError::MissingHeader));
    assert_eq!(parse_child_csv(""), Err(CsvError::MissingHeader));
    let report = parse_child_csv("a,b\n1\n").unwrap();
    assert_eq!(
        report.row(0),
        Err(CsvError::CellCount { cells: 1, header_cells: 2, line: "1".to_string() })
    );
    // A carriage return that no line feed follows belongs to its line.
    assert_eq!(parse_child_csv("a\rb").unwrap().headers, vec!["a\rb"]);
    assert_eq!(parse_child_csv("a\r").unwrap().headers, vec!["a\r"]);
}

#[test]
fn peaks_count_once_for_each_worker() {
    let run = |worker_id: usize, peak_rss_bytes: u64| WorkerPeak { worker_id, peak_rss_bytes };
    assert_eq!(sum_worker_peak_rss_bytes(&vec![]), 0);
    assert_eq!(sum_worker_peak_rss_bytes(&vec![run(0, 5), run(1, 7), run(0, 9), run(1, 2)]), 16);
}

#[test]
fn stages_nest() {
    let mut stages = CpuStages::new(true);
    assert!(cpu_stage_profiling_enabled(&stages));
    assert_eq!(current_cpu_stage(&stages), "idle");
    reset_cpu_stage_timings(&mut stages);
    let outer = enter_cpu_stage(&mut stages, "prove".to_string(), 100);
    let inner = enter_cpu_stage(&mut stages, "commit".to_string(), 110);
    assert_eq!(current_cpu_stage(&stages), "commit");
    leave_cpu_stage(&mut stages, inner, 130);
    assert_eq!(current_cpu_stage(&stages), "prove");
    leave_cpu_stage(&mut stages, outer, 200);
    assert_eq!(current_cpu_stage(&stages), "idle");
    let again = enter_cpu_stage(&mut stages, "commit".to_string(), 300);
    leave_cpu_stage(&mut stages, again, 305);
    let late = enter_cpu_stage(&mut stages, "aaa".to_string(), 400);
    leave_cpu_stage(&mut stages, late, 399);
    let taken = take_cpu_stage_timings(&mut stages);
    let timing = |stage: &str, nanos: u128| StageTiming { stage: stage.to_string(), nanos };
    assert_eq!(taken, vec![timing("aaa", 0), timing("commit", 25), timing("prove", 100)]);
    assert!(take_cpu_stage_timings(&mut stages).is_empty());
    // No times are taken any more.
    let guard = enter_cpu_stage(&mut stages, "later".to_string(), 500);
    assert_eq!(guard.start_nanos, None);
    leave_cpu_stage(&mut stages, guard, 600);
    assert!(take_cpu_stage_timings(&mut stages).is_empty());
}

#[test]
fn times_stop_at_the_largest_number() {
    let mut stages = CpuStages::new(true);
    reset_cpu_stage_timings(&mut stages);
    stages.timings.push(StageTiming { stage: "prove".to_string(), nanos: u128::MAX - 7 });
    let outer = enter_cpu_stage(&mut stages, "build".to_string(), 0);
    let inner = enter_cpu_stage(&mut stages, "prove".to_string(), 10);
    leave_cpu_stage(&mut stages, inner, 15);
    assert_eq!(stages.timings[0].nanos, u128::MAX - 2);
    let inner = enter_cpu_stage(&mut stages, "prove".to_string(), 20);
    leave_cpu_stage(&mut stages, inner, 30);
    assert_eq!(stages.timings[0].nanos, u128::MAX);
    assert_eq!(current_cpu_stage(&stages), "build");
    leave_cpu_stage(&mut stages, outer, u64::MAX);
    assert_eq!(current_cpu_stage(&stages), "idle");
    assert_eq!(stage_duration(&stages.timings, "build"), Some(u64::MAX as u128));
}

#[test]
fn without_profiling_nothing_is_kept() {
    let mut stages = CpuStages::new(false);
    assert!(!cpu_stage_profiling_enabled(&stages));
    reset_cpu_stage_timings(&mut stages);
    let guard = enter_cpu_stage(&mut stages, "prove".to_string(), 1);
    assert_eq!(current_cpu_stage(&stages), "profiling-disabled");
    leave_cpu_stage(&mut stages, guard, 9);
    assert!(take_cpu_stage_timings(&mut stages).is_empty());
}

#[test]
fn times_and_memory() {
    assert_eq!(process_nanos((1, 500_000), (-3, 250)), 1_500_250_000);
    assert_eq!(process_nanos((-1, -1), (0, 0)), 0);
    assert_eq!(peak_bytes(7, false), 7168);
    assert_eq!(peak_bytes(7, true), 7);
    let timing = |stage: &str, nanos: u128| StageTiming { stage: stage.to_string(), nanos };
    let runs = vec![vec![timing("a", 10), timing("b", 1)], vec![timing("b", 2)], vec![timing("a", 15)]];
    assert_eq!(stage_duration(&runs[0], "b"), Some(1));
    assert_eq!(stage_duration(&runs[1], "a"), None);
    assert_eq!(mean_stage_duration(&runs, "a"), Some(12));
    assert_eq!(mean_stage_duration(&runs, "c"), None);
}

#[test]
fn timeline_is_cut_into_stages() {
    let sample = |elapsed_nanos: u64, stage: &str| TimelineSample { elapsed_nanos, stage: stage.to_string() };
    assert!(cpu_stage_segments(&vec![]).is_empty());
    let segments =
        cpu_stage_segments(&vec![sample(5, "a"), sample(10, "a"), sample(15, "b"), sample(20, "a"), sample(25, "a")]);
    let parts: Vec<(u64, u64, &str)> =
        segments.iter().map(|s| (s.start_nanos, s.end_nanos, s.stage.as_str())).collect();
    assert_eq!(parts, vec![(0, 15, "a"), (15, 20, "b"), (20, 25, "a")]);
}

#[test]
fn stages_have_phases_and_colors() {
    assert_eq!(stage_phase("run/generate"), "generate");
    assert_eq!(stage_phase("run2/generate"), "generate");
    assert_eq!(stage_phase("run/build/x"), "build");
    assert_eq!(stage_phase("run3/verify"), "verify");
    assert_eq!(stage_phase("prove/whir/commit"), "prove");
    assert_eq!(stage_phase("run1/prove"), "prove");
    assert_eq!(stage_phase("idle"), "idle");
    assert_eq!(stage_phase("other/part"), "other");
    assert_eq!(stage_color("run/generate"), "#6b8fce");
    assert_eq!(stage_color("run/build"), "#49a078");
    assert_eq!(stage_color("prove/x"), "#9b6bd3");
    assert_eq!(stage_color("run/verify"), "#cf5c5c");
    assert_eq!(stage_color("idle"), "#c9c9c2");
    assert_eq!(short_stage_label("prove/whir/commit_fft"), "commit fft");
    assert_eq!(short_stage_label("a_b"), "a b");
}

#[test]
fn traffic_of_stages() {
    assert_eq!(initial_product_sumcheck_bytes(16, 0, 2, 3), 80);
    assert_eq!(initial_product_sumcheck_bytes(16, 1, 2, 3), 80 + 80 + 48 + 72);
    assert_eq!(initial_product_sumcheck_bytes(16, 2, 2, 3), 80 + 80 + 48 + 72);
    assert_eq!(initial_product_sumcheck_bytes(16, 4, 2, 3), 80 + 80 + 48 + 72 + 36 + 18);
    assert_eq!(combine_statement_bytes(3, 16, 64, 2, 20), 16 * 20 + 2 * (3 * 4 * 20));
    let estimates = memory_traffic_estimates(TrafficInputs {
        committed_columns: 3,
        padded_rows: 16,
        folding_factor: 2,
        starting_log_inv_rate: 1,
        f_bytes: 4,
        pf_pack_bytes: 16,
        ef_pack_bytes: 80,
        pack_log: 2,
        pack_width: 4,
    });
    let bytes: Vec<u128> = estimates.iter().map(|e| e.bytes).collect();
    // 48 values in 64; a matrix of height 32 with 3 columns filled and 4 transformed.
    assert_eq!(bytes[0], (48 + 64) * 4);
    assert_eq!(bytes[1], 64 * 4 + 32 * 4 * 4);
    assert_eq!(bytes[2], 32 * 4 * 4 + 32 * 32 * 3);
    assert_eq!(bytes[3], combine_statement_bytes(3, 16, 64, 2, 80));
    assert_eq!(bytes[4], initial_product_sumcheck_bytes(16, 2, 16, 80));
    assert_eq!(estimates[1].stage, "prove/whir/commit_fft");
    assert_eq!(estimates[4].note, "read evals/weights and fold packed vectors in place");
}

#[test]
fn graphics_processor_is_off_unless_available() {
    assert!(!metal_available());
    let mut switch = GpuSwitch::new();
    assert!(!gpu_enabled(&switch));
    assert_eq!(configure_gpu(&mut switch, false, true), GpuChoice::Unrequested);
    assert_eq!(configure_gpu(&mut switch, true, metal_available()), GpuChoice::Unavailable);
    assert!(!gpu_enabled(&switch));
    assert_eq!(configure_gpu(&mut switch, true, true), GpuChoice::Enabled);
    assert!(gpu_enabled(&switch));
    set_gpu_enabled(&mut switch, false);
    assert!(!gpu_enabled(&switch));
}
