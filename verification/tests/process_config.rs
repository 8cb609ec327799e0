use dragonfly_bench::error::{ConfigError, PathStatus};
use dragonfly_bench::process::{
    judge_ping, next_wait_action, BenchmarkRun, PingReply, ProcessConfig, ReadyVerdict,
    RunProgress, WaitAction, READY_TIMEOUT_MS,
};

fn pairs(items: &[(&str, &str)]) -> Vec<(String, String)> {
    items.iter().map(|(k, v)| (k.to_string(), v.to_string())).collect()
}

fn server(id: &str) -> ProcessConfig {
    ProcessConfig {
        path: format!("/opt/{id}/dragonfly"),
        id: id.to_string(),
        args: pairs(&[("port", "6379"), ("dir", "ROOT+data")]),
        warmup: None,
    }
}

fn benchmark() -> ProcessConfig {
    ProcessConfig {
        path: "/usr/bin/memtier_benchmark".to_string(),
        id: "write-only-256-1".to_string(),
        args: pairs(&[("json-out-file", "ROOT+out.json"), ("ratio", "1:0")]),
        warmup: Some(pairs(&[("ratio", "1:0"), ("hide-histogram", "")])),
    }
}

#[test]
fn process_config_resolve_and_args() {
    let mut c = server("normal-build");
    c.resolve_paths("/r/b/d");
    assert_eq!(c.build_process_args(), vec!["--port=6379", "--dir=/r/b/d/data"]);
    assert_eq!(c.get("dir").map(|s| s.as_str()), Some("/r/b/d/data"));
    assert_eq!(c.get("nope"), None);
}

#[test]
fn process_config_warmup_args() {
    let b = benchmark();
    assert_eq!(b.build_warmup_args(), vec!["--ratio=1:0", "--hide-histogram"]);
}

#[test]
fn validate_statuses() {
    let c = server("x");
    assert!(c.validate(&PathStatus::Present { is_file: true, mode: 0o755 }).is_ok());
    assert!(c.validate(&PathStatus::Present { is_file: true, mode: 0o100 }).is_ok());
    match c.validate(&PathStatus::Present { is_file: false, mode: 0o755 }) {
        Err(e @ ConfigError::NotAFile(_)) => assert_eq!(e.message(), "/opt/x/dragonfly is not a file"),
        _ => panic!("expected NotAFile"),
    }
    match c.validate(&PathStatus::Present { is_file: true, mode: 0o644 }) {
        Err(e @ ConfigError::NotExecutable(_)) => {
            assert_eq!(e.message(), "/opt/x/dragonfly is not an executable")
        }
        _ => panic!("expected NotExecutable"),
    }
    match c.validate(&PathStatus::Unreadable("No such file or directory (os error 2)".to_string())) {
        Err(e @ ConfigError::Unreadable(_)) => {
            assert_eq!(e.message(), "No such file or directory (os error 2)")
        }
        _ => panic!("expected Unreadable"),
    }
}

#[test]
fn new_run_keeps_every_server() {
    let servers: Vec<ProcessConfig> = (0..8).map(|i| server(&format!("build-{i}"))).collect();
    let run = BenchmarkRun::new("/r".to_string(), 3, benchmark(), servers).unwrap();
    let mut ids: Vec<String> = run.dragonfly_configs.iter().map(|c| c.id.clone()).collect();
    ids.sort();
    let expected: Vec<String> = (0..8).map(|i| format!("build-{i}")).collect();
    assert_eq!(ids, expected);
    assert_eq!(run.cooldown_sec, 3);
    assert_eq!(run.root, "/r");
    assert_eq!(run.benchmark_config.id, "write-only-256-1");
}

#[test]
fn plan_step_of_a_run() {
    let mut run = BenchmarkRun {
        root: "/runs/s/0".to_string(),
        cooldown_sec: 5,
        benchmark_config: benchmark(),
        dragonfly_configs: vec![server("a"), server("b")],
    };
    let plan = run.plan_step(0);
    assert_eq!(plan.root, "/runs/s/0/write-only-256-1/a");
    assert_eq!(plan.process_path, "/opt/a/dragonfly");
    assert_eq!(plan.process_args, vec!["--port=6379", "--dir=/runs/s/0/write-only-256-1/a/data"]);
    assert_eq!(plan.benchmark_path, "/usr/bin/memtier_benchmark");
    assert_eq!(
        plan.benchmark_args,
        vec!["--json-out-file=/runs/s/0/write-only-256-1/a/out.json", "--ratio=1:0"]
    );
    assert_eq!(plan.warmup_args, Some(vec!["--ratio=1:0".to_string(), "--hide-histogram".to_string()]));
    assert_eq!(plan.data_dir.as_deref(), Some("/runs/s/0/write-only-256-1/a/data"));
    assert_eq!(plan.output_file.as_deref(), Some("/runs/s/0/write-only-256-1/a/out.json"));
    assert!(plan.cooldown);
    assert_eq!(run.dragonfly_configs[0].args[1].1, "/runs/s/0/write-only-256-1/a/data");
    assert_eq!(run.dragonfly_configs[1].args[1].1, "ROOT+data");
    assert_eq!(run.benchmark_config.args[0].1, "ROOT+out.json");

    let result = plan.result(4);
    assert_eq!(result.run_id, 4);
    assert_eq!(result.dragonfly_id, "a");
    assert_eq!(result.benchmark_output_file, "/runs/s/0/write-only-256-1/a/out.json");

    let last = run.plan_step(1);
    assert!(!last.cooldown);
    assert_eq!(last.root, "/runs/s/0/write-only-256-1/b");
}

#[test]
fn plan_step_without_output_or_warmup() {
    let mut bench = benchmark();
    bench.args = pairs(&[("ratio", "0:1")]);
    bench.warmup = None;
    let mut s = server("a");
    s.args = pairs(&[("port", "1")]);
    let mut run = BenchmarkRun {
        root: "r".to_string(),
        cooldown_sec: 0,
        benchmark_config: bench,
        dragonfly_configs: vec![s],
    };
    let plan = run.plan_step(0);
    assert_eq!(plan.root, "r/write-only-256-1/a");
    assert_eq!(plan.warmup_args, None);
    assert_eq!(plan.data_dir, None);
    assert_eq!(plan.output_file, None);
    assert!(!plan.cooldown);
}

#[test]
fn ping_verdicts() {
    assert!(matches!(judge_ping(&PingReply::Answer("PONG".to_string())), ReadyVerdict::Ready));
    match judge_ping(&PingReply::Answer("LOADING".to_string())) {
        ReadyVerdict::Retry(m) => assert_eq!(m, "bad response LOADING... will retry"),
        _ => panic!("expected a retry"),
    }
    match judge_ping(&PingReply::Failure("Connection refused".to_string())) {
        ReadyVerdict::Retry(m) => assert_eq!(m, "Connection refused... will retry"),
        _ => panic!("expected a retry"),
    }
}

#[test]
fn wait_gives_up_after_timeout() {
    assert!(matches!(next_wait_action(0), WaitAction::Ping));
    assert!(matches!(next_wait_action(READY_TIMEOUT_MS - 1), WaitAction::Ping));
    assert!(matches!(next_wait_action(READY_TIMEOUT_MS), WaitAction::GiveUp));
    assert_eq!(READY_TIMEOUT_MS, 5000);
}

fn two_server_run() -> BenchmarkRun {
    BenchmarkRun {
        root: "/runs/s/2".to_string(),
        cooldown_sec: 0,
        benchmark_config: benchmark(),
        dragonfly_configs: vec![server("a"), server("b"), server("c")],
    }
}

#[test]
fn run_progress_measures_every_server_in_order() {
    let mut run = two_server_run();
    let mut progress = RunProgress::new(&run, 2);
    while let Some(n) = progress.next_step() {
        let plan = run.plan_step(n);
        progress = progress.step_measured(&plan);
    }
    let records = progress.finish();
    let seen: Vec<(u64, &str, &str)> = records
        .iter()
        .map(|r| (r.run_id, r.dragonfly_id.as_str(), r.benchmark_output_file.as_str()))
        .collect();
    assert_eq!(
        seen,
        vec![
            (2, "a", "/runs/s/2/write-only-256-1/a/out.json"),
            (2, "b", "/runs/s/2/write-only-256-1/b/out.json"),
            (2, "c", "/runs/s/2/write-only-256-1/c/out.json"),
        ]
    );
}

#[test]
fn run_progress_stops_at_first_silent_server() {
    let mut run = two_server_run();
    let mut progress = RunProgress::new(&run, 0);
    let n = progress.next_step().unwrap();
    let plan = run.plan_step(n);
    progress = progress.step_measured(&plan);
    assert_eq!(progress.next_step(), Some(1));
    progress = progress.not_ready();
    assert_eq!(progress.next_step(), None);
    let records = progress.finish();
    assert_eq!(records.len(), 1);
    assert_eq!(records[0].dragonfly_id, "a");
}
