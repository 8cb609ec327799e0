use dragonfly_bench::bench_runner::{session_stamp, trial_root, BenchRunner, RunResults, Session};
use dragonfly_bench::error::{ConfigError, PathStatus};
use dragonfly_bench::process::{BenchmarkRunResult, ProcessConfig};

fn config(id: &str, path: &str) -> ProcessConfig {
    ProcessConfig {
        path: path.to_string(),
        id: id.to_string(),
        args: vec![("port".to_string(), "6379".to_string())],
        warmup: None,
    }
}

fn runner() -> BenchRunner {
    BenchRunner {
        root: "/bench".to_string(),
        cooldown_sec: 10,
        n_runs: 2,
        dragonflies: vec![config("normal-build", "/opt/a"), config("opt-build", "/opt/b")],
        benchmarks: vec![
            config("write-only-256-1", "/usr/bin/m"),
            config("write-only-256-32", "/usr/bin/m"),
        ],
    }
}

fn ok() -> PathStatus {
    PathStatus::Present { is_file: true, mode: 0o755 }
}

fn result(run_id: u64, dragonfly: &str) -> BenchmarkRunResult {
    BenchmarkRunResult {
        run_id,
        dragonfly_id: dragonfly.to_string(),
        benchmark_output_file: format!("/out/{run_id}/{dragonfly}.json"),
    }
}

#[test]
fn validate_accepts_good_executables() {
    let r = runner();
    assert!(r.validate(&vec![ok(), ok(), ok(), ok()]).is_ok());
}

#[test]
fn validate_reports_first_refusal_in_order() {
    let r = runner();
    let statuses = vec![
        ok(),
        ok(),
        PathStatus::Present { is_file: true, mode: 0o600 },
        PathStatus::Present { is_file: false, mode: 0o755 },
    ];
    match r.validate(&statuses) {
        Err(ConfigError::NotExecutable(p)) => assert_eq!(p, "/usr/bin/m"),
        _ => panic!("expected the first benchmark to be refused"),
    }
    let statuses = vec![ok(), PathStatus::Present { is_file: false, mode: 0o755 }, ok(), ok()];
    match r.validate(&statuses) {
        Err(ConfigError::NotAFile(p)) => assert_eq!(p, "/opt/b"),
        _ => panic!("expected the second server build to be refused"),
    }
}

#[test]
fn session_and_trial_directories() {
    let r = runner();
    let session = r.session_root("2024-01-02_03-04-05");
    assert_eq!(session, "/bench/runs/2024-01-02_03-04-05");
    assert_eq!(trial_root(&session, 0), "/bench/runs/2024-01-02_03-04-05/0");
    assert_eq!(trial_root(&session, 12), "/bench/runs/2024-01-02_03-04-05/12");
    assert_ne!(trial_root(&session, 1), trial_root(&session, 11));
}

#[test]
fn started_session_lies_under_runs() {
    let r = runner();
    let (stamp, dir) = r.start_session().unwrap();
    assert!(stamp.len() >= 19);
    let tail: Vec<char> = stamp.chars().rev().take(15).collect::<Vec<_>>().into_iter().rev().collect();
    let shape: String = tail.iter().map(|c| if c.is_ascii_digit() { 'D' } else { *c }).collect();
    assert_eq!(shape, "-DD-DD_DD-DD-DD");
    let head = &stamp[..stamp.len() - 15];
    assert!(head.chars().all(|c| c.is_ascii_digit() || c == '+'));
    assert_eq!(dir, format!("/bench/runs/{stamp}"));
}

#[test]
fn start_benchmark_copies_configuration() {
    let r = runner();
    let run = r.start_benchmark("/bench/runs/s/1", 1).unwrap();
    assert_eq!(run.root, "/bench/runs/s/1");
    assert_eq!(run.cooldown_sec, 10);
    assert_eq!(run.benchmark_config.id, "write-only-256-32");
    let mut ids: Vec<&str> = run.dragonfly_configs.iter().map(|c| c.id.as_str()).collect();
    ids.sort();
    assert_eq!(ids, vec!["normal-build", "opt-build"]);
}

#[test]
fn results_accumulate_per_benchmark() {
    let mut results = RunResults::new();
    assert_eq!(results.len(), 0);
    results.record("write-only-256-1", vec![result(0, "a"), result(0, "b")]);
    results.record("write-only-256-32", vec![result(0, "b")]);
    results.record("write-only-256-1", vec![result(1, "b")]);
    assert_eq!(results.len(), 2);
    let (id, runs) = results.entry(0);
    assert_eq!(id, "write-only-256-1");
    let seen: Vec<(u64, &str)> = runs.iter().map(|r| (r.run_id, r.dragonfly_id.as_str())).collect();
    assert_eq!(seen, vec![(0, "a"), (0, "b"), (1, "b")]);
    let (id, runs) = results.entry(1);
    assert_eq!(id, "write-only-256-32");
    assert_eq!(runs.len(), 1);
    assert_eq!(runs[0].benchmark_output_file, "/out/0/b.json");
}

#[test]
fn session_runs_every_benchmark_per_trial_and_accumulates() {
    let r = runner();
    let mut session = Session::new(&r, "/bench/runs/s".to_string());
    let mut order = vec![];
    while let Some(step) = session.next_step() {
        order.push((step.trial, step.benchmark, step.trial_dir.clone()));
        let runs = vec![result(step.trial, "a"), result(step.trial, "b")];
        session = session.step_done(runs);
    }
    assert_eq!(
        order,
        vec![
            (0, 0, "/bench/runs/s/0".to_string()),
            (0, 1, "/bench/runs/s/0".to_string()),
            (1, 0, "/bench/runs/s/1".to_string()),
            (1, 1, "/bench/runs/s/1".to_string()),
        ]
    );
    let results = session.into_results();
    assert_eq!(results.len(), 2);
    let (id, runs) = results.entry(0);
    assert_eq!(id, "write-only-256-1");
    let seen: Vec<(u64, &str)> = runs.iter().map(|r| (r.run_id, r.dragonfly_id.as_str())).collect();
    assert_eq!(seen, vec![(0, "a"), (0, "b"), (1, "a"), (1, "b")]);
    let (id, runs) = results.entry(1);
    assert_eq!(id, "write-only-256-32");
    assert_eq!(runs.len(), 4);
}

#[test]
fn session_without_trials_has_no_steps() {
    let mut r = runner();
    r.n_runs = 0;
    let session = Session::new(&r, "/x".to_string());
    assert!(session.next_step().is_none());
    assert_eq!(session.into_results().len(), 0);
}

#[test]
fn begun_session_lies_under_runs() {
    let r = runner();
    let session = r.begin_session().unwrap();
    assert!(session.next_step().unwrap().trial_dir.starts_with("/bench/runs/"));
}

#[test]
fn stamps_of_fixed_times() {
    assert_eq!(session_stamp(0, 0).as_deref(), Some("1970-01-01_00-00-00"));
    assert_eq!(session_stamp(1431648000, 999_999_999).as_deref(), Some("2015-05-15_00-00-00"));
    assert_eq!(session_stamp(1704164645, 0).as_deref(), Some("2024-01-02_03-04-05"));
    assert_eq!(session_stamp(253402300800, 0).as_deref(), Some("+10000-01-01_00-00-00"));
    assert_eq!(session_stamp(u64::MAX, 0), None);
    assert_eq!(session_stamp(i64::MAX as u64, 0), None);
}
