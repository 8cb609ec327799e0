use dragonfly_bench::config::{ProcessConfig, RunConfig};

fn config(id: &str) -> ProcessConfig {
    ProcessConfig {
        path: format!("/bin/{id}"),
        id: id.to_string(),
        args: vec![
            ("dir".to_string(), "ROOT+data".to_string()),
            ("threads".to_string(), String::new()),
        ],
    }
}

fn run_config() -> RunConfig {
    RunConfig {
        root: "/results".to_string(),
        cooldown_sec: 1,
        dragonflies: vec![config("normal-build")],
        benchmarks: vec![config("write-only-256-1"), config("write-only-256-32")],
    }
}

#[test]
fn config_process_args() {
    let mut c = config("x");
    assert_eq!(c.build_args(), vec!["--dir=ROOT+data", "--threads"]);
    c.resolve_paths("/r");
    assert_eq!(c.build_args(), vec!["--dir=/r/data", "--threads"]);
}

#[test]
fn make_run_root_joins_ids() {
    let rc = run_config();
    assert_eq!(rc.make_run_root("normal-build", "write-only-256-1"), "/results/normal-build/write-only-256-1");
}

#[test]
fn run_schedules_every_benchmark_per_trial() {
    let rc = run_config();
    let tasks = rc.run(3);
    assert_eq!(tasks.len(), 3);
    for (n, trial) in tasks.iter().enumerate() {
        assert_eq!(trial.len(), 2);
        assert_eq!(trial[0].root, format!("/results/runs/{n}"));
        assert_eq!(trial[0].benchmark.id, "write-only-256-1");
        assert_eq!(trial[1].benchmark.id, "write-only-256-32");
        assert_eq!(trial[1].dragonflies.len(), 1);
        assert_eq!(trial[1].dragonflies[0].id, "normal-build");
    }
    assert!(rc.run(0).is_empty());
}
