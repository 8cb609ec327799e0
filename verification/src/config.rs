//! The earlier configuration of a session: processes without a warm-up pass, and a
//! schedule that runs every benchmark in each trial.

use vstd::prelude::*;
use vstd::string::*;

use crate::args::{
    args_text, copy_pairs, format_pairs, lemma_resolve_keeps_names, pairs_view, resolve_pairs,
    strings_view,
};
use crate::bench_runner::trial_path;
use crate::process::ProcessConfigView;
use crate::text::{decimal_string, join_path, path_join};

verus! {

/// A process to start: the executable, its name and its arguments.
pub struct ProcessConfig {
    pub path: String,
    pub id: String,
    pub args: Vec<(String, String)>,
}

impl View for ProcessConfig {
    type V = ProcessConfigView;

    open spec fn view(&self) -> ProcessConfigView {
        ProcessConfigView {
            path: self.path@,
            id: self.id@,
            args: pairs_view(self.args@),
            warmup: None,
        }
    }
}

/// The configurations as text.
pub open spec fn views(s: Seq<ProcessConfig>) -> Seq<ProcessConfigView> {
    s.map_values(|c: ProcessConfig| c@)
}

impl ProcessConfig {
    /// A copy of the configuration.
    pub fn duplicate(&self) -> (copy: ProcessConfig)
        ensures
            copy@ == self@,
    {
        ProcessConfig { path: self.path.clone(), id: self.id.clone(), args: copy_pairs(&self.args) }
    }

    /// Resolves every argument value of the form `ROOT+rest` to `rest` joined onto `root`.
    pub fn resolve_paths(&mut self, root: &str)
        ensures
            final(self)@ == old(self)@.resolved(root@),
            final(self)@.names_distinct() == old(self)@.names_distinct(),
    {
        let resolved = resolve_pairs(&self.args, root);
        self.args = resolved;
        proof {
            lemma_resolve_keeps_names(old(self)@.args, root@);
        }
    }

    /// The command-line arguments of the process.
    pub fn build_args(&self) -> (out: Vec<String>)
        ensures
            strings_view(out@) == args_text(self@.args),
    {
        format_pairs(&self.args)
    }
}

fn duplicate_all(configs: &Vec<ProcessConfig>) -> (out: Vec<ProcessConfig>)
    ensures
        views(out@) == views(configs@),
{
    let mut out: Vec<ProcessConfig> = Vec::new();
    let n = configs.len();
    for i in 0..n
        invariant
            n == configs@.len(),
            out@.len() == i,
            forall|j: int| 0 <= j < i ==> (#[trigger] out@[j])@ == configs@[j]@,
    {
        out.push(configs[i].duplicate());
    }
    assert(views(out@) =~= views(configs@));
    out
}

/// A session: every benchmark measured against every server build, in each trial.
pub struct RunConfig {
    pub root: String,
    pub cooldown_sec: u64,
    pub dragonflies: Vec<ProcessConfig>,
    pub benchmarks: Vec<ProcessConfig>,
}

/// One benchmark to measure against the server builds, in a trial's directory.
pub struct RunTask {
    pub root: String,
    pub benchmark: ProcessConfig,
    pub dragonflies: Vec<ProcessConfig>,
}

/// The directory that holds the trials of a session under `root`.
pub open spec fn runs_path(root: Seq<char>) -> Seq<char> {
    path_join(root, seq!['r', 'u', 'n', 's'])
}

impl RunConfig {
    /// The directory of one server build measured with one benchmark:
    /// `root/<dragonfly_id>/<benchmark_id>`.
    pub fn make_run_root(&self, dragonfly_id: &str, benchmark_id: &str) -> (dir: String)
        ensures
            dir@ == path_join(path_join(self.root@, dragonfly_id@), benchmark_id@),
    {
        let first = join_path(self.root.as_str(), dragonfly_id);
        join_path(first.as_str(), benchmark_id)
    }

    /// The benchmark runs of `count` trials: in trial `n`, each benchmark, in order, in
    /// the directory `root/runs/<n>`, against copies of all server builds.
    pub fn run(&self, count: usize) -> (tasks: Vec<Vec<RunTask>>)
        ensures
            tasks@.len() == count,
            forall|n: int|
                0 <= n < count ==> (#[trigger] tasks@[n])@.len() == self.benchmarks@.len(),
            forall|n: int, b: int|
                0 <= n < count && 0 <= b < self.benchmarks@.len() ==> {
                    let task = #[trigger] tasks@[n]@[b];
                    &&& task.root@ == trial_path(runs_path(self.root@), n as nat)
                    &&& task.benchmark@ == self.benchmarks@[b]@
                    &&& views(task.dragonflies@) == views(self.dragonflies@)
                },
    {
        proof {
            reveal_strlit("runs");
        }
        let runs = join_path(self.root.as_str(), "runs");
        assert("runs"@ =~= seq!['r', 'u', 'n', 's']);
        let nb = self.benchmarks.len();
        let mut tasks: Vec<Vec<RunTask>> = Vec::new();
        for n in 0..count
            invariant
                nb == self.benchmarks@.len(),
                runs@ == runs_path(self.root@),
                tasks@.len() == n,
                forall|m: int| 0 <= m < n ==> (#[trigger] tasks@[m])@.len() == nb,
                forall|m: int, b: int|
                    0 <= m < n && 0 <= b < nb ==> {
                        let task = #[trigger] tasks@[m]@[b];
                        &&& task.root@ == trial_path(runs_path(self.root@), m as nat)
                        &&& task.benchmark@ == self.benchmarks@[b]@
                        &&& views(task.dragonflies@) == views(self.dragonflies@)
                    },
        {
            let number = decimal_string(n as u64);
            let trial = join_path(runs.as_str(), number.as_str());
            let mut trial_tasks: Vec<RunTask> = Vec::new();
            for b in 0..nb
                invariant
                    nb == self.benchmarks@.len(),
                    trial@ == trial_path(runs_path(self.root@), n as nat),
                    trial_tasks@.len() == b,
                    forall|c: int|
                        0 <= c < b ==> {
                            let task = #[trigger] trial_tasks@[c];
                            &&& task.root@ == trial@
                            &&& task.benchmark@ == self.benchmarks@[c]@
                            &&& views(task.dragonflies@) == views(self.dragonflies@)
                        },
            {
                trial_tasks.push(
                    RunTask {
                        root: trial.clone(),
                        benchmark: self.benchmarks[b].duplicate(),
                        dragonflies: duplicate_all(&self.dragonflies),
                    },
                );
            }
            tasks.push(trial_tasks);
        }
        tasks
    }
}

} // verus!
