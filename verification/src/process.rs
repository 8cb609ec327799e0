//! Processes of a benchmark run: their configuration, the plan of each step of a run,
//! and the decisions taken while waiting for a server to answer.

use rand::seq::SliceRandom;
use rand::SeedableRng;
use vstd::multiset::Multiset;
use vstd::prelude::*;
use vstd::string::*;

use crate::args::{
    args_text, copy_pairs, find_value, format_pairs, lemma_lookup_distinct,
    lemma_resolve_keeps_names, lookup, names_distinct, pairs_view, resolve_all, resolve_pairs,
    strings_view,
};
use crate::error::{check_path, path_problem, ConfigError, PathStatus};
use crate::text::{join_path, path_join};

verus! {

/// A process to start: the executable, its name, its arguments and, for a benchmark,
/// the arguments of an optional warm-up pass.
pub struct ProcessConfig {
    pub path: String,
    pub id: String,
    pub args: Vec<(String, String)>,
    pub warmup: Option<Vec<(String, String)>>,
}

/// A process configuration as text.
#[verifier::ext_equal]
pub struct ProcessConfigView {
    pub path: Seq<char>,
    pub id: Seq<char>,
    pub args: Seq<(Seq<char>, Seq<char>)>,
    pub warmup: Option<Seq<(Seq<char>, Seq<char>)>>,
}

impl View for ProcessConfig {
    type V = ProcessConfigView;

    open spec fn view(&self) -> ProcessConfigView {
        ProcessConfigView {
            path: self.path@,
            id: self.id@,
            args: pairs_view(self.args@),
            warmup: match self.warmup {
                Some(w) => Some(pairs_view(w@)),
                None => None,
            },
        }
    }
}

impl ProcessConfigView {
    /// No argument name occurs twice, neither among the arguments nor among the warm-up
    /// arguments, as in the maps from names to values that the configuration files hold.
    pub open spec fn names_distinct(self) -> bool {
        &&& names_distinct(self.args)
        &&& self.warmup matches Some(w) ==> names_distinct(w)
    }

    /// The configuration after its argument values are resolved against `root`;
    /// the warm-up arguments are left as they are.
    pub open spec fn resolved(self, root: Seq<char>) -> ProcessConfigView {
        ProcessConfigView {
            path: self.path,
            id: self.id,
            args: resolve_all(self.args, root),
            warmup: self.warmup,
        }
    }
}

/// The configurations as text.
pub open spec fn config_views(s: Seq<ProcessConfig>) -> Seq<ProcessConfigView> {
    s.map_values(|c: ProcessConfig| c@)
}

impl ProcessConfig {
    /// A copy of the configuration.
    pub fn duplicate(&self) -> (copy: ProcessConfig)
        ensures
            copy@ == self@,
    {
        let warmup = match &self.warmup {
            Some(w) => Some(copy_pairs(w)),
            None => None,
        };
        ProcessConfig {
            path: self.path.clone(),
            id: self.id.clone(),
            args: copy_pairs(&self.args),
            warmup,
        }
    }

    /// Resolves every argument value of the form `ROOT+rest` to `rest` joined onto `root`.
    pub fn resolve_paths(&mut self, root: &str)
        ensures
            final(self)@ == old(self)@.resolved(root@),
            final(self)@.names_distinct() == old(self)@.names_distinct(),
    {
        let resolved = resolve_pairs(&self.args, root);
        self.args = resolved;
        proof {
            lemma_resolve_keeps_names(old(self)@.args, root@);
        }
    }

    /// The command-line arguments that the pairs `m` give.
    pub fn build_args(&self, m: &Vec<(String, String)>) -> (out: Vec<String>)
        ensures
            strings_view(out@) == args_text(pairs_view(m@)),
    {
        format_pairs(m)
    }

    /// The command-line arguments of the warm-up pass.
    pub fn build_warmup_args(&self) -> (out: Vec<String>)
        requires
            self.warmup is Some,
        ensures
            strings_view(out@) == args_text(self@.warmup.unwrap()),
    {
        match &self.warmup {
            Some(w) => self.build_args(w),
            None => Vec::new(),
        }
    }

    /// The command-line arguments of the process.
    pub fn build_process_args(&self) -> (out: Vec<String>)
        ensures
            strings_view(out@) == args_text(self@.args),
    {
        self.build_args(&self.args)
    }

    /// The value of the argument named `key`.
    pub fn get(&self, key: &str) -> (value: Option<&String>)
        ensures
            match value {
                Some(v) => lookup(self@.args, key@) == Some(v@),
                None => lookup(self@.args, key@) is None,
            },
            names_distinct(self@.args) ==> forall|i: int|
                0 <= i < self@.args.len() && #[trigger] self@.args[i].0 == key@ ==> (value matches Some(
                    v,
                ) && v@ == self@.args[i].1),
    {
        proof {
            if names_distinct(self@.args) {
                lemma_lookup_distinct(self@.args, key@);
            }
        }
        find_value(&self.args, key)
    }

    /// Checks that the executable is a regular file that someone may execute, given
    /// what the file system reports of `self.path`.
    pub fn validate(&self, status: &PathStatus) -> (res: Result<(), ConfigError>)
        ensures
            match res {
                Ok(()) => path_problem(self@.path, *status) is None,
                Err(e) => path_problem(self@.path, *status) == Some(e@),
            },
    {
        check_path(&self.path, status)
    }
}

/// Copies of the configurations, in order.
pub fn duplicate_all(configs: &Vec<ProcessConfig>) -> (out: Vec<ProcessConfig>)
    ensures
        config_views(out@) == config_views(configs@),
{
    let mut out: Vec<ProcessConfig> = Vec::new();
    let n = configs.len();
    for i in 0..n
        invariant
            n == configs@.len(),
            out@.len() == i,
            forall|j: int| 0 <= j < i ==> (#[trigger] out@[j])@ == configs@[j]@,
    {
        out.push(configs[i].duplicate());
    }
    assert(config_views(out@) =~= config_views(configs@));
    out
}

/// `rand`'s standard generator, `rand::rngs::StdRng`.
#[verifier::external_type_specification]
#[verifier::external_body]
pub struct ExStdRng(rand::rngs::StdRng);

/// A generator seeded from the operating system: `StdRng::from_rng(OsRng)`, which gives
/// an error, mapped to `None`, where the operating system cannot give entropy. Nothing is
/// claimed of which of the two comes out, nor of the seed.
#[verifier::external_body]
pub(crate) fn seeded_generator() -> Option<rand::rngs::StdRng> {
    match rand::rngs::StdRng::from_rng(rand::rngs::OsRng) {
        Ok(rng) => Some(rng),
        Err(_) => None,
    }
}

/// Shuffles the configurations in place with `rand`'s `SliceRandom::shuffle`, drawing
/// from `rng`. Claimed: the same configurations come out, each as often as it went in
/// (the shuffle only swaps elements). The order that comes out is random and not claimed.
#[verifier::external_body]
fn shuffle_configs(configs: &mut Vec<ProcessConfig>, rng: &mut rand::rngs::StdRng)
    ensures
        final(configs)@.to_multiset() == old(configs)@.to_multiset(),
{
    configs.shuffle(rng);
}

proof fn lemma_multiset_remove_insert<A>(m: Multiset<A>, a: A)
    requires
        m.count(a) > 0,
    ensures
        m.remove(a).insert(a) == m,
{
    assert(m.remove(a).insert(a) =~= m);
}

/// Mapping two sequences that hold the same elements, each as often, gives two
/// sequences that again hold the same elements, each as often.
pub proof fn lemma_map_multiset<A, B>(s1: Seq<A>, s2: Seq<A>, f: spec_fn(A) -> B)
    requires
        s1.to_multiset() == s2.to_multiset(),
    ensures
        s1.map_values(f).to_multiset() == s2.map_values(f).to_multiset(),
    decreases s1.len(),
{
    broadcast use vstd::seq_lib::group_to_multiset_ensures;

    if s1.len() == 0 {
        assert(s1.to_multiset().len() == 0);
        assert(s2.to_multiset().len() == s2.len());
        assert(s1.map_values(f) =~= Seq::<B>::empty());
        assert(s2.map_values(f) =~= Seq::<B>::empty());
    } else {
        let x = s1.last();
        let rest1 = s1.drop_last();
        assert(s1 =~= rest1.push(x));
        assert(s1.to_multiset() == rest1.to_multiset().insert(x));
        assert(s2.to_multiset().count(x) > 0);
        assert(s2.contains(x));
        let i = s2.index_of(x);
        let rest2 = s2.remove(i);
        assert(rest2.to_multiset() == s2.to_multiset().remove(x));
        assert(rest1.to_multiset() =~= rest2.to_multiset());
        lemma_map_multiset(rest1, rest2, f);
        assert(s1.map_values(f) =~= rest1.map_values(f).push(f(x)));
        assert(s1.map_values(f).to_multiset() == rest1.map_values(f).to_multiset().insert(f(x)));
        assert(s2.map_values(f).remove(i) =~= rest2.map_values(f));
        assert(s2.map_values(f)[i] == f(x));
        assert(rest2.map_values(f).to_multiset() == s2.map_values(f).to_multiset().remove(f(x)));
        assert(s2.map_values(f).to_multiset().count(f(x)) > 0);
        lemma_multiset_remove_insert(s2.map_values(f).to_multiset(), f(x));
    }
}

/// One benchmark measured against every server build, in an order drawn at random.
pub struct BenchmarkRun {
    pub root: String,
    pub cooldown_sec: u64,
    pub benchmark_config: ProcessConfig,
    pub dragonfly_configs: Vec<ProcessConfig>,
}

/// Where the output of one measurement was written.
pub struct BenchmarkRunResult {
    pub run_id: u64,
    pub dragonfly_id: String,
    pub benchmark_output_file: String,
}

/// The work of one step of a run: one server build measured with the benchmark.
pub struct StepPlan {
    /// The directory of the step.
    pub root: String,
    /// The server's configuration, resolved against the directory.
    pub dragonfly: ProcessConfig,
    /// The server's executable and arguments.
    pub process_path: String,
    pub process_args: Vec<String>,
    /// The benchmark's configuration, resolved against the directory.
    pub benchmark: ProcessConfig,
    /// The benchmark's executable, its warm-up arguments where it has a warm-up pass,
    /// and its arguments.
    pub benchmark_path: String,
    pub warmup_args: Option<Vec<String>>,
    pub benchmark_args: Vec<String>,
    /// The server's data directory, to be removed after the measurement.
    pub data_dir: Option<String>,
    /// Whether to pause before the next step.
    pub cooldown: bool,
    /// The file that the benchmark writes its results to.
    pub output_file: Option<String>,
}

/// The argument naming the server's data directory.
pub open spec fn data_dir_key() -> Seq<char> {
    seq!['d', 'i', 'r']
}

/// The argument naming the benchmark's output file.
pub open spec fn output_file_key() -> Seq<char> {
    seq!['j', 's', 'o', 'n', '-', 'o', 'u', 't', '-', 'f', 'i', 'l', 'e']
}

/// The directory of the step that measures `dragonfly` with `benchmark` under `root`.
pub open spec fn step_root(root: Seq<char>, benchmark: ProcessConfigView, dragonfly: ProcessConfigView) -> Seq<char> {
    path_join(path_join(root, benchmark.id), dragonfly.id)
}

/// Seconds to pause after a warm-up pass.
pub const WARMUP_SETTLE_SECS: u64 = 2;

impl BenchmarkRun {
    /// The names of the server builds, in the order of the run.
    pub open spec fn dragonfly_ids(&self) -> Seq<Seq<char>> {
        config_views(self.dragonfly_configs@).map_values(|c: ProcessConfigView| c.id)
    }

    /// The file that step `n` writes its results to: the benchmark's `json-out-file`,
    /// resolved and joined onto the step's directory; `None` where it names none.
    pub open spec fn step_output(&self, n: int) -> Option<Seq<char>> {
        let root = step_root(self.root@, self.benchmark_config@, self.dragonfly_configs@[n]@);
        match lookup(self.benchmark_config@.resolved(root).args, output_file_key()) {
            Some(name) => Some(path_join(root, name)),
            None => None,
        }
    }

    /// A run of `benchmark_config` against the server builds, which are put in an
    /// order drawn at random; `None` where the operating system gives no entropy to draw
    /// it with.
    pub fn new(
        root: String,
        sleep_sec: u64,
        benchmark_config: ProcessConfig,
        dragonfly_configs: Vec<ProcessConfig>,
    ) -> (run: Option<BenchmarkRun>)
        ensures
            run matches Some(run) ==> {
                &&& run.root == root
                &&& run.cooldown_sec == sleep_sec
                &&& run.benchmark_config == benchmark_config
                &&& run.dragonfly_configs@.to_multiset() == dragonfly_configs@.to_multiset()
                &&& config_views(run.dragonfly_configs@).to_multiset() == config_views(
                    dragonfly_configs@,
                ).to_multiset()
            },
    {
        Self::with_generator(root, sleep_sec, benchmark_config, dragonfly_configs, seeded_generator())
    }

    /// A run of `benchmark_config` against the server builds, put in an order drawn with
    /// `rng`: there is a run exactly when there is a generator, whatever the servers.
    pub fn with_generator(
        root: String,
        sleep_sec: u64,
        benchmark_config: ProcessConfig,
        dragonfly_configs: Vec<ProcessConfig>,
        rng: Option<rand::rngs::StdRng>,
    ) -> (run: Option<BenchmarkRun>)
        ensures
            run is Some <==> rng is Some,
            run matches Some(run) ==> {
                &&& run.root == root
                &&& run.cooldown_sec == sleep_sec
                &&& run.benchmark_config == benchmark_config
                &&& run.dragonfly_configs@.to_multiset() == dragonfly_configs@.to_multiset()
                &&& config_views(run.dragonfly_configs@).to_multiset() == config_views(
                    dragonfly_configs@,
                ).to_multiset()
            },
    {
        let ghost given = dragonfly_configs@;
        let mut dragonfly_configs = dragonfly_configs;
        let mut rng = match rng {
            Some(rng) => rng,
            None => return None,
        };
        shuffle_configs(&mut dragonfly_configs, &mut rng);
        proof {
            lemma_map_multiset(dragonfly_configs@, given, |c: ProcessConfig| c@);
        }
        Some(BenchmarkRun { root, cooldown_sec: sleep_sec, benchmark_config, dragonfly_configs })
    }

    /// Plans step `n` of the run: the step's directory is `root/<benchmark id>/<server id>`;
    /// the server's configuration is resolved against it, in place, and so is a copy of
    /// the benchmark's.
    pub fn plan_step(&mut self, n: usize) -> (plan: StepPlan)
        requires
            n < old(self).dragonfly_configs@.len(),
        ensures
            ({
                let dragonfly = old(self).dragonfly_configs@[n as int]@;
                let benchmark = old(self).benchmark_config@;
                let root = step_root(old(self).root@, benchmark, dragonfly);
                let resolved = dragonfly.resolved(root);
                let bench = benchmark.resolved(root);
                &&& final(self).root == old(self).root
                &&& final(self).cooldown_sec == old(self).cooldown_sec
                &&& final(self).benchmark_config == old(self).benchmark_config
                &&& final(self).dragonfly_configs@.len() == old(self).dragonfly_configs@.len()
                &&& forall|j: int|
                    0 <= j < old(self).dragonfly_configs@.len() && j != n
                        ==> #[trigger] final(self).dragonfly_configs@[j]
                        == old(self).dragonfly_configs@[j]
                &&& final(self).dragonfly_configs@[n as int]@ == resolved
                &&& plan.root@ == root
                &&& plan.dragonfly@ == resolved
                &&& plan.process_path@ == dragonfly.path
                &&& strings_view(plan.process_args@) == args_text(resolved.args)
                &&& plan.benchmark@ == bench
                &&& plan.benchmark_path@ == benchmark.path
                &&& match plan.warmup_args {
                    Some(w) => benchmark.warmup is Some && strings_view(w@) == args_text(
                        benchmark.warmup.unwrap(),
                    ),
                    None => benchmark.warmup is None,
                }
                &&& strings_view(plan.benchmark_args@) == args_text(bench.args)
                &&& match plan.data_dir {
                    Some(d) => lookup(resolved.args, data_dir_key()) == Some(d@),
                    None => lookup(resolved.args, data_dir_key()) is None,
                }
                &&& plan.cooldown == (n + 1 < old(self).dragonfly_configs@.len())
                &&& match lookup(bench.args, output_file_key()) {
                    Some(name) => plan.output_file is Some && plan.output_file.unwrap()@
                        == path_join(root, name),
                    None => plan.output_file is None,
                }
                &&& match plan.output_file {
                    Some(f) => old(self).step_output(n as int) == Some(f@),
                    None => old(self).step_output(n as int) is None,
                }
                &&& final(self).dragonfly_ids() == old(self).dragonfly_ids()
                &&& forall|m: int|
                    0 <= m < old(self).dragonfly_configs@.len() ==> #[trigger] final(self).step_output(m)
                        == old(self).step_output(m)
            }),
    {
        let len = self.dragonfly_configs.len();
        let benchmark_dir = join_path(self.root.as_str(), self.benchmark_config.id.as_str());
        let root = join_path(benchmark_dir.as_str(), self.dragonfly_configs[n].id.as_str());

        let mut dragonfly = self.dragonfly_configs[n].duplicate();
        dragonfly.resolve_paths(root.as_str());
        let process_path = dragonfly.path.clone();
        let process_args = dragonfly.build_process_args();

        let mut benchmark = self.benchmark_config.duplicate();
        benchmark.resolve_paths(root.as_str());
        let benchmark_path = benchmark.path.clone();
        let warmup_args = if benchmark.warmup.is_some() {
            Some(benchmark.build_warmup_args())
        } else {
            None
        };
        let benchmark_args = benchmark.build_process_args();

        proof {
            reveal_strlit("dir");
            reveal_strlit("json-out-file");
        }
        let data_dir = match dragonfly.get("dir") {
            Some(d) => Some(d.clone()),
            None => None,
        };
        let output_file = match benchmark.get("json-out-file") {
            Some(name) => Some(join_path(root.as_str(), name.as_str())),
            None => None,
        };

        let ghost before = *self;
        self.dragonfly_configs.set(n, dragonfly.duplicate());
        assert(self.dragonfly_ids() =~= before.dragonfly_ids());
        assert("dir"@ =~= data_dir_key());
        assert("json-out-file"@ =~= output_file_key());
        StepPlan {
            root,
            dragonfly,
            process_path,
            process_args,
            benchmark,
            benchmark_path,
            warmup_args,
            benchmark_args,
            data_dir,
            cooldown: n + 1 < len,
            output_file,
        }
    }
}

impl StepPlan {
    /// The record of the step's measurement in trial `run_id`. The benchmark must name
    /// its output file: a run whose benchmark names none stops there.
    pub fn result(&self, run_id: u64) -> (r: BenchmarkRunResult)
        requires
            self.output_file is Some,
        ensures
            r.run_id == run_id,
            r.dragonfly_id@ == self.dragonfly.id@,
            r.benchmark_output_file@ == self.output_file.unwrap()@,
    {
        let f = self.output_file.as_ref().unwrap();
        BenchmarkRunResult {
            run_id,
            dragonfly_id: self.dragonfly.id.clone(),
            benchmark_output_file: f.clone(),
        }
    }
}

/// What the server answered to a ping, or the text of the error that the ping gave.
pub enum PingReply {
    Answer(String),
    Failure(String),
}

/// What to do after a ping: go on, or log the message and ping again after a pause.
pub enum ReadyVerdict {
    Ready,
    Retry(String),
}

/// What to do while waiting for the server: ping it, or give up.
pub enum WaitAction {
    Ping,
    GiveUp,
}

/// How long to wait for the server to answer, in milliseconds.
pub const READY_TIMEOUT_MS: u64 = 5000;

/// The pause between two pings, in milliseconds.
pub const RETRY_PAUSE_MS: u64 = 200;

/// The answer of a server that is ready.
pub open spec fn pong() -> Seq<char> {
    seq!['P', 'O', 'N', 'G']
}

/// The end of a message before another ping.
pub open spec fn retry_note() -> Seq<char> {
    seq!['.', '.', '.', ' ', 'w', 'i', 'l', 'l', ' ', 'r', 'e', 't', 'r', 'y']
}

/// The start of the message about an unexpected answer.
pub open spec fn bad_response_note() -> Seq<char> {
    seq!['b', 'a', 'd', ' ', 'r', 'e', 's', 'p', 'o', 'n', 's', 'e', ' ']
}

/// What to do `elapsed_ms` milliseconds after the wait began: ping while the time is not up.
pub fn next_wait_action(elapsed_ms: u64) -> (action: WaitAction)
    ensures
        action is Ping <==> elapsed_ms < READY_TIMEOUT_MS,
{
    if elapsed_ms < READY_TIMEOUT_MS {
        WaitAction::Ping
    } else {
        WaitAction::GiveUp
    }
}

/// Judges the reply to a ping: the server is ready when it answered `PONG`; otherwise
/// the message to log is `bad response <answer>... will retry` or `<error>... will retry`.
pub fn judge_ping(reply: &PingReply) -> (verdict: ReadyVerdict)
    ensures
        match *reply {
            PingReply::Answer(a) => if a@ == pong() {
                verdict is Ready
            } else {
                verdict matches ReadyVerdict::Retry(m) && m@ == bad_response_note() + a@
                    + retry_note()
            },
            PingReply::Failure(e) => verdict matches ReadyVerdict::Retry(m) && m@ == e@
                + retry_note(),
        },
{
    proof {
        reveal_strlit("PONG");
        reveal_strlit("bad response ");
        reveal_strlit("... will retry");
    }
    match reply {
        PingReply::Answer(a) => {
            let expected = String::from_str("PONG");
            assert(expected@ =~= pong());
            if *a == expected {
                ReadyVerdict::Ready
            } else {
                let mut m = String::from_str("bad response ");
                m.append(a.as_str());
                m.append("... will retry");
                assert(m@ =~= bad_response_note() + a@ + retry_note());
                ReadyVerdict::Retry(m)
            }
        },
        PingReply::Failure(e) => {
            let mut m = e.clone();
            m.append("... will retry");
            assert(m@ =~= e@ + retry_note());
            ReadyVerdict::Retry(m)
        },
    }
}

/// A run in progress: how many steps are measured, whether a server failed to answer,
/// and the records so far.
pub struct RunProgress {
    run_id: u64,
    total: usize,
    next: usize,
    stopped: bool,
    results: Vec<BenchmarkRunResult>,
    ids: Ghost<Seq<Seq<char>>>,
    outputs: Ghost<Seq<Option<Seq<char>>>>,
}

impl RunProgress {
    #[verifier::type_invariant]
    spec fn inv(&self) -> bool {
        &&& self.next <= self.total
        &&& self.ids@.len() == self.total
        &&& self.outputs@.len() == self.total
        &&& self.results@.len() == self.next
        &&& forall|i: int|
            0 <= i < self.next ==> {
                &&& (#[trigger] self.results@[i]).run_id == self.run_id
                &&& self.results@[i].dragonfly_id@ == self.ids@[i]
                &&& self.outputs@[i] == Some(self.results@[i].benchmark_output_file@)
            }
    }

    /// The trial that the run belongs to.
    pub closed spec fn run_id(&self) -> u64 {
        self.run_id
    }

    /// The names of the server builds, in the order of the run.
    pub closed spec fn ids(&self) -> Seq<Seq<char>> {
        self.ids@
    }

    /// The output file of each step.
    pub closed spec fn outputs(&self) -> Seq<Option<Seq<char>>> {
        self.outputs@
    }

    /// How many steps are measured.
    pub closed spec fn measured(&self) -> nat {
        self.next as nat
    }

    /// Whether a server failed to answer.
    pub closed spec fn stopped(&self) -> bool {
        self.stopped
    }

    /// Whether the run is over: a server failed to answer, or every step is measured.
    pub open spec fn finished(&self) -> bool {
        self.stopped() || self.measured() == self.ids().len()
    }

    /// The start of `run` in trial `run_id`: nothing measured yet.
    pub fn new(run: &BenchmarkRun, run_id: u64) -> (progress: RunProgress)
        ensures
            progress.run_id() == run_id,
            progress.ids() == run.dragonfly_ids(),
            progress.outputs() == Seq::new(
                run.dragonfly_configs@.len(),
                |i: int| run.step_output(i),
            ),
            progress.measured() == 0,
            !progress.stopped(),
    {
        let total = run.dragonfly_configs.len();
        RunProgress {
            run_id,
            total,
            next: 0,
            stopped: false,
            results: Vec::new(),
            ids: Ghost(run.dragonfly_ids()),
            outputs: Ghost(Seq::new(total as nat, |i: int| run.step_output(i))),
        }
    }

    /// The step to measure next, or `None` when the run is over.
    pub fn next_step(&self) -> (step: Option<usize>)
        ensures
            step is None <==> self.finished(),
            step matches Some(n) ==> n == self.measured(),
    {
        proof {
            use_type_invariant(self);
        }
        if self.stopped || self.next == self.total {
            None
        } else {
            Some(self.next)
        }
    }

    /// The server of the next step did not answer: the run stops with what it has.
    pub fn not_ready(self) -> (next: RunProgress)
        requires
            !self.finished(),
        ensures
            next.run_id() == self.run_id(),
            next.ids() == self.ids(),
            next.outputs() == self.outputs(),
            next.measured() == self.measured(),
            next.stopped(),
    {
        proof {
            use_type_invariant(&self);
        }
        let RunProgress { run_id, total, next, stopped, results, ids, outputs } = self;
        RunProgress { run_id, total, next, stopped: true, results, ids, outputs }
    }

    /// The next step is measured, as planned by `plan`; its benchmark names its output file.
    pub fn step_measured(self, plan: &StepPlan) -> (next: RunProgress)
        requires
            !self.finished(),
            plan.dragonfly.id@ == self.ids()[self.measured() as int],
            plan.output_file matches Some(f) && self.outputs()[self.measured() as int] == Some(f@),
        ensures
            next.run_id() == self.run_id(),
            next.ids() == self.ids(),
            next.outputs() == self.outputs(),
            next.measured() == self.measured() + 1,
            !next.stopped(),
    {
        proof {
            use_type_invariant(&self);
        }
        let RunProgress { run_id, total, next, stopped, mut results, ids, outputs } = self;
        let record = plan.result(run_id);
        results.push(record);
        RunProgress { run_id, total, next: next + 1, stopped, results, ids, outputs }
    }

    /// The records of the run: one per measured server, in the order of the run, each
    /// with the server's name and the step's output file; every server is measured
    /// unless one failed to answer, and then the run holds the servers before it.
    pub fn finish(self) -> (records: Vec<BenchmarkRunResult>)
        ensures
            records@.len() == self.measured(),
            self.measured() <= self.ids().len(),
            self.finished() && !self.stopped() ==> records@.len() == self.ids().len(),
            forall|i: int|
                0 <= i < records@.len() ==> {
                    &&& (#[trigger] records@[i]).run_id == self.run_id()
                    &&& records@[i].dragonfly_id@ == self.ids()[i]
                    &&& self.outputs()[i] == Some(records@[i].benchmark_output_file@)
                },
    {
        proof {
            use_type_invariant(&self);
        }
        self.results
    }
}

} // verus!
