//! The runner of a benchmark session: its configuration, the checks made on it,
//! the directories of its trials and the results it collects.

use vstd::prelude::*;
use vstd::string::*;

use crate::error::{path_problem, ConfigError, PathStatus, Problem};
use crate::process::{
    config_views, duplicate_all, seeded_generator, BenchmarkRun, BenchmarkRunResult,
    ProcessConfig,
};
use crate::text::{decimal, decimal_string, join_path, lemma_decimal_injective,
    lemma_decimal_value, path_join};

verus! {

/// A session: every benchmark is measured against every server build, `n_runs` times.
pub struct BenchRunner {
    pub root: String,
    pub cooldown_sec: u64,
    pub n_runs: u64,
    pub dragonflies: Vec<ProcessConfig>,
    pub benchmarks: Vec<ProcessConfig>,
}

/// The first refusal among the executables at `paths`, each with its status, in order.
pub open spec fn first_problem(paths: Seq<Seq<char>>, statuses: Seq<PathStatus>) -> Option<Problem>
    decreases paths.len(),
{
    if paths.len() == 0 {
        None
    } else {
        match path_problem(paths[0], statuses[0]) {
            Some(p) => Some(p),
            None => first_problem(paths.drop_first(), statuses.drop_first()),
        }
    }
}

/// The directory under `root` that holds the trials of the session stamped `stamp`.
pub open spec fn session_path(root: Seq<char>, stamp: Seq<char>) -> Seq<char> {
    path_join(path_join(root, seq!['r', 'u', 'n', 's']), stamp)
}

/// The directory of trial `n` of a session.
pub open spec fn trial_path(session: Seq<char>, n: nat) -> Seq<char> {
    path_join(session, decimal(n))
}

proof fn lemma_first_problem_skip(paths: Seq<Seq<char>>, statuses: Seq<PathStatus>, i: int)
    requires
        0 <= i <= paths.len(),
        paths.len() == statuses.len(),
        forall|j: int| 0 <= j < i ==> (#[trigger] path_problem(paths[j], statuses[j])) is None,
    ensures
        first_problem(paths, statuses) == first_problem(paths.skip(i), statuses.skip(i)),
    decreases i,
{
    if i == 0 {
        assert(paths.skip(0) =~= paths);
        assert(statuses.skip(0) =~= statuses);
    } else {
        assert(path_problem(paths[0], statuses[0]) is None);
        let p = paths.drop_first();
        let s = statuses.drop_first();
        assert forall|j: int| 0 <= j < i - 1 implies (#[trigger] path_problem(p[j], s[j])) is None by {
            assert(p[j] == paths[j + 1] && s[j] == statuses[j + 1]);
        }
        lemma_first_problem_skip(p, s, i - 1);
        assert(p.skip(i - 1) =~= paths.skip(i));
        assert(s.skip(i - 1) =~= statuses.skip(i));
    }
}

/// The session is accepted exactly when every executable on its own is.
pub proof fn lemma_first_problem_none(paths: Seq<Seq<char>>, statuses: Seq<PathStatus>)
    requires
        paths.len() == statuses.len(),
    ensures
        first_problem(paths, statuses) is None <==> forall|j: int|
            0 <= j < paths.len() ==> (#[trigger] path_problem(paths[j], statuses[j])) is None,
    decreases paths.len(),
{
    if paths.len() > 0 {
        let p = paths.drop_first();
        let s = statuses.drop_first();
        lemma_first_problem_none(p, s);
        if first_problem(paths, statuses) is None {
            assert forall|j: int| 0 <= j < paths.len() implies (#[trigger] path_problem(
                paths[j],
                statuses[j],
            )) is None by {
                if j > 0 {
                    assert(p[j - 1] == paths[j] && s[j - 1] == statuses[j]);
                }
            }
        } else if path_problem(paths[0], statuses[0]) is None {
            let k = choose|k: int| 0 <= k < p.len() && (#[trigger] path_problem(p[k], s[k])) is Some;
            assert(p[k] == paths[k + 1] && s[k] == statuses[k + 1]);
        }
    }
}

/// Distinct trials of a session have distinct directories.
pub proof fn lemma_trial_paths_distinct(session: Seq<char>, m: nat, n: nat)
    requires
        m != n,
    ensures
        trial_path(session, m) != trial_path(session, n),
{
    lemma_decimal_value(m);
    lemma_decimal_value(n);
    lemma_decimal_injective(m, n);
    let prefix = if session.len() > 0 && session.last() != '/' {
        session + seq!['/']
    } else {
        session
    };
    assert(trial_path(session, m) == prefix + decimal(m));
    assert(trial_path(session, n) == prefix + decimal(n));
    assert((prefix + decimal(m)).skip(prefix.len() as int) =~= decimal(m));
    assert((prefix + decimal(n)).skip(prefix.len() as int) =~= decimal(n));
}

impl BenchRunner {
    /// The paths of all executables: the server builds, then the benchmarks.
    pub open spec fn config_paths(&self) -> Seq<Seq<char>> {
        config_views(self.dragonflies@ + self.benchmarks@).map_values(
            |c: crate::process::ProcessConfigView| c.path,
        )
    }

    /// Checks every executable, the server builds first and then the benchmarks, and
    /// gives the first refusal; `statuses` holds what the file system reports of each
    /// path, in that order.
    pub fn validate(&self, statuses: &Vec<PathStatus>) -> (res: Result<(), ConfigError>)
        requires
            statuses@.len() == self.dragonflies@.len() + self.benchmarks@.len(),
        ensures
            match res {
                Ok(()) => first_problem(self.config_paths(), statuses@) is None,
                Err(e) => first_problem(self.config_paths(), statuses@) == Some(e@),
            },
    {
        let ghost paths = self.config_paths();
        let nd = self.dragonflies.len();
        let nb = self.benchmarks.len();
        assert forall|j: int| 0 <= j < nd implies #[trigger] paths[j] == self.dragonflies@[j]@.path by {
            assert((self.dragonflies@ + self.benchmarks@)[j] == self.dragonflies@[j]);
        }
        assert forall|j: int| nd <= j < nd + nb implies #[trigger] paths[j] == self.benchmarks@[j
            - nd]@.path by {
            assert((self.dragonflies@ + self.benchmarks@)[j] == self.benchmarks@[j - nd]);
        }
        for i in 0..nd
            invariant
                nd == self.dragonflies@.len(),
                nb == self.benchmarks@.len(),
                statuses@.len() == nd + nb,
                paths == self.config_paths(),
                paths.len() == nd + nb,
                forall|j: int| 0 <= j < nd ==> #[trigger] paths[j] == self.dragonflies@[j]@.path,
                forall|j: int| 0 <= j < i ==> (#[trigger] path_problem(paths[j], statuses@[j])) is None,
        {
            match self.dragonflies[i].validate(&statuses[i]) {
                Ok(()) => {},
                Err(e) => {
                    proof {
                        lemma_first_problem_skip(paths, statuses@, i as int);
                        assert(paths.skip(i as int)[0] == paths[i as int]);
                    }
                    return Err(e);
                },
            }
        }
        for k in 0..nb
            invariant
                nd == self.dragonflies@.len(),
                nb == self.benchmarks@.len(),
                statuses@.len() == nd + nb,
                paths == self.config_paths(),
                paths.len() == nd + nb,
                forall|j: int| nd <= j < nd + nb ==> #[trigger] paths[j] == self.benchmarks@[j
                    - nd]@.path,
                forall|j: int| 0 <= j < nd + k ==> (#[trigger] path_problem(paths[j], statuses@[j])) is None,
        {
            assert(nd + k < statuses.len());
            match self.benchmarks[k].validate(&statuses[nd + k]) {
                Ok(()) => {},
                Err(e) => {
                    proof {
                        lemma_first_problem_skip(paths, statuses@, (nd + k) as int);
                        assert(paths.skip((nd + k) as int)[0] == paths[nd + k]);
                    }
                    return Err(e);
                },
            }
        }
        proof {
            lemma_first_problem_none(paths, statuses@);
        }
        Ok(())
    }

    /// The directory of the session stamped `stamp`: `root/runs/<stamp>`.
    pub fn session_root(&self, stamp: &str) -> (dir: String)
        ensures
            dir@ == session_path(self.root@, stamp@),
    {
        proof {
            reveal_strlit("runs");
        }
        let runs = join_path(self.root.as_str(), "runs");
        assert("runs"@ =~= seq!['r', 'u', 'n', 's']);
        join_path(runs.as_str(), stamp)
    }

    /// Starts a session: its stamp is the current UTC time, and its directory is
    /// `root/runs/<stamp>`; `None` where the clock reads before 1970 or a time that
    /// `chrono` cannot represent.
    pub fn start_session(&self) -> (session: Option<(String, String)>)
        ensures
            session matches Some(s) ==> {
                &&& is_stamp(s.0@)
                &&& s.1@ == session_path(self.root@, s.0@)
                &&& exists|secs: i64, nanos: u32|
                    0 <= secs && nanos < 1_000_000_000 && #[trigger] utc_text(
                        secs,
                        nanos,
                        stamp_pattern(),
                    ) == Some(s.0@)
            },
    {
        match time_since_epoch() {
            Some((secs, nanos)) => {
                let session = self.session_at(secs, nanos);
                proof {
                    if session is Some {
                        assert(utc_text(secs as i64, nanos, stamp_pattern()) == Some(
                            session.unwrap().0@,
                        ));
                    }
                }
                session
            },
            None => None,
        }
    }

    /// The session begun `secs` seconds and `nanos` nanoseconds after 1970-01-01 UTC:
    /// its stamp is that time formatted `%Y-%m-%d_%H-%M-%S`, and its directory is
    /// `root/runs/<stamp>`; `None` exactly where chrono cannot represent that time.
    pub fn session_at(&self, secs: u64, nanos: u32) -> (session: Option<(String, String)>)
        ensures
            match session {
                Some(s) => {
                    &&& secs <= i64::MAX
                    &&& utc_text(secs as i64, nanos, stamp_pattern()) == Some(s.0@)
                    &&& is_stamp(s.0@)
                    &&& s.1@ == session_path(self.root@, s.0@)
                },
                None => secs > i64::MAX || utc_text(secs as i64, nanos, stamp_pattern()) is None,
            },
    {
        let stamp = match session_stamp(secs, nanos) {
            Some(stamp) => stamp,
            None => return None,
        };
        let dir = self.session_root(stamp.as_str());
        Some((stamp, dir))
    }

    /// The run of benchmark `index` in the trial directory `run_root`, with copies of
    /// every server build in an order drawn at random; `None` where the operating system
    /// gives no entropy to draw it with.
    pub fn start_benchmark(&self, run_root: &str, index: usize) -> (run: Option<BenchmarkRun>)
        requires
            index < self.benchmarks@.len(),
        ensures
            run matches Some(run) ==> {
                &&& run.root@ == run_root@
                &&& run.cooldown_sec == self.cooldown_sec
                &&& run.benchmark_config@ == self.benchmarks@[index as int]@
                &&& config_views(run.dragonfly_configs@).to_multiset() == config_views(
                    self.dragonflies@,
                ).to_multiset()
            },
    {
        self.start_benchmark_with(run_root, index, seeded_generator())
    }

    /// The run of benchmark `index` in the trial directory `run_root`, with copies of
    /// every server build in an order drawn with `rng`: there is a run exactly when
    /// there is a generator, whichever benchmark is asked for.
    pub fn start_benchmark_with(
        &self,
        run_root: &str,
        index: usize,
        rng: Option<rand::rngs::StdRng>,
    ) -> (run: Option<BenchmarkRun>)
        requires
            index < self.benchmarks@.len(),
        ensures
            run is Some <==> rng is Some,
            run matches Some(run) ==> {
                &&& run.root@ == run_root@
                &&& run.cooldown_sec == self.cooldown_sec
                &&& run.benchmark_config@ == self.benchmarks@[index as int]@
                &&& config_views(run.dragonfly_configs@).to_multiset() == config_views(
                    self.dragonflies@,
                ).to_multiset()
            },
    {
        let dragonflies = duplicate_all(&self.dragonflies);
        BenchmarkRun::with_generator(
            String::from_str(run_root),
            self.cooldown_sec,
            self.benchmarks[index].duplicate(),
            dragonflies,
            rng,
        )
    }
}

/// The directory of trial `n` under the session directory: `<session>/<n>`.
pub fn trial_root(session_root: &str, n: u64) -> (dir: String)
    ensures
        dir@ == trial_path(session_root@, n as nat),
{
    let number = decimal_string(n);
    join_path(session_root, number.as_str())
}

/// The pattern of a session's stamp: `%Y-%m-%d_%H-%M-%S`.
pub open spec fn stamp_pattern() -> Seq<char> {
    seq!['%', 'Y', '-', '%', 'm', '-', '%', 'd', '_', '%', 'H', '-', '%', 'M', '-', '%', 'S']
}

/// Whether `c` is a decimal digit.
pub open spec fn is_digit(c: char) -> bool {
    '0' <= c <= '9'
}

/// Whether `s` has the shape of a stamp: a year of at least four digits, with a `+`
/// before it from the year 10000 on, then `-MM-DD_HH-MM-SS`.
pub open spec fn is_stamp(s: Seq<char>) -> bool {
    s.len() >= 19 && {
        let year = s.take(s.len() - 15);
        let t = s.skip(s.len() - 15);
        &&& forall|i: int| 0 <= i < year.len() ==> is_digit(#[trigger] year[i]) || (i == 0 && year[i] == '+')
        &&& t[0] == '-' && is_digit(t[1]) && is_digit(t[2])
        &&& t[3] == '-' && is_digit(t[4]) && is_digit(t[5])
        &&& t[6] == '_' && is_digit(t[7]) && is_digit(t[8])
        &&& t[9] == '-' && is_digit(t[10]) && is_digit(t[11])
        &&& t[12] == '-' && is_digit(t[13]) && is_digit(t[14])
    }
}

/// The time elapsed since 1970-01-01 00:00:00 UTC, from `std::time::UNIX_EPOCH.elapsed()`,
/// as whole seconds and the nanoseconds beyond; `None` where the clock reads an earlier
/// time (`elapsed` gives an error there). Claimed: the nanoseconds are below one second,
/// as `Duration::subsec_nanos` documents. Which time it reads is not claimed.
#[verifier::external_body]
fn time_since_epoch() -> (t: Option<(u64, u32)>)
    ensures
        t matches Some(t) ==> t.1 < 1_000_000_000,
{
    match std::time::UNIX_EPOCH.elapsed() {
        Ok(d) => Some((d.as_secs(), d.subsec_nanos())),
        Err(_) => None,
    }
}

/// The text of the time `secs` seconds and `nanos` nanoseconds after 1970-01-01 UTC,
/// formatted with `pattern`; `None` where chrono cannot represent that time.
pub uninterp spec fn utc_text(secs: i64, nanos: u32, pattern: Seq<char>) -> Option<Seq<char>>;

/// `chrono::DateTime::from_timestamp(secs, nanos)`, formatted with `DateTime::format`
/// and `pattern`; `from_timestamp` gives `None` for a time out of chrono's range.
/// Claimed: the text is `utc_text` of the arguments, and, from chrono's table of
/// specifiers, for a time not before 1970 with the stamp's pattern it is a year of at
/// least four digits (with `+` before it from the year 10000 on) followed by
/// `-MM-DD_HH-MM-SS`, each field two digits. When `from_timestamp` succeeds is not
/// claimed beyond that.
#[verifier::external_body]
fn format_utc(secs: i64, nanos: u32, pattern: &str) -> (text: Option<String>)
    requires
        pattern@ == stamp_pattern(),
    ensures
        match text {
            Some(t) => utc_text(secs, nanos, pattern@) == Some(t@) && (secs >= 0 ==> is_stamp(t@)),
            None => utc_text(secs, nanos, pattern@) is None,
        },
{
    match chrono::DateTime::from_timestamp(secs, nanos) {
        Some(time) => Some(time.format(pattern).to_string()),
        None => None,
    }
}

/// The stamp of a session begun `secs` seconds and `nanos` nanoseconds after
/// 1970-01-01 UTC: the time formatted `%Y-%m-%d_%H-%M-%S`; `None` where chrono cannot
/// represent that time.
pub fn session_stamp(secs: u64, nanos: u32) -> (stamp: Option<String>)
    ensures
        match stamp {
            Some(t) => secs <= i64::MAX && is_stamp(t@) && utc_text(secs as i64, nanos, stamp_pattern())
                == Some(t@),
            None => secs > i64::MAX || utc_text(secs as i64, nanos, stamp_pattern()) is None,
        },
{
    if secs > i64::MAX as u64 {
        return None;
    }
    proof {
        reveal_strlit("%Y-%m-%d_%H-%M-%S");
    }
    assert("%Y-%m-%d_%H-%M-%S"@ =~= stamp_pattern());
    format_utc(secs as i64, nanos, "%Y-%m-%d_%H-%M-%S")
}

/// A stamped session directory lies directly under `root/runs`.
pub proof fn lemma_session_under_runs(root: Seq<char>, stamp: Seq<char>)
    requires
        is_stamp(stamp),
    ensures
        session_path(root, stamp) == path_join(root, seq!['r', 'u', 'n', 's']) + seq!['/'] + stamp,
{
    let runs = path_join(root, seq!['r', 'u', 'n', 's']);
    let year = stamp.take(stamp.len() - 15);
    assert(year[0] == stamp[0]);
    assert(is_digit(year[0]) || year[0] == '+');
    assert(runs.last() == 's');
}

/// Sessions with different stamps get different directories, each directly under
/// `root/runs`: no session writes into another's directory.
pub proof fn lemma_sessions_apart(root: Seq<char>, first: Seq<char>, second: Seq<char>)
    requires
        is_stamp(first),
        is_stamp(second),
        first != second,
    ensures
        session_path(root, first) != session_path(root, second),
{
    lemma_session_under_runs(root, first);
    lemma_session_under_runs(root, second);
    let prefix = path_join(root, seq!['r', 'u', 'n', 's']) + seq!['/'];
    assert((prefix + first).skip(prefix.len() as int) =~= first);
    assert((prefix + second).skip(prefix.len() as int) =~= second);
}

/// The results of a session, grouped by benchmark, in the order the benchmarks were
/// first recorded.
pub struct RunResults {
    entries: Vec<(String, Vec<BenchmarkRunResult>)>,
}

/// `m` after `runs` are added to the results of benchmark `id`.
pub open spec fn recorded(
    m: Map<Seq<char>, Seq<BenchmarkRunResult>>,
    id: Seq<char>,
    runs: Seq<BenchmarkRunResult>,
) -> Map<Seq<char>, Seq<BenchmarkRunResult>> {
    let before = if m.dom().contains(id) {
        m[id]
    } else {
        Seq::empty()
    };
    m.insert(id, before + runs)
}

impl RunResults {
    /// The benchmarks, in order.
    pub closed spec fn ids(&self) -> Seq<Seq<char>> {
        self.entries@.map_values(|e: (String, Vec<BenchmarkRunResult>)| e.0@)
    }

    /// No benchmark occurs twice.
    #[verifier::type_invariant]
    spec fn inv(&self) -> bool {
        forall|i: int, j: int|
            0 <= i < j < self.entries@.len() ==> #[trigger] self.entries@[i].0@
                != #[trigger] self.entries@[j].0@
    }

    closed spec fn index_of_id(&self, id: Seq<char>) -> int {
        choose|i: int| 0 <= i < self.entries@.len() && self.entries@[i].0@ == id
    }

    /// The results of each benchmark.
    pub closed spec fn view(&self) -> Map<Seq<char>, Seq<BenchmarkRunResult>> {
        Map::new(
            |id: Seq<char>| self.ids().contains(id),
            |id: Seq<char>| self.entries@[self.index_of_id(id)].1@,
        )
    }

    proof fn lemma_index_of_id(&self, i: int)
        requires
            self.inv(),
            0 <= i < self.entries@.len(),
        ensures
            self.index_of_id(self.entries@[i].0@) == i,
            self.ids().contains(self.entries@[i].0@),
            self.view()[self.entries@[i].0@] == self.entries@[i].1@,
    {
        let id = self.entries@[i].0@;
        assert(self.ids()[i] == id);
        let k = self.index_of_id(id);
        assert(0 <= k < self.entries@.len() && self.entries@[k].0@ == id);
    }

    proof fn lemma_ids_contains(&self, id: Seq<char>)
        ensures
            self.ids().contains(id) <==> exists|i: int|
                0 <= i < self.entries@.len() && #[trigger] self.entries@[i].0@ == id,
    {
        if self.ids().contains(id) {
            let i = choose|i: int| 0 <= i < self.ids().len() && self.ids()[i] == id;
            assert(self.entries@[i].0@ == id);
        }
        if exists|i: int| 0 <= i < self.entries@.len() && #[trigger] self.entries@[i].0@ == id {
            let i = choose|i: int| 0 <= i < self.entries@.len() && #[trigger] self.entries@[i].0@ == id;
            assert(self.ids()[i] == id);
        }
    }

    /// No results yet.
    pub fn new() -> (r: RunResults)
        ensures
            r.view() == Map::<Seq<char>, Seq<BenchmarkRunResult>>::empty(),
            r.ids() == Seq::<Seq<char>>::empty(),
    {
        let r = RunResults { entries: Vec::new() };
        assert(r.ids() =~= Seq::<Seq<char>>::empty());
        assert(r.view() =~= Map::<Seq<char>, Seq<BenchmarkRunResult>>::empty());
        r
    }

    /// Adds `runs`, in order, after the results of benchmark `id`; a benchmark not seen
    /// before is put after the others.
    pub fn record(&mut self, id: &str, runs: Vec<BenchmarkRunResult>)
        ensures
            final(self).view() == recorded(old(self).view(), id@, runs@),
            final(self).ids() == if old(self).ids().contains(id@) {
                old(self).ids()
            } else {
                old(self).ids().push(id@)
            },
    {
        let key = String::from_str(id);
        let ghost given = runs@;
        let mut runs = runs;
        let n = self.entries.len();
        proof {
            use_type_invariant(&*self);
        }
        let position = self.position_of(&key);
        let ghost before = *self;
        proof {
            before.lemma_ids_contains(id@);
        }
        let mut entries: Vec<(String, Vec<BenchmarkRunResult>)> = Vec::new();
        std::mem::swap(&mut entries, &mut self.entries);
        if let Some(found) = position {
            let mut slot: (String, Vec<BenchmarkRunResult>) = (String::new(), Vec::new());
            entries.set_and_swap(found, &mut slot);
            slot.1.append(&mut runs);
            entries.set(found, slot);
            proof {
                assert(entries@ == before.entries@.update(found as int, entries@[found as int]));
                assert forall|i: int, j: int| 0 <= i < j < entries@.len() implies #[trigger] entries@[i].0@
                    != #[trigger] entries@[j].0@ by {
                    assert(before.entries@[i].0@ != before.entries@[j].0@);
                }
            }
            self.entries = entries;
            proof {
                before.lemma_index_of_id(found as int);
                assert(self.ids() =~= before.ids());
                self.lemma_index_of_id(found as int);
                assert forall|k: Seq<char>| k != id@ && #[trigger] self.ids().contains(k) implies self.view()[k]
                    == before.view()[k] by {
                    self.lemma_ids_contains(k);
                    let i = choose|i: int| 0 <= i < self.entries@.len() && #[trigger] self.entries@[i].0@ == k;
                    self.lemma_index_of_id(i);
                    before.lemma_index_of_id(i);
                }
                assert(self.view() =~= recorded(before.view(), id@, given));
            }
        } else {
            entries.push((key, runs));
            proof {
                assert(entries@ == before.entries@.push(entries@[n as int]));
                assert forall|i: int, j: int| 0 <= i < j < entries@.len() implies #[trigger] entries@[i].0@
                    != #[trigger] entries@[j].0@ by {
                    if j < n {
                        assert(before.entries@[i].0@ != before.entries@[j].0@);
                    } else {
                        assert(before.entries@[i].0@ == before.ids()[i]);
                    }
                }
            }
            self.entries = entries;
            proof {
                assert(self.ids() =~= before.ids().push(id@));
                assert(!before.ids().contains(id@));
                self.lemma_index_of_id(n as int);
                assert forall|k: Seq<char>| k != id@ && #[trigger] self.ids().contains(k) implies self.view()[k]
                    == before.view()[k] by {
                    self.lemma_ids_contains(k);
                    let i = choose|i: int| 0 <= i < self.entries@.len() && #[trigger] self.entries@[i].0@ == k;
                    self.lemma_index_of_id(i);
                    before.lemma_index_of_id(i);
                }
                assert(Seq::<BenchmarkRunResult>::empty() + given =~= given);
                assert(self.view()[id@] == given);
                assert forall|k: Seq<char>| #[trigger] self.ids().contains(k) <==> (before.ids().contains(k) || k == id@) by {
                    if self.ids().contains(k) && k != id@ {
                        let i = choose|i: int| 0 <= i < self.ids().len() && self.ids()[i] == k;
                        assert(before.ids()[i] == k);
                    }
                    if before.ids().contains(k) {
                        let i = choose|i: int| 0 <= i < before.ids().len() && before.ids()[i] == k;
                        assert(self.ids()[i] == k);
                    }
                    if k == id@ {
                        assert(self.ids()[n as int] == k);
                    }
                }
                assert(self.view() =~= recorded(before.view(), id@, given));
            }
        }
    }

    fn position_of(&self, key: &String) -> (position: Option<usize>)
        ensures
            match position {
                Some(i) => i < self.entries@.len() && self.entries@[i as int].0@ == key@,
                None => forall|j: int| 0 <= j < self.entries@.len() ==> #[trigger] self.entries@[j].0@ != key@,
            },
    {
        let n = self.entries.len();
        for i in 0..n
            invariant
                n == self.entries@.len(),
                forall|j: int| 0 <= j < i ==> #[trigger] self.entries@[j].0@ != key@,
        {
            if self.entries[i].0 == *key {
                return Some(i);
            }
        }
        None
    }

    /// The number of benchmarks with results.
    pub fn len(&self) -> (n: usize)
        ensures
            n == self.ids().len(),
    {
        self.entries.len()
    }

    /// The benchmark at position `i`, and its results.
    pub fn entry(&self, i: usize) -> (e: (&String, &Vec<BenchmarkRunResult>))
        requires
            i < self.ids().len(),
        ensures
            e.0@ == self.ids()[i as int],
            e.1@ == self.view()[e.0@],
    {
        proof {
            use_type_invariant(self);
            self.lemma_index_of_id(i as int);
        }
        (&self.entries[i].0, &self.entries[i].1)
    }
}

/// Results added in two steps for one benchmark follow one another, and the results
/// of the other benchmarks stay as they were.
pub proof fn lemma_recorded_twice(
    m: Map<Seq<char>, Seq<BenchmarkRunResult>>,
    id: Seq<char>,
    first: Seq<BenchmarkRunResult>,
    second: Seq<BenchmarkRunResult>,
    other: Seq<char>,
)
    requires
        other != id,
    ensures
        recorded(recorded(m, id, first), id, second)[id] == (if m.dom().contains(id) {
            m[id]
        } else {
            Seq::empty()
        }) + first + second,
        recorded(recorded(m, id, first), id, second).dom() == m.dom().insert(id),
        m.dom().contains(other) ==> recorded(recorded(m, id, first), id, second)[other] == m[other],
{
    let before = if m.dom().contains(id) {
        m[id]
    } else {
        Seq::empty()
    };
    assert(before + first + second =~= (before + first) + second);
    assert(recorded(recorded(m, id, first), id, second).dom() =~= m.dom().insert(id));
}

/// The results of a sequence of steps: step `k` added `outs[k]` to benchmark `ids[k]`.
pub open spec fn accumulate(ids: Seq<Seq<char>>, outs: Seq<Seq<BenchmarkRunResult>>) -> Map<
    Seq<char>,
    Seq<BenchmarkRunResult>,
>
    decreases outs.len(),
{
    if outs.len() == 0 {
        Map::empty()
    } else {
        recorded(
            accumulate(ids.drop_last(), outs.drop_last()),
            ids[outs.len() - 1],
            outs.last(),
        )
    }
}

/// What the steps for benchmark `id` gave, one after another, in the order of the steps.
pub open spec fn gathered(ids: Seq<Seq<char>>, outs: Seq<Seq<BenchmarkRunResult>>, id: Seq<char>) -> Seq<
    BenchmarkRunResult,
>
    decreases outs.len(),
{
    if outs.len() == 0 {
        Seq::empty()
    } else {
        gathered(ids.drop_last(), outs.drop_last(), id) + if ids[outs.len() - 1] == id {
            outs.last()
        } else {
            Seq::empty()
        }
    }
}

/// The results of a session hold exactly the benchmarks that were run, and for each
/// all its results, in the order of the steps: nothing is lost or overwritten.
pub proof fn lemma_accumulate(ids: Seq<Seq<char>>, outs: Seq<Seq<BenchmarkRunResult>>)
    requires
        ids.len() == outs.len(),
    ensures
        forall|id: Seq<char>| #[trigger] accumulate(ids, outs).dom().contains(id) <==> ids.contains(id),
        forall|id: Seq<char>| ids.contains(id) ==> #[trigger] accumulate(ids, outs)[id] == gathered(ids, outs, id),
    decreases outs.len(),
{
    if outs.len() > 0 {
        let n = outs.len() - 1;
        let pi = ids.drop_last();
        let po = outs.drop_last();
        lemma_accumulate(pi, po);
        assert forall|id: Seq<char>| #[trigger] ids.contains(id) <==> (pi.contains(id) || id == ids[n]) by {
            if ids.contains(id) && id != ids[n] {
                let i = choose|i: int| 0 <= i < ids.len() && ids[i] == id;
                assert(pi[i] == id);
            }
            if pi.contains(id) {
                let i = choose|i: int| 0 <= i < pi.len() && pi[i] == id;
                assert(ids[i] == id);
            }
            if id == ids[n] {
                assert(ids[n] == id);
            }
        }
        assert forall|id: Seq<char>| ids.contains(id) implies #[trigger] accumulate(ids, outs)[id] == gathered(
            ids,
            outs,
            id,
        ) by {
            let a = accumulate(pi, po);
            assert(accumulate(ids, outs) == recorded(a, ids[n], outs.last()));
            let g = gathered(pi, po, id);
            if id == ids[n] {
                assert(gathered(ids, outs, id) == g + outs.last());
                if !pi.contains(id) {
                    lemma_gathered_absent(pi, po, id);
                    assert(!a.dom().contains(id));
                    assert(Seq::<BenchmarkRunResult>::empty() + outs.last() =~= outs.last());
                    assert(g + outs.last() =~= outs.last());
                } else {
                    assert(a.dom().contains(id));
                    assert(a[id] == g);
                }
            } else {
                assert(pi.contains(id));
                assert(gathered(ids, outs, id) == g + Seq::<BenchmarkRunResult>::empty());
                assert(g + Seq::<BenchmarkRunResult>::empty() =~= g);
                assert(a[id] == g);
            }
        }
        assert(accumulate(ids, outs).dom() =~= accumulate(pi, po).dom().insert(ids[n]));
    }
}

proof fn lemma_gathered_absent(ids: Seq<Seq<char>>, outs: Seq<Seq<BenchmarkRunResult>>, id: Seq<char>)
    requires
        ids.len() == outs.len(),
        !ids.contains(id),
    ensures
        gathered(ids, outs, id) == Seq::<BenchmarkRunResult>::empty(),
    decreases outs.len(),
{
    if outs.len() > 0 {
        let pi = ids.drop_last();
        if pi.contains(id) {
            let i = choose|i: int| 0 <= i < pi.len() && pi[i] == id;
            assert(ids[i] == id);
        }
        assert(ids[outs.len() - 1] != id);
        lemma_gathered_absent(pi, outs.drop_last(), id);
        assert(Seq::<BenchmarkRunResult>::empty() + Seq::<BenchmarkRunResult>::empty() =~= Seq::<
            BenchmarkRunResult,
        >::empty());
    }
}

/// The steps of a session of `trials` trials over `width` benchmarks: trial by trial,
/// and within a trial benchmark by benchmark, as `(trial, benchmark)`.
pub open spec fn schedule(width: nat, trials: nat) -> Seq<(nat, nat)>
    decreases trials,
{
    if trials == 0 {
        Seq::empty()
    } else {
        schedule(width, (trials - 1) as nat) + Seq::new(width, |j: int| ((trials - 1) as nat, j as nat))
    }
}

/// The benchmark of each step.
pub open spec fn step_ids(ids: Seq<Seq<char>>, steps: Seq<(nat, nat)>) -> Seq<Seq<char>> {
    steps.map_values(|s: (nat, nat)| ids[s.1 as int])
}

/// A session of `trials` trials over `width` benchmarks has `width * trials` steps.
pub proof fn lemma_schedule_len(width: nat, trials: nat)
    ensures
        schedule(width, trials).len() == width * trials,
    decreases trials,
{
    if trials > 0 {
        lemma_schedule_len(width, (trials - 1) as nat);
        assert(width * (trials - 1) + width == width * trials) by (nonlinear_arith);
    } else {
        assert(width * trials == 0) by (nonlinear_arith)
            requires
                trials == 0,
        ;
    }
}

/// The steps of the first trials begin the steps of a longer session.
pub proof fn lemma_schedule_prefix(width: nat, t: nat, trials: nat, k: int)
    requires
        t <= trials,
        0 <= k < width * t,
    ensures
        schedule(width, t)[k] == schedule(width, trials)[k],
    decreases trials,
{
    if t < trials {
        let p = (trials - 1) as nat;
        lemma_schedule_prefix(width, t, p, k);
        lemma_schedule_len(width, p);
        assert(width * t <= width * p) by (nonlinear_arith)
            requires
                t <= p,
        ;
    }
}

/// Step `width * t + j` of a session is benchmark `j` of trial `t`.
pub proof fn lemma_schedule_at(width: nat, trials: nat, t: nat, j: nat)
    requires
        t < trials,
        j < width,
    ensures
        width * t + j < width * trials,
        schedule(width, trials)[(width * t + j) as int] == (t, j),
{
    lemma_schedule_len(width, t);
    assert(width * t + j < width * (t + 1)) by (nonlinear_arith)
        requires
            j < width,
    ;
    assert(width * (t + 1) <= width * trials) by (nonlinear_arith)
        requires
            t < trials,
    ;
    let next = schedule(width, t + 1);
    assert(next[(width * t + j) as int] == (t, j));
    lemma_schedule_prefix(width, t + 1, trials, (width * t + j) as int);
}

/// Every step of a session is a benchmark of one of its trials.
pub proof fn lemma_schedule_bounds(width: nat, trials: nat, k: int)
    requires
        0 <= k < schedule(width, trials).len(),
    ensures
        schedule(width, trials)[k].0 < trials,
        schedule(width, trials)[k].1 < width,
    decreases trials,
{
    let p = (trials - 1) as nat;
    lemma_schedule_len(width, p);
    if k < schedule(width, p).len() {
        lemma_schedule_bounds(width, p, k);
    }
}

/// The results of a whole session hold a benchmark exactly when there is at least one
/// trial and the benchmark is one of the session's, and each such benchmark holds what
/// its steps gave, trial by trial and, within a trial, in the order of the benchmarks.
pub proof fn lemma_session_results(
    ids: Seq<Seq<char>>,
    trials: nat,
    outs: Seq<Seq<BenchmarkRunResult>>,
)
    requires
        outs.len() == ids.len() * trials,
    ensures
        forall|id: Seq<char>|
            #[trigger] accumulate(step_ids(ids, schedule(ids.len(), trials)), outs).dom().contains(id)
                <==> (trials > 0 && ids.contains(id)),
        forall|id: Seq<char>|
            trials > 0 && ids.contains(id) ==> #[trigger] accumulate(step_ids(ids, schedule(ids.len(), trials)), outs)[id]
                == gathered(step_ids(ids, schedule(ids.len(), trials)), outs, id),
{
    let width = ids.len();
    let steps = schedule(width, trials);
    let sid = step_ids(ids, steps);
    lemma_schedule_len(width, trials);
    lemma_accumulate(sid, outs);
    assert forall|id: Seq<char>| #[trigger] sid.contains(id) <==> (trials > 0 && ids.contains(id)) by {
        if sid.contains(id) {
            let k = choose|k: int| 0 <= k < sid.len() && sid[k] == id;
            lemma_schedule_bounds(width, trials, k);
            assert(ids[steps[k].1 as int] == id);
        }
        if trials > 0 && ids.contains(id) {
            let j = choose|j: int| 0 <= j < ids.len() && ids[j] == id;
            lemma_schedule_at(width, trials, 0, j as nat);
            assert(width * 0 + j == j) by (nonlinear_arith);
            assert(sid[j] == id);
        }
    }
}

/// The next step of a session: benchmark `benchmark` of trial `trial`, in `trial_dir`.
pub struct SessionStep {
    pub trial: u64,
    pub benchmark: usize,
    pub trial_dir: String,
}

/// A session in progress: which step comes next, and the results so far.
pub struct Session {
    dir: String,
    ids: Vec<String>,
    n_runs: u64,
    trial: u64,
    index: usize,
    results: RunResults,
    steps: Ghost<Seq<(nat, nat)>>,
    outputs: Ghost<Seq<Seq<BenchmarkRunResult>>>,
}

impl Session {
    #[verifier::type_invariant]
    spec fn inv(&self) -> bool {
        &&& self.trial <= self.n_runs
        &&& self.ids@.len() > 0 ==> self.index < self.ids@.len()
        &&& self.ids@.len() == 0 ==> self.index == 0
        &&& self.trial == self.n_runs ==> self.index == 0
        &&& self.steps@ == schedule(self.ids@.len(), self.trial as nat) + Seq::new(
            self.index as nat,
            |j: int| (self.trial as nat, j as nat),
        )
        &&& self.outputs@.len() == self.steps@.len()
        &&& self.results@ == accumulate(step_ids(self.ids(), self.steps@), self.outputs@)
    }

    /// The directory of the session.
    pub closed spec fn dir(&self) -> Seq<char> {
        self.dir@
    }

    /// The benchmarks, in order.
    pub closed spec fn ids(&self) -> Seq<Seq<char>> {
        self.ids@.map_values(|s: String| s@)
    }

    /// The number of trials.
    pub closed spec fn n_runs(&self) -> nat {
        self.n_runs as nat
    }

    /// The steps done so far, as `(trial, benchmark)`.
    pub closed spec fn steps(&self) -> Seq<(nat, nat)> {
        self.steps@
    }

    /// What each step done so far gave.
    pub closed spec fn outputs(&self) -> Seq<Seq<BenchmarkRunResult>> {
        self.outputs@
    }

    /// The results so far.
    pub closed spec fn results_view(&self) -> Map<Seq<char>, Seq<BenchmarkRunResult>> {
        self.results@
    }

    /// The whole schedule of the session.
    pub open spec fn all_steps(&self) -> Seq<(nat, nat)> {
        schedule(self.ids().len(), self.n_runs())
    }

    /// Whether every step is done.
    pub open spec fn finished(&self) -> bool {
        self.ids().len() == 0 || self.steps().len() == self.ids().len() * self.n_runs()
    }

    /// What holds of a session at every point: the steps done are the first steps of
    /// the schedule, each gave one output, and the results are those outputs added up.
    pub open spec fn progress_ok(&self) -> bool {
        &&& self.steps().len() <= self.all_steps().len()
        &&& forall|k: int| 0 <= k < self.steps().len() ==> #[trigger] self.steps()[k] == self.all_steps()[k]
        &&& self.outputs().len() == self.steps().len()
        &&& self.results_view() == accumulate(step_ids(self.ids(), self.steps()), self.outputs())
    }

    proof fn lemma_progress(&self)
        requires
            self.inv(),
        ensures
            self.progress_ok(),
            self.steps().len() == self.ids().len() * self.trial + self.index,
            self.finished() <==> (self.ids@.len() == 0 || self.trial == self.n_runs),
            !self.finished() ==> self.all_steps()[self.steps().len() as int] == (
                self.trial as nat,
                self.index as nat,
            ),
    {
        let width = self.ids@.len() as nat;
        let t = self.trial as nat;
        let total = self.n_runs as nat;
        let i = self.index as nat;
        assert(self.ids().len() == width);
        lemma_schedule_len(width, t);
        lemma_schedule_len(width, total);
        assert(self.steps().len() == width * t + i);
        assert(width * t <= width * total) by (nonlinear_arith)
            requires
                t <= total,
        ;
        if width > 0 && t < total {
            assert(width * t + width <= width * total) by (nonlinear_arith)
                requires
                    t < total,
            ;
        }
        assert(self.steps().len() <= self.all_steps().len());
        assert forall|k: int| 0 <= k < self.steps().len() implies #[trigger] self.steps()[k]
            == self.all_steps()[k] by {
            assert(self.all_steps() == schedule(width, total));
            if k < width * t {
                lemma_schedule_prefix(width, t, total, k);
                assert(self.steps()[k] == schedule(width, t)[k]);
            } else {
                let j = (k - width * t) as nat;
                assert(self.steps()[k] == (t, j));
                assert(t < total);
                assert(j < width);
                lemma_schedule_at(width, total, t, j);
                assert(width * t + j == k);
            }
        }
        if width > 0 {
            if t < total {
                lemma_schedule_at(width, total, t, i);
                assert(width * t + i < width * total);
            } else {
                assert(width * t + i == width * total);
            }
        }
    }

    /// A session in `dir` over the runner's benchmarks and trials, with no step done.
    pub fn new(runner: &BenchRunner, dir: String) -> (session: Session)
        ensures
            session.dir() == dir@,
            session.ids() == config_views(runner.benchmarks@).map_values(
                |c: crate::process::ProcessConfigView| c.id,
            ),
            session.n_runs() == runner.n_runs,
            session.steps() == Seq::<(nat, nat)>::empty(),
            session.outputs() == Seq::<Seq<BenchmarkRunResult>>::empty(),
            session.results_view() == Map::<Seq<char>, Seq<BenchmarkRunResult>>::empty(),
            session.progress_ok(),
    {
        let nb = runner.benchmarks.len();
        let mut ids: Vec<String> = Vec::new();
        for i in 0..nb
            invariant
                nb == runner.benchmarks@.len(),
                ids@.len() == i,
                forall|j: int| 0 <= j < i ==> (#[trigger] ids@[j])@ == runner.benchmarks@[j].id@,
        {
            ids.push(runner.benchmarks[i].id.clone());
        }
        let results = RunResults::new();
        let ghost steps = Seq::<(nat, nat)>::empty();
        let ghost outputs = Seq::<Seq<BenchmarkRunResult>>::empty();
        assert(schedule(ids@.len(), 0) + Seq::new(0, |j: int| (0nat, j as nat)) =~= steps);
        assert(step_ids(ids@.map_values(|s: String| s@), steps) =~= Seq::<Seq<char>>::empty());
        let session = Session {
            dir,
            ids,
            n_runs: runner.n_runs,
            trial: 0,
            index: 0,
            results,
            steps: Ghost(steps),
            outputs: Ghost(outputs),
        };
        assert(session.ids() =~= config_views(runner.benchmarks@).map_values(
            |c: crate::process::ProcessConfigView| c.id,
        ));
        proof {
            session.lemma_progress();
        }
        session
    }

    /// The next step, or `None` when every step is done: the next step of the schedule
    /// (trials in order, and within a trial the benchmarks in order), in the trial's
    /// directory `<session>/<trial>`.
    pub fn next_step(&self) -> (step: Option<SessionStep>)
        ensures
            step is None <==> self.finished(),
            step matches Some(s) ==> {
                &&& self.steps().len() < self.all_steps().len()
                &&& (s.trial as nat, s.benchmark as nat) == self.all_steps()[self.steps().len() as int]
                &&& s.trial < self.n_runs()
                &&& s.benchmark < self.ids().len()
                &&& s.trial_dir@ == trial_path(self.dir(), s.trial as nat)
            },
    {
        proof {
            use_type_invariant(self);
            self.lemma_progress();
        }
        if self.ids.len() == 0 || self.trial == self.n_runs {
            None
        } else {
            Some(
                SessionStep {
                    trial: self.trial,
                    benchmark: self.index,
                    trial_dir: trial_root(self.dir.as_str(), self.trial),
                },
            )
        }
    }

    /// Records what the next step gave and moves on.
    pub fn step_done(self, runs: Vec<BenchmarkRunResult>) -> (next: Session)
        requires
            !self.finished(),
        ensures
            next.dir() == self.dir(),
            next.ids() == self.ids(),
            next.n_runs() == self.n_runs(),
            self.steps().len() < self.all_steps().len(),
            next.steps() == self.steps().push(self.all_steps()[self.steps().len() as int]),
            next.outputs() == self.outputs().push(runs@),
            next.results_view() == recorded(
                self.results_view(),
                self.ids()[self.all_steps()[self.steps().len() as int].1 as int],
                runs@,
            ),
            next.progress_ok(),
    {
        proof {
            use_type_invariant(&self);
            self.lemma_progress();
        }
        let ghost old_steps = self.steps@;
        let ghost old_outputs = self.outputs@;
        let ghost given = runs@;
        let ghost id_views = self.ids();
        let Session { dir, ids, n_runs, trial, index, mut results, steps, outputs } = self;
        results.record(ids[index].as_str(), runs);
        let ghost new_steps = old_steps.push((trial as nat, index as nat));
        let ghost new_outputs = old_outputs.push(given);
        proof {
            assert(step_ids(id_views, new_steps).drop_last() =~= step_ids(id_views, old_steps));
            assert(new_outputs.drop_last() =~= old_outputs);
        }
        let width = ids.len();
        let next = if index + 1 < width {
            assert(schedule(width as nat, trial as nat) + Seq::new(
                (index + 1) as nat,
                |j: int| (trial as nat, j as nat),
            ) =~= new_steps);
            Session {
                dir,
                ids,
                n_runs,
                trial,
                index: index + 1,
                results,
                steps: Ghost(new_steps),
                outputs: Ghost(new_outputs),
            }
        } else {
            assert(schedule(width as nat, (trial + 1) as nat) + Seq::new(
                0,
                |j: int| ((trial + 1) as nat, j as nat),
            ) =~= new_steps);
            Session {
                dir,
                ids,
                n_runs,
                trial: trial + 1,
                index: 0,
                results,
                steps: Ghost(new_steps),
                outputs: Ghost(new_outputs),
            }
        };
        proof {
            next.lemma_progress();
        }
        next
    }

    /// The results of the steps done: for each benchmark that was run, what its steps
    /// gave, in order. When every step is done, the steps are the whole schedule.
    pub fn into_results(self) -> (r: RunResults)
        ensures
            r@ == self.results_view(),
            self.results_view() == accumulate(step_ids(self.ids(), self.steps()), self.outputs()),
            self.outputs().len() == self.steps().len(),
            self.finished() ==> self.steps() == self.all_steps(),
    {
        proof {
            use_type_invariant(&self);
            self.lemma_progress();
            lemma_schedule_len(self.ids().len(), self.n_runs());
            if self.finished() {
                if self.ids().len() == 0 {
                    lemma_schedule_empty(self.n_runs as nat);
                    lemma_schedule_empty(self.trial as nat);
                }
                assert(self.steps() =~= self.all_steps());
            }
        }
        self.results
    }
}

proof fn lemma_schedule_empty(trials: nat)
    ensures
        schedule(0, trials) == Seq::<(nat, nat)>::empty(),
    decreases trials,
{
    if trials > 0 {
        lemma_schedule_empty((trials - 1) as nat);
        assert(schedule(0, trials) =~= Seq::<(nat, nat)>::empty());
    }
}

impl BenchRunner {
    /// Begins a session: its directory is `root/runs/<stamp>`, stamped with the current
    /// UTC time, and no step is done; `None` where the clock reads before 1970 or a time
    /// that `chrono` cannot represent.
    pub fn begin_session(&self) -> (session: Option<Session>)
        ensures
            session matches Some(session) ==> {
                &&& exists|stamp: Seq<char>|
                    is_stamp(stamp) && session.dir() == session_path(self.root@, stamp)
                &&& session.ids() == config_views(self.benchmarks@).map_values(
                    |c: crate::process::ProcessConfigView| c.id,
                )
                &&& session.n_runs() == self.n_runs
                &&& session.steps() == Seq::<(nat, nat)>::empty()
                &&& session.outputs() == Seq::<Seq<BenchmarkRunResult>>::empty()
                &&& session.results_view() == Map::<Seq<char>, Seq<BenchmarkRunResult>>::empty()
                &&& session.progress_ok()
            },
    {
        match self.start_session() {
            Some((_stamp, dir)) => Some(Session::new(self, dir)),
            None => None,
        }
    }
}

} // verus!
