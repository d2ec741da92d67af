//! The incremental engine: which tasks of a build have to run, and what is
//! remembered of those that ran.
//!
//! A run goes wave by wave. For each wave the caller takes the fingerprints
//! of its tasks, asks which of them are stale, runs those, and hands back how
//! they ended.

use vstd::prelude::*;
use crate::task;
use crate::task::{AllowlistedTool, Task};
use crate::task::graph;
use crate::task::graph::{GraphError, TaskGraph};
use crate::text;
use crate::text_map::TextMap;

verus! {

/// The format of recorded fingerprints; other formats are not understood.
pub const STATE_FORMAT: u32 = 1;

/// Recorded fingerprints of successful task runs. The engine records a
/// fingerprint when a task succeeds and consults it to skip tasks whose inputs
/// have not changed.
///
/// Persisted as a JSON file (`.uliab/state.json` in a project) with a
/// format version so a future engine can ignore state it does not
/// understand instead of corrupting it.
#[derive(Debug, PartialEq, Eq)]
pub struct FingerprintStore {
    /// The file the store is kept in.
    pub state_path: String,
    /// The fingerprints, by task key.
    pub fingerprints: TextMap<String>,
}

/// What a state file holds.
#[derive(Debug, PartialEq, Eq)]
pub struct StateFile {
    /// The format of the fingerprints.
    pub format: u32,
    /// The fingerprints, by task key.
    pub fingerprints: TextMap<String>,
}

/// The texts that a map of strings holds.
pub open spec fn text_values(map: Map<Seq<char>, String>) -> Map<Seq<char>, Seq<char>> {
    Map::new(|key: Seq<char>| map.contains_key(key), |key: Seq<char>| map[key]@)
}

/// The fingerprints that are known from a state file: those of a file with the
/// supported format, and none otherwise.
pub open spec fn loaded(saved: Option<StateFile>) -> Map<Seq<char>, Seq<char>> {
    match saved {
        Some(state) => if state.format == STATE_FORMAT {
            text_values(state.fingerprints@)
        } else {
            Map::empty()
        },
        None => Map::empty(),
    }
}

/// Whether a state file keeps the given fingerprints.
pub open spec fn is_saved(file: StateFile, recorded: Map<Seq<char>, Seq<char>>) -> bool {
    file.format == STATE_FORMAT && text_values(file.fingerprints@) == recorded
}

/// What is saved is loaded again.
pub proof fn law_saved_state_is_loaded(file: StateFile, recorded: Map<Seq<char>, Seq<char>>)
    requires
        is_saved(file, recorded),
    ensures
        loaded(Some(file)) == recorded,
{
}

impl FingerprintStore {
    /// Whether the fingerprints are in order.
    pub open spec fn wf(&self) -> bool {
        self.fingerprints.wf()
    }

    /// The recorded fingerprints.
    pub open spec fn recorded(&self) -> Map<Seq<char>, Seq<char>> {
        text_values(self.fingerprints@)
    }

    /// Makes the store of what the state file at `state_path` holds. A
    /// missing file yields an empty store (first build); a file with an
    /// unsupported format version is treated as empty rather than errored, so
    /// a downgraded tool chain rebuilds instead of mis-skipping.
    pub fn load(state_path: String, saved: Option<StateFile>) -> (store: FingerprintStore)
        requires
            saved matches Some(state) ==> state.fingerprints.wf(),
        ensures
            store.wf(),
            store.state_path == state_path,
            store.recorded() == loaded(saved),
    {
        let fingerprints = match saved {
            Some(state) => if state.format == STATE_FORMAT {
                state.fingerprints
            } else {
                TextMap::new()
            },
            None => TextMap::new(),
        };
        let store = FingerprintStore { state_path, fingerprints };
        assert(store.fingerprints@ == Map::<Seq<char>, String>::empty() ==> store.recorded()
            =~= Map::<Seq<char>, Seq<char>>::empty());
        store
    }

    /// What goes into the state file so that the fingerprints are found again.
    pub fn save(&self) -> (file: StateFile)
        requires
            self.wf(),
        ensures
            file.fingerprints.wf(),
            is_saved(file, self.recorded()),
    {
        let ghost source = self.fingerprints.entries@;
        let mut entries: Vec<(String, String)> = Vec::new();
        let mut i: usize = 0;
        while i < self.fingerprints.entries.len()
            invariant
                source == self.fingerprints.entries@,
                i <= source.len(),
                entries@.len() == i,
                forall|j: int| 0 <= j < i ==> #[trigger] entries@[j] == source[j],
            decreases self.fingerprints.entries.len() - i,
        {
            let entry = &self.fingerprints.entries[i];
            entries.push((entry.0.clone(), entry.1.clone()));
            i += 1;
        }
        assert(entries@ == source);
        StateFile { format: STATE_FORMAT, fingerprints: TextMap { entries } }
    }

    /// Whether a task, identified by `module::name`, was last run with
    /// exactly `fingerprint`.
    #[must_use]
    pub fn is_up_to_date(&self, key: &str, fingerprint: &str) -> (yes: bool)
        ensures
            yes == (self.recorded().contains_key(key@) && self.recorded()[key@] == fingerprint@),
    {
        match self.fingerprints.get(key) {
            Some(recorded) => text::str_eq(recorded, fingerprint),
            None => false,
        }
    }

    /// Records that a task succeeded with `fingerprint`.
    pub fn record(&mut self, key: &str, fingerprint: &str)
        requires
            old(self).wf(),
        ensures
            final(self).wf(),
            final(self).state_path == old(self).state_path,
            final(self).recorded() == old(self).recorded().insert(key@, fingerprint@),
    {
        self.fingerprints.insert(key.to_owned(), fingerprint.to_owned());
        assert(self.recorded() =~= old(self).recorded().insert(key@, fingerprint@));
    }
}

/// Why one task failed.
#[derive(Debug, PartialEq, Eq)]
pub struct TaskFailure {
    /// The failed task, as `module::name`.
    pub task: String,
    /// The error the task's action returned.
    pub error: String,
}

/// The outcome of one build run.
#[derive(Debug, PartialEq, Eq)]
pub struct BuildResult {
    /// Tasks whose action actually ran.
    pub ran: usize,
    /// Tasks skipped because their inputs were unchanged since the last
    /// successful run.
    pub up_to_date: usize,
    /// Tasks never started because an earlier dependency failed.
    pub skipped: usize,
    /// The first task failure, when any task failed.
    pub failure: Option<TaskFailure>,
}

/// What a [`BuildResult`] holds.
pub struct Tally {
    /// Tasks that ran.
    pub ran: nat,
    /// Tasks that were up to date.
    pub up_to_date: nat,
    /// Tasks that were never started.
    pub skipped: nat,
    /// The first failure: the task and its error.
    pub failure: Option<(Seq<char>, Seq<char>)>,
}

/// An optional failure as a specification value.
pub open spec fn opt_failure(failure: Option<TaskFailure>) -> Option<(Seq<char>, Seq<char>)> {
    match failure {
        Some(failure) => Some((failure.task@, failure.error@)),
        None => None,
    }
}

impl View for BuildResult {
    type V = Tally;

    open spec fn view(&self) -> Tally {
        Tally {
            ran: self.ran as nat,
            up_to_date: self.up_to_date as nat,
            skipped: self.skipped as nat,
            failure: opt_failure(self.failure),
        }
    }
}

impl Default for BuildResult {
    fn default() -> (result: BuildResult)
        ensures
            result@ == no_tally(),
    {
        BuildResult { ran: 0, up_to_date: 0, skipped: 0, failure: None }
    }
}

/// Before anything ran.
pub open spec fn no_tally() -> Tally {
    Tally { ran: 0, up_to_date: 0, skipped: 0, failure: None }
}

/// How far a run has come.
pub struct RunState {
    /// What has been counted.
    pub tally: Tally,
    /// The keys of the tasks that were up to date in this run.
    pub fresh: Seq<Seq<char>>,
    /// The recorded fingerprints.
    pub recorded: Map<Seq<char>, Seq<char>>,
}

/// Whether a task with the given fingerprint has nothing to do: everything it
/// depends on was up to date in this run, and it was last run with this very
/// fingerprint.
pub open spec fn is_fresh(
    task: Task,
    fingerprint: Seq<char>,
    fresh: Seq<Seq<char>>,
    recorded: Map<Seq<char>, Seq<char>>,
) -> bool {
    &&& forall|k: int|
        0 <= k < graph::dep_keys(task).len() ==> fresh.contains(#[trigger] graph::dep_keys(task)[k])
    &&& recorded.contains_key(graph::key_of(task))
    &&& recorded[graph::key_of(task)] == fingerprint
}

/// A wave's tasks, sorted into those that have nothing to do and those that
/// have to run.
pub struct Sorted {
    /// The keys of the tasks that were up to date in this run.
    pub fresh: Seq<Seq<char>>,
    /// Which tasks of the wave have to run, by their place in it.
    pub stale: Seq<int>,
}

/// The first `n` tasks of a wave, sorted.
pub open spec fn sorted(
    tasks: Seq<Task>,
    wave: Seq<int>,
    fingerprints: Seq<Seq<char>>,
    fresh: Seq<Seq<char>>,
    recorded: Map<Seq<char>, Seq<char>>,
    n: int,
) -> Sorted
    decreases n,
{
    if n <= 0 {
        Sorted { fresh, stale: Seq::empty() }
    } else {
        let before = sorted(tasks, wave, fingerprints, fresh, recorded, n - 1);
        let task = tasks[wave[n - 1]];
        if is_fresh(task, fingerprints[n - 1], before.fresh, recorded) {
            Sorted { fresh: before.fresh.push(graph::key_of(task)), ..before }
        } else {
            Sorted { stale: before.stale.push(n - 1), ..before }
        }
    }
}

/// The tasks of a wave that have to run.
pub open spec fn stale_in(
    tasks: Seq<Task>,
    wave: Seq<int>,
    fingerprints: Seq<Seq<char>>,
    state: RunState,
) -> Seq<int> {
    sorted(
        tasks,
        wave,
        fingerprints,
        state.fresh,
        state.recorded,
        wave.len() as int,
    ).stale
}

/// The state after the first `n` of a wave's stale tasks have ended: one that
/// succeeded is counted and its fingerprint recorded, of those that failed the
/// first is kept.
pub open spec fn ended(
    tasks: Seq<Task>,
    wave: Seq<int>,
    fingerprints: Seq<Seq<char>>,
    stale: Seq<int>,
    outcomes: Seq<Result<(), Seq<char>>>,
    state: RunState,
    n: int,
) -> RunState
    decreases n,
{
    if n <= 0 {
        state
    } else {
        let before = ended(tasks, wave, fingerprints, stale, outcomes, state, n - 1);
        let at = stale[n - 1];
        let key = graph::key_of(tasks[wave[at]]);
        match outcomes[n - 1] {
            Ok(_) => RunState {
                tally: Tally { ran: before.tally.ran + 1, ..before.tally },
                recorded: before.recorded.insert(key, fingerprints[at]),
                ..before
            },
            Err(error) => RunState {
                tally: Tally {
                    failure: match before.tally.failure {
                        Some(failure) => Some(failure),
                        None => Some((key, error)),
                    },
                    ..before.tally
                },
                ..before
            },
        }
    }
}

/// The state after a wave.
pub open spec fn after_wave(
    tasks: Seq<Task>,
    wave: Seq<int>,
    fingerprints: Seq<Seq<char>>,
    outcomes: Seq<Result<(), Seq<char>>>,
    state: RunState,
) -> RunState {
    let split = sorted(
        tasks,
        wave,
        fingerprints,
        state.fresh,
        state.recorded,
        wave.len() as int,
    );
    let counted = RunState {
        tally: Tally {
            up_to_date: state.tally.up_to_date + (wave.len() - split.stale.len()) as nat,
            ..state.tally
        },
        fresh: split.fresh,
        ..state
    };
    ended(
        tasks,
        wave,
        fingerprints,
        split.stale,
        outcomes,
        counted,
        split.stale.len() as int,
    )
}

/// How many tasks the waves from `from` on hold.
pub open spec fn tasks_from(waves: Seq<Seq<int>>, from: int) -> nat
    decreases waves.len() - from,
{
    if from >= waves.len() {
        0
    } else {
        waves[from].len() + tasks_from(waves, from + 1)
    }
}

/// A run in progress.
pub struct BuildRun {
    waves: Vec<Vec<usize>>,
    next: usize,
    result: BuildResult,
    fresh: Vec<String>,
}

/// The outcomes of task runs as specification values.
pub open spec fn outcome_list(outcomes: Seq<Result<(), String>>) -> Seq<Result<(), Seq<char>>> {
    Seq::new(
        outcomes.len(),
        |i: int|
            match outcomes[i] {
                Ok(_) => Ok(()),
                Err(error) => Err(error@),
            },
    )
}

impl BuildRun {
    /// The waves of the run.
    pub closed spec fn schedule(&self) -> Seq<Seq<int>> {
        graph::wave_list(self.waves@)
    }

    /// How many waves have been dealt with.
    pub closed spec fn done(&self) -> nat {
        self.next as nat
    }

    /// What has been counted.
    pub closed spec fn tally(&self) -> Tally {
        self.result@
    }

    /// The keys of the tasks that were up to date in this run.
    pub closed spec fn fresh_keys(&self) -> Seq<Seq<char>> {
        text::texts(self.fresh@)
    }

    /// The state of the run over the fingerprints in a store.
    pub open spec fn state(&self, store: FingerprintStore) -> RunState {
        RunState {
            tally: self.tally(),
            fresh: self.fresh_keys(),
            recorded: store.recorded(),
        }
    }

    /// Whether this is a run of `graph`: its waves are those of the graph,
    /// and no more tasks have been counted than have been dealt with.
    pub open spec fn runs(&self, graph: TaskGraph) -> bool {
        &&& graph::waves_of(graph.entries@) == Ok::<Seq<Seq<int>>, graph::Fault>(self.schedule())
        &&& self.done() <= self.schedule().len()
        &&& self.tally().ran + self.tally().up_to_date + tasks_from(
            self.schedule(),
            self.done() as int,
        ) <= graph.entries@.len()
        &&& self.tally().skipped == 0
    }

    /// Whether there is a wave to deal with: none is after a failure.
    pub open spec fn goes_on(&self) -> bool {
        self.done() < self.schedule().len() && self.tally().failure is None
    }

    /// The positions of the tasks of the wave to deal with next.
    pub fn wave(&self) -> (wave: Option<&Vec<usize>>)
        requires
            self.done() <= self.schedule().len(),
        ensures
            match wave {
                Some(list) => self.goes_on() && graph::positions(list@) == self.schedule()[self.done() as int],
                None => !self.goes_on(),
            },
    {
        if self.next < self.waves.len() && self.result.failure.is_none() {
            Some(&self.waves[self.next])
        } else {
            None
        }
    }

    /// The result of a run that does not go on: the tasks of the waves that
    /// were not dealt with count as skipped.
    pub fn finish(self, graph: &TaskGraph) -> (result: BuildResult)
        requires
            self.runs(*graph),
            !self.goes_on(),
        ensures
            result@ == (Tally {
                skipped: tasks_from(self.schedule(), self.done() as int),
                ..self.tally()
            }),
    {
        let ghost waves = graph::wave_list(self.waves@);
        let mut result = self.result;
        let mut d: usize = self.waves.len();
        let mut skipped: usize = 0;
        assert(graph.entries.len() <= usize::MAX);
        while d > self.next
            invariant
                waves == graph::wave_list(self.waves@),
                self.next <= d <= self.waves@.len(),
                skipped == tasks_from(waves, d as int),
                tasks_from(waves, self.next as int) <= graph.entries@.len(),
                graph.entries@.len() <= usize::MAX,
            decreases d,
        {
            d -= 1;
            assert(waves[d as int].len() == self.waves@[d as int]@.len());
            proof {
                lemma_tasks_from(waves, self.next as int, d as int);
            }
            skipped = skipped + self.waves[d].len();
        }
        result.skipped = skipped;
        result
    }
}

proof fn lemma_wave_range(tasks: Seq<Task>, waves: Seq<Seq<int>>, d: int)
    requires
        graph::waves_of(tasks) == Ok::<Seq<Seq<int>>, graph::Fault>(waves),
        0 <= d < waves.len(),
    ensures
        forall|k: int| 0 <= k < waves[d].len() ==> 0 <= #[trigger] waves[d][k] < tasks.len(),
{
    let depths = graph::depths_of(tasks)->Ok_0;
    graph::lemma_at_depth(depths, d as nat, depths.len() as int);
}

proof fn lemma_tasks_from(waves: Seq<Seq<int>>, from: int, to: int)
    requires
        0 <= from <= to <= waves.len(),
    ensures
        tasks_from(waves, to) <= tasks_from(waves, from),
    decreases to - from,
{
    if from < to {
        lemma_tasks_from(waves, from + 1, to);
    }
}

/// How many of the first `n` positions have a depth of at least `depth`.
spec fn count_from(depths: Seq<nat>, depth: nat, n: int) -> nat
    decreases n,
{
    if n <= 0 {
        0
    } else {
        count_from(depths, depth, n - 1) + if depths[n - 1] >= depth {
            1nat
        } else {
            0nat
        }
    }
}

proof fn lemma_count_step(depths: Seq<nat>, depth: nat, n: int)
    requires
        0 <= n <= depths.len(),
    ensures
        count_from(depths, depth, n) == graph::at_depth(depths, depth, n).len() + count_from(
            depths,
            depth + 1,
            n,
        ),
    decreases n,
{
    if n > 0 {
        lemma_count_step(depths, depth, n - 1);
    }
}

proof fn lemma_count_bounds(depths: Seq<nat>, depth: nat, n: int)
    requires
        0 <= n <= depths.len(),
    ensures
        count_from(depths, depth, n) <= n,
        depth == 0 ==> count_from(depths, depth, n) == n,
        depth > graph::deepest(depths, n) ==> count_from(depths, depth, n) == 0,
    decreases n,
{
    if n > 0 {
        lemma_count_bounds(depths, depth, n - 1);
    }
}

proof fn lemma_waves_count(waves: Seq<Seq<int>>, depths: Seq<nat>, from: int)
    requires
        waves == Seq::new(
            graph::deepest(depths, depths.len() as int) + 1,
            |d: int| graph::at_depth(depths, d as nat, depths.len() as int),
        ),
        0 <= from <= waves.len(),
    ensures
        tasks_from(waves, from) == count_from(depths, from as nat, depths.len() as int),
    decreases waves.len() - from,
{
    let n = depths.len() as int;
    lemma_count_bounds(depths, from as nat, n);
    if from < waves.len() {
        lemma_waves_count(waves, depths, from + 1);
        lemma_count_step(depths, from as nat, n);
    }
}

/// The waves of a graph hold every task once.
pub proof fn law_waves_hold_all_tasks(tasks: Seq<Task>)
    requires
        graph::waves_of(tasks) is Ok,
    ensures
        tasks_from(graph::waves_of(tasks)->Ok_0, 0) == tasks.len(),
{
    let depths = graph::depths_of(tasks)->Ok_0;
    let waves = graph::waves_of(tasks)->Ok_0;
    lemma_waves_count(waves, depths, 0);
    lemma_count_bounds(depths, 0, depths.len() as int);
}

/// Executes a [`TaskGraph`] incrementally over a [`FingerprintStore`].
///
/// The executor owns the tool allowlist. A run partitions the graph into
/// waves, executes each wave concurrently, and stops scheduling after the
/// first failure, though tasks already running in the failed task's own wave
/// finish. Successful runs record fingerprints so the next run skips
/// unchanged tasks; the caller persists the store afterwards.
#[derive(Debug, PartialEq, Eq)]
pub struct Executor {
    /// The tools that may run.
    pub tools: Vec<AllowlistedTool>,
}

proof fn lemma_sorted(
    tasks: Seq<Task>,
    wave: Seq<int>,
    fingerprints: Seq<Seq<char>>,
    fresh: Seq<Seq<char>>,
    recorded: Map<Seq<char>, Seq<char>>,
    n: int,
)
    requires
        0 <= n,
    ensures
        sorted(tasks, wave, fingerprints, fresh, recorded, n).stale.len() <= n,
        forall|k: int|
            0 <= k < sorted(tasks, wave, fingerprints, fresh, recorded, n).stale.len() ==> 0
                <= #[trigger] sorted(tasks, wave, fingerprints, fresh, recorded, n).stale[k] < n,
    decreases n,
{
    if n > 0 {
        lemma_sorted(tasks, wave, fingerprints, fresh, recorded, n - 1);
    }
}

fn all_fresh(task: &Task, fresh: &Vec<String>) -> (yes: bool)
    ensures
        yes == (forall|k: int|
            0 <= k < graph::dep_keys(*task).len() ==> text::texts(fresh@).contains(
                #[trigger] graph::dep_keys(*task)[k],
            )),
{
    let ghost deps = graph::dep_keys(*task);
    let ghost keys = text::texts(fresh@);
    let mut k: usize = 0;
    while k < task.depends_on.len()
        invariant
            deps == graph::dep_keys(*task),
            deps.len() == task.depends_on@.len(),
            keys == text::texts(fresh@),
            k <= deps.len(),
            forall|m: int| 0 <= m < k ==> keys.contains(#[trigger] deps[m]),
        decreases task.depends_on.len() - k,
    {
        let key = graph::resolved_key(&task.module, &task.depends_on[k]);
        assert(key@ == deps[k as int]);
        match text::position(fresh, &key) {
            Some(at) => {
                assert(keys[at as int] == key@);
            },
            None => {
                return false;
            },
        }
        k += 1;
    }
    true
}

/// A wave's tasks as the executor sorts them.
struct Split {
    fresh: Vec<String>,
    stale: Vec<usize>,
}

impl Split {
    spec fn sorted(self) -> Sorted {
        Sorted { fresh: text::texts(self.fresh@), stale: graph::positions(self.stale@) }
    }
}

impl Executor {
    /// Creates an executor allowing exactly `allowlist`.
    pub fn new(allowlist: Vec<AllowlistedTool>) -> (executor: Executor)
        ensures
            executor.tools == allowlist,
    {
        Executor { tools: allowlist }
    }

    /// The tools this executor allows.
    #[must_use]
    pub fn allowlist(&self) -> (tools: &Vec<AllowlistedTool>)
        ensures
            *tools == self.tools,
    {
        &self.tools
    }

    /// Whether this executor allows a tool.
    pub fn allows(&self, tool: AllowlistedTool) -> (yes: bool)
        ensures
            yes == self.tools@.contains(tool),
    {
        let mut i: usize = 0;
        while i < self.tools.len()
            invariant
                i <= self.tools@.len(),
                forall|j: int| 0 <= j < i ==> self.tools@[j] != tool,
            decreases self.tools.len() - i,
        {
            if self.tools[i] == tool {
                return true;
            }
            i += 1;
        }
        false
    }

    /// Starts a run of `graph`.
    ///
    /// # Errors
    ///
    /// Returns [`GraphError::UnknownDependency`] or [`GraphError::Cycle`]
    /// when the graph cannot be scheduled.
    pub fn start(&self, graph: &TaskGraph) -> (result: Result<BuildRun, GraphError>)
        ensures
            match graph::waves_of(graph.entries@) {
                Ok(waves) => result matches Ok(run) && run.runs(*graph) && run.schedule() == waves
                    && run.done() == 0 && run.tally() == no_tally() && run.fresh_keys()
                    == Seq::<Seq<char>>::empty(),
                Err(fault) => result matches Err(error) && error@ == fault,
            },
    {
        match graph.wave_positions() {
            Ok(waves) => {
                proof {
                    law_waves_hold_all_tasks(graph.entries@);
                }
                let fresh: Vec<String> = Vec::new();
                assert(text::texts(fresh@) == Seq::<Seq<char>>::empty());
                Ok(
                    BuildRun {
                        waves,
                        next: 0,
                        result: BuildResult { ran: 0, up_to_date: 0, skipped: 0, failure: None },
                        fresh,
                    },
                )
            },
            Err(error) => Err(error),
        }
    }

    fn split(
        &self,
        graph: &TaskGraph,
        store: &FingerprintStore,
        run: &BuildRun,
        fingerprints: &Vec<String>,
    ) -> (split: Split)
        requires
            run.runs(*graph),
            run.goes_on(),
            fingerprints@.len() == run.schedule()[run.done() as int].len(),
        ensures
            split.sorted() == sorted(
                graph.entries@,
                run.schedule()[run.done() as int],
                text::texts(fingerprints@),
                run.fresh_keys(),
                store.recorded(),
                fingerprints@.len() as int,
            ),
    {
        let ghost tasks = graph.entries@;
        let ghost wave = run.schedule()[run.done() as int];
        let ghost prints = text::texts(fingerprints@);
        let ghost keys = run.fresh_keys();
        proof {
            lemma_wave_range(tasks, run.schedule(), run.done() as int);
        }
        let list = &run.waves[run.next];
        assert(wave == graph::positions(list@));
        let mut split = Split { fresh: text::copy_texts(&run.fresh), stale: Vec::new() };
        assert(graph::positions(split.stale@) == Seq::<int>::empty());
        let mut i: usize = 0;
        while i < list.len()
            invariant
                tasks == graph.entries@,
                wave == graph::positions(list@),
                prints == text::texts(fingerprints@),
                fingerprints@.len() == list@.len(),
                forall|k: int| 0 <= k < wave.len() ==> 0 <= #[trigger] wave[k] < tasks.len(),
                i <= list@.len(),
                split.sorted() == sorted(tasks, wave, prints, keys, store.recorded(), i as int),
            decreases list.len() - i,
        {
            assert(wave[i as int] == list@[i as int]);
            let task = &graph.entries[list[i]];
            let key = graph::task_key(&task.module, &task.name);
            assert(prints[i as int] == fingerprints@[i as int]@);
            if all_fresh(task, &split.fresh) && store.is_up_to_date(&key, &fingerprints[i]) {
                let ghost was = split.fresh@;
                split.fresh.push(key);
                assert(text::texts(split.fresh@) == text::texts(was).push(key@));
            } else {
                let ghost was = split.stale@;
                split.stale.push(i);
                assert(graph::positions(split.stale@) == graph::positions(was).push(i as int));
            }
            i += 1;
        }
        split
    }

    /// The tasks of the next wave that have to run, by their place in the
    /// wave, given the fingerprints of the wave's tasks.
    pub fn stale(
        &self,
        graph: &TaskGraph,
        store: &FingerprintStore,
        run: &BuildRun,
        fingerprints: &Vec<String>,
    ) -> (stale: Vec<usize>)
        requires
            run.runs(*graph),
            run.goes_on(),
            fingerprints@.len() == run.schedule()[run.done() as int].len(),
        ensures
            graph::positions(stale@) == stale_in(
                graph.entries@,
                run.schedule()[run.done() as int],
                text::texts(fingerprints@),
                run.state(*store),
            ),
    {
        self.split(graph, store, run, fingerprints).stale
    }

    /// Deals with the next wave of a run of `graph`: `fingerprints` are those
    /// of the wave's tasks, `outcomes` how those that [`Self::stale`] names
    /// ended. Successful runs are recorded in `store`.
    pub fn execute(
        &self,
        graph: &TaskGraph,
        store: &mut FingerprintStore,
        run: &mut BuildRun,
        fingerprints: &Vec<String>,
        outcomes: &Vec<Result<(), String>>,
    )
        requires
            old(store).wf(),
            old(run).runs(*graph),
            old(run).goes_on(),
            fingerprints@.len() == old(run).schedule()[old(run).done() as int].len(),
            outcomes@.len() == stale_in(
                graph.entries@,
                old(run).schedule()[old(run).done() as int],
                text::texts(fingerprints@),
                old(run).state(*old(store)),
            ).len(),
        ensures
            final(store).wf(),
            final(store).state_path == old(store).state_path,
            final(run).runs(*graph),
            final(run).schedule() == old(run).schedule(),
            final(run).done() == old(run).done() + 1,
            final(run).state(*final(store)) == after_wave(
                graph.entries@,
                old(run).schedule()[old(run).done() as int],
                text::texts(fingerprints@),
                outcome_list(outcomes@),
                old(run).state(*old(store)),
            ),
    {
        let split = self.split(graph, store, run, fingerprints);
        let ghost tasks = graph.entries@;
        let ghost wave = run.schedule()[run.done() as int];
        let ghost prints = text::texts(fingerprints@);
        let ghost start = run.state(*store);
        let ghost parted = split.sorted();
        let ghost ends = outcome_list(outcomes@);
        let ghost left = tasks_from(run.schedule(), run.done() as int);
        proof {
            lemma_wave_range(tasks, run.schedule(), run.done() as int);
            lemma_sorted(
                tasks,
                wave,
                prints,
                start.fresh,
                start.recorded,
                wave.len() as int,
            );
        }
        let list: Vec<usize> = copy_positions(&run.waves[run.next]);
        assert(wave == graph::positions(list@));
        assert(wave.len() == list@.len());
        assert(left == wave.len() + tasks_from(
            run.schedule(),
            run.done() as int + 1,
        ));
        assert(graph.entries.len() <= usize::MAX);
        let idle: usize = list.len() - split.stale.len();
        run.result.up_to_date = run.result.up_to_date + idle;
        run.fresh = split.fresh;
        let ghost counted = run.state(*store);
        let mut i: usize = 0;
        while i < outcomes.len()
            invariant
                tasks == graph.entries@,
                wave == graph::positions(list@),
                prints == text::texts(fingerprints@),
                prints.len() == wave.len(),
                ends == outcome_list(outcomes@),
                parted.stale == graph::positions(split.stale@),
                parted.stale.len() == outcomes@.len(),
                forall|k: int| 0 <= k < wave.len() ==> 0 <= #[trigger] wave[k] < tasks.len(),
                forall|k: int|
                    0 <= k < parted.stale.len() ==> 0 <= #[trigger] parted.stale[k] < wave.len(),
                i <= outcomes@.len(),
                store.wf(),
                store.state_path == old(store).state_path,
                run.schedule() == old(run).schedule(),
                run.done() == old(run).done(),
                run.tally().skipped == 0,
                run.tally().up_to_date == counted.tally.up_to_date,
                run.tally().ran <= counted.tally.ran + i,
                counted.tally.ran + counted.tally.up_to_date + parted.stale.len()
                    <= tasks.len(),
                tasks.len() <= usize::MAX,
                run.state(*store) == ended(
                    tasks,
                    wave,
                    prints,
                    parted.stale,
                    ends,
                    counted,
                    i as int,
                ),
            decreases outcomes.len() - i,
        {
            let place: usize = split.stale[i];
            assert(parted.stale[i as int] == place);
            assert(wave[place as int] == list@[place as int]);
            let task = &graph.entries[list[place]];
            let key = graph::task_key(&task.module, &task.name);
            match &outcomes[i] {
                Ok(_) => {
                    store.record(&key, &fingerprints[place]);
                    run.result.ran = run.result.ran + 1;
                },
                Err(error) => {
                    if run.result.failure.is_none() {
                        run.result.failure = Some(TaskFailure { task: key, error: error.clone() });
                    }
                },
            }
            i += 1;
        }
        assert(run.schedule().len() == run.waves.len());
        run.next = run.next + 1;
    }
}

fn copy_positions(list: &Vec<usize>) -> (copied: Vec<usize>)
    ensures
        copied@ == list@,
{
    let mut copied: Vec<usize> = Vec::new();
    let mut i: usize = 0;
    while i < list.len()
        invariant
            i <= list@.len(),
            copied@ == list@.take(i as int),
        decreases list.len() - i,
    {
        copied.push(list[i]);
        assert(list@.take(i + 1) == list@.take(i as int).push(list@[i as int]));
        i += 1;
    }
    assert(list@.take(i as int) == list@);
    copied
}

} // verus!
