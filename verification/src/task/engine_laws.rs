//! What holds of every run.

use vstd::prelude::*;
use crate::task::Task;
use crate::task::engine;
use crate::task::engine::{BuildRun, FingerprintStore, RunState, Tally};
use crate::task::graph;
use crate::task::graph::TaskGraph;
use crate::task::graph_laws;

verus! {

/// The fingerprints of a wave's tasks, given that of each task.
pub open spec fn wave_prints(wave: Seq<int>, prints: Seq<Seq<char>>) -> Seq<Seq<char>> {
    Seq::new(wave.len(), |k: int| prints[wave[k]])
}

/// The state after the first `n` waves of a run in which the tasks have the
/// fingerprints `prints` and the stale tasks of each wave end as `outcomes`
/// says. No wave is dealt with after a failure.
pub open spec fn run_waves(
    tasks: Seq<Task>,
    waves: Seq<Seq<int>>,
    prints: Seq<Seq<char>>,
    outcomes: Seq<Seq<Result<(), Seq<char>>>>,
    recorded: Map<Seq<char>, Seq<char>>,
    n: int,
) -> RunState
    decreases n,
{
    if n <= 0 {
        RunState { tally: engine::no_tally(), fresh: Seq::empty(), recorded }
    } else {
        let before = run_waves(tasks, waves, prints, outcomes, recorded, n - 1);
        if before.tally.failure is Some {
            before
        } else {
            engine::after_wave(
                tasks,
                waves[n - 1],
                wave_prints(waves[n - 1], prints),
                outcomes[n - 1],
                before,
            )
        }
    }
}

/// Whether the fingerprint of a task is recorded.
pub open spec fn is_recorded(
    tasks: Seq<Task>,
    prints: Seq<Seq<char>>,
    recorded: Map<Seq<char>, Seq<char>>,
    p: int,
) -> bool {
    &&& recorded.contains_key(graph::key_of(tasks[p]))
    &&& recorded[graph::key_of(tasks[p])] == prints[p]
}

spec fn in_range(wave: Seq<int>, tasks: Seq<Task>) -> bool {
    forall|k: int| 0 <= k < wave.len() ==> 0 <= #[trigger] wave[k] < tasks.len()
}

proof fn lemma_sorted_cover(
    tasks: Seq<Task>,
    wave: Seq<int>,
    prints: Seq<Seq<char>>,
    fresh: Seq<Seq<char>>,
    recorded: Map<Seq<char>, Seq<char>>,
    n: int,
)
    requires
        0 <= n <= wave.len(),
        in_range(wave, tasks),
    ensures
        ({
            let s = engine::sorted(tasks, wave, wave_prints(wave, prints), fresh, recorded, n);
            &&& s.stale.len() <= n
            &&& forall|m: int| 0 <= m < s.stale.len() ==> 0 <= #[trigger] s.stale[m] < n
            &&& forall|k: int|
                0 <= k < n && !s.stale.contains(k) ==> is_recorded(
                    tasks,
                    prints,
                    recorded,
                    #[trigger] wave[k],
                )
        }),
    decreases n,
{
    if n > 0 {
        lemma_sorted_cover(tasks, wave, prints, fresh, recorded, n - 1);
        let all = wave_prints(wave, prints);
        let before = engine::sorted(tasks, wave, all, fresh, recorded, n - 1);
        let after = engine::sorted(tasks, wave, all, fresh, recorded, n);
        assert forall|k: int| 0 <= k < n && !after.stale.contains(k) implies is_recorded(
            tasks,
            prints,
            recorded,
            #[trigger] wave[k],
        ) by {
            if k < n - 1 && before.stale.contains(k) {
                let m = choose|m: int| 0 <= m < before.stale.len() && before.stale[m] == k;
                assert(after.stale[m] == k);
            } else if k == n - 1 && after.stale.len() > before.stale.len() {
                assert(after.stale[before.stale.len() as int] == k);
            }
        }
    }
}

proof fn lemma_ended(
    tasks: Seq<Task>,
    wave: Seq<int>,
    prints: Seq<Seq<char>>,
    stale: Seq<int>,
    outcomes: Seq<Result<(), Seq<char>>>,
    state: RunState,
    n: int,
)
    requires
        graph::distinct_keys(tasks),
        in_range(wave, tasks),
        0 <= n <= stale.len(),
        forall|m: int| 0 <= m < stale.len() ==> 0 <= #[trigger] stale[m] < wave.len(),
    ensures
        ({
            let end = engine::ended(
                tasks,
                wave,
                wave_prints(wave, prints),
                stale,
                outcomes,
                state,
                n,
            );
            &&& end.fresh == state.fresh
            &&& end.tally.up_to_date == state.tally.up_to_date
            &&& end.tally.skipped == state.tally.skipped
            &&& forall|p: int|
                0 <= p < tasks.len() && is_recorded(tasks, prints, state.recorded, p)
                    ==> #[trigger] is_recorded(tasks, prints, end.recorded, p)
            &&& end.tally.failure is None ==> {
                &&& state.tally.failure is None
                &&& end.tally.ran == state.tally.ran + n
                &&& forall|m: int|
                    0 <= m < n ==> is_recorded(
                        tasks,
                        prints,
                        end.recorded,
                        wave[#[trigger] stale[m]],
                    )
            }
        }),
    decreases n,
{
    if n > 0 {
        lemma_ended(tasks, wave, prints, stale, outcomes, state, n - 1);
        let all = wave_prints(wave, prints);
        let before = engine::ended(tasks, wave, all, stale, outcomes, state, n - 1);
        let end = engine::ended(tasks, wave, all, stale, outcomes, state, n);
        let at = stale[n - 1];
        let own = wave[at];
        assert(all[at] == prints[own]);
        assert forall|p: int|
            0 <= p < tasks.len() && is_recorded(
                tasks,
                prints,
                before.recorded,
                p,
            ) implies #[trigger] is_recorded(tasks, prints, end.recorded, p) by {
            if p != own && graph::key_of(tasks[p]) == graph::key_of(tasks[own]) {
                if p < own {
                    assert(graph::key_of(tasks[p]) != graph::key_of(tasks[own]));
                } else {
                    assert(graph::key_of(tasks[own]) != graph::key_of(tasks[p]));
                }
            }
        }
        assert forall|p: int|
            0 <= p < tasks.len() && is_recorded(
                tasks,
                prints,
                state.recorded,
                p,
            ) implies #[trigger] is_recorded(tasks, prints, end.recorded, p) by {
            assert(is_recorded(tasks, prints, before.recorded, p));
        }
        if end.tally.failure is None {
            assert forall|m: int| 0 <= m < n implies is_recorded(
                tasks,
                prints,
                end.recorded,
                wave[#[trigger] stale[m]],
            ) by {
                if m < n - 1 {
                    assert(is_recorded(tasks, prints, before.recorded, wave[stale[m]]));
                }
            }
        }
    }
}

/// Whether `waves` and `depths` are those of a graph with distinct keys.
spec fn is_schedule(tasks: Seq<Task>, waves: Seq<Seq<int>>, depths: Seq<nat>) -> bool {
    &&& graph::distinct_keys(tasks)
    &&& graph::waves_of(tasks) == Ok::<Seq<Seq<int>>, graph::Fault>(waves)
    &&& graph::depths_of(tasks) == Ok::<Seq<nat>, graph::Fault>(depths)
}

proof fn lemma_wave(tasks: Seq<Task>, waves: Seq<Seq<int>>, depths: Seq<nat>, d: int)
    requires
        is_schedule(tasks, waves, depths),
        0 <= d < waves.len(),
    ensures
        depths.len() == tasks.len(),
        in_range(waves[d], tasks),
        forall|k: int| 0 <= k < waves[d].len() ==> depths[#[trigger] waves[d][k]] == d,
        forall|p: int|
            0 <= p < tasks.len() && #[trigger] depths[p] == d ==> waves[d].contains(p),
{
    graph::lemma_at_depth(depths, d as nat, depths.len() as int);
}

/// What a run without a failure has recorded after `n` waves.
proof fn lemma_first_run(
    tasks: Seq<Task>,
    waves: Seq<Seq<int>>,
    depths: Seq<nat>,
    prints: Seq<Seq<char>>,
    outcomes: Seq<Seq<Result<(), Seq<char>>>>,
    recorded: Map<Seq<char>, Seq<char>>,
    n: int,
)
    requires
        is_schedule(tasks, waves, depths),
        0 <= n <= waves.len(),
        run_waves(tasks, waves, prints, outcomes, recorded, n).tally.failure is None,
    ensures
        ({
            let end = run_waves(tasks, waves, prints, outcomes, recorded, n);
            &&& forall|p: int|
                0 <= p < tasks.len() && #[trigger] depths[p] < n ==> is_recorded(
                    tasks,
                    prints,
                    end.recorded,
                    p,
                )
            &&& end.tally.skipped == 0
            &&& end.tally.ran + end.tally.up_to_date + engine::tasks_from(waves, n) == tasks.len()
        }),
    decreases n,
{
    let end = run_waves(tasks, waves, prints, outcomes, recorded, n);
    if n == 0 {
        engine::law_waves_hold_all_tasks(tasks);
    } else {
        let d = n - 1;
        let before = run_waves(tasks, waves, prints, outcomes, recorded, d);
        lemma_first_run(tasks, waves, depths, prints, outcomes, recorded, d);
        lemma_wave(tasks, waves, depths, d);
        let wave = waves[d];
        let all = wave_prints(wave, prints);
        let split = engine::sorted(
            tasks,
            wave,
            all,
            before.fresh,
            before.recorded,
            wave.len() as int,
        );
        lemma_sorted_cover(tasks, wave, prints, before.fresh, before.recorded, wave.len() as int);
        let counted = RunState {
            tally: Tally {
                up_to_date: before.tally.up_to_date + (wave.len() - split.stale.len()) as nat,
                ..before.tally
            },
            fresh: split.fresh,
            ..before
        };
        lemma_ended(
            tasks,
            wave,
            prints,
            split.stale,
            outcomes[d],
            counted,
            split.stale.len() as int,
        );
        assert forall|p: int| 0 <= p < tasks.len() && #[trigger] depths[p] < n implies is_recorded(
            tasks,
            prints,
            end.recorded,
            p,
        ) by {
            if depths[p] < d {
                assert(is_recorded(tasks, prints, before.recorded, p));
            } else {
                let k = choose|k: int| 0 <= k < wave.len() && wave[k] == p;
                if split.stale.contains(k) {
                    let m = choose|m: int| 0 <= m < split.stale.len() && split.stale[m] == k;
                    assert(is_recorded(tasks, prints, end.recorded, wave[split.stale[m]]));
                } else {
                    assert(is_recorded(tasks, prints, before.recorded, wave[k]));
                }
            }
        }
    }
}

/// A run that nothing failed in accounts for every task: each either ran or
/// was up to date.
pub proof fn law_every_task_is_counted(
    tasks: Seq<Task>,
    waves: Seq<Seq<int>>,
    prints: Seq<Seq<char>>,
    outcomes: Seq<Seq<Result<(), Seq<char>>>>,
    recorded: Map<Seq<char>, Seq<char>>,
)
    requires
        graph::distinct_keys(tasks),
        graph::waves_of(tasks) == Ok::<Seq<Seq<int>>, graph::Fault>(waves),
        run_waves(
            tasks,
            waves,
            prints,
            outcomes,
            recorded,
            waves.len() as int,
        ).tally.failure is None,
    ensures
        ({
            let end = run_waves(
                tasks,
                waves,
                prints,
                outcomes,
                recorded,
                waves.len() as int,
            );
            end.tally.ran + end.tally.up_to_date == tasks.len() && end.tally.skipped == 0
        }),
{
    let depths = graph::depths_of(tasks)->Ok_0;
    lemma_first_run(tasks, waves, depths, prints, outcomes, recorded, waves.len() as int);
}

proof fn lemma_all_fresh(
    tasks: Seq<Task>,
    waves: Seq<Seq<int>>,
    depths: Seq<nat>,
    prints: Seq<Seq<char>>,
    state: RunState,
    d: int,
    n: int,
)
    requires
        is_schedule(tasks, waves, depths),
        0 <= d < waves.len(),
        0 <= n <= waves[d].len(),
        forall|p: int|
            0 <= p < tasks.len() ==> #[trigger] is_recorded(tasks, prints, state.recorded, p),
        forall|p: int|
            0 <= p < tasks.len() && #[trigger] depths[p] < d ==> state.fresh.contains(
                graph::key_of(tasks[p]),
            ),
    ensures
        ({
            let s = engine::sorted(
                tasks,
                waves[d],
                wave_prints(waves[d], prints),
                state.fresh,
                state.recorded,
                n,
            );
            &&& s.stale.len() == 0
            &&& forall|key: Seq<char>| #[trigger]
                state.fresh.contains(key) ==> s.fresh.contains(key)
            &&& forall|k: int|
                0 <= k < n ==> s.fresh.contains(graph::key_of(tasks[#[trigger] waves[d][k]]))
        }),
    decreases n,
{
    if n > 0 {
        lemma_all_fresh(tasks, waves, depths, prints, state, d, n - 1);
        lemma_wave(tasks, waves, depths, d);
        let wave = waves[d];
        let all = wave_prints(wave, prints);
        let before = engine::sorted(tasks, wave, all, state.fresh, state.recorded, n - 1);
        let after = engine::sorted(tasks, wave, all, state.fresh, state.recorded, n);
        let own = wave[n - 1];
        let task = tasks[own];
        let key = graph::key_of(task);
        assert(depths[own] == d);
        assert forall|k: int| 0 <= k < graph::dep_keys(task).len() implies before.fresh.contains(
            #[trigger] graph::dep_keys(task)[k],
        ) by {
            graph_laws::law_dependencies_come_first(tasks, own, k);
            let dep = graph::dep_keys(task)[k];
            graph::lemma_find(tasks, dep, 0);
            let p = graph::find_from(tasks, dep, 0)->0;
            assert(depths[p] < d);
            assert(state.fresh.contains(graph::key_of(tasks[p])));
        }
        assert(is_recorded(tasks, prints, state.recorded, own));
        assert(all[n - 1] == prints[own]);
        assert(engine::is_fresh(task, all[n - 1], before.fresh, state.recorded));
        assert(after.fresh == before.fresh.push(key));
        assert(after.fresh[before.fresh.len() as int] == key);
        assert forall|x: Seq<char>| #[trigger] before.fresh.contains(x) implies after.fresh.contains(
            x,
        ) by {
            let i = choose|i: int| 0 <= i < before.fresh.len() && before.fresh[i] == x;
            assert(after.fresh[i] == x);
        }
        assert forall|k: int| 0 <= k < n implies after.fresh.contains(
            graph::key_of(tasks[#[trigger] wave[k]]),
        ) by {
            if k < n - 1 {
                assert(before.fresh.contains(graph::key_of(tasks[wave[k]])));
            }
        }
    }
}

proof fn lemma_second_run(
    tasks: Seq<Task>,
    waves: Seq<Seq<int>>,
    depths: Seq<nat>,
    prints: Seq<Seq<char>>,
    outcomes: Seq<Seq<Result<(), Seq<char>>>>,
    recorded: Map<Seq<char>, Seq<char>>,
    n: int,
)
    requires
        is_schedule(tasks, waves, depths),
        0 <= n <= waves.len(),
        forall|p: int| 0 <= p < tasks.len() ==> #[trigger] is_recorded(tasks, prints, recorded, p),
    ensures
        ({
            let end = run_waves(tasks, waves, prints, outcomes, recorded, n);
            &&& end.recorded == recorded
            &&& end.tally.ran == 0
            &&& end.tally.failure is None
            &&& forall|p: int|
                0 <= p < tasks.len() && #[trigger] depths[p] < n ==> end.fresh.contains(
                    graph::key_of(tasks[p]),
                )
        }),
    decreases n,
{
    if n > 0 {
        let d = n - 1;
        lemma_second_run(tasks, waves, depths, prints, outcomes, recorded, d);
        let before = run_waves(tasks, waves, prints, outcomes, recorded, d);
        let end = run_waves(tasks, waves, prints, outcomes, recorded, n);
        let wave = waves[d];
        lemma_all_fresh(tasks, waves, depths, prints, before, d, wave.len() as int);
        lemma_wave(tasks, waves, depths, d);
        assert forall|p: int| 0 <= p < tasks.len() && #[trigger] depths[p]
            < n implies end.fresh.contains(graph::key_of(tasks[p])) by {
            if depths[p] < d {
                assert(before.fresh.contains(graph::key_of(tasks[p])));
            } else {
                let k = choose|k: int| 0 <= k < wave.len() && wave[k] == p;
                assert(end.fresh.contains(graph::key_of(tasks[wave[k]])));
            }
        }
    }
}

/// A build with nothing to do does nothing: after a run in which no task
/// failed, a run in which every task has the fingerprint it had runs no task,
/// finds them all up to date and leaves what is recorded as it is.
pub proof fn law_second_run_is_idle(
    tasks: Seq<Task>,
    waves: Seq<Seq<int>>,
    prints: Seq<Seq<char>>,
    first: Seq<Seq<Result<(), Seq<char>>>>,
    second: Seq<Seq<Result<(), Seq<char>>>>,
    recorded: Map<Seq<char>, Seq<char>>,
)
    requires
        graph::distinct_keys(tasks),
        graph::waves_of(tasks) == Ok::<Seq<Seq<int>>, graph::Fault>(waves),
        run_waves(
            tasks,
            waves,
            prints,
            first,
            recorded,
            waves.len() as int,
        ).tally.failure is None,
    ensures
        ({
            let n = waves.len() as int;
            let after = run_waves(tasks, waves, prints, first, recorded, n).recorded;
            let end = run_waves(tasks, waves, prints, second, after, n);
            &&& end.tally.ran == 0
            &&& end.tally.up_to_date == tasks.len()
            &&& end.tally.skipped == 0
            &&& end.tally.failure is None
            &&& end.recorded == after
        }),
{
    let n = waves.len() as int;
    let depths = graph::depths_of(tasks)->Ok_0;
    let after = run_waves(tasks, waves, prints, first, recorded, n).recorded;
    lemma_first_run(tasks, waves, depths, prints, first, recorded, n);
    assert forall|p: int| 0 <= p < tasks.len() implies #[trigger] is_recorded(
        tasks,
        prints,
        after,
        p,
    ) by {
        graph_laws::law_every_task_in_one_wave(tasks, p);
        assert(depths[p] < n);
    }
    lemma_second_run(tasks, waves, depths, prints, second, after, n);
    law_every_task_is_counted(tasks, waves, prints, second, after);
}

/// A task whose dependency was not up to date in this run is not either,
/// whatever is recorded of it.
pub proof fn law_reruns_spread(
    task: Task,
    fingerprint: Seq<char>,
    fresh: Seq<Seq<char>>,
    recorded: Map<Seq<char>, Seq<char>>,
    k: int,
)
    requires
        0 <= k < graph::dep_keys(task).len(),
        !fresh.contains(graph::dep_keys(task)[k]),
    ensures
        !engine::is_fresh(task, fingerprint, fresh, recorded),
{
    assert(graph::dep_keys(task)[k] == graph::dep_keys(task)[k]);
}

/// Whether one call of [`engine::Executor::execute`] leads from one state of a
/// run to the next: the tasks have the fingerprints `prints`, and those that have
/// to run end as `outcomes` says.
pub open spec fn is_step(
    graph: TaskGraph,
    from: (BuildRun, FingerprintStore),
    to: (BuildRun, FingerprintStore),
    prints: Seq<Seq<char>>,
    outcomes: Seq<Result<(), Seq<char>>>,
) -> bool {
    let tasks = graph.entries@;
    let wave = from.0.schedule()[from.0.done() as int];
    let state = from.0.state(from.1);
    &&& from.0.goes_on()
    &&& outcomes.len() == engine::stale_in(tasks, wave, wave_prints(wave, prints), state).len()
    &&& to.0.schedule() == from.0.schedule()
    &&& to.0.done() == from.0.done() + 1
    &&& to.0.state(to.1) == engine::after_wave(
        tasks,
        wave,
        wave_prints(wave, prints),
        outcomes,
        state,
    )
}

/// Whether a run of `graph` goes through `states`, from the one that
/// [`engine::Executor::start`] gives to one that [`engine::BuildRun::finish`] takes.
pub open spec fn is_run(
    graph: TaskGraph,
    states: Seq<(BuildRun, FingerprintStore)>,
    prints: Seq<Seq<char>>,
    outcomes: Seq<Seq<Result<(), Seq<char>>>>,
) -> bool {
    &&& states.len() == outcomes.len() + 1
    &&& graph::waves_of(graph.entries@) == Ok::<Seq<Seq<int>>, graph::Fault>(
        states[0].0.schedule(),
    )
    &&& states[0].0.done() == 0
    &&& states[0].0.tally() == engine::no_tally()
    &&& states[0].0.fresh_keys() == Seq::<Seq<char>>::empty()
    &&& forall|n: int|
        0 <= n < outcomes.len() ==> is_step(
            graph,
            states[n],
            states[n + 1],
            prints,
            #[trigger] outcomes[n],
        )
    &&& !states.last().0.goes_on()
}

/// What [`engine::BuildRun::finish`] gives for a run.
pub open spec fn result_of(run: BuildRun) -> Tally {
    Tally {
        skipped: engine::tasks_from(run.schedule(), run.done() as int),
        ..run.tally()
    }
}

pub proof fn lemma_steps(
    graph: TaskGraph,
    states: Seq<(BuildRun, FingerprintStore)>,
    prints: Seq<Seq<char>>,
    outcomes: Seq<Seq<Result<(), Seq<char>>>>,
    n: int,
)
    requires
        is_run(graph, states, prints, outcomes),
        0 <= n < states.len(),
    ensures
        states[n].0.schedule() == states[0].0.schedule(),
        states[n].0.done() == n,
        n <= states[0].0.schedule().len(),
        states[n].0.state(states[n].1) == run_waves(
            graph.entries@,
            states[0].0.schedule(),
            prints,
            outcomes,
            states[0].1.recorded(),
            n,
        ),
    decreases n,
{
    if n > 0 {
        lemma_steps(graph, states, prints, outcomes, n - 1);
        assert(is_step(graph, states[n - 1], states[n], prints, outcomes[n - 1]));
    }
}

proof fn lemma_stopped(
    tasks: Seq<Task>,
    waves: Seq<Seq<int>>,
    prints: Seq<Seq<char>>,
    outcomes: Seq<Seq<Result<(), Seq<char>>>>,
    recorded: Map<Seq<char>, Seq<char>>,
    m: int,
    n: int,
)
    requires
        0 <= m <= n,
        run_waves(tasks, waves, prints, outcomes, recorded, m).tally.failure is Some,
    ensures
        run_waves(tasks, waves, prints, outcomes, recorded, n) == run_waves(
            tasks,
            waves,
            prints,
            outcomes,
            recorded,
            m,
        ),
    decreases n,
{
    if m < n {
        lemma_stopped(tasks, waves, prints, outcomes, recorded, m, n - 1);
    }
}

/// The calls that make a run amount to dealing with its waves one after the
/// other: what they have counted and recorded in the end is what [`run_waves`]
/// gives.
pub proof fn law_calls_make_a_run(
    graph: TaskGraph,
    states: Seq<(BuildRun, FingerprintStore)>,
    prints: Seq<Seq<char>>,
    outcomes: Seq<Seq<Result<(), Seq<char>>>>,
)
    requires
        is_run(graph, states, prints, outcomes),
    ensures
        states.last().0.state(states.last().1) == run_waves(
            graph.entries@,
            states[0].0.schedule(),
            prints,
            outcomes,
            states[0].1.recorded(),
            states[0].0.schedule().len() as int,
        ),
{
    let n = outcomes.len() as int;
    let waves = states[0].0.schedule();
    lemma_steps(graph, states, prints, outcomes, n);
    if n < waves.len() {
        lemma_stopped(
            graph.entries@,
            waves,
            prints,
            outcomes,
            states[0].1.recorded(),
            n,
            waves.len() as int,
        );
    }
}

/// How many of the first `n` outcomes are failures.
pub open spec fn failures(outcomes: Seq<Result<(), Seq<char>>>, n: int) -> nat
    decreases n,
{
    if n <= 0 {
        0
    } else {
        failures(outcomes, n - 1) + if outcomes[n - 1] is Err {
            1nat
        } else {
            0nat
        }
    }
}

/// How many tasks of the first `n` waves failed.
pub open spec fn failed_in(outcomes: Seq<Seq<Result<(), Seq<char>>>>, n: int) -> nat
    decreases n,
{
    if n <= 0 {
        0
    } else {
        failed_in(outcomes, n - 1) + failures(outcomes[n - 1], outcomes[n - 1].len() as int)
    }
}

proof fn lemma_ended_counts(
    tasks: Seq<Task>,
    wave: Seq<int>,
    prints: Seq<Seq<char>>,
    stale: Seq<int>,
    outcomes: Seq<Result<(), Seq<char>>>,
    state: RunState,
    n: int,
)
    requires
        0 <= n,
    ensures
        ({
            let end = engine::ended(tasks, wave, prints, stale, outcomes, state, n);
            &&& end.tally.ran + failures(outcomes, n) == state.tally.ran + n
            &&& end.tally.up_to_date == state.tally.up_to_date
            &&& end.tally.skipped == state.tally.skipped
            &&& end.tally.failure is None <==> state.tally.failure is None && failures(outcomes, n)
                == 0
        }),
    decreases n,
{
    if n > 0 {
        lemma_ended_counts(tasks, wave, prints, stale, outcomes, state, n - 1);
    }
}

proof fn lemma_counts(
    graph: TaskGraph,
    states: Seq<(BuildRun, FingerprintStore)>,
    prints: Seq<Seq<char>>,
    outcomes: Seq<Seq<Result<(), Seq<char>>>>,
    n: int,
)
    requires
        is_run(graph, states, prints, outcomes),
        0 <= n < states.len(),
    ensures
        ({
            let tally = states[n].0.tally();
            &&& tally.ran + tally.up_to_date + failed_in(outcomes, n) + engine::tasks_from(
                states[0].0.schedule(),
                n,
            ) == graph.entries@.len()
            &&& tally.failure is None <==> failed_in(outcomes, n) == 0
        }),
    decreases n,
{
    let tasks = graph.entries@;
    let waves = states[0].0.schedule();
    if n == 0 {
        engine::law_waves_hold_all_tasks(tasks);
    } else {
        let d = n - 1;
        lemma_counts(graph, states, prints, outcomes, d);
        lemma_steps(graph, states, prints, outcomes, d);
        lemma_steps(graph, states, prints, outcomes, n);
        assert(is_step(graph, states[d], states[n], prints, outcomes[d]));
        let before = states[d].0.state(states[d].1);
        let wave = waves[d];
        let all = wave_prints(wave, prints);
        let split = engine::sorted(
            tasks,
            wave,
            all,
            before.fresh,
            before.recorded,
            wave.len() as int,
        );
        let depths = graph::depths_of(tasks)->Ok_0;
        graph::lemma_at_depth(depths, d as nat, depths.len() as int);
        lemma_sorted_cover(tasks, wave, prints, before.fresh, before.recorded, wave.len() as int);
        let counted = RunState {
            tally: Tally {
                up_to_date: before.tally.up_to_date + (wave.len() - split.stale.len()) as nat,
                ..before.tally
            },
            fresh: split.fresh,
            ..before
        };
        lemma_ended_counts(
            tasks,
            wave,
            all,
            split.stale,
            outcomes[d],
            counted,
            split.stale.len() as int,
        );
    }
}

/// Every run accounts for every task: each ran, was up to date, failed, or was
/// never started. A failure is reported exactly where a task failed.
pub proof fn law_every_task_is_accounted_for(
    graph: TaskGraph,
    states: Seq<(BuildRun, FingerprintStore)>,
    prints: Seq<Seq<char>>,
    outcomes: Seq<Seq<Result<(), Seq<char>>>>,
)
    requires
        is_run(graph, states, prints, outcomes),
    ensures
        ({
            let result = result_of(states.last().0);
            let failed = failed_in(outcomes, outcomes.len() as int);
            &&& result.ran + result.up_to_date + result.skipped + failed == graph.entries@.len()
            &&& result.failure is None <==> failed == 0
        }),
{
    let n = outcomes.len() as int;
    lemma_steps(graph, states, prints, outcomes, n);
    lemma_counts(graph, states, prints, outcomes, n);
}

/// A run that nothing fails in records the fingerprint of every task.
pub proof fn law_run_is_recorded(
    graph: TaskGraph,
    states: Seq<(BuildRun, FingerprintStore)>,
    prints: Seq<Seq<char>>,
    outcomes: Seq<Seq<Result<(), Seq<char>>>>,
)
    requires
        graph::distinct_keys(graph.entries@),
        is_run(graph, states, prints, outcomes),
        states.last().0.tally().failure is None,
    ensures
        forall|p: int|
            0 <= p < graph.entries@.len() ==> #[trigger] is_recorded(
                graph.entries@,
                prints,
                states.last().1.recorded(),
                p,
            ),
{
    let tasks = graph.entries@;
    let waves = states[0].0.schedule();
    let n = waves.len() as int;
    let depths = graph::depths_of(tasks)->Ok_0;
    law_calls_make_a_run(graph, states, prints, outcomes);
    lemma_first_run(tasks, waves, depths, prints, outcomes, states[0].1.recorded(), n);
    assert forall|p: int| 0 <= p < tasks.len() implies #[trigger] is_recorded(
        tasks,
        prints,
        states.last().1.recorded(),
        p,
    ) by {
        graph_laws::law_every_task_in_one_wave(tasks, p);
        assert(depths[p] < n);
    }
}

/// A build with nothing to do does nothing: after a run that nothing failed in,
/// one that starts from what the first recorded, and in which each task still has
/// the fingerprint that is recorded for it, runs no action, finds every task up
/// to date and leaves what is recorded as it is.
pub proof fn law_second_build_is_idle(
    graph: TaskGraph,
    first: Seq<(BuildRun, FingerprintStore)>,
    first_prints: Seq<Seq<char>>,
    first_outcomes: Seq<Seq<Result<(), Seq<char>>>>,
    second: Seq<(BuildRun, FingerprintStore)>,
    prints: Seq<Seq<char>>,
    outcomes: Seq<Seq<Result<(), Seq<char>>>>,
)
    requires
        graph::distinct_keys(graph.entries@),
        is_run(graph, first, first_prints, first_outcomes),
        first.last().0.tally().failure is None,
        is_run(graph, second, prints, outcomes),
        second[0].1.recorded() == first.last().1.recorded(),
        forall|p: int|
            0 <= p < graph.entries@.len() ==> #[trigger] prints[p] == first.last().1.recorded()[graph::key_of(
                graph.entries@[p],
            )],
    ensures
        result_of(second.last().0) == (Tally {
            ran: 0,
            up_to_date: graph.entries@.len(),
            skipped: 0,
            failure: None,
        }),
        second.last().1.recorded() == first.last().1.recorded(),
        forall|n: int| 0 <= n < outcomes.len() ==> (#[trigger] outcomes[n]).len() == 0,
{
    let tasks = graph.entries@;
    let waves = second[0].0.schedule();
    let recorded = second[0].1.recorded();
    let depths = graph::depths_of(tasks)->Ok_0;
    law_run_is_recorded(graph, first, first_prints, first_outcomes);
    assert forall|p: int| 0 <= p < tasks.len() implies #[trigger] is_recorded(
        tasks,
        prints,
        recorded,
        p,
    ) by {
        assert(is_recorded(tasks, first_prints, recorded, p));
        assert(prints[p] == recorded[graph::key_of(tasks[p])]);
    }
    let end = outcomes.len() as int;
    law_calls_make_a_run(graph, second, prints, outcomes);
    lemma_steps(graph, second, prints, outcomes, end);
    lemma_second_run(tasks, waves, depths, prints, outcomes, recorded, waves.len() as int);
    assert(second.last().0.tally().failure is None);
    assert(end == waves.len());
    lemma_counts(graph, second, prints, outcomes, end);
    assert forall|n: int| 0 <= n < outcomes.len() implies (#[trigger] outcomes[n]).len() == 0 by {
        lemma_steps(graph, second, prints, outcomes, n);
        lemma_second_run(tasks, waves, depths, prints, outcomes, recorded, n);
        assert(is_step(graph, second[n], second[n + 1], prints, outcomes[n]));
        let state = second[n].0.state(second[n].1);
        lemma_all_fresh(tasks, waves, depths, prints, state, n, waves[n].len() as int);
    }
}

} // verus!
