//! What a run does with the tasks it comes to: which of them run, what is
//! remembered of them and what their failure stops.

use vstd::prelude::*;
use crate::task::Task;
use crate::task::engine;
use crate::task::engine::{BuildRun, FingerprintStore, RunState, StateFile};
use crate::task::engine_laws;
use crate::task::graph;
use crate::task::graph::TaskGraph;
use crate::task::graph_laws;
use crate::text;

verus! {

/// A name without `::` refers to a task of the module it is used in, one that
/// is a module, `::` and a task to the task of that module.
pub proof fn law_names_refer_to_tasks(module: Seq<char>, name: Seq<char>, other: Seq<char>)
    ensures
        (forall|i: int| 0 <= i < name.len() - 1 ==> !(#[trigger] name[i] == ':' && name[i + 1]
            == ':')) ==> graph::dep_key(module, name) == module + seq![':', ':'] + name,
        graph::dep_key(module, other + seq![':', ':'] + name) == other + seq![':', ':'] + name,
{
    reveal_strlit("::");
    assert("::"@ =~= seq![':', ':']);
    let full = other + seq![':', ':'] + name;
    let at = other.len() as int;
    assert(full.subrange(at, at + 2) =~= "::"@);
    assert(text::occurs_at(full, "::"@, at));
    if text::has_text(name, "::"@) {
        let i = choose|i: int| text::occurs_at(name, "::"@, i);
        assert(name.subrange(i, i + 2)[0] == name[i]);
        assert(name.subrange(i, i + 2)[1] == name[i + 1]);
    }
}

/// A task is known by its module and its name, and depends on what it names.
pub proof fn law_tasks_are_known_by_module_and_name(task: Task)
    ensures
        graph::key_of(task) == task.module@ + seq![':', ':'] + task.name@,
        graph::dep_keys(task).len() == task.depends_on@.len(),
        forall|j: int|
            0 <= j < task.depends_on@.len() ==> #[trigger] graph::dep_keys(task)[j]
                == graph::dep_key(task.module@, task.depends_on@[j]@),
{
    reveal_strlit("::");
    assert("::"@ =~= seq![':', ':']);
}

/// Whether a dependency of a task was up to date in the waves before.
pub open spec fn rests(task: Task, j: int, fresh: Seq<Seq<char>>) -> bool {
    fresh.contains(graph::dep_keys(task)[j])
}

/// Whether no task of a wave depends on another of the same wave.
pub open spec fn stand_apart(tasks: Seq<Task>, wave: Seq<int>) -> bool {
    forall|a: int, j: int, b: int|
        #![trigger graph::dep_keys(tasks[wave[a]])[j], wave[b]]
        0 <= a < wave.len() && 0 <= b < wave.len() && 0 <= j < graph::dep_keys(
            tasks[wave[a]],
        ).len() ==> graph::dep_keys(tasks[wave[a]])[j] != graph::key_of(tasks[wave[b]])
}

/// Whether a task of a wave may rest: all that it depends on was up to date, and
/// its fingerprint is the one recorded for it.
pub open spec fn may_rest(
    tasks: Seq<Task>,
    wave: Seq<int>,
    prints: Seq<Seq<char>>,
    state: RunState,
    k: int,
) -> bool {
    let task = tasks[wave[k]];
    &&& forall|j: int| 0 <= j < task.depends_on@.len() ==> #[trigger] rests(task, j, state.fresh)
    &&& state.recorded.contains_key(task.module@ + seq![':', ':'] + task.name@)
    &&& state.recorded[task.module@ + seq![':', ':'] + task.name@] == prints[k]
}

proof fn lemma_sorting(
    tasks: Seq<Task>,
    wave: Seq<int>,
    prints: Seq<Seq<char>>,
    state: RunState,
    n: int,
)
    requires
        0 <= n <= wave.len(),
        stand_apart(tasks, wave),
    ensures
        ({
            let s = engine::sorted(tasks, wave, prints, state.fresh, state.recorded, n);
            &&& forall|m: int| 0 <= m < s.stale.len() ==> 0 <= #[trigger] s.stale[m] < n
            &&& forall|m: int, o: int|
                0 <= m < o < s.stale.len() ==> #[trigger] s.stale[m] < #[trigger] s.stale[o]
            &&& forall|k: int|
                0 <= k < n ==> (s.stale.contains(k) <==> !#[trigger] may_rest(
                    tasks,
                    wave,
                    prints,
                    state,
                    k,
                ))
            &&& forall|key: Seq<char>| #[trigger]
                s.fresh.contains(key) <==> state.fresh.contains(key) || exists|k: int|
                    0 <= k < n && key == graph::key_of(tasks[wave[k]]) && #[trigger] may_rest(
                        tasks,
                        wave,
                        prints,
                        state,
                        k,
                    )
        }),
    decreases n,
{
    let s = engine::sorted(tasks, wave, prints, state.fresh, state.recorded, n);
    if n > 0 {
        lemma_sorting(tasks, wave, prints, state, n - 1);
        let before = engine::sorted(tasks, wave, prints, state.fresh, state.recorded, n - 1);
        let task = tasks[wave[n - 1]];
        let key = graph::key_of(task);
        law_tasks_are_known_by_module_and_name(task);
        let fresh = engine::is_fresh(task, prints[n - 1], before.fresh, state.recorded);
        assert(fresh <==> may_rest(tasks, wave, prints, state, n - 1)) by {
            assert forall|j: int| 0 <= j < task.depends_on@.len() implies (rests(
                task,
                j,
                state.fresh,
            ) <==> before.fresh.contains(#[trigger] graph::dep_keys(task)[j])) by {
                let dep = graph::dep_keys(task)[j];
                if before.fresh.contains(dep) && !state.fresh.contains(dep) {
                    let b = choose|b: int|
                        0 <= b < n - 1 && dep == graph::key_of(tasks[wave[b]]) && #[trigger] may_rest(
                            tasks,
                            wave,
                            prints,
                            state,
                            b,
                        );
                    assert(graph::dep_keys(tasks[wave[n - 1]])[j] != graph::key_of(tasks[wave[b]]));
                }
            }
            if fresh {
                assert forall|j: int| 0 <= j < task.depends_on@.len() implies #[trigger] rests(
                    task,
                    j,
                    state.fresh,
                ) by {
                    assert(before.fresh.contains(graph::dep_keys(task)[j]));
                }
            }
            if may_rest(tasks, wave, prints, state, n - 1) {
                assert forall|j: int| 0 <= j < graph::dep_keys(task).len() implies before.fresh.contains(
                    #[trigger] graph::dep_keys(task)[j],
                ) by {
                    assert(rests(task, j, state.fresh));
                }
            }
        }
        if fresh {
            assert(s.stale == before.stale);
            assert forall|other: Seq<char>| #[trigger]
                s.fresh.contains(other) <==> before.fresh.contains(other) || other == key by {
                if before.fresh.contains(other) {
                    let i = choose|i: int| 0 <= i < before.fresh.len() && before.fresh[i] == other;
                    assert(s.fresh[i] == other);
                }
                assert(s.fresh[before.fresh.len() as int] == key);
            }
        } else {
            assert(s.fresh == before.fresh);
            assert forall|k: int| s.stale.contains(k) <==> before.stale.contains(k) || k == n - 1 by {
                if before.stale.contains(k) {
                    let i = choose|i: int| 0 <= i < before.stale.len() && before.stale[i] == k;
                    assert(s.stale[i] == k);
                }
                assert(s.stale[before.stale.len() as int] == n - 1);
            }
        }
    }
}

/// A task rests exactly where nothing changed: all that it depends on was up to
/// date in this run, and it was last run with the fingerprint it has. Any other
/// task runs.
pub proof fn law_tasks_run_when_something_changed(
    tasks: Seq<Task>,
    wave: Seq<int>,
    prints: Seq<Seq<char>>,
    outcomes: Seq<Result<(), Seq<char>>>,
    state: RunState,
)
    requires
        stand_apart(tasks, wave),
        prints.len() == wave.len(),
    ensures
        forall|k: int|
            0 <= k < wave.len() ==> (engine::stale_in(tasks, wave, prints, state).contains(k)
                <==> !#[trigger] may_rest(tasks, wave, prints, state, k)),
        forall|m: int|
            0 <= m < engine::stale_in(tasks, wave, prints, state).len() ==> 0
                <= #[trigger] engine::stale_in(tasks, wave, prints, state)[m] < wave.len(),
        forall|key: Seq<char>| #[trigger]
            engine::after_wave(tasks, wave, prints, outcomes, state).fresh.contains(key)
                <==> state.fresh.contains(key) || exists|k: int|
                0 <= k < wave.len() && key == graph::key_of(tasks[wave[k]])
                    && #[trigger] may_rest(tasks, wave, prints, state, k),
{
    lemma_sorting(tasks, wave, prints, state, wave.len() as int);
    let split = engine::sorted(
        tasks,
        wave,
        prints,
        state.fresh,
        state.recorded,
        wave.len() as int,
    );
    let counted = RunState {
        tally: engine::Tally {
            up_to_date: state.tally.up_to_date + (wave.len() - split.stale.len()) as nat,
            ..state.tally
        },
        fresh: split.fresh,
        ..state
    };
    lemma_ending(tasks, wave, prints, split.stale, outcomes, counted, split.stale.len() as int);
}

/// Whether the first failure among the first `n` outcomes is the one reported.
pub open spec fn reports_first(
    tasks: Seq<Task>,
    wave: Seq<int>,
    stale: Seq<int>,
    outcomes: Seq<Result<(), Seq<char>>>,
    failure: Option<(Seq<char>, Seq<char>)>,
    n: int,
) -> bool {
    match failure {
        None => forall|m: int| 0 <= m < n ==> #[trigger] outcomes[m] is Ok,
        Some((task, error)) => exists|m: int|
            0 <= m < n && #[trigger] outcomes[m] == Err::<(), Seq<char>>(error) && task
                == graph::key_of(tasks[wave[stale[m]]]) && forall|o: int|
                0 <= o < m ==> #[trigger] outcomes[o] is Ok,
    }
}

/// How many of the first `n` outcomes are successes.
pub open spec fn successes(outcomes: Seq<Result<(), Seq<char>>>, n: int) -> nat
    decreases n,
{
    if n <= 0 {
        0
    } else {
        successes(outcomes, n - 1) + if outcomes[n - 1] is Ok {
            1nat
        } else {
            0nat
        }
    }
}

proof fn lemma_ending(
    tasks: Seq<Task>,
    wave: Seq<int>,
    prints: Seq<Seq<char>>,
    stale: Seq<int>,
    outcomes: Seq<Result<(), Seq<char>>>,
    state: RunState,
    n: int,
)
    requires
        0 <= n <= stale.len(),
    ensures
        ({
            let end = engine::ended(tasks, wave, prints, stale, outcomes, state, n);
            &&& end.fresh == state.fresh
            &&& end.tally.up_to_date == state.tally.up_to_date
            &&& end.tally.skipped == state.tally.skipped
            &&& end.tally.ran == state.tally.ran + successes(outcomes, n)
            &&& state.tally.failure is Some ==> end.tally.failure == state.tally.failure
            &&& state.tally.failure is None ==> reports_first(
                tasks,
                wave,
                stale,
                outcomes,
                end.tally.failure,
                n,
            )
            &&& forall|key: Seq<char>|
                (forall|m: int|
                    0 <= m < n && #[trigger] outcomes[m] is Ok ==> key != graph::key_of(
                        tasks[wave[stale[m]]],
                    )) ==> (#[trigger] end.recorded.contains_key(key)
                    <==> state.recorded.contains_key(key)) && end.recorded[key]
                    == state.recorded[key]
        }),
    decreases n,
{
    if n > 0 {
        lemma_ending(tasks, wave, prints, stale, outcomes, state, n - 1);
        let before = engine::ended(tasks, wave, prints, stale, outcomes, state, n - 1);
        let end = engine::ended(tasks, wave, prints, stale, outcomes, state, n);
        if state.tally.failure is None {
            match before.tally.failure {
                Some((task, error)) => {
                    let m = choose|m: int|
                        0 <= m < n - 1 && #[trigger] outcomes[m] == Err::<(), Seq<char>>(error)
                            && task == graph::key_of(tasks[wave[stale[m]]]) && forall|o: int|
                            0 <= o < m ==> #[trigger] outcomes[o] is Ok;
                    assert(outcomes[m] == Err::<(), Seq<char>>(error));
                },
                None => {
                    if outcomes[n - 1] is Err {
                        assert(outcomes[n - 1] == Err::<(), Seq<char>>(outcomes[n - 1]->Err_0));
                    }
                },
            }
        }
        assert forall|key: Seq<char>|
            (forall|m: int|
                0 <= m < n && #[trigger] outcomes[m] is Ok ==> key != graph::key_of(
                    tasks[wave[stale[m]]],
                )) implies (#[trigger] end.recorded.contains_key(key)
            <==> state.recorded.contains_key(key)) && end.recorded[key] == state.recorded[key] by {
            assert(before.recorded.contains_key(key) <==> state.recorded.contains_key(key));
            assert(outcomes[n - 1] is Ok ==> key != graph::key_of(tasks[wave[stale[n - 1]]]));
        }
    }
}

/// Whether the tasks at the places of a wave have different keys.
pub open spec fn are_different(tasks: Seq<Task>, wave: Seq<int>) -> bool {
    forall|a: int, b: int|
        0 <= a < b < wave.len() ==> graph::key_of(tasks[#[trigger] wave[a]]) != graph::key_of(
            tasks[#[trigger] wave[b]],
        )
}

proof fn lemma_recording(
    tasks: Seq<Task>,
    wave: Seq<int>,
    prints: Seq<Seq<char>>,
    stale: Seq<int>,
    outcomes: Seq<Result<(), Seq<char>>>,
    state: RunState,
    n: int,
    m: int,
)
    requires
        0 <= m < n <= stale.len(),
        are_different(tasks, wave),
        forall|i: int| 0 <= i < stale.len() ==> 0 <= #[trigger] stale[i] < wave.len(),
        forall|i: int, j: int| 0 <= i < j < stale.len() ==> #[trigger] stale[i] < #[trigger] stale[j],
        outcomes[m] is Ok,
    ensures
        ({
            let end = engine::ended(tasks, wave, prints, stale, outcomes, state, n);
            let key = graph::key_of(tasks[wave[stale[m]]]);
            end.recorded.contains_key(key) && end.recorded[key] == prints[stale[m]]
        }),
    decreases n,
{
    if m < n - 1 {
        lemma_recording(tasks, wave, prints, stale, outcomes, state, n - 1, m);
        assert(stale[m] < stale[n - 1]);
        assert(graph::key_of(tasks[wave[stale[m]]]) != graph::key_of(tasks[wave[stale[n - 1]]]));
    }
}

/// What a wave leaves behind: a task that succeeded is recorded with the
/// fingerprint it had, and of no other task the record changes. What rested and
/// what succeeded is counted, and the first failure is the one reported.
pub proof fn law_successes_are_recorded(
    tasks: Seq<Task>,
    wave: Seq<int>,
    prints: Seq<Seq<char>>,
    outcomes: Seq<Result<(), Seq<char>>>,
    state: RunState,
)
    requires
        stand_apart(tasks, wave),
        are_different(tasks, wave),
        outcomes.len() == engine::stale_in(tasks, wave, prints, state).len(),
    ensures
        ({
            let stale = engine::stale_in(tasks, wave, prints, state);
            let end = engine::after_wave(tasks, wave, prints, outcomes, state);
            &&& forall|m: int|
                0 <= m < stale.len() && #[trigger] outcomes[m] is Ok ==> end.recorded.contains_key(
                    graph::key_of(tasks[wave[stale[m]]]),
                ) && end.recorded[graph::key_of(tasks[wave[stale[m]]])] == prints[stale[m]]
            &&& forall|key: Seq<char>|
                (forall|m: int|
                    0 <= m < stale.len() && #[trigger] outcomes[m] is Ok ==> key != graph::key_of(
                        tasks[wave[stale[m]]],
                    )) ==> (#[trigger] end.recorded.contains_key(key)
                    <==> state.recorded.contains_key(key)) && end.recorded[key]
                    == state.recorded[key]
            &&& end.tally.ran == state.tally.ran + successes(outcomes, outcomes.len() as int)
            &&& end.tally.up_to_date + stale.len() == state.tally.up_to_date + wave.len()
            &&& end.tally.skipped == state.tally.skipped
            &&& state.tally.failure is None ==> reports_first(
                tasks,
                wave,
                stale,
                outcomes,
                end.tally.failure,
                stale.len() as int,
            )
        }),
{
    let n = wave.len() as int;
    lemma_sorting(tasks, wave, prints, state, n);
    let split = engine::sorted(tasks, wave, prints, state.fresh, state.recorded, n);
    let stale = split.stale;
    lemma_few(stale, n);
    let counted = RunState {
        tally: engine::Tally {
            up_to_date: state.tally.up_to_date + (wave.len() - stale.len()) as nat,
            ..state.tally
        },
        fresh: split.fresh,
        ..state
    };
    lemma_ending(tasks, wave, prints, stale, outcomes, counted, stale.len() as int);
    assert forall|m: int| 0 <= m < stale.len() && #[trigger] outcomes[m] is Ok implies ({
        let end = engine::after_wave(tasks, wave, prints, outcomes, state);
        let key = graph::key_of(tasks[wave[stale[m]]]);
        end.recorded.contains_key(key) && end.recorded[key] == prints[stale[m]]
    }) by {
        lemma_recording(
            tasks,
            wave,
            prints,
            stale,
            outcomes,
            counted,
            stale.len() as int,
            m,
        );
    }
}

/// A rising list of places below `n` is no longer than `n`.
proof fn lemma_few(places: Seq<int>, n: int)
    requires
        forall|m: int| 0 <= m < places.len() ==> 0 <= #[trigger] places[m] < n,
        forall|m: int, o: int|
            0 <= m < o < places.len() ==> #[trigger] places[m] < #[trigger] places[o],
        n >= 0,
    ensures
        places.len() <= n,
    decreases places.len(),
{
    if places.len() > 0 {
        lemma_few(places.drop_last(), places.last());
    }
}

/// Nothing is started after a failure: a run ends with the wave in which a task
/// failed.
pub proof fn law_failures_end_a_run(
    graph: TaskGraph,
    states: Seq<(BuildRun, FingerprintStore)>,
    prints: Seq<Seq<char>>,
    outcomes: Seq<Seq<Result<(), Seq<char>>>>,
    d: int,
    m: int,
)
    requires
        graph::distinct_keys(graph.entries@),
        engine_laws::is_run(graph, states, prints, outcomes),
        0 <= d < outcomes.len(),
        0 <= m < outcomes[d].len(),
        outcomes[d][m] is Err,
    ensures
        d == outcomes.len() - 1,
        states.last().0.tally().failure is Some,
{
    let tasks = graph.entries@;
    let step = engine_laws::is_step(graph, states[d], states[d + 1], prints, outcomes[d]);
    assert(step);
    let wave = states[d].0.schedule()[states[d].0.done() as int];
    let state = states[d].0.state(states[d].1);
    let all = engine_laws::wave_prints(wave, prints);
    let stale = engine::stale_in(tasks, wave, all, state);
    let split = engine::sorted(
        tasks,
        wave,
        all,
        state.fresh,
        state.recorded,
        wave.len() as int,
    );
    let counted = RunState {
        tally: engine::Tally {
            up_to_date: state.tally.up_to_date + (wave.len() - split.stale.len()) as nat,
            ..state.tally
        },
        fresh: split.fresh,
        ..state
    };
    lemma_ending(tasks, wave, all, stale, outcomes[d], counted, stale.len() as int);
    let end = engine::after_wave(tasks, wave, all, outcomes[d], state);
    if end.tally.failure is None {
        assert(outcomes[d][m] is Ok);
    }
    assert(states[d + 1].0.state(states[d + 1].1).tally.failure is Some);
    if d < outcomes.len() - 1 {
        assert(engine_laws::is_step(graph, states[d + 1], states[d + 2], prints, outcomes[d + 1]));
    }
}

/// The tasks of a wave do not depend on each other and are different tasks, so
/// that they can run at the same time.
pub proof fn law_waves_stand_apart(tasks: Seq<Task>, d: int)
    requires
        graph::distinct_keys(tasks),
        graph::waves_of(tasks) is Ok,
        0 <= d < graph::waves_of(tasks)->Ok_0.len(),
    ensures
        stand_apart(tasks, graph::waves_of(tasks)->Ok_0[d]),
        are_different(tasks, graph::waves_of(tasks)->Ok_0[d]),
{
    let wave = graph::waves_of(tasks)->Ok_0[d];
    let depths = graph::depths_of(tasks)->Ok_0;
    graph::lemma_at_depth(depths, d as nat, depths.len() as int);
    assert forall|a: int, j: int, b: int|
        #![trigger graph::dep_keys(tasks[wave[a]])[j], wave[b]]
        0 <= a < wave.len() && 0 <= b < wave.len() && 0 <= j < graph::dep_keys(
            tasks[wave[a]],
        ).len() implies graph::dep_keys(tasks[wave[a]])[j] != graph::key_of(tasks[wave[b]]) by {
        graph_laws::law_dependencies_come_first(tasks, wave[a], j);
        graph_laws::lemma_find_own(tasks, wave[b], 0);
    }
}

/// A task that did not rest is not counted among those that did by any later
/// wave of the run.
proof fn lemma_stays_changed(
    graph: TaskGraph,
    states: Seq<(BuildRun, FingerprintStore)>,
    prints: Seq<Seq<char>>,
    outcomes: Seq<Seq<Result<(), Seq<char>>>>,
    d: int,
    k: int,
    n: int,
)
    requires
        graph::distinct_keys(graph.entries@),
        engine_laws::is_run(graph, states, prints, outcomes),
        0 <= d < n < states.len(),
        0 <= k < states[0].0.schedule()[d].len(),
        !may_rest(
            graph.entries@,
            states[0].0.schedule()[d],
            engine_laws::wave_prints(states[0].0.schedule()[d], prints),
            states[d].0.state(states[d].1),
            k,
        ),
    ensures
        !states[n].0.state(states[n].1).fresh.contains(
            graph::key_of(graph.entries@[states[0].0.schedule()[d][k]]),
        ),
    decreases n,
{
    let tasks = graph.entries@;
    let waves = states[0].0.schedule();
    let p = waves[d][k];
    let key = graph::key_of(tasks[p]);
    lemma_only_dealt_with(graph, states, prints, outcomes, n - 1);
    engine_laws::lemma_steps(graph, states, prints, outcomes, n - 1);
    engine_laws::lemma_steps(graph, states, prints, outcomes, n);
    assert(engine_laws::is_step(graph, states[n - 1], states[n], prints, outcomes[n - 1]));
    law_waves_stand_apart(tasks, n - 1);
    let wave = waves[n - 1];
    let all = engine_laws::wave_prints(wave, prints);
    let state = states[n - 1].0.state(states[n - 1].1);
    law_tasks_run_when_something_changed(tasks, wave, all, outcomes[n - 1], state);
    let depths = graph::depths_of(tasks)->Ok_0;
    graph::lemma_at_depth(depths, d as nat, depths.len() as int);
    graph::lemma_at_depth(depths, (n - 1) as nat, depths.len() as int);
    if n - 1 > d {
        lemma_stays_changed(graph, states, prints, outcomes, d, k, n - 1);
    } else {
        if state.fresh.contains(key) {
            let (e, i) = choose|e: int, i: int|
                #![trigger waves[e][i]]
                0 <= e < d && 0 <= i < waves[e].len() && key == graph::key_of(tasks[waves[e][i]]);
            graph::lemma_at_depth(depths, e as nat, depths.len() as int);
            assert(waves[e][i] == p);
        }
    }
    if states[n].0.state(states[n].1).fresh.contains(key) {
        let i = choose|i: int|
            0 <= i < wave.len() && key == graph::key_of(tasks[wave[i]]) && #[trigger] may_rest(
                tasks,
                wave,
                all,
                state,
                i,
            );
        assert(wave[i] == p);
        assert(n - 1 == d);
        assert(i == k);
    }
}

/// What rested is among what was dealt with.
proof fn lemma_only_dealt_with(
    graph: TaskGraph,
    states: Seq<(BuildRun, FingerprintStore)>,
    prints: Seq<Seq<char>>,
    outcomes: Seq<Seq<Result<(), Seq<char>>>>,
    n: int,
)
    requires
        graph::distinct_keys(graph.entries@),
        engine_laws::is_run(graph, states, prints, outcomes),
        0 <= n < states.len(),
    ensures
        ({
            let waves = states[0].0.schedule();
            forall|key: Seq<char>| #[trigger]
                states[n].0.state(states[n].1).fresh.contains(key) ==> exists|e: int, i: int|
                    #![trigger waves[e][i]]
                    0 <= e < n && 0 <= i < waves[e].len() && key == graph::key_of(
                        graph.entries@[waves[e][i]],
                    )
        }),
    decreases n,
{
    let tasks = graph.entries@;
    let waves = states[0].0.schedule();
    if n > 0 {
        lemma_only_dealt_with(graph, states, prints, outcomes, n - 1);
        engine_laws::lemma_steps(graph, states, prints, outcomes, n - 1);
        engine_laws::lemma_steps(graph, states, prints, outcomes, n);
        assert(engine_laws::is_step(graph, states[n - 1], states[n], prints, outcomes[n - 1]));
        law_waves_stand_apart(tasks, n - 1);
        let wave = waves[n - 1];
        let all = engine_laws::wave_prints(wave, prints);
        let state = states[n - 1].0.state(states[n - 1].1);
        law_tasks_run_when_something_changed(tasks, wave, all, outcomes[n - 1], state);
        assert forall|key: Seq<char>| #[trigger]
            states[n].0.state(states[n].1).fresh.contains(key) implies exists|e: int, i: int|
            #![trigger waves[e][i]]
            0 <= e < n && 0 <= i < waves[e].len() && key == graph::key_of(tasks[waves[e][i]]) by {
            if state.fresh.contains(key) {
                let (e, i) = choose|e: int, i: int|
                    #![trigger waves[e][i]]
                    0 <= e < n - 1 && 0 <= i < waves[e].len() && key == graph::key_of(
                        tasks[waves[e][i]],
                    );
                assert(0 <= e < n && key == graph::key_of(tasks[waves[e][i]]));
            } else {
                let i = choose|i: int|
                    0 <= i < wave.len() && key == graph::key_of(tasks[wave[i]])
                        && #[trigger] may_rest(tasks, wave, all, state, i);
                assert(key == graph::key_of(tasks[waves[n - 1][i]]));
            }
        }
    }
}

/// Whether the task at a place of a wave runs in that wave of a run.
pub open spec fn runs_at(
    graph: TaskGraph,
    states: Seq<(BuildRun, FingerprintStore)>,
    prints: Seq<Seq<char>>,
    d: int,
    k: int,
) -> bool {
    let wave = states[0].0.schedule()[d];
    engine::stale_in(
        graph.entries@,
        wave,
        engine_laws::wave_prints(wave, prints),
        states[d].0.state(states[d].1),
    ).contains(k)
}

/// Changes spread: where a task ran, every task that depends on it and that the
/// run comes to runs as well, whatever is recorded of it.
pub proof fn law_changes_spread(
    graph: TaskGraph,
    states: Seq<(BuildRun, FingerprintStore)>,
    prints: Seq<Seq<char>>,
    outcomes: Seq<Seq<Result<(), Seq<char>>>>,
    d: int,
    k: int,
    e: int,
    l: int,
    j: int,
)
    requires
        graph::distinct_keys(graph.entries@),
        engine_laws::is_run(graph, states, prints, outcomes),
        0 <= d < outcomes.len(),
        0 <= k < states[0].0.schedule()[d].len(),
        runs_at(graph, states, prints, d, k),
        0 <= e < outcomes.len(),
        0 <= l < states[0].0.schedule()[e].len(),
        ({
            let task = graph.entries@[states[0].0.schedule()[d][k]];
            let user = graph.entries@[states[0].0.schedule()[e][l]];
            0 <= j < user.depends_on@.len() && graph::dep_key(
                user.module@,
                user.depends_on@[j]@,
            ) == graph::key_of(task)
        }),
    ensures
        d < e,
        runs_at(graph, states, prints, e, l),
{
    let tasks = graph.entries@;
    let waves = states[0].0.schedule();
    let p = waves[d][k];
    let q = waves[e][l];
    let depths = graph::depths_of(tasks)->Ok_0;
    engine_laws::lemma_steps(graph, states, prints, outcomes, d);
    engine_laws::lemma_steps(graph, states, prints, outcomes, e);
    assert(engine_laws::is_step(graph, states[d], states[d + 1], prints, outcomes[d]));
    assert(engine_laws::is_step(graph, states[e], states[e + 1], prints, outcomes[e]));
    graph::lemma_at_depth(depths, d as nat, depths.len() as int);
    graph::lemma_at_depth(depths, e as nat, depths.len() as int);
    graph_laws::law_dependencies_come_first(tasks, q, j);
    graph_laws::lemma_find_own(tasks, p, 0);
    law_waves_stand_apart(tasks, d);
    law_waves_stand_apart(tasks, e);
    let before = states[d].0.state(states[d].1);
    let state = states[e].0.state(states[e].1);
    law_tasks_run_when_something_changed(
        tasks,
        waves[d],
        engine_laws::wave_prints(waves[d], prints),
        outcomes[d],
        before,
    );
    law_tasks_run_when_something_changed(
        tasks,
        waves[e],
        engine_laws::wave_prints(waves[e], prints),
        outcomes[e],
        state,
    );
    assert(!may_rest(
        tasks,
        waves[d],
        engine_laws::wave_prints(waves[d], prints),
        before,
        k,
    ));
    lemma_stays_changed(graph, states, prints, outcomes, d, k, e);
    assert(!rests(tasks[q], j, state.fresh));
    assert(!may_rest(
        tasks,
        waves[e],
        engine_laws::wave_prints(waves[e], prints),
        state,
        l,
    ));
}

/// State of another format is not understood: nothing is taken from it, as from
/// no state at all.
pub proof fn law_other_formats_are_ignored(file: StateFile)
    ensures
        file.format != 1 ==> engine::loaded(Some(file)) == Map::<Seq<char>, Seq<char>>::empty(),
        engine::loaded(None) == Map::<Seq<char>, Seq<char>>::empty(),
        file.format == 1 ==> forall|key: Seq<char>|
            (#[trigger] engine::loaded(Some(file)).contains_key(key)
                <==> file.fingerprints@.contains_key(key)) && (file.fingerprints@.contains_key(key)
                ==> engine::loaded(Some(file))[key] == file.fingerprints@[key]@),
{
}

} // verus!
