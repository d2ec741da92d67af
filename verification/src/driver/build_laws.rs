//! A build from its first plugin to its tasks, and that the order in which a
//! project declares its modules plays no role for how it ends.

use vstd::prelude::*;
use crate::driver::course;
use crate::driver::course::{BuildRequest, BuildState, PluginOutcome, Turn};
use crate::driver::deps;
use crate::driver::modules::PrepState;
use crate::driver::order_laws;
use crate::driver::plugins;
use crate::driver::plugins::{Plan, Use};
use crate::maven::{Declared, Paths};
use crate::task::graph;
use crate::task::graph_laws;
use crate::task::Task;
use crate::text;
use crate::value::Value;

verus! {

/// The plan of a build whose first `k` plugins are configured. The outcomes are
/// those of all plugins of the first module, then all of the second, and so on.
pub open spec fn configured_plan(
    request: BuildRequest,
    known: BuildState,
    outcomes: Seq<PluginOutcome>,
    k: int,
) -> Result<Plan, Seq<char>>
    decreases k,
{
    if k <= 0 {
        Ok(plugins::empty_plan())
    } else {
        match configured_plan(request, known, outcomes, k - 1) {
            Err(message) => Err(message),
            Ok(plan) => match course::linked_at(
                request,
                known,
                (k - 1) / (request.plugins@.len() as int),
            ) {
                Err(message) => Err(message),
                Ok(_) => course::plan_with(request, plan, k - 1, outcomes[k - 1]),
            },
        }
    }
}

/// Whether a build comes to configuring plugins.
pub open spec fn is_prepared(request: BuildRequest, known: BuildState) -> bool {
    &&& course::plugins_fault(request) is None
    &&& course::sdk_fault(request) is None
    &&& course::evaluating(request, known.evaluations@, 0) is None
    &&& course::preparing(request, known.evaluations@, known.resolutions@, 0) is None
}

/// How many plugins a build configures.
pub open spec fn total(request: BuildRequest) -> int {
    request.modules@.len() as int * request.plugins@.len() as int
}

/// The plan of a build that comes to an end, where what evaluating its modules
/// and resolving their dependencies gave is known, and what configuring the
/// plugins gives.
pub open spec fn built(
    request: BuildRequest,
    known: BuildState,
    outcomes: Seq<PluginOutcome>,
) -> Option<Plan> {
    if !is_prepared(request, known) {
        None
    } else {
        match configured_plan(request, known, outcomes, total(request)) {
            Err(_) => None,
            Ok(plan) => if plugins::plan_fault(plan, request.several) is None {
                Some(plan)
            } else {
                None
            },
        }
    }
}

/// Whether configuring the plugin that was next brought a build from one state
/// to the other.
pub open spec fn is_step(
    request: BuildRequest,
    before: BuildState,
    outcome: PluginOutcome,
    after: BuildState,
) -> bool {
    &&& course::next_turn(request, before) is Configure
    &&& course::plan_after(request, before, outcome) == Ok::<Plan, Seq<char>>(after.plan@)
    &&& after.configured == before.configured + 1
    &&& after.evaluations == before.evaluations
    &&& after.resolutions == before.resolutions
}

/// Whether the plugin at position `i` brought a build to its next state.
pub open spec fn steps_at(
    request: BuildRequest,
    states: Seq<BuildState>,
    outcomes: Seq<PluginOutcome>,
    i: int,
) -> bool {
    is_step(request, states[i], outcomes[i], states[i + 1])
}

/// Whether states are those of a build from its first plugin on, each with one
/// plugin more configured than the one before.
pub open spec fn is_course(
    request: BuildRequest,
    states: Seq<BuildState>,
    outcomes: Seq<PluginOutcome>,
) -> bool {
    &&& states.len() > 0
    &&& states[0].configured == 0
    &&& states[0].plan@ == plugins::empty_plan()
    &&& forall|i: int| 0 <= i < states.len() - 1 ==> #[trigger] steps_at(request, states, outcomes, i)
}

proof fn lemma_err_stays(
    request: BuildRequest,
    known: BuildState,
    outcomes: Seq<PluginOutcome>,
    k: int,
    n: int,
)
    requires
        0 <= k <= n,
        configured_plan(request, known, outcomes, k) is Err,
    ensures
        configured_plan(request, known, outcomes, n) is Err,
    decreases n,
{
    if k < n {
        lemma_err_stays(request, known, outcomes, k, n - 1);
    }
}

proof fn lemma_turn(request: BuildRequest, state: BuildState)
    ensures
        course::next_turn(request, state) is Configure || course::next_turn(
            request,
            state,
        ) is Finish ==> is_prepared(request, state),
        is_prepared(request, state) ==> course::next_turn(request, state) == course::configuring(
            request,
            state,
        ),
{
    course::law_modules_come_before_plugins(request, state);
}

proof fn lemma_within(k: int, n: int, count: int)
    requires
        0 <= k,
        0 < count,
        0 <= n,
    ensures
        k / count < n <==> k < n * count,
{
    vstd::arithmetic::div_mod::lemma_fundamental_div_mod(k, count);
    let m = k / count;
    let p = k % count;
    assert(0 <= p < count) by (nonlinear_arith)
        requires
            count > 0,
            p == k % count,
    ;
    if m < n {
        assert(k < n * count) by (nonlinear_arith)
            requires
                k == count * m + p,
                p < count,
                m + 1 <= n,
                count > 0,
        ;
    } else {
        assert(k >= n * count) by (nonlinear_arith)
            requires
                k == count * m + p,
                p >= 0,
                m >= n,
                count > 0,
        ;
    }
}

proof fn lemma_course(
    request: BuildRequest,
    states: Seq<BuildState>,
    outcomes: Seq<PluginOutcome>,
    known: BuildState,
    i: int,
)
    requires
        is_course(request, states, outcomes),
        0 <= i < states.len(),
        known.evaluations == states[0].evaluations,
        known.resolutions == states[0].resolutions,
    ensures
        states[i].configured == i,
        states[i].evaluations == known.evaluations,
        states[i].resolutions == known.resolutions,
        configured_plan(request, known, outcomes, i) == Ok::<Plan, Seq<char>>(states[i].plan@),
        i > 0 ==> i <= total(request),
    decreases i,
{
    if i > 0 {
        lemma_course(request, states, outcomes, known, i - 1);
        assert(steps_at(request, states, outcomes, i - 1));
        let before = states[i - 1];
        lemma_turn(request, before);
        let count = request.plugins@.len() as int;
        assert(count > 0);
        lemma_within(i - 1, request.modules@.len() as int, count);
        assert(course::linked_at(request, before, (i - 1) / count) == course::linked_at(
            request,
            known,
            (i - 1) / count,
        ));
    }
}

/// How a build ends is decided by what is known of its modules and by what its
/// plugins give: where every plugin is configured it has the plan that was
/// collected, unless the plan is refused, and where it fails at a plugin, or
/// before, it has none.
pub proof fn law_course_leads_to_the_plan(
    request: BuildRequest,
    states: Seq<BuildState>,
    outcomes: Seq<PluginOutcome>,
)
    requires
        is_course(request, states, outcomes),
    ensures
        ({
            let last = states.last();
            let turn = course::next_turn(request, last);
            &&& last.configured == states.len() - 1
            &&& turn is Finish ==> built(request, last, outcomes) == if plugins::plan_fault(
                last.plan@,
                request.several,
            ) is None {
                Some(last.plan@)
            } else {
                None
            }
            &&& turn is Failed ==> built(request, last, outcomes) is None
            &&& turn is Configure && course::plan_after(
                request,
                last,
                outcomes[last.configured as int],
            ) is Err ==> built(request, last, outcomes) is None
        }),
{
    let last = states.last();
    let k = states.len() - 1;
    lemma_course(request, states, outcomes, states[0], k);
    lemma_course(request, states, outcomes, last, k);
    lemma_turn(request, last);
    let count = request.plugins@.len() as int;
    if is_prepared(request, last) {
        assert(count > 0);
        let n = request.modules@.len() as int;
        lemma_within(k, n, count);
        assert(0 <= n * count) by (nonlinear_arith)
            requires
                n >= 0,
                count > 0,
        ;
        match course::next_turn(request, last) {
            Turn::Finish => {
                assert(k == total(request));
            },
            Turn::Failed(message) => {
                assert(configured_plan(request, last, outcomes, k + 1) is Err);
                lemma_err_stays(request, last, outcomes, k + 1, total(request));
            },
            Turn::Configure(m, p) => {
                if course::plan_after(request, last, outcomes[k]) is Err {
                    assert(configured_plan(request, last, outcomes, k + 1) is Err);
                    lemma_err_stays(request, last, outcomes, k + 1, total(request));
                }
            },
            _ => {},
        }
    }
}

spec fn entries_at(outcomes: Seq<PluginOutcome>, k: int) -> Seq<Task> {
    outcomes[k]->Configured_0.graph.entries@
}

spec fn task_at(outcomes: Seq<PluginOutcome>, k: int, i: int) -> Task {
    entries_at(outcomes, k)[i]
}

spec fn key_at(outcomes: Seq<PluginOutcome>, k: int, i: int) -> Seq<char> {
    graph::key_of(task_at(outcomes, k, i))
}

/// Whether task `i` of plugin `k` is a task of the first `top` plugins or one of
/// the first `n` of the next.
spec fn is_within(outcomes: Seq<PluginOutcome>, k: int, i: int, top: int, n: int) -> bool {
    &&& 0 <= k
    &&& 0 <= i < entries_at(outcomes, k).len()
    &&& k < top || (k == top && i < n)
}

/// Whether no two of those tasks have the same key.
spec fn are_apart(outcomes: Seq<PluginOutcome>, top: int, n: int) -> bool {
    forall|k: int, i: int, l: int, j: int|
        #![trigger key_at(outcomes, k, i), key_at(outcomes, l, j)]
        is_within(outcomes, k, i, top, n) && is_within(outcomes, l, j, top, n) && (k != l || i != j)
            ==> key_at(outcomes, k, i) != key_at(outcomes, l, j)
}

spec fn is_from(outcomes: Seq<PluginOutcome>, task: Task, top: int, n: int) -> bool {
    exists|k: int, i: int|
        is_within(outcomes, k, i, top, n) && #[trigger] task_at(outcomes, k, i) == task
}

/// Whether a list holds those tasks.
spec fn holds(tasks: Seq<Task>, outcomes: Seq<PluginOutcome>, top: int, n: int) -> bool {
    &&& graph::distinct_keys(tasks)
    &&& forall|q: int| 0 <= q < tasks.len() ==> is_from(outcomes, #[trigger] tasks[q], top, n)
    &&& forall|k: int, i: int|
        is_within(outcomes, k, i, top, n) ==> tasks.contains(#[trigger] task_at(outcomes, k, i))
}

proof fn lemma_merging(
    tasks: Seq<Task>,
    outcomes: Seq<PluginOutcome>,
    top: int,
    label: Seq<char>,
    n: int,
)
    requires
        0 <= top,
        0 <= n <= entries_at(outcomes, top).len(),
        holds(tasks, outcomes, top, 0),
        are_apart(outcomes, top, 0),
    ensures
        plugins::merged(tasks, entries_at(outcomes, top), label, n) is Ok <==> are_apart(
            outcomes,
            top,
            n,
        ),
        plugins::merged(tasks, entries_at(outcomes, top), label, n) matches Ok(all) ==> holds(
            all,
            outcomes,
            top,
            n,
        ),
    decreases n,
{
    let more = entries_at(outcomes, top);
    if n > 0 {
        lemma_merging(tasks, outcomes, top, label, n - 1);
        match plugins::merged(tasks, more, label, n - 1) {
            Err(_) => {
                if are_apart(outcomes, top, n) {
                    assert(are_apart(outcomes, top, n - 1)) by {
                        lemma_apart_before(outcomes, top, n, top, n - 1);
                    }
                }
            },
            Ok(before) => {
                let next = more[n - 1];
                let key = graph::key_of(next);
                assert(next == task_at(outcomes, top, n - 1));
                assert(key == key_at(outcomes, top, n - 1));
                graph::lemma_find(before, key, 0);
                if graph::task_for(before, key) is Some {
                    let q = graph::find_from(before, key, 0)->0;
                    assert(is_from(outcomes, before[q], top, n - 1));
                    let (k, i) = choose|k: int, i: int|
                        is_within(outcomes, k, i, top, n - 1) && #[trigger] task_at(outcomes, k, i)
                            == before[q];
                    assert(key_at(outcomes, k, i) == key_at(outcomes, top, n - 1));
                    assert(is_within(outcomes, k, i, top, n));
                    assert(is_within(outcomes, top, n - 1, top, n));
                    assert(!are_apart(outcomes, top, n));
                } else {
                    lemma_pushed(before, outcomes, top, n);
                }
            },
        }
    }
}

proof fn lemma_apart_before(
    outcomes: Seq<PluginOutcome>,
    top: int,
    n: int,
    lower: int,
    m: int,
)
    requires
        are_apart(outcomes, top, n),
        lower < top || (lower == top && m <= n),
        forall|k: int, i: int| #[trigger]
            is_within(outcomes, k, i, lower, m) ==> is_within(outcomes, k, i, top, n),
    ensures
        are_apart(outcomes, lower, m),
{
}

proof fn lemma_pushed(before: Seq<Task>, outcomes: Seq<PluginOutcome>, top: int, n: int)
    requires
        0 <= top,
        0 < n <= entries_at(outcomes, top).len(),
        holds(before, outcomes, top, n - 1),
        are_apart(outcomes, top, n - 1),
        forall|q: int|
            0 <= q < before.len() ==> graph::key_of(#[trigger] before[q]) != key_at(
                outcomes,
                top,
                n - 1,
            ),
    ensures
        are_apart(outcomes, top, n),
        holds(before.push(task_at(outcomes, top, n - 1)), outcomes, top, n),
{
    let next = task_at(outcomes, top, n - 1);
    let all = before.push(next);
    assert forall|k: int, i: int|
        is_within(outcomes, k, i, top, n) && (k != top || i != n - 1) implies key_at(
        outcomes,
        top,
        n - 1,
    ) != #[trigger] key_at(outcomes, k, i) && is_within(outcomes, k, i, top, n - 1) by {
        assert(is_within(outcomes, k, i, top, n - 1));
        let task = task_at(outcomes, k, i);
        assert(before.contains(task));
        let q = choose|q: int| 0 <= q < before.len() && before[q] == task;
        assert(graph::key_of(before[q]) == key_at(outcomes, k, i));
    }
    assert(are_apart(outcomes, top, n));
    assert forall|q: int| 0 <= q < all.len() implies is_from(
        outcomes,
        #[trigger] all[q],
        top,
        n,
    ) by {
        if q < before.len() {
            assert(all[q] == before[q]);
            assert(is_from(outcomes, before[q], top, n - 1));
            let (k, i) = choose|k: int, i: int|
                is_within(outcomes, k, i, top, n - 1) && #[trigger] task_at(outcomes, k, i)
                    == before[q];
            assert(is_within(outcomes, k, i, top, n));
        } else {
            assert(is_within(outcomes, top, n - 1, top, n));
        }
    }
    assert forall|k: int, i: int| is_within(outcomes, k, i, top, n) implies all.contains(
        #[trigger] task_at(outcomes, k, i),
    ) by {
        if k == top && i == n - 1 {
            assert(all[before.len() as int] == next);
        } else {
            assert(is_within(outcomes, k, i, top, n - 1));
            let task = task_at(outcomes, k, i);
            assert(before.contains(task));
            let q = choose|q: int| 0 <= q < before.len() && before[q] == task;
            assert(all[q] == task);
        }
    }
    assert forall|q: int, r: int| 0 <= q < r < all.len() implies graph::key_of(#[trigger] all[q])
        != graph::key_of(#[trigger] all[r]) by {
        assert(all[q] == before[q]);
        if r < before.len() {
            assert(all[r] == before[r]);
        }
    }
}

spec fn name_at(outcomes: Seq<PluginOutcome>, k: int) -> Seq<char> {
    outcomes[k]->Configured_0.name@
}

spec fn version_at(request: BuildRequest, outcomes: Seq<PluginOutcome>, k: int) -> Seq<char> {
    plugins::version_text(
        if request.several {
            Some(request.modules@[k / (request.plugins@.len() as int)].rel@)
        } else {
            None
        },
        name_at(outcomes, k),
        outcomes[k]->Configured_0.version@,
    )
}

spec fn use_at(outcomes: Seq<PluginOutcome>, k: int) -> Use {
    let tasks = entries_at(outcomes, k);
    Use {
        plugin: name_at(outcomes, k),
        dependencies: text::texts(outcomes[k]->Configured_0.dependencies@),
        used: plugins::providers(tasks, tasks.len() as int),
    }
}

/// Whether the plugin at position `k` is configured, its module linked and its
/// references declared.
spec fn is_sound(
    request: BuildRequest,
    known: BuildState,
    outcomes: Seq<PluginOutcome>,
    k: int,
) -> bool {
    &&& course::linked_at(request, known, k / (request.plugins@.len() as int)) is Ok
    &&& outcomes[k] is Configured
    &&& plugins::undeclared(
        name_at(outcomes, k),
        text::texts(outcomes[k]->Configured_0.dependencies@),
        entries_at(outcomes, k),
        0,
    ) is None
}

spec fn are_sound(
    request: BuildRequest,
    known: BuildState,
    outcomes: Seq<PluginOutcome>,
    n: int,
) -> bool {
    forall|k: int| 0 <= k < n ==> #[trigger] is_sound(request, known, outcomes, k)
}

spec fn is_plan_of(plan: Plan, request: BuildRequest, outcomes: Seq<PluginOutcome>, n: int) -> bool {
    &&& holds(plan.tasks, outcomes, n, 0)
    &&& plan.names == Seq::new(n as nat, |k: int| name_at(outcomes, k))
    &&& plan.versions == Seq::new(n as nat, |k: int| version_at(request, outcomes, k))
    &&& plan.uses == Seq::new(n as nat, |k: int| use_at(outcomes, k))
}

proof fn lemma_next_plugin(outcomes: Seq<PluginOutcome>, top: int)
    requires
        0 <= top,
    ensures
        are_apart(outcomes, top, entries_at(outcomes, top).len() as int) <==> are_apart(
            outcomes,
            top + 1,
            0,
        ),
        forall|tasks: Seq<Task>|
            holds(tasks, outcomes, top, entries_at(outcomes, top).len() as int) ==> #[trigger] holds(
                tasks,
                outcomes,
                top + 1,
                0,
            ),
        are_apart(outcomes, top + 1, 0) ==> are_apart(outcomes, top, 0),
{
    let n = entries_at(outcomes, top).len() as int;
    assert forall|k: int, i: int| #[trigger]
        is_within(outcomes, k, i, top, n) == is_within(outcomes, k, i, top + 1, 0) by {}
    assert forall|k: int, i: int| #[trigger]
        is_within(outcomes, k, i, top + 1, 0) == is_within(outcomes, k, i, top, n) by {}
    assert forall|k: int, i: int| #[trigger] is_within(outcomes, k, i, top, 0) implies is_within(
        outcomes,
        k,
        i,
        top + 1,
        0,
    ) by {}
    assert forall|tasks: Seq<Task>| holds(tasks, outcomes, top, n) implies #[trigger] holds(
        tasks,
        outcomes,
        top + 1,
        0,
    ) by {
        assert forall|q: int| 0 <= q < tasks.len() implies is_from(
            outcomes,
            #[trigger] tasks[q],
            top + 1,
            0,
        ) by {
            assert(is_from(outcomes, tasks[q], top, n));
            let (k, i) = choose|k: int, i: int|
                is_within(outcomes, k, i, top, n) && #[trigger] task_at(outcomes, k, i) == tasks[q];
            assert(is_within(outcomes, k, i, top + 1, 0));
        }
        assert forall|k: int, i: int| is_within(outcomes, k, i, top + 1, 0) implies tasks.contains(
            #[trigger] task_at(outcomes, k, i),
        ) by {
            assert(is_within(outcomes, k, i, top, n));
        }
    }
}

proof fn lemma_configuring(
    request: BuildRequest,
    known: BuildState,
    outcomes: Seq<PluginOutcome>,
    n: int,
)
    requires
        0 <= n,
    ensures
        configured_plan(request, known, outcomes, n) is Ok <==> are_sound(
            request,
            known,
            outcomes,
            n,
        ) && are_apart(outcomes, n, 0),
        configured_plan(request, known, outcomes, n) matches Ok(plan) ==> is_plan_of(
            plan,
            request,
            outcomes,
            n,
        ),
    decreases n,
{
    if n == 0 {
        let plan = plugins::empty_plan();
        assert(plan.names =~= Seq::new(0, |k: int| name_at(outcomes, k)));
        assert(plan.versions =~= Seq::new(0, |k: int| version_at(request, outcomes, k)));
        assert(plan.uses =~= Seq::new(0, |k: int| use_at(outcomes, k)));
    } else {
        let top = n - 1;
        lemma_configuring(request, known, outcomes, top);
        lemma_next_plugin(outcomes, top);
        let here = is_sound(request, known, outcomes, top);
        assert(are_sound(request, known, outcomes, n) <==> are_sound(request, known, outcomes, top)
            && here) by {
            if are_sound(request, known, outcomes, n) {
                assert(is_sound(request, known, outcomes, top));
            }
        }
        match configured_plan(request, known, outcomes, top) {
            Err(_) => {},
            Ok(plan) => {
                let count = request.plugins@.len() as int;
                let label = course::plugin_label(request, top / count, top % count);
                let more = entries_at(outcomes, top);
                lemma_merging(plan.tasks, outcomes, top, label, more.len() as int);
                if configured_plan(request, known, outcomes, n) is Ok {
                    let after = configured_plan(request, known, outcomes, n)->Ok_0;
                    assert(after.names =~= Seq::new(n as nat, |k: int| name_at(outcomes, k)));
                    assert(after.versions =~= Seq::new(
                        n as nat,
                        |k: int| version_at(request, outcomes, k),
                    ));
                    assert(after.uses =~= Seq::new(n as nat, |k: int| use_at(outcomes, k)));
                }
            },
        }
    }
}

/// Whether outcomes are others in a different order: outcome `k` of the second
/// is outcome `to[k]` of the first.
spec fn are_shuffled(x: Seq<PluginOutcome>, y: Seq<PluginOutcome>, to: Seq<int>) -> bool {
    let n = to.len() as int;
    &&& forall|k: int| 0 <= k < n ==> 0 <= #[trigger] to[k] < n
    &&& forall|i: int| 0 <= i < n ==> #[trigger] to.contains(i)
    &&& to.no_duplicates()
    &&& forall|k: int| 0 <= k < n ==> y[k] == x[#[trigger] to[k]]
}

proof fn lemma_apart_shuffled(x: Seq<PluginOutcome>, y: Seq<PluginOutcome>, to: Seq<int>)
    requires
        are_shuffled(x, y, to),
    ensures
        are_apart(x, to.len() as int, 0) <==> are_apart(y, to.len() as int, 0),
{
    let n = to.len() as int;
    if are_apart(x, n, 0) {
        assert forall|k: int, i: int, l: int, j: int|
            #![trigger key_at(y, k, i), key_at(y, l, j)]
            is_within(y, k, i, n, 0) && is_within(y, l, j, n, 0) && (k != l || i
                != j) implies key_at(y, k, i) != key_at(y, l, j) by {
            assert(y[k] == x[to[k]] && y[l] == x[to[l]]);
            assert(key_at(y, k, i) == key_at(x, to[k], i));
            assert(key_at(y, l, j) == key_at(x, to[l], j));
            assert(is_within(x, to[k], i, n, 0) && is_within(x, to[l], j, n, 0));
            assert(k != l ==> to[k] != to[l]);
        }
    }
    if are_apart(y, n, 0) {
        assert forall|k: int, i: int, l: int, j: int|
            #![trigger key_at(x, k, i), key_at(x, l, j)]
            is_within(x, k, i, n, 0) && is_within(x, l, j, n, 0) && (k != l || i
                != j) implies key_at(x, k, i) != key_at(x, l, j) by {
            assert(to.contains(k) && to.contains(l));
            let r = choose|r: int| 0 <= r < to.len() && to[r] == k;
            let s = choose|s: int| 0 <= s < to.len() && to[s] == l;
            assert(key_at(x, k, i) == key_at(y, r, i));
            assert(key_at(x, l, j) == key_at(y, s, j));
            assert(is_within(y, r, i, n, 0) && is_within(y, s, j, n, 0));
        }
    }
}

/// Whether two lists hold the same tasks, up to their order, each once.
pub open spec fn are_permuted(a: Seq<Task>, b: Seq<Task>) -> bool {
    &&& graph::distinct_keys(a)
    &&& graph::distinct_keys(b)
    &&& a.len() == b.len()
    &&& forall|task: Task| #[trigger] a.contains(task) <==> b.contains(task)
}

proof fn lemma_same_length(a: Seq<Task>, b: Seq<Task>)
    requires
        graph::distinct_keys(a),
        graph::distinct_keys(b),
        forall|task: Task| #[trigger] a.contains(task) <==> b.contains(task),
    ensures
        a.len() == b.len(),
{
    assert(a.no_duplicates());
    assert(b.no_duplicates());
    a.unique_seq_to_set();
    b.unique_seq_to_set();
    assert(a.to_set() =~= b.to_set());
}

proof fn lemma_tasks_shuffled(
    x: Seq<PluginOutcome>,
    y: Seq<PluginOutcome>,
    to: Seq<int>,
    a: Seq<Task>,
    b: Seq<Task>,
)
    requires
        are_shuffled(x, y, to),
        holds(a, x, to.len() as int, 0),
        holds(b, y, to.len() as int, 0),
    ensures
        are_permuted(a, b),
{
    let n = to.len() as int;
    assert forall|task: Task| #[trigger] a.contains(task) <==> b.contains(task) by {
        if a.contains(task) {
            let q = choose|q: int| 0 <= q < a.len() && a[q] == task;
            assert(is_from(x, a[q], n, 0));
            let (k, i) = choose|k: int, i: int|
                is_within(x, k, i, n, 0) && #[trigger] task_at(x, k, i) == a[q];
            assert(to.contains(k));
            let r = choose|r: int| 0 <= r < to.len() && to[r] == k;
            assert(is_within(y, r, i, n, 0) && task_at(y, r, i) == task);
        }
        if b.contains(task) {
            let q = choose|q: int| 0 <= q < b.len() && b[q] == task;
            assert(is_from(y, b[q], n, 0));
            let (k, i) = choose|k: int, i: int|
                is_within(y, k, i, n, 0) && #[trigger] task_at(y, k, i) == b[q];
            assert(is_within(x, to[k], i, n, 0) && task_at(x, to[k], i) == task);
        }
    }
    lemma_same_length(a, b);
}

proof fn lemma_missing(uses: Seq<Use>, names: Seq<Seq<char>>, from: int)
    requires
        0 <= from <= uses.len(),
    ensures
        plugins::missing(uses, names, from) is None <==> forall|k: int|
            from <= k < uses.len() ==> plugins::missing_in(#[trigger] uses[k], names, 0) is None,
    decreases uses.len() - from,
{
    if from < uses.len() {
        lemma_missing(uses, names, from + 1);
    }
}

proof fn lemma_same_missing(u: Use, a: Seq<Seq<char>>, b: Seq<Seq<char>>, from: int)
    requires
        order_laws::same_names(a, b),
        0 <= from,
    ensures
        plugins::missing_in(u, a, from) == plugins::missing_in(u, b, from),
    decreases u.dependencies.len() - from,
{
    if from < u.dependencies.len() {
        assert(a.contains(u.dependencies[from]) == b.contains(u.dependencies[from]));
        lemma_same_missing(u, a, b, from + 1);
    }
}

proof fn lemma_same_longest(a: Seq<Seq<char>>, b: Seq<Seq<char>>, label: Seq<char>)
    requires
        order_laws::same_names(a, b),
    ensures
        plugins::longest_name(a, label, a.len() as int) == plugins::longest_name(
            b,
            label,
            b.len() as int,
        ),
{
    let m = a.len() as int;
    let n = b.len() as int;
    plugins::lemma_longest(a, label, m);
    plugins::lemma_longest(b, label, n);
    plugins::lemma_longest_occurs(a, label, m);
    plugins::lemma_longest_occurs(b, label, n);
    if let Some(name) = plugins::longest_name(a, label, m) {
        assert(b.contains(name));
        let i = choose|i: int| 0 <= i < b.len() && b[i] == name;
        assert(plugins::is_labelled(label, b[i]));
    }
    if let Some(name) = plugins::longest_name(b, label, n) {
        assert(a.contains(name));
        let i = choose|i: int| 0 <= i < a.len() && a[i] == name;
        assert(plugins::is_labelled(label, a[i]));
        let other = plugins::longest_name(a, label, m)->0;
        reveal_strlit("/");
        let tail = "/"@ + name;
        let end = "/"@ + other;
        assert(tail.len() == end.len());
        assert(tail == label.subrange(label.len() - tail.len(), label.len() as int));
        assert(end == label.subrange(label.len() - end.len(), label.len() as int));
        assert(name =~= tail.subrange(1, tail.len() as int));
        assert(other =~= end.subrange(1, end.len() as int));
    }
}

proof fn lemma_same_linked(
    a: Seq<Seq<char>>,
    b: Seq<Seq<char>>,
    several: bool,
    consumer: Seq<char>,
    dep: Seq<char>,
)
    requires
        order_laws::same_names(a, b),
    ensures
        plugins::linked_dep(a, several, consumer, dep) == plugins::linked_dep(
            b,
            several,
            consumer,
            dep,
        ),
{
    assert(a.contains(consumer) == b.contains(consumer));
    lemma_same_longest(a, b, consumer);
}

proof fn lemma_same_unlinked(
    a: Seq<Seq<char>>,
    b: Seq<Seq<char>>,
    several: bool,
    one: Task,
    from: int,
)
    requires
        order_laws::same_names(a, b),
        0 <= from,
    ensures
        plugins::unlinked_dep(a, several, one, from) == plugins::unlinked_dep(
            b,
            several,
            one,
            from,
        ),
    decreases one.depends_on@.len() - from,
{
    if from < one.depends_on@.len() {
        lemma_same_linked(a, b, several, one.module@, one.depends_on@[from]@);
        lemma_same_unlinked(a, b, several, one, from + 1);
    }
}

proof fn lemma_unlinked(names: Seq<Seq<char>>, several: bool, tasks: Seq<Task>, from: int)
    requires
        0 <= from <= tasks.len(),
    ensures
        plugins::unlinked(names, several, tasks, from) is None <==> forall|q: int|
            from <= q < tasks.len() ==> plugins::unlinked_dep(
                names,
                several,
                #[trigger] tasks[q],
                0,
            ) is None,
    decreases tasks.len() - from,
{
    if from < tasks.len() {
        lemma_unlinked(names, several, tasks, from + 1);
    }
}

/// What configuring plugin `p` of module `m` gives.
pub open spec fn outcome_at(
    request: BuildRequest,
    outcomes: Seq<PluginOutcome>,
    m: int,
    p: int,
) -> PluginOutcome {
    outcomes[m * (request.plugins@.len() as int) + p]
}

/// Whether the plugins give the same for a module in both builds.
pub open spec fn are_same_outcomes(
    a: BuildRequest,
    x: Seq<PluginOutcome>,
    b: BuildRequest,
    y: Seq<PluginOutcome>,
    at: Seq<int>,
) -> bool {
    forall|j: int, p: int|
        0 <= j < b.modules@.len() && 0 <= p < b.plugins@.len() ==> #[trigger] outcome_at(b, y, j, p)
            == outcome_at(a, x, at[j], p)
}

/// Where the plugin at position `k` of the second build stands in the first.
spec fn moved(at: Seq<int>, count: int, k: int) -> int {
    at[k / count] * count + k % count
}

proof fn lemma_position(m: int, p: int, n: int, count: int)
    requires
        0 <= m < n,
        0 <= p < count,
    ensures
        0 <= m * count + p < n * count,
        (m * count + p) / count == m,
        (m * count + p) % count == p,
{
    vstd::arithmetic::div_mod::lemma_fundamental_div_mod_converse(m * count + p, count, m, p);
    assert(0 <= m * count + p < n * count) by (nonlinear_arith)
        requires
            0 <= m,
            m + 1 <= n,
            0 <= p < count,
    ;
}

proof fn lemma_split(k: int, n: int, count: int)
    requires
        0 <= k < n * count,
        0 < count,
        0 <= n,
    ensures
        0 <= k / count < n,
        0 <= k % count < count,
        k == (k / count) * count + k % count,
{
    lemma_within(k, n, count);
    vstd::arithmetic::div_mod::lemma_fundamental_div_mod(k, count);
    vstd::arithmetic::div_mod::lemma_div_pos_is_pos(k, count);
    let m = k / count;
    assert(m * count == count * m) by (nonlinear_arith);
    assert(0 <= k % count < count) by (nonlinear_arith)
        requires
            count > 0,
    ;
}

proof fn lemma_moved(
    a: BuildRequest,
    known_a: BuildState,
    b: BuildRequest,
    known_b: BuildState,
    at: Seq<int>,
    k: int,
)
    requires
        order_laws::is_reordered(a, known_a, b, known_b, at),
        b.plugins@.len() > 0,
        0 <= k < total(b),
    ensures
        ({
            let count = b.plugins@.len() as int;
            let to = moved(at, count, k);
            &&& 0 <= k / count < b.modules@.len()
            &&& 0 <= k % count < count
            &&& k == (k / count) * count + k % count
            &&& 0 <= to < total(a)
            &&& to / count == at[k / count]
            &&& to % count == k % count
        }),
{
    let count = b.plugins@.len() as int;
    let n = b.modules@.len() as int;
    lemma_split(k, n, count);
    assert(0 <= at[k / count] < n);
    lemma_position(at[k / count], k % count, n, count);
}

proof fn lemma_shuffled(
    a: BuildRequest,
    known_a: BuildState,
    x: Seq<PluginOutcome>,
    b: BuildRequest,
    known_b: BuildState,
    y: Seq<PluginOutcome>,
    at: Seq<int>,
    to: Seq<int>,
)
    requires
        order_laws::is_reordered(a, known_a, b, known_b, at),
        are_same_outcomes(a, x, b, y, at),
        b.plugins@.len() > 0,
        total(b) >= 0,
        to == Seq::new(total(b) as nat, |k: int| moved(at, b.plugins@.len() as int, k)),
    ensures
        are_shuffled(x, y, to),
{
    let count = b.plugins@.len() as int;
    let n = b.modules@.len() as int;
    assert(total(a) == total(b));
    assert forall|k: int| 0 <= k < to.len() implies 0 <= #[trigger] to[k] < to.len() && y[k]
        == x[to[k]] by {
        lemma_moved(a, known_a, b, known_b, at, k);
        assert(outcome_at(b, y, k / count, k % count) == outcome_at(
            a,
            x,
            at[k / count],
            k % count,
        ));
    }
    assert forall|i: int| 0 <= i < to.len() implies #[trigger] to.contains(i) by {
        lemma_split(i, n, count);
        let m = i / count;
        assert(at.contains(m));
        let j = choose|j: int| 0 <= j < at.len() && at[j] == m;
        lemma_position(j, i % count, n, count);
        let k = j * count + i % count;
        assert(to[k] == i);
    }
    assert forall|k: int, l: int|
        0 <= k < to.len() && 0 <= l < to.len() && k != l implies #[trigger] to[k]
        != #[trigger] to[l] by {
        lemma_moved(a, known_a, b, known_b, at, k);
        lemma_moved(a, known_a, b, known_b, at, l);
        if to[k] == to[l] {
            assert(at[k / count] == at[l / count]);
            assert(k / count == l / count);
        }
    }
}

proof fn lemma_sound_shuffled(
    a: BuildRequest,
    known_a: BuildState,
    x: Seq<PluginOutcome>,
    b: BuildRequest,
    known_b: BuildState,
    y: Seq<PluginOutcome>,
    at: Seq<int>,
    to: Seq<int>,
)
    requires
        order_laws::is_reordered(a, known_a, b, known_b, at),
        b.plugins@.len() > 0,
        total(b) >= 0,
        to == Seq::new(total(b) as nat, |k: int| moved(at, b.plugins@.len() as int, k)),
        are_shuffled(x, y, to),
    ensures
        are_sound(a, known_a, x, to.len() as int) <==> are_sound(b, known_b, y, to.len() as int),
        forall|k: int| 0 <= k < to.len() ==> version_at(a, x, #[trigger] to[k]) == version_at(
            b,
            y,
            k,
        ),
{
    let n = to.len() as int;
    let count = b.plugins@.len() as int;
    assert forall|k: int| 0 <= k < n implies is_sound(a, known_a, x, #[trigger] to[k]) == is_sound(
        b,
        known_b,
        y,
        k,
    ) && version_at(a, x, to[k]) == version_at(b, y, k) by {
        lemma_moved(a, known_a, b, known_b, at, k);
        order_laws::law_declaration_order_is_irrelevant(
            a,
            known_a,
            b,
            known_b,
            at,
            k / count,
            0,
        );
        assert(order_laws::is_same_module(a, known_a, at[k / count], b, known_b, k / count));
        assert(y[k] == x[to[k]]);
    }
    if are_sound(a, known_a, x, n) {
        assert forall|k: int| 0 <= k < n implies #[trigger] is_sound(b, known_b, y, k) by {
            assert(is_sound(a, known_a, x, to[k]));
        }
    }
    if are_sound(b, known_b, y, n) {
        assert forall|i: int| 0 <= i < n implies #[trigger] is_sound(a, known_a, x, i) by {
            assert(to.contains(i));
            let k = choose|k: int| 0 <= k < to.len() && to[k] == i;
            assert(is_sound(b, known_b, y, k));
        }
    }
}

/// Whether two plans are the same up to the order of what they hold.
pub open spec fn is_same_plan(p: Plan, q: Plan) -> bool {
    &&& are_permuted(p.tasks, q.tasks)
    &&& order_laws::same_names(p.names, q.names)
    &&& order_laws::same_names(p.versions, q.versions)
}

proof fn lemma_plans_shuffled(
    a: BuildRequest,
    x: Seq<PluginOutcome>,
    p: Plan,
    b: BuildRequest,
    y: Seq<PluginOutcome>,
    q: Plan,
    to: Seq<int>,
)
    requires
        are_shuffled(x, y, to),
        is_plan_of(p, a, x, to.len() as int),
        is_plan_of(q, b, y, to.len() as int),
        forall|k: int| 0 <= k < to.len() ==> version_at(a, x, #[trigger] to[k]) == version_at(
            b,
            y,
            k,
        ),
    ensures
        is_same_plan(p, q),
        forall|several: bool|
            #![trigger plugins::plan_fault(p, several)]
            plugins::plan_fault(p, several) is None <==> plugins::plan_fault(q, several) is None,
{
    let n = to.len() as int;
    lemma_tasks_shuffled(x, y, to, p.tasks, q.tasks);
    assert forall|k: int| 0 <= k < n implies p.names[#[trigger] to[k]] == q.names[k]
        && p.versions[to[k]] == q.versions[k] && p.uses[to[k]] == q.uses[k] by {
        assert(y[k] == x[to[k]]);
    }
    assert forall|name: Seq<char>| #[trigger] p.names.contains(name) == q.names.contains(name) by {
        lemma_same_items(p.names, q.names, to, name);
    }
    assert forall|name: Seq<char>| #[trigger] p.versions.contains(name) == q.versions.contains(
        name,
    ) by {
        lemma_same_items(p.versions, q.versions, to, name);
    }
    assert forall|several: bool|
        #![trigger plugins::plan_fault(p, several)]
        plugins::plan_fault(p, several) is None <==> plugins::plan_fault(q, several) is None by {
        lemma_missing(p.uses, p.names, 0);
        lemma_missing(q.uses, q.names, 0);
        lemma_unlinked(p.names, several, p.tasks, 0);
        lemma_unlinked(q.names, several, q.tasks, 0);
        assert forall|k: int| 0 <= k < n implies plugins::missing_in(
            p.uses[#[trigger] to[k]],
            p.names,
            0,
        ) == plugins::missing_in(q.uses[k], q.names, 0) by {
            lemma_same_missing(q.uses[k], p.names, q.names, 0);
        }
        if plugins::missing(q.uses, q.names, 0) is None {
            assert forall|i: int| 0 <= i < p.uses.len() implies plugins::missing_in(
                #[trigger] p.uses[i],
                p.names,
                0,
            ) is None by {
                assert(to.contains(i));
                let k = choose|k: int| 0 <= k < to.len() && to[k] == i;
                assert(plugins::missing_in(q.uses[k], q.names, 0) is None);
            }
        }
        if plugins::missing(p.uses, p.names, 0) is None {
            assert forall|k: int| 0 <= k < q.uses.len() implies plugins::missing_in(
                #[trigger] q.uses[k],
                q.names,
                0,
            ) is None by {
                assert(plugins::missing_in(p.uses[to[k]], p.names, 0) is None);
            }
        }
        if plugins::unlinked(q.names, several, q.tasks, 0) is None {
            assert forall|i: int| 0 <= i < p.tasks.len() implies plugins::unlinked_dep(
                p.names,
                several,
                #[trigger] p.tasks[i],
                0,
            ) is None by {
                assert(p.tasks.contains(p.tasks[i]));
                let k = choose|k: int| 0 <= k < q.tasks.len() && q.tasks[k] == p.tasks[i];
                assert(plugins::unlinked_dep(q.names, several, q.tasks[k], 0) is None);
                lemma_same_unlinked(p.names, q.names, several, p.tasks[i], 0);
            }
        }
        if plugins::unlinked(p.names, several, p.tasks, 0) is None {
            assert forall|k: int| 0 <= k < q.tasks.len() implies plugins::unlinked_dep(
                q.names,
                several,
                #[trigger] q.tasks[k],
                0,
            ) is None by {
                assert(q.tasks.contains(q.tasks[k]));
                assert(p.tasks.contains(q.tasks[k]));
                let i = choose|i: int| 0 <= i < p.tasks.len() && p.tasks[i] == q.tasks[k];
                assert(plugins::unlinked_dep(p.names, several, p.tasks[i], 0) is None);
                lemma_same_unlinked(p.names, q.names, several, q.tasks[k], 0);
            }
        }
    }
}

proof fn lemma_same_items(a: Seq<Seq<char>>, b: Seq<Seq<char>>, to: Seq<int>, name: Seq<char>)
    requires
        a.len() == to.len(),
        b.len() == to.len(),
        forall|k: int| 0 <= k < to.len() ==> 0 <= #[trigger] to[k] < to.len(),
        forall|i: int| 0 <= i < to.len() ==> #[trigger] to.contains(i),
        forall|k: int| 0 <= k < to.len() ==> a[#[trigger] to[k]] == b[k],
    ensures
        a.contains(name) == b.contains(name),
{
    if a.contains(name) {
        let i = choose|i: int| 0 <= i < a.len() && a[i] == name;
        assert(to.contains(i));
        let k = choose|k: int| 0 <= k < to.len() && to[k] == i;
        assert(b[k] == name);
    }
    if b.contains(name) {
        let k = choose|k: int| 0 <= k < b.len() && b[k] == name;
        assert(a[to[k]] == name);
    }
}

/// The order in which a project declares its modules plays no role for how a
/// build ends: of two builds whose modules are the same in a different order,
/// and whose plugins give the same for each module, both come to their tasks or
/// neither does, and the tasks are the same up to their order.
pub proof fn law_builds_end_alike(
    a: BuildRequest,
    known_a: BuildState,
    x: Seq<PluginOutcome>,
    b: BuildRequest,
    known_b: BuildState,
    y: Seq<PluginOutcome>,
    at: Seq<int>,
)
    requires
        order_laws::is_reordered(a, known_a, b, known_b, at),
        are_same_outcomes(a, x, b, y, at),
    ensures
        built(a, known_a, x) is Some <==> built(b, known_b, y) is Some,
        built(a, known_a, x) matches Some(p) ==> is_same_plan(p, built(b, known_b, y)->0),
{
    let count = b.plugins@.len() as int;
    let n = total(b);
    if course::plugins_fault(a) is None {
        assert(count > 0);
        order_laws::lemma_phases(a, known_a, b, known_b, at);
        assert(is_prepared(a, known_a) == is_prepared(b, known_b));
        assert(n >= 0) by (nonlinear_arith)
            requires
                n == b.modules@.len() as int * count,
                count > 0,
        ;
        assert(total(a) == n);
        let to = Seq::new(n as nat, |k: int| moved(at, count, k));
        lemma_shuffled(a, known_a, x, b, known_b, y, at, to);
        lemma_sound_shuffled(a, known_a, x, b, known_b, y, at, to);
        lemma_apart_shuffled(x, y, to);
        lemma_configuring(a, known_a, x, n);
        lemma_configuring(b, known_b, y, n);
        if configured_plan(a, known_a, x, n) is Ok {
            let p = configured_plan(a, known_a, x, n)->Ok_0;
            let q = configured_plan(b, known_b, y, n)->Ok_0;
            lemma_plans_shuffled(a, x, p, b, y, q, to);
            assert(plugins::plan_fault(p, a.several) is None <==> plugins::plan_fault(
                q,
                b.several,
            ) is None);
        }
    }
}

proof fn lemma_linked_alike(
    p: Plan,
    s: Seq<Task>,
    q: Plan,
    t: Seq<Task>,
    several: bool,
    i: int,
)
    requires
        is_same_plan(p, q),
        plugins::are_linked(p.names, several, p.tasks, s),
        plugins::are_linked(q.names, several, q.tasks, t),
        0 <= i < s.len(),
    ensures
        graph_laws::is_task_of(t, s[i]),
{
    let before = p.tasks[i];
    assert(p.tasks.contains(before));
    assert(q.tasks.contains(before));
    let k = choose|k: int| 0 <= k < q.tasks.len() && q.tasks[k] == before;
    assert(plugins::is_linked(p.names, several, p.tasks[i], s[i]));
    assert(plugins::is_linked(q.names, several, q.tasks[k], t[k]));
    let f = text::texts(s[i].depends_on@);
    let g = text::texts(t[k].depends_on@);
    assert forall|d: int| 0 <= d < f.len() implies f[d] == #[trigger] g[d] by {
        lemma_same_linked(
            p.names,
            q.names,
            several,
            before.module@,
            before.depends_on@[d]@,
        );
        assert(f[d] == s[i].depends_on@[d]@ && g[d] == t[k].depends_on@[d]@);
    }
    assert(f =~= g);
    assert(graph_laws::is_same_task(s[i], t[k]));
}

proof fn lemma_linked_distinct(
    names: Seq<Seq<char>>,
    several: bool,
    before: Seq<Task>,
    after: Seq<Task>,
)
    requires
        plugins::are_linked(names, several, before, after),
        graph::distinct_keys(before),
    ensures
        graph::distinct_keys(after),
{
    assert forall|i: int, j: int| 0 <= i < j < after.len() implies graph::key_of(
        #[trigger] after[i],
    ) != graph::key_of(#[trigger] after[j]) by {
        assert(plugins::is_linked(names, several, before[i], after[i]));
        assert(plugins::is_linked(names, several, before[j], after[j]));
    }
}

/// The graphs of such builds hold the same tasks with the same dependencies, and
/// both can be scheduled or neither can.
pub proof fn law_graphs_are_alike(p: Plan, s: Seq<Task>, q: Plan, t: Seq<Task>, several: bool)
    requires
        is_same_plan(p, q),
        plugins::are_linked(p.names, several, p.tasks, s),
        plugins::are_linked(q.names, several, q.tasks, t),
    ensures
        graph_laws::are_same_tasks(s, t),
        graph::waves_of(s) is Ok <==> graph::waves_of(t) is Ok,
{
    assert forall|i: int| 0 <= i < s.len() implies graph_laws::is_task_of(t, #[trigger] s[i]) by {
        lemma_linked_alike(p, s, q, t, several, i);
    }
    assert(is_same_plan(q, p)) by {
        assert forall|task: Task| #[trigger] q.tasks.contains(task) <==> p.tasks.contains(task) by {
            assert(p.tasks.contains(task) <==> q.tasks.contains(task));
        }
        assert forall|name: Seq<char>| #[trigger] q.names.contains(name) == p.names.contains(
            name,
        ) by {
            assert(p.names.contains(name) == q.names.contains(name));
        }
        assert forall|name: Seq<char>| #[trigger] q.versions.contains(name)
            == p.versions.contains(name) by {
            assert(p.versions.contains(name) == q.versions.contains(name));
        }
    }
    assert forall|j: int| 0 <= j < t.len() implies graph_laws::is_task_of(s, #[trigger] t[j]) by {
        lemma_linked_alike(q, t, p, s, several, j);
    }
    lemma_linked_distinct(p.names, several, p.tasks, s);
    lemma_linked_distinct(q.names, several, q.tasks, t);
    graph_laws::law_scheduling_ignores_the_order(s, t);
}

/// In a project of several modules a task that carries the label of its plugin
/// has the key `<module>/<plugin>::<task>`.
pub proof fn law_task_keys_name_module_and_plugin(
    request: BuildRequest,
    m: int,
    p: int,
    one: Task,
)
    requires
        request.several,
        one.module@ == course::owner_label(request, m, p),
    ensures
        graph::key_of(one) == request.modules@[m].rel@ + "/"@ + request.plugins@[p].name@ + "::"@
            + one.name@,
{
}

/// Whether what a state knows of the dependencies of a module is part of what
/// another knows.
pub open spec fn is_part_at(state: BuildState, full: BuildState, i: int) -> bool {
    let few = course::sets_at(state.resolutions@, i);
    let many = course::sets_at(full.resolutions@, i);
    &&& course::own_at(state.resolutions@, i) is Some ==> course::own_at(state.resolutions@, i)
        == course::own_at(full.resolutions@, i)
    &&& few.len() <= many.len()
    &&& forall|s: int| 0 <= s < few.len() ==> #[trigger] few[s] == many[s]
}

/// Whether what a state knows of the modules is part of what another knows.
pub open spec fn is_part_of(state: BuildState, full: BuildState) -> bool {
    &&& state.evaluations@.len() <= full.evaluations@.len()
    &&& forall|i: int|
        0 <= i < state.evaluations@.len() ==> #[trigger] state.evaluations@[i]
            == full.evaluations@[i]
    &&& forall|i: int| 0 <= i ==> #[trigger] is_part_at(state, full, i)
}

proof fn lemma_more_sets(
    blocks: Seq<(Seq<char>, Value)>,
    compose: Option<Seq<Declared>>,
    few: Seq<Result<Paths, Seq<char>>>,
    many: Seq<Result<Paths, Seq<char>>>,
    n: int,
)
    requires
        few.len() <= many.len(),
        forall|s: int| 0 <= s < few.len() ==> #[trigger] few[s] == many[s],
    ensures
        !(deps::sets_after(blocks, compose, few, n) is Resolve) ==> deps::sets_after(
            blocks,
            compose,
            many,
            n,
        ) == deps::sets_after(blocks, compose, few, n),
    decreases n,
{
    if n > 0 {
        lemma_more_sets(blocks, compose, few, many, n - 1);
        if n <= few.len() {
            assert(few[n - 1] == many[n - 1]);
        }
    }
}

spec fn is_settled(state: PrepState) -> bool {
    state is Ready || state is Failed
}

proof fn lemma_more_prepared(request: BuildRequest, state: BuildState, full: BuildState, i: int)
    requires
        is_part_of(state, full),
        0 <= i < state.evaluations@.len(),
    ensures
        is_settled(course::prep_at(request, state.evaluations@, state.resolutions@, i))
            ==> course::prep_at(request, full.evaluations@, full.resolutions@, i)
            == course::prep_at(request, state.evaluations@, state.resolutions@, i),
{
    assert(is_part_at(state, full, i));
    assert(state.evaluations@[i] == full.evaluations@[i]);
    let model = state.evaluations@[i]->model;
    let shown = text::opt_text(state.evaluations@[i]->shown);
    if let Ok(compose) = deps::compose_of(model, shown) {
        if let Ok(blocks) = deps::source_sets_of(model) {
            lemma_more_sets(
                blocks,
                compose,
                course::sets_at(state.resolutions@, i),
                course::sets_at(full.resolutions@, i),
                blocks.len() as int,
            );
        }
    }
}

proof fn lemma_more_evaluating(
    request: BuildRequest,
    state: BuildState,
    full: BuildState,
    from: int,
)
    requires
        is_part_of(state, full),
        0 <= from,
    ensures
        course::evaluating(request, state.evaluations@, from) is None ==> course::evaluating(
            request,
            full.evaluations@,
            from,
        ) is None,
        course::evaluating(request, state.evaluations@, from) matches Some(turn) ==> turn is Failed
            ==> course::evaluating(request, full.evaluations@, from) == Some(turn),
        course::evaluating(request, state.evaluations@, from) is None && from
            < request.modules@.len() ==> request.modules@.len() <= state.evaluations@.len(),
    decreases request.modules@.len() - from,
{
    if from < request.modules@.len() {
        lemma_more_evaluating(request, state, full, from + 1);
        if from < state.evaluations@.len() {
            assert(state.evaluations@[from] == full.evaluations@[from]);
        }
    }
}

proof fn lemma_more_preparing(
    request: BuildRequest,
    state: BuildState,
    full: BuildState,
    from: int,
)
    requires
        is_part_of(state, full),
        0 <= from,
        from < request.modules@.len() ==> request.modules@.len() <= state.evaluations@.len(),
    ensures
        course::preparing(request, state.evaluations@, state.resolutions@, from) is None
            ==> course::preparing(request, full.evaluations@, full.resolutions@, from) is None,
        course::preparing(request, state.evaluations@, state.resolutions@, from) matches Some(turn)
            ==> turn is Failed ==> course::preparing(
            request,
            full.evaluations@,
            full.resolutions@,
            from,
        ) == Some(turn),
        course::preparing(request, state.evaluations@, state.resolutions@, from) is None ==> forall|
            i: int,
        |
            from <= i < request.modules@.len() ==> #[trigger] course::prep_at(
                request,
                state.evaluations@,
                state.resolutions@,
                i,
            ) == course::prep_at(request, full.evaluations@, full.resolutions@, i),
    decreases request.modules@.len() - from,
{
    if from < request.modules@.len() {
        lemma_more_preparing(request, state, full, from + 1);
        lemma_more_prepared(request, state, full, from);
    }
}

proof fn lemma_more_outputs(request: BuildRequest, state: BuildState, full: BuildState, n: int)
    requires
        is_part_of(state, full),
        n <= state.evaluations@.len(),
    ensures
        course::outputs_of(request, state.evaluations@, n) == course::outputs_of(
            request,
            full.evaluations@,
            n,
        ),
    decreases n,
{
    if n > 0 {
        lemma_more_outputs(request, state, full, n - 1);
        assert(state.evaluations@[n - 1] == full.evaluations@[n - 1]);
    }
}

proof fn lemma_more_linked(request: BuildRequest, state: BuildState, full: BuildState, m: int)
    requires
        is_part_of(state, full),
        is_prepared(request, state),
        0 <= m < request.modules@.len(),
    ensures
        is_prepared(request, full),
        course::linked_at(request, state, m) == course::linked_at(request, full, m),
{
    let n = request.modules@.len() as int;
    lemma_more_evaluating(request, state, full, 0);
    lemma_more_preparing(request, state, full, 0);
    lemma_more_outputs(request, state, full, n);
    let p = course::all_prepared(request, state.evaluations@, state.resolutions@);
    let q = course::all_prepared(request, full.evaluations@, full.resolutions@);
    assert forall|i: int| 0 <= i < n implies p[i] == #[trigger] q[i] by {
        assert(course::prep_at(request, state.evaluations@, state.resolutions@, i)
            == course::prep_at(request, full.evaluations@, full.resolutions@, i));
    }
    assert(p =~= q);
    assert(course::prep_at(request, state.evaluations@, state.resolutions@, m) == course::prep_at(
        request,
        full.evaluations@,
        full.resolutions@,
        m,
    ));
}

/// Once a build needs nothing more to be evaluated or resolved, knowing more
/// does not change how it goes on: the same plugin is configured, or it ends
/// alike.
pub proof fn law_more_knowledge_changes_nothing(
    request: BuildRequest,
    state: BuildState,
    full: BuildState,
)
    requires
        is_part_of(state, full),
        full.configured == state.configured,
    ensures
        ({
            let turn = course::next_turn(request, state);
            turn is Configure || turn is Finish || turn is Failed ==> course::next_turn(
                request,
                full,
            ) == turn
        }),
{
    lemma_more_evaluating(request, state, full, 0);
    if course::evaluating(request, state.evaluations@, 0) is None {
        lemma_more_preparing(request, state, full, 0);
    }
    lemma_turn(request, state);
    lemma_turn(request, full);
    if is_prepared(request, state) {
        let count = request.plugins@.len() as int;
        let m = state.configured as int / count;
        vstd::arithmetic::div_mod::lemma_div_pos_is_pos(state.configured as int, count);
        if m < request.modules@.len() {
            lemma_more_linked(request, state, full, m);
        }
    }
}

proof fn lemma_more_configured(
    request: BuildRequest,
    state: BuildState,
    full: BuildState,
    outcomes: Seq<PluginOutcome>,
    k: int,
)
    requires
        is_part_of(state, full),
        is_prepared(request, state),
        k <= total(request),
    ensures
        configured_plan(request, state, outcomes, k) == configured_plan(
            request,
            full,
            outcomes,
            k,
        ),
    decreases k,
{
    if k > 0 {
        lemma_more_configured(request, state, full, outcomes, k - 1);
        lemma_split(k - 1, request.modules@.len() as int, request.plugins@.len() as int);
        lemma_more_linked(
            request,
            state,
            full,
            (k - 1) / (request.plugins@.len() as int),
        );
    }
}

/// Whether a build has ended: every plugin is configured, or it failed, or the
/// plugin that was next brought it down.
pub open spec fn has_ended(
    request: BuildRequest,
    last: BuildState,
    outcomes: Seq<PluginOutcome>,
) -> bool {
    let turn = course::next_turn(request, last);
    ||| turn is Finish
    ||| turn is Failed
    ||| turn is Configure && course::plan_after(
        request,
        last,
        outcomes[last.configured as int],
    ) is Err
}

/// Whether a build that has ended has its tasks.
pub open spec fn has_succeeded(request: BuildRequest, last: BuildState) -> bool {
    course::next_turn(request, last) is Finish && plugins::plan_fault(
        last.plan@,
        request.several,
    ) is None
}

proof fn lemma_ended(
    request: BuildRequest,
    full: BuildState,
    states: Seq<BuildState>,
    outcomes: Seq<PluginOutcome>,
)
    requires
        is_course(request, states, outcomes),
        is_part_of(states.last(), full),
        has_ended(request, states.last(), outcomes),
    ensures
        has_succeeded(request, states.last()) <==> built(request, full, outcomes) is Some,
        has_succeeded(request, states.last()) ==> built(request, full, outcomes) == Some(
            states.last().plan@,
        ),
{
    let last = states.last();
    law_course_leads_to_the_plan(request, states, outcomes);
    lemma_turn(request, last);
    if is_prepared(request, last) {
        lemma_more_evaluating(request, last, full, 0);
        lemma_more_preparing(request, last, full, 0);
        lemma_more_configured(request, last, full, outcomes, total(request));
        assert(built(request, full, outcomes) == built(request, last, outcomes));
    } else {
        lemma_more_evaluating(request, last, full, 0);
        if course::evaluating(request, last.evaluations@, 0) is None {
            lemma_more_preparing(request, last, full, 0);
        }
        assert(!is_prepared(request, full));
    }
}

/// Runs of two builds whose modules are the same in a different order both
/// succeed or both fail, and where they succeed they have the same tasks up to
/// their order. `full_a` and `full_b` hold what evaluating each module and
/// resolving its dependencies gives; a run that fails early has seen only part
/// of it.
pub proof fn law_runs_end_alike(
    a: BuildRequest,
    full_a: BuildState,
    states_a: Seq<BuildState>,
    x: Seq<PluginOutcome>,
    b: BuildRequest,
    full_b: BuildState,
    states_b: Seq<BuildState>,
    y: Seq<PluginOutcome>,
    at: Seq<int>,
)
    requires
        order_laws::is_reordered(a, full_a, b, full_b, at),
        are_same_outcomes(a, x, b, y, at),
        is_course(a, states_a, x),
        is_course(b, states_b, y),
        is_part_of(states_a.last(), full_a),
        is_part_of(states_b.last(), full_b),
        has_ended(a, states_a.last(), x),
        has_ended(b, states_b.last(), y),
    ensures
        has_succeeded(a, states_a.last()) <==> has_succeeded(b, states_b.last()),
        has_succeeded(a, states_a.last()) ==> is_same_plan(
            states_a.last().plan@,
            states_b.last().plan@,
        ),
{
    lemma_ended(a, full_a, states_a, x);
    lemma_ended(b, full_b, states_b, y);
    law_builds_end_alike(a, full_a, x, b, full_b, y, at);
}

} // verus!
