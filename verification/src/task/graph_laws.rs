//! What holds of every task graph.

use vstd::prelude::*;
use crate::task;
use crate::task::Task;
use crate::task::graph;
use crate::task::graph::Fault;
use crate::text;

verus! {

/// The largest depth among the first `n` dependencies.
pub open spec fn top(done: Seq<(Seq<char>, nat)>, deps: Seq<Seq<char>>, n: int) -> nat
    decreases n,
{
    if n <= 0 {
        0
    } else {
        graph::larger(top(done, deps, n - 1), graph::depth_in(done, deps[n - 1])->0)
    }
}

/// Whether every depth that is known is that of a task all of whose
/// dependencies are known: zero without dependencies, else one more than the
/// largest among them.
spec fn is_valid(tasks: Seq<Task>, done: Seq<(Seq<char>, nat)>) -> bool {
    forall|key: Seq<char>| #[trigger]
        graph::depth_in(done, key) is Some ==> is_entry(tasks, done, key)
}

spec fn is_entry(tasks: Seq<Task>, done: Seq<(Seq<char>, nat)>, key: Seq<char>) -> bool {
    &&& graph::task_for(tasks, key) matches Some(task)
    &&& deps_known(done, graph::dep_keys(task), graph::dep_keys(task).len() as int)
    &&& graph::depth_in(done, key) == Some(
        if graph::dep_keys(task).len() == 0 {
            0
        } else {
            top(done, graph::dep_keys(task), graph::dep_keys(task).len() as int) + 1
        },
    )
}

spec fn deps_known(done: Seq<(Seq<char>, nat)>, deps: Seq<Seq<char>>, n: int) -> bool {
    forall|k: int| 0 <= k < n ==> graph::depth_in(done, #[trigger] deps[k]) is Some
}

proof fn lemma_top_stays(
    few: Seq<(Seq<char>, nat)>,
    many: Seq<(Seq<char>, nat)>,
    deps: Seq<Seq<char>>,
    n: int,
)
    requires
        graph::knows_more(few, many),
        0 <= n <= deps.len(),
        deps_known(few, deps, n),
    ensures
        deps_known(many, deps, n),
        top(many, deps, n) == top(few, deps, n),
    decreases n,
{
    if n > 0 {
        lemma_top_stays(few, many, deps, n - 1);
        assert(graph::depth_in(few, deps[n - 1]) is Some);
    }
}

proof fn lemma_explore_valid(
    tasks: Seq<Task>,
    done: Seq<(Seq<char>, nat)>,
    chain: Seq<Seq<char>>,
    key: Seq<char>,
)
    requires
        is_valid(tasks, done),
    ensures
        graph::explore(tasks, done, chain, key) matches Ok(e) ==> is_valid(tasks, e.done),
    decreases graph::outside(tasks, chain), 0nat,
{
    if graph::explore(tasks, done, chain, key) is Ok && graph::depth_in(done, key) is None {
        let e = graph::explore(tasks, done, chain, key)->Ok_0;
        let task = graph::task_for(tasks, key)->0;
        let deps = graph::dep_keys(task);
        let longer = chain.push(key);
        graph::lemma_outside_drops(tasks, chain, key);
        lemma_deps_valid(tasks, done, longer, deps, deps.len());
        let inner = graph::explore_deps(tasks, done, longer, deps, deps.len())->Ok_0;
        graph::lemma_explore_knows(tasks, done, chain, key);
        let more = inner.done.push((key, e.depth));
        assert(e.done == more);
        assert forall|k: Seq<char>| #[trigger] graph::depth_in(inner.done, k) is Some implies graph::depth_in(
            more,
            k,
        ) == graph::depth_in(inner.done, k) by {
            graph::lemma_depth_stays(inner.done, (key, e.depth), k);
        }
        assert(graph::knows_more(inner.done, more));
        assert forall|k: Seq<char>| #[trigger] graph::depth_in(more, k) is Some implies is_entry(
            tasks,
            more,
            k,
        ) by {
            graph::lemma_depth_stays(inner.done, (key, e.depth), k);
            if graph::depth_in(inner.done, k) is Some {
                assert(is_entry(tasks, inner.done, k));
                let other = graph::dep_keys(graph::task_for(tasks, k)->0);
                lemma_top_stays(inner.done, more, other, other.len() as int);
            } else {
                lemma_top_stays(inner.done, more, deps, deps.len() as int);
            }
        }
    }
}

proof fn lemma_deps_valid(
    tasks: Seq<Task>,
    done: Seq<(Seq<char>, nat)>,
    chain: Seq<Seq<char>>,
    deps: Seq<Seq<char>>,
    n: nat,
)
    requires
        is_valid(tasks, done),
        n <= deps.len(),
    ensures
        graph::explore_deps(tasks, done, chain, deps, n) matches Ok(e) ==> {
            &&& is_valid(tasks, e.done)
            &&& deps_known(e.done, deps, n as int)
            &&& e.depth == top(e.done, deps, n as int)
        },
    decreases graph::outside(tasks, chain), n + 1,
{
    if n > 0 && graph::explore_deps(tasks, done, chain, deps, n) is Ok {
        let m = (n - 1) as nat;
        lemma_deps_valid(tasks, done, chain, deps, m);
        let before = graph::explore_deps(tasks, done, chain, deps, m)->Ok_0;
        lemma_explore_valid(tasks, before.done, chain, deps[n - 1]);
        graph::lemma_explore_knows(tasks, before.done, chain, deps[n - 1]);
        let next = graph::explore(tasks, before.done, chain, deps[n - 1])->Ok_0;
        lemma_top_stays(before.done, next.done, deps, m as int);
    }
}

proof fn lemma_all_valid(tasks: Seq<Task>, n: int)
    ensures
        graph::explore_all(tasks, n) matches Ok(done) ==> is_valid(tasks, done),
    decreases n,
{
    if n > 0 && graph::explore_all(tasks, n) is Ok {
        lemma_all_valid(tasks, n - 1);
        let before = graph::explore_all(tasks, n - 1)->Ok_0;
        lemma_explore_valid(tasks, before, Seq::empty(), graph::key_of(tasks[n - 1]));
    }
}

/// The depth of the task with a key.
pub open spec fn depth_at(tasks: Seq<Task>, depths: Seq<nat>, key: Seq<char>) -> nat {
    depths[graph::find_from(tasks, key, 0)->0]
}

/// The largest depth of the tasks that the first `n` dependencies refer to.
pub open spec fn deepest_dep(
    tasks: Seq<Task>,
    depths: Seq<nat>,
    deps: Seq<Seq<char>>,
    n: int,
) -> nat
    decreases n,
{
    if n <= 0 {
        0
    } else {
        graph::larger(
            deepest_dep(tasks, depths, deps, n - 1),
            depth_at(tasks, depths, deps[n - 1]),
        )
    }
}

/// Whether depths say how long the longest chain of dependencies below each
/// task is: every dependency is registered, a task without dependencies has
/// depth zero, and any other is one deeper than its deepest dependency.
pub open spec fn are_depths(tasks: Seq<Task>, depths: Seq<nat>) -> bool {
    &&& depths.len() == tasks.len()
    &&& forall|i: int| 0 <= i < tasks.len() ==> is_depth(tasks, depths, #[trigger] tasks[i], i)
}

/// Whether `depths[i]` is the depth of `task`.
pub open spec fn is_depth(tasks: Seq<Task>, depths: Seq<nat>, task: Task, i: int) -> bool {
    let deps = graph::dep_keys(task);
    &&& forall|k: int| 0 <= k < deps.len() ==> graph::task_for(tasks, #[trigger] deps[k]) is Some
    &&& depths[i] == if deps.len() == 0 {
        0
    } else {
        deepest_dep(tasks, depths, deps, deps.len() as int) + 1
    }
}

pub proof fn lemma_find_own(tasks: Seq<Task>, i: int, from: int)
    requires
        graph::distinct_keys(tasks),
        0 <= from <= i < tasks.len(),
    ensures
        graph::find_from(tasks, graph::key_of(tasks[i]), from) == Some(i),
    decreases i - from,
{
    if from < i {
        assert(graph::key_of(tasks[from]) != graph::key_of(tasks[i]));
        lemma_find_own(tasks, i, from + 1);
    }
}

proof fn lemma_top_is_deepest(
    tasks: Seq<Task>,
    done: Seq<(Seq<char>, nat)>,
    depths: Seq<nat>,
    deps: Seq<Seq<char>>,
    n: int,
)
    requires
        0 <= n <= deps.len(),
        deps_known(done, deps, n),
        is_valid(tasks, done),
        depths == Seq::new(
            tasks.len(),
            |i: int| graph::depth_in(done, graph::key_of(tasks[i]))->0,
        ),
    ensures
        top(done, deps, n) == deepest_dep(tasks, depths, deps, n),
    decreases n,
{
    if n > 0 {
        lemma_top_is_deepest(tasks, done, depths, deps, n - 1);
        let key = deps[n - 1];
        assert(graph::depth_in(done, key) is Some);
        assert(is_entry(tasks, done, key));
        graph::lemma_find(tasks, key, 0);
    }
}

/// Where a graph can be scheduled, the wave of each task is given by the
/// longest chain of dependencies below it.
pub proof fn law_waves_measure_chains(tasks: Seq<Task>)
    requires
        graph::distinct_keys(tasks),
        graph::depths_of(tasks) is Ok,
    ensures
        are_depths(tasks, graph::depths_of(tasks)->Ok_0),
{
    let n = tasks.len() as int;
    lemma_all_valid(tasks, n);
    graph::lemma_all_known(tasks, n);
    let done = graph::explore_all(tasks, n)->Ok_0;
    let depths = graph::depths_of(tasks)->Ok_0;
    assert forall|i: int| 0 <= i < tasks.len() implies is_depth(
        tasks,
        depths,
        #[trigger] tasks[i],
        i,
    ) by {
        let key = graph::key_of(tasks[i]);
        assert(graph::depth_in(done, key) is Some);
        assert(is_entry(tasks, done, key));
        lemma_find_own(tasks, i, 0);
        let deps = graph::dep_keys(tasks[i]);
        lemma_top_is_deepest(tasks, done, depths, deps, deps.len() as int);
        assert forall|k: int| 0 <= k < deps.len() implies graph::task_for(
            tasks,
            #[trigger] deps[k],
        ) is Some by {
            assert(graph::depth_in(done, deps[k]) is Some);
            assert(is_entry(tasks, done, deps[k]));
        }
    }
}

/// Whether the task `from` depends on `to`.
pub open spec fn depends(tasks: Seq<Task>, from: Seq<char>, to: Seq<char>) -> bool {
    graph::task_for(tasks, from) matches Some(task) && graph::dep_keys(task).contains(to)
}

/// Whether each key of a chain depends on the next.
pub open spec fn is_chain(tasks: Seq<Task>, chain: Seq<Seq<char>>) -> bool {
    forall|k: int| 0 <= k < chain.len() - 1 ==> depends(tasks, #[trigger] chain[k], chain[k + 1])
}

/// Whether a path is a cycle: each task depends on the next, and the last on
/// the first.
pub open spec fn is_cycle(tasks: Seq<Task>, path: Seq<Seq<char>>) -> bool {
    &&& path.len() > 0
    &&& is_chain(tasks, path)
    &&& depends(tasks, path.last(), path[0])
}

/// Whether a fault describes what is wrong with a graph: a dependency of a
/// registered task on one that is not, or a cycle.
pub open spec fn is_real(tasks: Seq<Task>, fault: Fault) -> bool {
    match fault {
        Fault::UnknownDependency { task, dep } => depends(tasks, task, dep) && graph::task_for(
            tasks,
            dep,
        ) is None,
        Fault::Cycle(path) => is_cycle(tasks, path),
    }
}

/// Whether a chain leads to `key`: it is a chain whose last task depends on
/// `key`, or it is empty and `key` is registered.
spec fn leads_to(tasks: Seq<Task>, chain: Seq<Seq<char>>, key: Seq<char>) -> bool {
    &&& is_chain(tasks, chain)
    &&& chain.len() > 0 ==> depends(tasks, chain.last(), key)
    &&& chain.len() == 0 ==> graph::task_for(tasks, key) is Some
}

proof fn lemma_index(list: Seq<Seq<char>>, key: Seq<char>, from: int)
    requires
        0 <= from <= list.len(),
        exists|i: int| from <= i < list.len() && list[i] == key,
    ensures
        from <= graph::index_from(list, key, from) < list.len(),
        list[graph::index_from(list, key, from)] == key,
    decreases list.len() - from,
{
    let i = choose|i: int| from <= i < list.len() && list[i] == key;
    if list[from] != key {
        assert(from + 1 <= i);
        lemma_index(list, key, from + 1);
    }
}

proof fn lemma_explore_fault(
    tasks: Seq<Task>,
    done: Seq<(Seq<char>, nat)>,
    chain: Seq<Seq<char>>,
    key: Seq<char>,
)
    requires
        leads_to(tasks, chain, key),
    ensures
        graph::explore(tasks, done, chain, key) matches Err(fault) ==> is_real(tasks, fault),
    decreases graph::outside(tasks, chain), 0nat,
{
    if chain.contains(key) {
        let at = graph::index_from(chain, key, 0);
        lemma_index(chain, key, 0);
        let path = chain.skip(at);
        assert forall|k: int| 0 <= k < path.len() - 1 implies depends(
            tasks,
            #[trigger] path[k],
            path[k + 1],
        ) by {
            assert(depends(tasks, chain[at + k], chain[at + k + 1]));
        }
        assert(path[0] == key);
        assert(path.last() == chain.last());
    } else if graph::depth_in(done, key) is None && graph::task_for(tasks, key) is Some {
        let task = graph::task_for(tasks, key)->0;
        let deps = graph::dep_keys(task);
        let longer = chain.push(key);
        graph::lemma_outside_drops(tasks, chain, key);
        assert forall|k: int| 0 <= k < longer.len() - 1 implies depends(
            tasks,
            #[trigger] longer[k],
            longer[k + 1],
        ) by {
            if k < chain.len() - 1 {
                assert(depends(tasks, chain[k], chain[k + 1]));
            }
        }
        lemma_deps_fault(tasks, done, longer, deps, deps.len());
    }
}

proof fn lemma_deps_fault(
    tasks: Seq<Task>,
    done: Seq<(Seq<char>, nat)>,
    chain: Seq<Seq<char>>,
    deps: Seq<Seq<char>>,
    n: nat,
)
    requires
        chain.len() > 0,
        is_chain(tasks, chain),
        graph::task_for(tasks, chain.last()) matches Some(task) && graph::dep_keys(task) == deps,
        n <= deps.len(),
    ensures
        graph::explore_deps(tasks, done, chain, deps, n) matches Err(fault) ==> is_real(
            tasks,
            fault,
        ),
    decreases graph::outside(tasks, chain), n + 1,
{
    if n > 0 {
        let m = (n - 1) as nat;
        lemma_deps_fault(tasks, done, chain, deps, m);
        if let Ok(before) = graph::explore_deps(tasks, done, chain, deps, m) {
            assert(deps.contains(deps[n - 1]));
            lemma_explore_fault(tasks, before.done, chain, deps[n - 1]);
        }
    }
}

proof fn lemma_all_fault(tasks: Seq<Task>, n: int)
    requires
        0 <= n <= tasks.len(),
    ensures
        graph::explore_all(tasks, n) matches Err(fault) ==> is_real(tasks, fault),
    decreases n,
{
    if n > 0 {
        lemma_all_fault(tasks, n - 1);
        if let Ok(done) = graph::explore_all(tasks, n - 1) {
            let key = graph::key_of(tasks[n - 1]);
            graph::lemma_find(tasks, key, 0);
            lemma_explore_fault(tasks, done, Seq::empty(), key);
        }
    }
}

/// A graph that is refused has the fault that is reported: a registered task
/// does depend on the undefined one, the tasks of a cycle do depend on each
/// other all the way round.
pub proof fn law_faults_are_real(tasks: Seq<Task>)
    ensures
        graph::waves_of(tasks) matches Err(fault) ==> is_real(tasks, fault),
{
    lemma_all_fault(tasks, tasks.len() as int);
}

proof fn lemma_deepest_dep(
    tasks: Seq<Task>,
    depths: Seq<nat>,
    deps: Seq<Seq<char>>,
    n: int,
    k: int,
)
    requires
        0 <= k < n <= deps.len(),
    ensures
        depth_at(tasks, depths, deps[k]) <= deepest_dep(tasks, depths, deps, n),
    decreases n,
{
    if k < n - 1 {
        lemma_deepest_dep(tasks, depths, deps, n - 1, k);
    }
}

/// A dependency is less deep than what depends on it.
proof fn lemma_depends_less(tasks: Seq<Task>, depths: Seq<nat>, from: Seq<char>, to: Seq<char>)
    requires
        are_depths(tasks, depths),
        depends(tasks, from, to),
    ensures
        graph::task_for(tasks, to) is Some,
        depth_at(tasks, depths, to) < depth_at(tasks, depths, from),
{
    graph::lemma_find(tasks, from, 0);
    let i = graph::find_from(tasks, from, 0)->0;
    let deps = graph::dep_keys(tasks[i]);
    assert(is_depth(tasks, depths, tasks[i], i));
    let k = choose|k: int| 0 <= k < deps.len() && deps[k] == to;
    assert(graph::task_for(tasks, deps[k]) is Some);
    lemma_deepest_dep(tasks, depths, deps, deps.len() as int, k);
}

proof fn lemma_chain_descends(tasks: Seq<Task>, depths: Seq<nat>, chain: Seq<Seq<char>>, n: int)
    requires
        are_depths(tasks, depths),
        is_chain(tasks, chain),
        0 <= n < chain.len(),
    ensures
        depth_at(tasks, depths, chain[n]) <= depth_at(tasks, depths, chain[0]),
    decreases n,
{
    if n > 0 {
        lemma_chain_descends(tasks, depths, chain, n - 1);
        assert(depends(tasks, chain[n - 1], chain[n]));
        lemma_depends_less(tasks, depths, chain[n - 1], chain[n]);
    }
}

/// A graph is scheduled exactly when it can be: when every dependency is
/// registered and no task depends on itself through others, so that depths
/// exist.
pub proof fn law_scheduled_iff_possible(tasks: Seq<Task>)
    requires
        graph::distinct_keys(tasks),
    ensures
        graph::waves_of(tasks) is Ok <==> exists|depths: Seq<nat>| are_depths(tasks, depths),
{
    if graph::waves_of(tasks) is Ok {
        law_waves_measure_chains(tasks);
    }
    if exists|depths: Seq<nat>| are_depths(tasks, depths) {
        let depths = choose|depths: Seq<nat>| are_depths(tasks, depths);
        law_faults_are_real(tasks);
        match graph::waves_of(tasks) {
            Ok(_) => {},
            Err(Fault::UnknownDependency { task, dep }) => {
                lemma_depends_less(tasks, depths, task, dep);
            },
            Err(Fault::Cycle(path)) => {
                lemma_chain_descends(tasks, depths, path, path.len() - 1);
                lemma_depends_less(tasks, depths, path.last(), path[0]);
            },
        }
    }
}

/// Whether two tasks are the same, with the same dependencies.
pub open spec fn is_same_task(a: Task, b: Task) -> bool {
    graph::same_but_deps(a, b) && text::texts(a.depends_on@) == text::texts(b.depends_on@)
}

/// Whether a task is among others.
pub open spec fn is_task_of(tasks: Seq<Task>, task: Task) -> bool {
    exists|i: int| 0 <= i < tasks.len() && is_same_task(task, #[trigger] tasks[i])
}

/// Whether two lists hold the same tasks, up to their order.
pub open spec fn are_same_tasks(a: Seq<Task>, b: Seq<Task>) -> bool {
    &&& a.len() == b.len()
    &&& forall|i: int| 0 <= i < a.len() ==> is_task_of(b, #[trigger] a[i])
    &&& forall|j: int| 0 <= j < b.len() ==> is_task_of(a, #[trigger] b[j])
}

proof fn lemma_same_dep_keys(a: Task, b: Task)
    requires
        is_same_task(a, b),
    ensures
        graph::key_of(a) == graph::key_of(b),
        graph::dep_keys(a) == graph::dep_keys(b),
{
    let x = text::texts(a.depends_on@);
    let y = text::texts(b.depends_on@);
    assert(x.len() == a.depends_on@.len() && y.len() == b.depends_on@.len());
    assert forall|i: int| 0 <= i < x.len() implies graph::dep_keys(a)[i] == #[trigger] graph::dep_keys(
        b,
    )[i] by {
        assert(x[i] == a.depends_on@[i]@ && y[i] == b.depends_on@[i]@);
    }
    assert(graph::dep_keys(a) =~= graph::dep_keys(b));
}

proof fn lemma_same_deepest(
    a: Seq<Task>,
    b: Seq<Task>,
    depths: Seq<nat>,
    more: Seq<nat>,
    deps: Seq<Seq<char>>,
    n: int,
)
    requires
        0 <= n <= deps.len(),
        more == Seq::new(b.len(), |j: int| depth_at(a, depths, graph::key_of(b[j]))),
        forall|k: int| 0 <= k < n ==> graph::task_for(b, #[trigger] deps[k]) is Some,
    ensures
        deepest_dep(b, more, deps, n) == deepest_dep(a, depths, deps, n),
    decreases n,
{
    if n > 0 {
        lemma_same_deepest(a, b, depths, more, deps, n - 1);
        graph::lemma_find(b, deps[n - 1], 0);
        assert(graph::task_for(b, deps[n - 1]) is Some);
    }
}

proof fn lemma_same_depths(a: Seq<Task>, b: Seq<Task>, depths: Seq<nat>)
    requires
        graph::distinct_keys(a),
        are_same_tasks(a, b),
        are_depths(a, depths),
    ensures
        exists|more: Seq<nat>| are_depths(b, more),
{
    let more = Seq::new(b.len(), |j: int| depth_at(a, depths, graph::key_of(b[j])));
    assert forall|j: int| 0 <= j < b.len() implies is_depth(b, more, #[trigger] b[j], j) by {
        assert(is_task_of(a, b[j]));
        let i = choose|i: int| 0 <= i < a.len() && is_same_task(b[j], #[trigger] a[i]);
        lemma_same_dep_keys(b[j], a[i]);
        lemma_find_own(a, i, 0);
        assert(is_depth(a, depths, a[i], i));
        let deps = graph::dep_keys(b[j]);
        assert forall|k: int| 0 <= k < deps.len() implies graph::task_for(
            b,
            #[trigger] deps[k],
        ) is Some by {
            assert(graph::task_for(a, deps[k]) is Some);
            graph::lemma_find(a, deps[k], 0);
            let s = graph::find_from(a, deps[k], 0)->0;
            assert(is_task_of(b, a[s]));
            let t = choose|t: int| 0 <= t < b.len() && is_same_task(a[s], #[trigger] b[t]);
            lemma_same_dep_keys(a[s], b[t]);
            graph::lemma_find(b, deps[k], 0);
        }
        lemma_same_deepest(a, b, depths, more, deps, deps.len() as int);
    }
    assert(are_depths(b, more));
}

/// Whether a graph can be scheduled does not depend on the order in which its
/// tasks were registered.
pub proof fn law_scheduling_ignores_the_order(a: Seq<Task>, b: Seq<Task>)
    requires
        graph::distinct_keys(a),
        graph::distinct_keys(b),
        are_same_tasks(a, b),
    ensures
        graph::waves_of(a) is Ok <==> graph::waves_of(b) is Ok,
{
    law_scheduled_iff_possible(a);
    law_scheduled_iff_possible(b);
    if graph::waves_of(a) is Ok {
        let depths = choose|depths: Seq<nat>| are_depths(a, depths);
        lemma_same_depths(a, b, depths);
    }
    if graph::waves_of(b) is Ok {
        let depths = choose|depths: Seq<nat>| are_depths(b, depths);
        lemma_same_depths(b, a, depths);
    }
}

/// All dependencies of a wave are in earlier waves: a task that another
/// depends on is registered and stands in a wave before it.
pub proof fn law_dependencies_come_first(tasks: Seq<Task>, i: int, k: int)
    requires
        graph::distinct_keys(tasks),
        graph::depths_of(tasks) is Ok,
        0 <= i < tasks.len(),
        0 <= k < graph::dep_keys(tasks[i]).len(),
    ensures
        graph::task_for(tasks, graph::dep_keys(tasks[i])[k]) is Some,
        depth_at(tasks, graph::depths_of(tasks)->Ok_0, graph::dep_keys(tasks[i])[k])
            < graph::depths_of(tasks)->Ok_0[i],
{
    let depths = graph::depths_of(tasks)->Ok_0;
    law_waves_measure_chains(tasks);
    lemma_find_own(tasks, i, 0);
    let key = graph::key_of(tasks[i]);
    assert(graph::dep_keys(tasks[i]).contains(graph::dep_keys(tasks[i])[k]));
    lemma_depends_less(tasks, depths, key, graph::dep_keys(tasks[i])[k]);
}

proof fn lemma_deepest(depths: Seq<nat>, n: int, k: int)
    requires
        0 <= k < n <= depths.len(),
    ensures
        depths[k] <= graph::deepest(depths, n),
    decreases n,
{
    if k < n - 1 {
        lemma_deepest(depths, n - 1, k);
    }
}

/// Every task stands in exactly one wave, and the tasks of a wave stand in
/// registration order.
pub proof fn law_every_task_in_one_wave(tasks: Seq<Task>, i: int)
    requires
        graph::waves_of(tasks) is Ok,
        0 <= i < tasks.len(),
    ensures
        ({
            let waves = graph::waves_of(tasks)->Ok_0;
            let depth = graph::depths_of(tasks)->Ok_0[i] as int;
            &&& 0 <= depth < waves.len()
            &&& forall|d: int|
                0 <= d < waves.len() ==> ((#[trigger] waves[d]).contains(i) <==> d == depth)
            &&& forall|d: int, a: int, b: int|
                #![trigger waves[d][a], waves[d][b]]
                0 <= d < waves.len() && 0 <= a < b < waves[d].len() ==> waves[d][a] < waves[d][b]
        }),
{
    let waves = graph::waves_of(tasks)->Ok_0;
    let depths = graph::depths_of(tasks)->Ok_0;
    let n = depths.len() as int;
    lemma_deepest(depths, n, i);
    assert forall|d: int| 0 <= d < waves.len() implies ((#[trigger] waves[d]).contains(i) <==> d
        == depths[i]) by {
        graph::lemma_at_depth(depths, d as nat, n);
    }
    assert forall|d: int, a: int, b: int|
        #![trigger waves[d][a], waves[d][b]]
        0 <= d < waves.len() && 0 <= a < b < waves[d].len() implies waves[d][a] < waves[d][b] by {
        graph::lemma_at_depth(depths, d as nat, n);
    }
}

/// Stripping leaves no reference to another plugin, and stripping again
/// changes nothing.
pub proof fn law_stripped_deps_are_own(deps: Seq<Seq<char>>)
    ensures
        forall|i: int|
            0 <= i < graph::own_deps(deps).len() ==> task::cross_ref(
                #[trigger] graph::own_deps(deps)[i],
            ) is None,
        graph::own_deps(graph::own_deps(deps)) == graph::own_deps(deps),
    decreases deps.len(),
{
    if deps.len() > 0 {
        law_stripped_deps_are_own(deps.drop_last());
        let before = graph::own_deps(deps.drop_last());
        let after = graph::own_deps(deps);
        if task::cross_ref(deps.last()) is None {
            assert(after.drop_last() == before);
        }
    }
}

} // verus!
