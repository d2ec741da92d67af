//! How the tasks of several plugins become one build.

use vstd::prelude::*;
use crate::driver::plugins;
use crate::driver::plugins::{Configured, Plan, Use};
use crate::task;
use crate::task::Task;
use crate::task::graph;
use crate::text;
use crate::text_laws;

verus! {

/// Whether a dependency names a task of another plugin: the plugin, a colon and
/// the task.
pub open spec fn names_task(dep: Seq<char>, plugin: Seq<char>, name: Seq<char>) -> bool {
    &&& dep == plugin + seq![':'] + name
    &&& plugin.len() > 0
    &&& name.len() > 0
    &&& text_laws::lacks(plugin, ':')
    &&& text_laws::lacks(name, ':')
}

/// A dependency refers to another plugin exactly where it names a task of it.
pub proof fn law_cross_references_name_tasks(
    dep: Seq<char>,
    plugin: Seq<char>,
    name: Seq<char>,
)
    ensures
        task::cross_ref(dep) == Some((plugin, name)) <==> names_task(dep, plugin, name),
{
    let parts = text::split_text(dep, ':');
    if names_task(dep, plugin, name) {
        text_laws::law_separators_part_pieces(plugin, name, ':');
        text_laws::law_separators_part_pieces(name, plugin, ':');
        assert(parts =~= seq![plugin, name]);
    }
    if task::cross_ref(dep) == Some((plugin, name)) {
        text_laws::law_pieces_lack_the_separator(dep, ':', 0);
        text_laws::law_pieces_lack_the_separator(dep, ':', 1);
        text::law_split_joins(dep, ':');
        reveal_with_fuel(text::join_text, 2);
        assert(parts.drop_last()[0] == parts[0]);
        assert(parts.last() == parts[1]);
    }
}

/// Whether a task refers to another plugin.
pub open spec fn refers_to(task: Task, plugin: Seq<char>) -> bool {
    exists|j: int, name: Seq<char>|
        0 <= j < task.depends_on@.len() && #[trigger] names_task(
            task.depends_on@[j]@,
            plugin,
            name,
        )
}

proof fn lemma_providers_in(task: Task, plugin: Seq<char>, n: int)
    requires
        0 <= n <= task.depends_on@.len(),
    ensures
        plugins::providers_in(task, n).contains(plugin) <==> exists|j: int, name: Seq<char>|
            0 <= j < n && #[trigger] names_task(task.depends_on@[j]@, plugin, name),
    decreases n,
{
    if n > 0 {
        lemma_providers_in(task, plugin, n - 1);
        let dep = task.depends_on@[n - 1]@;
        let before = plugins::providers_in(task, n - 1);
        let after = plugins::providers_in(task, n);
        if before.contains(plugin) {
            let i = choose|i: int| 0 <= i < before.len() && before[i] == plugin;
            assert(after[i] == plugin);
        }
        match task::cross_ref(dep) {
            Some((provider, name)) => {
                law_cross_references_name_tasks(dep, provider, name);
                assert(after[before.len() as int] == provider);
                assert(names_task(task.depends_on@[n - 1]@, provider, name));
                if after.contains(plugin) && !before.contains(plugin) {
                    let i = choose|i: int| 0 <= i < after.len() && after[i] == plugin;
                    if i < before.len() {
                        assert(before[i] == plugin);
                    }
                }
            },
            None => {},
        }
        if exists|j: int, name: Seq<char>|
            0 <= j < n && #[trigger] names_task(task.depends_on@[j]@, plugin, name) {
            let (j, name) = choose|j: int, name: Seq<char>|
                0 <= j < n && #[trigger] names_task(task.depends_on@[j]@, plugin, name);
            if j == n - 1 {
                law_cross_references_name_tasks(dep, plugin, name);
            } else {
                assert(names_task(task.depends_on@[j]@, plugin, name));
            }
        }
    }
}

proof fn lemma_providers(tasks: Seq<Task>, plugin: Seq<char>, n: int)
    requires
        0 <= n <= tasks.len(),
    ensures
        plugins::providers(tasks, n).contains(plugin) <==> exists|i: int|
            0 <= i < n && refers_to(#[trigger] tasks[i], plugin),
    decreases n,
{
    if n > 0 {
        lemma_providers(tasks, plugin, n - 1);
        let task = tasks[n - 1];
        lemma_providers_in(task, plugin, task.depends_on@.len() as int);
        let before = plugins::providers(tasks, n - 1);
        let more = plugins::providers_in(task, task.depends_on@.len() as int);
        let all = before + more;
        assert(more.contains(plugin) <==> refers_to(tasks[n - 1], plugin));
        if before.contains(plugin) {
            let i = choose|i: int| 0 <= i < before.len() && before[i] == plugin;
            assert(all[i] == plugin);
        }
        if more.contains(plugin) {
            let i = choose|i: int| 0 <= i < more.len() && more[i] == plugin;
            assert(all[before.len() + i] == plugin);
        }
    }
}

/// Whether a plugin declares all the plugins that its tasks refer to.
pub open spec fn declares_all(declared: Seq<Seq<char>>, tasks: Seq<Task>) -> bool {
    forall|i: int, plugin: Seq<char>|
        0 <= i < tasks.len() && #[trigger] refers_to(tasks[i], plugin) ==> declared.contains(plugin)
}

proof fn lemma_undeclared_in(plugin: Seq<char>, declared: Seq<Seq<char>>, task: Task, from: int)
    requires
        0 <= from <= task.depends_on@.len(),
    ensures
        plugins::undeclared_in(plugin, declared, task, from) is Some <==> exists|
            j: int,
            provider: Seq<char>,
            name: Seq<char>,
        |
            from <= j < task.depends_on@.len() && #[trigger] names_task(
                task.depends_on@[j]@,
                provider,
                name,
            ) && !declared.contains(provider),
    decreases task.depends_on@.len() - from,
{
    if from < task.depends_on@.len() {
        lemma_undeclared_in(plugin, declared, task, from + 1);
        let dep = task.depends_on@[from]@;
        if let Some((provider, name)) = task::cross_ref(dep) {
            law_cross_references_name_tasks(dep, provider, name);
            assert(names_task(task.depends_on@[from]@, provider, name));
        }
        if exists|j: int, provider: Seq<char>, name: Seq<char>|
            from <= j < task.depends_on@.len() && #[trigger] names_task(
                task.depends_on@[j]@,
                provider,
                name,
            ) && !declared.contains(provider) {
            let (j, provider, name) = choose|j: int, provider: Seq<char>, name: Seq<char>|
                from <= j < task.depends_on@.len() && #[trigger] names_task(
                    task.depends_on@[j]@,
                    provider,
                    name,
                ) && !declared.contains(provider);
            if j == from {
                law_cross_references_name_tasks(dep, provider, name);
            } else {
                assert(names_task(task.depends_on@[j]@, provider, name));
            }
        }
    }
}

proof fn lemma_undeclared(plugin: Seq<char>, declared: Seq<Seq<char>>, tasks: Seq<Task>, from: int)
    requires
        0 <= from <= tasks.len(),
    ensures
        plugins::undeclared(plugin, declared, tasks, from) is Some <==> exists|
            i: int,
            provider: Seq<char>,
        |
            from <= i < tasks.len() && #[trigger] refers_to(tasks[i], provider)
                && !declared.contains(provider),
    decreases tasks.len() - from,
{
    if from < tasks.len() {
        lemma_undeclared(plugin, declared, tasks, from + 1);
        let task = tasks[from];
        lemma_undeclared_in(plugin, declared, task, 0);
        if plugins::undeclared_in(plugin, declared, task, 0) is Some {
            let (j, provider, name) = choose|j: int, provider: Seq<char>, name: Seq<char>|
                0 <= j < task.depends_on@.len() && #[trigger] names_task(
                    task.depends_on@[j]@,
                    provider,
                    name,
                ) && !declared.contains(provider);
            assert(names_task(task.depends_on@[j]@, provider, name));
            assert(refers_to(tasks[from], provider));
        }
        if exists|i: int, provider: Seq<char>|
            from <= i < tasks.len() && #[trigger] refers_to(tasks[i], provider)
                && !declared.contains(provider) {
            let (i, provider) = choose|i: int, provider: Seq<char>|
                from <= i < tasks.len() && #[trigger] refers_to(tasks[i], provider)
                    && !declared.contains(provider);
            if i == from {
                let (j, name) = choose|j: int, name: Seq<char>|
                    0 <= j < task.depends_on@.len() && #[trigger] names_task(
                        task.depends_on@[j]@,
                        provider,
                        name,
                    );
                assert(names_task(task.depends_on@[j]@, provider, name));
            } else {
                assert(refers_to(tasks[i], provider));
            }
        }
    }
}

proof fn lemma_merged(tasks: Seq<Task>, more: Seq<Task>, label: Seq<char>, n: int)
    requires
        0 <= n <= more.len(),
        graph::distinct_keys(tasks + more),
    ensures
        plugins::merged(tasks, more, label, n) == Ok::<Seq<Task>, Seq<char>>(tasks + more.take(n)),
    decreases n,
{
    if n > 0 {
        lemma_merged(tasks, more, label, n - 1);
        let before = tasks + more.take(n - 1);
        let key = graph::key_of(more[n - 1]);
        graph::lemma_find(before, key, 0);
        if graph::find_from(before, key, 0) is Some {
            let i = graph::find_from(before, key, 0)->0;
            let all = tasks + more;
            assert(all[i] == before[i]);
            assert(all[tasks.len() + n - 1] == more[n - 1]);
        }
        assert(before.push(more[n - 1]) =~= tasks + more.take(n));
    } else {
        assert(tasks + more.take(0) =~= tasks);
    }
}

/// A plugin joins a build where its tasks are new and refer only to plugins that
/// it declares; the build then knows its name, its version, and which plugins its
/// tasks use.
pub proof fn law_plugins_join_a_build(
    plan: Plan,
    module: Option<Seq<char>>,
    label: Seq<char>,
    configured: Configured,
    provider: Seq<char>,
)
    requires
        graph::distinct_keys(plan.tasks + configured.graph.entries@),
    ensures
        ({
            let tasks = configured.graph.entries@;
            let declared = text::texts(configured.dependencies@);
            match plugins::with_plugin(plan, module, label, configured) {
                Err(_) => !declares_all(declared, tasks),
                Ok(after) => {
                    &&& declares_all(declared, tasks)
                    &&& after.tasks == plan.tasks + tasks
                    &&& after.names == plan.names.push(configured.name@)
                    &&& after.versions == plan.versions.push(
                        match module {
                            Some(path) => path + seq!['/'] + configured.name@ + seq!['@']
                                + configured.version@,
                            None => configured.name@ + seq!['@'] + configured.version@,
                        },
                    )
                    &&& after.uses.len() == plan.uses.len() + 1
                    &&& after.uses.drop_last() == plan.uses
                    &&& after.uses.last().plugin == configured.name@
                    &&& after.uses.last().dependencies == declared
                    &&& after.uses.last().used.contains(provider) <==> exists|i: int|
                        0 <= i < tasks.len() && refers_to(#[trigger] tasks[i], provider)
                },
            }
        }),
{
    reveal_strlit("/");
    reveal_strlit("@");
    assert("/"@ =~= seq!['/']);
    assert("@"@ =~= seq!['@']);
    let tasks = configured.graph.entries@;
    let declared = text::texts(configured.dependencies@);
    lemma_undeclared(configured.name@, declared, tasks, 0);
    lemma_merged(plan.tasks, tasks, label, tasks.len() as int);
    assert(tasks.take(tasks.len() as int) =~= tasks);
    lemma_providers(tasks, provider, tasks.len() as int);
    if plugins::undeclared(configured.name@, declared, tasks, 0) is Some {
        let (i, other) = choose|i: int, other: Seq<char>|
            0 <= i < tasks.len() && #[trigger] refers_to(tasks[i], other) && !declared.contains(
                other,
            );
        assert(refers_to(tasks[i], other));
    }
    if let Ok(after) = plugins::with_plugin(plan, module, label, configured) {
        assert(after.uses.drop_last() =~= plan.uses);
    }
}

/// Whether a plugin uses another that it declares and that the build lacks.
pub open spec fn lacks_provider(u: Use, names: Seq<Seq<char>>) -> bool {
    exists|i: int|
        0 <= i < u.dependencies.len() && u.used.contains(#[trigger] u.dependencies[i])
            && !names.contains(u.dependencies[i])
}

proof fn lemma_missing_in(u: Use, names: Seq<Seq<char>>, from: int)
    requires
        0 <= from <= u.dependencies.len(),
    ensures
        plugins::missing_in(u, names, from) is Some <==> exists|i: int|
            from <= i < u.dependencies.len() && u.used.contains(#[trigger] u.dependencies[i])
                && !names.contains(u.dependencies[i]),
    decreases u.dependencies.len() - from,
{
    if from < u.dependencies.len() {
        lemma_missing_in(u, names, from + 1);
        assert(u.dependencies[from] == u.dependencies[from]);
    }
}

/// A build is refused where a plugin uses another that it declares and that is
/// not in the build. Declared plugins that no task refers to may be missing.
pub proof fn law_used_plugins_are_present(uses: Seq<Use>, names: Seq<Seq<char>>, from: int)
    requires
        0 <= from <= uses.len(),
    ensures
        plugins::missing(uses, names, from) is Some <==> exists|i: int|
            from <= i < uses.len() && lacks_provider(#[trigger] uses[i], names),
    decreases uses.len() - from,
{
    if from < uses.len() {
        law_used_plugins_are_present(uses, names, from + 1);
        lemma_missing_in(uses[from], names, 0);
        assert(plugins::missing_in(uses[from], names, 0) is Some <==> lacks_provider(
            uses[from],
            names,
        ));
    }
}

/// Linking turns a reference to another plugin's task into that task of the same
/// module, and leaves every other dependency as it is.
pub proof fn law_references_become_tasks(
    names: Seq<Seq<char>>,
    several: bool,
    consumer: Seq<char>,
    dep: Seq<char>,
    plugin: Seq<char>,
    name: Seq<char>,
)
    ensures
        names_task(dep, plugin, name) && !several ==> plugins::linked_dep(
            names,
            several,
            consumer,
            dep,
        ) == Some(plugin + seq![':', ':'] + name),
        names_task(dep, plugin, name) && several ==> plugins::linked_dep(
            names,
            several,
            consumer,
            dep,
        ) == match plugins::provider_label(names, consumer, plugin) {
            Some(label) => Some(label + seq![':', ':'] + name),
            None => None,
        },
        (forall|p: Seq<char>, n: Seq<char>| !#[trigger] names_task(dep, p, n))
            ==> plugins::linked_dep(names, several, consumer, dep) == Some(dep),
{
    reveal_strlit("::");
    assert("::"@ =~= seq![':', ':']);
    law_cross_references_name_tasks(dep, plugin, name);
    if let Some((p, n)) = task::cross_ref(dep) {
        law_cross_references_name_tasks(dep, p, n);
    }
}

proof fn lemma_no_name(names: Seq<Seq<char>>, label: Seq<char>, n: int)
    requires
        0 <= n <= names.len(),
        forall|i: int| 0 <= i < n ==> !plugins::is_labelled(label, #[trigger] names[i]),
    ensures
        plugins::longest_name(names, label, n) is None,
    decreases n,
{
    if n > 0 {
        assert(!plugins::is_labelled(label, names[n - 1]));
        lemma_no_name(names, label, n - 1);
    }
}

/// The tasks of a plugin that is a module of its own refer to other plugins by
/// their names alone; a label that does not end in the name of a plugin leads
/// nowhere.
pub proof fn law_labels_lead_to_providers(
    names: Seq<Seq<char>>,
    consumer: Seq<char>,
    plugin: Seq<char>,
)
    ensures
        names.contains(consumer) ==> plugins::provider_label(names, consumer, plugin) == Some(plugin),
        !names.contains(consumer) && (forall|i: int|
            0 <= i < names.len() ==> !((seq!['/'] + #[trigger] names[i]).is_suffix_of(consumer)))
            ==> plugins::provider_label(names, consumer, plugin) is None,
{
    reveal_strlit("/");
    assert("/"@ =~= seq!['/']);
    if !names.contains(consumer) && (forall|i: int|
        0 <= i < names.len() ==> !((seq!['/'] + #[trigger] names[i]).is_suffix_of(consumer))) {
        assert forall|i: int| 0 <= i < names.len() implies !plugins::is_labelled(
            consumer,
            #[trigger] names[i],
        ) by {
            assert(!((seq!['/'] + names[i]).is_suffix_of(consumer)));
        }
        lemma_no_name(names, consumer, names.len() as int);
    }
}

/// Stripping drops the dependencies that name a task of another plugin, and
/// keeps all others in order.
pub proof fn law_stripping_keeps_own_dependencies(deps: Seq<Seq<char>>, dep: Seq<char>)
    ensures
        graph::own_deps(deps).contains(dep) <==> deps.contains(dep) && forall|
            plugin: Seq<char>,
            name: Seq<char>,
        |
            !#[trigger] names_task(dep, plugin, name),
        (forall|i: int, plugin: Seq<char>, name: Seq<char>|
            0 <= i < deps.len() ==> !#[trigger] names_task(deps[i], plugin, name))
            ==> graph::own_deps(deps) == deps,
    decreases deps.len(),
{
    if deps.len() > 0 {
        let front = deps.drop_last();
        let last = deps.last();
        law_stripping_keeps_own_dependencies(front, dep);
        let before = graph::own_deps(front);
        let after = graph::own_deps(deps);
        assert(deps[deps.len() - 1] == last);
        if let Some((plugin, name)) = task::cross_ref(last) {
            law_cross_references_name_tasks(last, plugin, name);
            assert(names_task(deps[deps.len() - 1], plugin, name));
        } else {
            assert forall|plugin: Seq<char>, name: Seq<char>| !#[trigger] names_task(
                last,
                plugin,
                name,
            ) by {
                law_cross_references_name_tasks(last, plugin, name);
            }
            assert(after[before.len() as int] == last);
        }
        if front.contains(dep) {
            let i = choose|i: int| 0 <= i < front.len() && front[i] == dep;
            assert(deps[i] == dep);
        }
        if deps.contains(dep) && !front.contains(dep) {
            let i = choose|i: int| 0 <= i < deps.len() && deps[i] == dep;
            if i < front.len() {
                assert(front[i] == dep);
            }
            assert(dep == last);
        }
        if before.contains(dep) {
            let i = choose|i: int| 0 <= i < before.len() && before[i] == dep;
            assert(after[i] == dep);
        }
        if after.contains(dep) && !before.contains(dep) {
            let i = choose|i: int| 0 <= i < after.len() && after[i] == dep;
            if i < before.len() {
                assert(before[i] == dep);
            }
            assert(dep == last);
        }
        if forall|i: int, plugin: Seq<char>, name: Seq<char>|
            0 <= i < deps.len() ==> !#[trigger] names_task(deps[i], plugin, name) {
            assert forall|i: int, plugin: Seq<char>, name: Seq<char>|
                0 <= i < front.len() implies !#[trigger] names_task(front[i], plugin, name) by {
                assert(front[i] == deps[i]);
                assert(!names_task(deps[i], plugin, name));
            }
            assert(after =~= deps);
        }
    } else {
        assert(graph::own_deps(deps) =~= deps);
    }
}

proof fn lemma_merged_distinct(tasks: Seq<Task>, more: Seq<Task>, label: Seq<char>, n: int)
    requires
        0 <= n <= more.len(),
        graph::distinct_keys(tasks),
    ensures
        plugins::merged(tasks, more, label, n) matches Ok(all) ==> graph::distinct_keys(all),
    decreases n,
{
    if n > 0 {
        lemma_merged_distinct(tasks, more, label, n - 1);
        if let Ok(before) = plugins::merged(tasks, more, label, n - 1) {
            let key = graph::key_of(more[n - 1]);
            graph::lemma_find(before, key, 0);
            if let Ok(all) = plugins::merged(tasks, more, label, n) {
                assert(all =~= before.push(more[n - 1]));
                assert forall|i: int, j: int| 0 <= i < j < all.len() implies graph::key_of(
                    #[trigger] all[i],
                ) != graph::key_of(#[trigger] all[j]) by {
                    if j < before.len() {
                        assert(before[i] == all[i] && before[j] == all[j]);
                    } else {
                        assert(before[i] == all[i]);
                        assert(all[j] == more[n - 1]);
                    }
                }
            }
        }
    }
}

/// No task is registered twice: a plugin that brings a task whose module and name
/// are taken is refused.
pub proof fn law_no_task_is_registered_twice(
    plan: Plan,
    module: Option<Seq<char>>,
    label: Seq<char>,
    configured: Configured,
    i: int,
    j: int,
)
    requires
        graph::distinct_keys(plan.tasks),
        plugins::with_plugin(plan, module, label, configured) matches Ok(after) && 0 <= i < j
            < after.tasks.len(),
    ensures
        ({
            let tasks = plugins::with_plugin(plan, module, label, configured)->Ok_0.tasks;
            tasks[i].module@ + seq![':', ':'] + tasks[i].name@ != tasks[j].module@ + seq![':', ':']
                + tasks[j].name@
        }),
{
    reveal_strlit("::");
    assert("::"@ =~= seq![':', ':']);
    let more = configured.graph.entries@;
    lemma_merged_distinct(plan.tasks, more, label, more.len() as int);
    let tasks = plugins::with_plugin(plan, module, label, configured)->Ok_0.tasks;
    assert(graph::key_of(tasks[i]) != graph::key_of(tasks[j]));
}

proof fn lemma_unlinked_dep(names: Seq<Seq<char>>, several: bool, task: Task, from: int)
    requires
        0 <= from <= task.depends_on@.len(),
    ensures
        plugins::unlinked_dep(names, several, task, from) is None <==> forall|j: int|
            from <= j < task.depends_on@.len() ==> plugins::linked_dep(
                names,
                several,
                task.module@,
                (#[trigger] task.depends_on@[j])@,
            ) is Some,
    decreases task.depends_on@.len() - from,
{
    if from < task.depends_on@.len() {
        lemma_unlinked_dep(names, several, task, from + 1);
        assert(task.depends_on@[from] == task.depends_on@[from]);
    }
}

/// Whether every dependency of a task leads to a task.
pub open spec fn is_linkable(names: Seq<Seq<char>>, several: bool, task: Task) -> bool {
    forall|j: int|
        0 <= j < task.depends_on@.len() ==> plugins::linked_dep(
            names,
            several,
            task.module@,
            (#[trigger] task.depends_on@[j])@,
        ) is Some
}

/// A build is linked exactly where every dependency of every task leads to one.
pub proof fn law_builds_are_linked_where_possible(
    names: Seq<Seq<char>>,
    several: bool,
    tasks: Seq<Task>,
    from: int,
)
    requires
        0 <= from <= tasks.len(),
    ensures
        plugins::unlinked(names, several, tasks, from) is None <==> forall|i: int|
            from <= i < tasks.len() ==> is_linkable(names, several, #[trigger] tasks[i]),
    decreases tasks.len() - from,
{
    if from < tasks.len() {
        law_builds_are_linked_where_possible(names, several, tasks, from + 1);
        lemma_unlinked_dep(names, several, tasks[from], 0);
        assert(plugins::unlinked_dep(names, several, tasks[from], 0) is None <==> is_linkable(
            names,
            several,
            tasks[from],
        ));
    }
}

} // verus!
