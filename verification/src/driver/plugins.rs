//! Merging the task graphs that plugins register.

use vstd::prelude::*;
use crate::driver::classpath;
use crate::task;
use crate::task::graph;
use crate::task::graph::Fault;
use crate::task::{Task, TaskGraph};
use crate::text;

verus! {

/// What a plugin registered when it was configured.
#[derive(Debug, PartialEq, Eq)]
pub struct Configured {
    /// The plugin.
    pub name: String,
    /// Its version.
    pub version: String,
    /// The plugins it declares to depend on.
    pub dependencies: Vec<String>,
    /// Its tasks.
    pub graph: TaskGraph,
}

/// The plugins that a plugin depends on.
#[derive(Debug, PartialEq, Eq)]
pub struct PluginUse {
    /// The plugin.
    pub plugin: String,
    /// The plugins it declares to depend on.
    pub dependencies: Vec<String>,
    /// The plugins that its tasks refer to.
    pub used: Vec<String>,
}

/// What a [`PluginUse`] holds.
pub struct Use {
    /// The plugin.
    pub plugin: Seq<char>,
    /// The plugins it declares to depend on.
    pub dependencies: Seq<Seq<char>>,
    /// The plugins that its tasks refer to.
    pub used: Seq<Seq<char>>,
}

impl View for PluginUse {
    type V = Use;

    open spec fn view(&self) -> Use {
        Use {
            plugin: self.plugin@,
            dependencies: text::texts(self.dependencies@),
            used: text::texts(self.used@),
        }
    }
}

/// What a list of plugins depends on.
pub open spec fn uses_of(list: Seq<PluginUse>) -> Seq<Use> {
    Seq::new(list.len(), |i: int| list[i]@)
}

/// The tasks of a build, merged from those of its plugins.
#[derive(Debug, PartialEq, Eq)]
pub struct BuildPlan {
    /// All tasks.
    pub graph: TaskGraph,
    /// The version of each plugin.
    pub versions: Vec<String>,
    /// The plugins of the build.
    pub names: Vec<String>,
    /// What the plugins depend on.
    pub uses: Vec<PluginUse>,
}

/// What a [`BuildPlan`] holds.
pub struct Plan {
    /// All tasks.
    pub tasks: Seq<Task>,
    /// The version of each plugin.
    pub versions: Seq<Seq<char>>,
    /// The plugins of the build.
    pub names: Seq<Seq<char>>,
    /// What the plugins depend on.
    pub uses: Seq<Use>,
}

impl View for BuildPlan {
    type V = Plan;

    open spec fn view(&self) -> Plan {
        Plan {
            tasks: self.graph.entries@,
            versions: text::texts(self.versions@),
            names: text::texts(self.names@),
            uses: uses_of(self.uses@),
        }
    }
}

/// A plan without a task.
pub open spec fn empty_plan() -> Plan {
    Plan { tasks: Seq::empty(), versions: Seq::empty(), names: Seq::empty(), uses: Seq::empty() }
}

/// The first reference of a task, from `from` on, to a plugin that is not
/// declared.
pub open spec fn undeclared_in(
    plugin: Seq<char>,
    declared: Seq<Seq<char>>,
    task: Task,
    from: int,
) -> Option<Seq<char>>
    decreases task.depends_on@.len() - from,
{
    if from >= task.depends_on@.len() {
        None
    } else {
        match task::cross_ref(task.depends_on@[from]@) {
            Some((provider, name)) => if declared.contains(provider) {
                undeclared_in(plugin, declared, task, from + 1)
            } else {
                Some(
                    "plugin '"@ + plugin + "' references '"@ + provider + ":"@ + name
                        + "' in task '"@ + task.name@ + "' but does not declare '"@ + provider
                        + "' in its dependencies"@,
                )
            },
            None => undeclared_in(plugin, declared, task, from + 1),
        }
    }
}

/// The first reference of some tasks, from `from` on, to a plugin that is not
/// declared.
pub open spec fn undeclared(
    plugin: Seq<char>,
    declared: Seq<Seq<char>>,
    tasks: Seq<Task>,
    from: int,
) -> Option<Seq<char>>
    decreases tasks.len() - from,
{
    if from >= tasks.len() {
        None
    } else {
        match undeclared_in(plugin, declared, tasks[from], 0) {
            Some(message) => Some(message),
            None => undeclared(plugin, declared, tasks, from + 1),
        }
    }
}

/// The plugins that the first `n` dependencies of a task refer to.
pub open spec fn providers_in(task: Task, n: int) -> Seq<Seq<char>>
    decreases n,
{
    if n <= 0 {
        Seq::empty()
    } else {
        let before = providers_in(task, n - 1);
        match task::cross_ref(task.depends_on@[n - 1]@) {
            Some((provider, _)) => before.push(provider),
            None => before,
        }
    }
}

/// The plugins that the first `n` tasks refer to.
pub open spec fn providers(tasks: Seq<Task>, n: int) -> Seq<Seq<char>>
    decreases n,
{
    if n <= 0 {
        Seq::empty()
    } else {
        providers(tasks, n - 1) + providers_in(
            tasks[n - 1],
            tasks[n - 1].depends_on@.len() as int,
        )
    }
}

fn task_providers(
    plugin: &str,
    declared: &Vec<String>,
    task: &Task,
    used: &mut Vec<String>,
) -> (result: Result<(), String>)
    ensures
        match undeclared_in(plugin@, text::texts(declared@), *task, 0) {
            Some(message) => result matches Err(error) && error@ == message,
            None => result is Ok && text::texts(final(used)@) == text::texts(old(used)@)
                + providers_in(*task, task.depends_on@.len() as int),
        },
{
    let ghost before = text::texts(used@);
    let mut i: usize = 0;
    assert(before == before + providers_in(*task, 0));
    while i < task.depends_on.len()
        invariant
            i <= task.depends_on@.len(),
            undeclared_in(plugin@, text::texts(declared@), *task, 0) == undeclared_in(
                plugin@,
                text::texts(declared@),
                *task,
                i as int,
            ),
            text::texts(used@) == before + providers_in(*task, i as int),
        decreases task.depends_on.len() - i,
    {
        if let Some((provider, name)) = task::split_cross_plugin_ref(&task.depends_on[i]) {
            if !classpath::is_among(declared, provider) {
                return Err(
                    "plugin '".to_owned().concat(plugin).concat("' references '").concat(
                        provider,
                    ).concat(":").concat(name).concat("' in task '").concat(&task.name).concat(
                        "' but does not declare '",
                    ).concat(provider).concat("' in its dependencies"),
                );
            }
            let ghost was = used@;
            let ghost so_far = providers_in(*task, i as int);
            let owned = provider.to_owned();
            used.push(owned);
            assert(text::texts(used@) == text::texts(was).push(provider@));
            assert((before + so_far).push(provider@) == before + so_far.push(provider@));
        }
        i += 1;
    }
    Ok(())
}

fn plugin_providers(plugin: &str, declared: &Vec<String>, tasks: &Vec<Task>) -> (result: Result<
    Vec<String>,
    String,
>)
    ensures
        match undeclared(plugin@, text::texts(declared@), tasks@, 0) {
            Some(message) => result matches Err(error) && error@ == message,
            None => result matches Ok(used) && text::texts(used@) == providers(
                tasks@,
                tasks@.len() as int,
            ),
        },
{
    let mut used: Vec<String> = Vec::new();
    let mut i: usize = 0;
    assert(text::texts(used@) == Seq::<Seq<char>>::empty());
    while i < tasks.len()
        invariant
            i <= tasks@.len(),
            undeclared(plugin@, text::texts(declared@), tasks@, 0) == undeclared(
                plugin@,
                text::texts(declared@),
                tasks@,
                i as int,
            ),
            text::texts(used@) == providers(tasks@, i as int),
        decreases tasks.len() - i,
    {
        if let Err(message) = task_providers(plugin, declared, &tasks[i], &mut used) {
            return Err(message);
        }
        i += 1;
    }
    Ok(used)
}

/// The tasks of a build with the first `n` of a plugin registered behind them.
pub open spec fn merged(
    tasks: Seq<Task>,
    more: Seq<Task>,
    label: Seq<char>,
    n: int,
) -> Result<Seq<Task>, Seq<char>>
    decreases n,
{
    if n <= 0 {
        Ok(tasks)
    } else {
        match merged(tasks, more, label, n - 1) {
            Err(message) => Err(message),
            Ok(before) => {
                let key = graph::key_of(more[n - 1]);
                if graph::task_for(before, key) is Some {
                    Err(
                        "merging tasks from "@ + label + ": task '"@ + key
                            + "' is already registered"@,
                    )
                } else {
                    Ok(before.push(more[n - 1]))
                }
            },
        }
    }
}

proof fn lemma_merged_err(tasks: Seq<Task>, more: Seq<Task>, label: Seq<char>, m: int, n: int)
    requires
        0 <= m <= n,
        merged(tasks, more, label, m) is Err,
    ensures
        merged(tasks, more, label, n) == merged(tasks, more, label, m),
    decreases n,
{
    if m < n {
        lemma_merged_err(tasks, more, label, m, n - 1);
    }
}

fn merge_tasks(graph: TaskGraph, more: Vec<Task>, label: &str) -> (result: Result<
    TaskGraph,
    String,
>)
    requires
        graph.wf(),
    ensures
        match merged(graph.entries@, more@, label@, more@.len() as int) {
            Ok(tasks) => result matches Ok(all) && all.wf() && all.entries@ == tasks,
            Err(message) => result matches Err(error) && error@ == message,
        },
{
    let ghost before = graph.entries@;
    let ghost all = more@;
    let ghost end = all.len() as int;
    let mut merging = graph;
    let mut rest = more;
    let ghost mut i: int = 0;
    assert(all.skip(0) == all);
    while rest.len() > 0
        invariant
            before == graph.entries@,
            all == more@,
            end == all.len(),
            0 <= i <= end,
            rest@ == all.skip(i),
            merging.wf(),
            merged(before, all, label@, i) == Ok::<Seq<Task>, Seq<char>>(merging.entries@),
        decreases rest.len(),
    {
        let task = rest.remove(0);
        assert(task == all[i]);
        assert(rest@ == all.skip(i + 1));
        if let Err(message) = merging.register(task) {
            proof {
                lemma_merged_err(before, all, label@, i + 1, end);
                assert("merging tasks from "@ + label@ + ": "@ + message@ == "merging tasks from "@
                    + label@ + ": task '"@ + graph::key_of(all[i]) + "' is already registered"@)
                    by {
                    reveal_strlit(": ");
                    reveal_strlit("task '");
                    reveal_strlit(": task '");
                    assert(": "@ + "task '"@ =~= ": task '"@);
                }
            }
            return Err(
                "merging tasks from ".to_owned().concat(label).concat(": ").concat(&message),
            );
        }
        proof {
            i = i + 1;
        }
    }
    Ok(merging)
}

/// How a plugin of a module is recorded: `module/name@version`, or
/// `name@version` in a build of one module.
pub open spec fn version_text(module: Option<Seq<char>>, name: Seq<char>, version: Seq<char>) -> Seq<
    char,
> {
    let plugin = match module {
        Some(path) => path + "/"@ + name,
        None => name,
    };
    plugin + "@"@ + version
}

/// What a plan becomes with a configured plugin.
pub open spec fn with_plugin(
    plan: Plan,
    module: Option<Seq<char>>,
    label: Seq<char>,
    configured: Configured,
) -> Result<Plan, Seq<char>> {
    let tasks = configured.graph.entries@;
    let declared = text::texts(configured.dependencies@);
    match undeclared(configured.name@, declared, tasks, 0) {
        Some(message) => Err(message),
        None => match merged(plan.tasks, tasks, label, tasks.len() as int) {
            Err(message) => Err(message),
            Ok(all) => Ok(
                Plan {
                    tasks: all,
                    versions: plan.versions.push(
                        version_text(module, configured.name@, configured.version@),
                    ),
                    names: plan.names.push(configured.name@),
                    uses: plan.uses.push(
                        Use {
                            plugin: configured.name@,
                            dependencies: declared,
                            used: providers(tasks, tasks.len() as int),
                        },
                    ),
                },
            ),
        },
    }
}

/// The first dependency, from `from` on, that a plugin declares and uses and
/// that is not in the build.
pub open spec fn missing_in(u: Use, names: Seq<Seq<char>>, from: int) -> Option<Seq<char>>
    decreases u.dependencies.len() - from,
{
    if from >= u.dependencies.len() {
        None
    } else if u.used.contains(u.dependencies[from]) && !names.contains(u.dependencies[from]) {
        Some(
            "plugin '"@ + u.plugin + "' declares and references dependency '"@
                + u.dependencies[from] + "', which is not present in the build"@,
        )
    } else {
        missing_in(u, names, from + 1)
    }
}

/// The first plugin, from `from` on, with a dependency that it uses and that
/// is not in the build.
pub open spec fn missing(uses: Seq<Use>, names: Seq<Seq<char>>, from: int) -> Option<Seq<char>>
    decreases uses.len() - from,
{
    if from >= uses.len() {
        None
    } else {
        match missing_in(uses[from], names, 0) {
            Some(message) => Some(message),
            None => missing(uses, names, from + 1),
        }
    }
}

/// Whether a module label ends in `/` and a plugin's name.
pub open spec fn is_labelled(label: Seq<char>, name: Seq<char>) -> bool {
    ("/"@ + name).is_suffix_of(label)
}

/// The longest of the first `n` plugin names that a module label ends in.
pub open spec fn longest_name(names: Seq<Seq<char>>, label: Seq<char>, n: int) -> Option<Seq<char>>
    decreases n,
{
    if n <= 0 {
        None
    } else {
        let before = longest_name(names, label, n - 1);
        if !is_labelled(label, names[n - 1]) {
            before
        } else {
            match before {
                Some(longest) => if names[n - 1].len() > longest.len() {
                    Some(names[n - 1])
                } else {
                    before
                },
                None => Some(names[n - 1]),
            }
        }
    }
}

/// The module label that the tasks of a plugin have beside those of the module
/// `consumer`.
pub open spec fn provider_label(
    names: Seq<Seq<char>>,
    consumer: Seq<char>,
    plugin: Seq<char>,
) -> Option<Seq<char>> {
    if names.contains(consumer) {
        Some(plugin)
    } else {
        match longest_name(names, consumer, names.len() as int) {
            Some(name) => Some(consumer.take(consumer.len() - name.len() - 1) + "/"@ + plugin),
            None => None,
        }
    }
}

/// Maps a cross-plugin reference onto the module label the provider's
/// tasks are registered under.
///
/// Multi-module builds label tasks `<module>/<plugin>`, so the consumer's
/// own label yields the project-module prefix by stripping the longest
/// known plugin name it ends with; single-module builds label tasks with
/// the bare plugin name, detected by an exact match. Returns `None` when
/// no layout fits, which surfaces as an unknown-dependency error naming
/// the reference.
pub fn provider_module_label(
    plugin_names: &Vec<String>,
    consumer_module: &str,
    provider_plugin: &str,
) -> (label: Option<String>)
    ensures
        text::opt_text(label) == provider_label(
            text::texts(plugin_names@),
            consumer_module@,
            provider_plugin@,
        ),
{
    let ghost names = text::texts(plugin_names@);
    if classpath::is_among(plugin_names, consumer_module) {
        return Some(provider_plugin.to_owned());
    }
    let chars = text::chars_of(consumer_module);
    let mut best: Option<usize> = None;
    let mut i: usize = 0;
    while i < plugin_names.len()
        invariant
            names == text::texts(plugin_names@),
            i <= plugin_names@.len(),
            chars@ == consumer_module@,
            match best {
                Some(n) => n < chars@.len() && (longest_name(
                    names,
                    consumer_module@,
                    i as int,
                ) matches Some(longest) && longest.len() == n),
                None => longest_name(names, consumer_module@, i as int) is None,
            },
        decreases plugin_names.len() - i,
    {
        assert(names[i as int] == plugin_names@[i as int]@);
        let suffix = "/".to_owned().concat(&plugin_names[i]);
        if text::ends_with(consumer_module, &suffix) {
            let n: usize = plugin_names[i].as_str().unicode_len();
            proof {
                reveal_strlit("/");
                assert(is_labelled(consumer_module@, names[i as int]));
                assert(suffix@.len() == n + 1);
            }
            let longer = match best {
                Some(longest) => n > longest,
                None => true,
            };
            if longer {
                best = Some(n);
            }
        }
        i += 1;
    }
    match best {
        Some(n) => {
            let rel = text::from_chars(&chars, 0, chars.len() - n - 1);
            assert(rel@ == consumer_module@.take(consumer_module@.len() - n - 1));
            Some(rel.concat("/").concat(provider_plugin))
        },
        None => None,
    }
}

/// The key of another plugin's task that a task of the module `consumer`
/// depends on. A build of one module labels every plugin's tasks with the
/// plugin's name alone.
pub open spec fn provider_key(
    names: Seq<Seq<char>>,
    several: bool,
    consumer: Seq<char>,
    plugin: Seq<char>,
    name: Seq<char>,
) -> Option<Seq<char>> {
    if several {
        match provider_label(names, consumer, plugin) {
            Some(label) => Some(graph::key_text(label, name)),
            None => None,
        }
    } else {
        Some(graph::key_text(plugin, name))
    }
}

/// A dependency with the task of another plugin that it names replaced by that
/// task's key.
pub open spec fn linked_dep(
    names: Seq<Seq<char>>,
    several: bool,
    consumer: Seq<char>,
    dep: Seq<char>,
) -> Option<Seq<char>> {
    match task::cross_ref(dep) {
        None => Some(dep),
        Some((plugin, name)) => provider_key(names, several, consumer, plugin, name),
    }
}

/// The first dependency of a task, from `from` on, that cannot be linked.
pub open spec fn unlinked_dep(
    names: Seq<Seq<char>>,
    several: bool,
    task: Task,
    from: int,
) -> Option<Seq<char>>
    decreases task.depends_on@.len() - from,
{
    if from >= task.depends_on@.len() {
        None
    } else if linked_dep(names, several, task.module@, task.depends_on@[from]@) is None {
        Some(task.depends_on@[from]@)
    } else {
        unlinked_dep(names, several, task, from + 1)
    }
}

/// The first dependency of some tasks, from `from` on, that cannot be linked.
pub open spec fn unlinked(
    names: Seq<Seq<char>>,
    several: bool,
    tasks: Seq<Task>,
    from: int,
) -> Option<Fault>
    decreases tasks.len() - from,
{
    if from >= tasks.len() {
        None
    } else {
        match unlinked_dep(names, several, tasks[from], 0) {
            Some(dep) => Some(
                Fault::UnknownDependency { task: graph::key_of(tasks[from]), dep },
            ),
            None => unlinked(names, several, tasks, from + 1),
        }
    }
}

/// Whether a task is another one with its dependencies linked.
pub open spec fn is_linked(
    names: Seq<Seq<char>>,
    several: bool,
    before: Task,
    after: Task,
) -> bool {
    &&& graph::same_but_deps(before, after)
    &&& after.depends_on@.len() == before.depends_on@.len()
    &&& forall|j: int|
        0 <= j < before.depends_on@.len() ==> linked_dep(
            names,
            several,
            before.module@,
            before.depends_on@[j]@,
        ) == Some((#[trigger] after.depends_on@[j])@)
}

/// Whether tasks are others with their dependencies linked.
pub open spec fn are_linked(
    names: Seq<Seq<char>>,
    several: bool,
    before: Seq<Task>,
    after: Seq<Task>,
) -> bool {
    &&& after.len() == before.len()
    &&& forall|i: int|
        0 <= i < before.len() ==> is_linked(names, several, before[i], #[trigger] after[i])
}

/// Why a plan cannot be built, where it cannot.
pub open spec fn plan_fault(plan: Plan, several: bool) -> Option<Seq<char>> {
    match missing(plan.uses, plan.names, 0) {
        Some(message) => Some(message),
        None => match unlinked(plan.names, several, plan.tasks, 0) {
            Some(fault) => Some(
                "resolving cross-plugin dependencies: "@ + graph::fault_text(fault),
            ),
            None => None,
        },
    }
}

proof fn lemma_all_deps_linked(names: Seq<Seq<char>>, several: bool, task: Task, from: int)
    requires
        0 <= from,
        forall|j: int|
            from <= j < task.depends_on@.len() ==> linked_dep(
                names,
                several,
                task.module@,
                (#[trigger] task.depends_on@[j])@,
            ) is Some,
    ensures
        unlinked_dep(names, several, task, from) is None,
    decreases task.depends_on@.len() - from,
{
    if from < task.depends_on@.len() {
        assert(linked_dep(names, several, task.module@, task.depends_on@[from]@) is Some);
        lemma_all_deps_linked(names, several, task, from + 1);
    }
}

proof fn lemma_first_unlinked_dep(
    names: Seq<Seq<char>>,
    several: bool,
    task: Task,
    from: int,
    j: int,
)
    requires
        0 <= from <= j < task.depends_on@.len(),
        linked_dep(names, several, task.module@, task.depends_on@[j]@) is None,
        forall|m: int|
            from <= m < j ==> linked_dep(
                names,
                several,
                task.module@,
                (#[trigger] task.depends_on@[m])@,
            ) is Some,
    ensures
        unlinked_dep(names, several, task, from) == Some(task.depends_on@[j]@),
    decreases j - from,
{
    if from < j {
        assert(linked_dep(names, several, task.module@, task.depends_on@[from]@) is Some);
        lemma_first_unlinked_dep(names, several, task, from + 1, j);
    }
}

proof fn lemma_first_unlinked(
    names: Seq<Seq<char>>,
    several: bool,
    tasks: Seq<Task>,
    from: int,
    i: int,
)
    requires
        0 <= from <= i <= tasks.len(),
        forall|k: int|
            from <= k < i ==> unlinked_dep(names, several, #[trigger] tasks[k], 0) is None,
    ensures
        unlinked(names, several, tasks, from) == unlinked(names, several, tasks, i),
    decreases i - from,
{
    if from < i {
        assert(unlinked_dep(names, several, tasks[from], 0) is None);
        lemma_first_unlinked(names, several, tasks, from + 1, i);
    }
}

fn link_tasks(graph: TaskGraph, names: &Vec<String>, several: bool) -> (result: Result<
    TaskGraph,
    String,
>)
    requires
        graph.wf(),
    ensures
        match unlinked(text::texts(names@), several, graph.entries@, 0) {
            Some(fault) => result matches Err(error) && error@
                == "resolving cross-plugin dependencies: "@ + graph::fault_text(fault),
            None => result matches Ok(after) && after.wf() && are_linked(
                text::texts(names@),
                several,
                graph.entries@,
                after.entries@,
            ),
        },
{
    let ghost all = text::texts(names@);
    let ghost before = graph.entries@;
    let locate = |consumer: &str, plugin: &str, name: &str| -> (provider: Option<String>)
        ensures
            text::opt_text(provider) == provider_key(
                text::texts(names@),
                several,
                consumer@,
                plugin@,
                name@,
            ),
        {
            if several {
                match provider_module_label(names, consumer, plugin) {
                    Some(label) => Some(graph::task_key(&label, name)),
                    None => None,
                }
            } else {
                Some(graph::task_key(plugin, name))
            }
        };
    let mut linking = graph;
    let outcome = linking.resolve_cross_plugin_deps(&locate);
    match outcome {
        Ok(_) => {
            proof {
                let after = linking.entries@;
                assert forall|i: int| 0 <= i < before.len() implies is_linked(
                    all,
                    several,
                    before[i],
                    #[trigger] after[i],
                ) by {
                    assert(graph::are_located(locate, before[i], after[i]));
                    assert forall|j: int| 0 <= j < before[i].depends_on@.len() implies linked_dep(
                        all,
                        several,
                        before[i].module@,
                        before[i].depends_on@[j]@,
                    ) == Some((#[trigger] after[i].depends_on@[j])@) by {
                        assert(graph::is_located(
                            locate,
                            before[i].module@,
                            before[i].depends_on@[j],
                            after[i].depends_on@[j],
                        ));
                    }
                }
                assert forall|i: int| 0 <= i < before.len() implies unlinked_dep(
                    all,
                    several,
                    #[trigger] before[i],
                    0,
                ) is None by {
                    assert(is_linked(all, several, before[i], after[i]));
                    assert forall|j: int|
                        0 <= j < before[i].depends_on@.len() implies linked_dep(
                        all,
                        several,
                        before[i].module@,
                        (#[trigger] before[i].depends_on@[j])@,
                    ) is Some by {
                        assert(linked_dep(
                            all,
                            several,
                            before[i].module@,
                            before[i].depends_on@[j]@,
                        ) == Some(after[i].depends_on@[j]@));
                    }
                    lemma_all_deps_linked(all, several, before[i], 0);
                }
                lemma_first_unlinked(all, several, before, 0, before.len() as int);
            }
            Ok(linking)
        },
        Err(error) => {
            proof {
                let (i, j) = choose|i: int, j: int| #[trigger]
                    graph::is_unlocated(locate, before, i, j, error@);
                assert forall|k: int| 0 <= k < i implies unlinked_dep(
                    all,
                    several,
                    #[trigger] before[k],
                    0,
                ) is None by {
                    assert forall|m: int|
                        0 <= m < before[k].depends_on@.len() implies linked_dep(
                        all,
                        several,
                        before[k].module@,
                        (#[trigger] before[k].depends_on@[m])@,
                    ) is Some by {
                        assert(graph::is_found(locate, before[k], m));
                    }
                    lemma_all_deps_linked(all, several, before[k], 0);
                }
                assert forall|m: int| 0 <= m < j implies linked_dep(
                    all,
                    several,
                    before[i].module@,
                    (#[trigger] before[i].depends_on@[m])@,
                ) is Some by {
                    assert(graph::is_found(locate, before[i], m));
                }
                lemma_first_unlinked_dep(all, several, before[i], 0, j);
                lemma_first_unlinked(all, several, before, 0, i);
            }
            Err("resolving cross-plugin dependencies: ".to_owned().concat(&error.message()))
        },
    }
}

fn find_missing(uses: &Vec<PluginUse>, names: &Vec<String>) -> (found: Option<String>)
    ensures
        text::opt_text(found) == missing(uses_of(uses@), text::texts(names@), 0),
{
    let ghost all = uses_of(uses@);
    let ghost present = text::texts(names@);
    let mut i: usize = 0;
    while i < uses.len()
        invariant
            all == uses_of(uses@),
            present == text::texts(names@),
            i <= uses@.len(),
            missing(all, present, 0) == missing(all, present, i as int),
        decreases uses.len() - i,
    {
        let one = &uses[i];
        assert(all[i as int] == one@);
        let mut j: usize = 0;
        while j < one.dependencies.len()
            invariant
                all == uses_of(uses@),
                present == text::texts(names@),
                i < uses@.len(),
                *one == uses@[i as int],
                all[i as int] == one@,
                missing(all, present, 0) == missing(all, present, i as int),
                j <= one.dependencies@.len(),
                missing_in(one@, present, 0) == missing_in(one@, present, j as int),
            decreases one.dependencies.len() - j,
        {
            let dep = &one.dependencies[j];
            assert(one@.dependencies[j as int] == dep@);
            if classpath::is_among(&one.used, dep) && !classpath::is_among(names, dep) {
                return Some(
                    "plugin '".to_owned().concat(&one.plugin).concat(
                        "' declares and references dependency '",
                    ).concat(dep).concat("', which is not present in the build"),
                );
            }
            j += 1;
        }
        i += 1;
    }
    None
}

impl BuildPlan {
    /// Whether no two tasks have the same key.
    pub open spec fn wf(&self) -> bool {
        self.graph.wf()
    }

    /// A plan without a task.
    pub fn new() -> (plan: BuildPlan)
        ensures
            plan.wf(),
            plan@ == empty_plan(),
    {
        let plan = BuildPlan {
            graph: TaskGraph::new(),
            versions: Vec::new(),
            names: Vec::new(),
            uses: Vec::new(),
        };
        assert(text::texts(plan.versions@) == Seq::<Seq<char>>::empty());
        assert(text::texts(plan.names@) == Seq::<Seq<char>>::empty());
        assert(uses_of(plan.uses@) == Seq::<Use>::empty());
        plan
    }

    /// The plan with the tasks of a configured plugin. Every cross-plugin
    /// reference in the plugin's tasks has to name a plugin listed in its
    /// declared dependencies. `module` is the path of the module the plugin
    /// was configured for, in a build of several.
    ///
    /// # Errors
    ///
    /// Returns a description when a task refers to a plugin that is not
    /// declared, or has the key of a task that is already in the plan.
    pub fn add(self, module: Option<&str>, label: &str, configured: Configured) -> (result: Result<
        BuildPlan,
        String,
    >)
        requires
            self.wf(),
        ensures
            match with_plugin(self@, text::opt_str(module), label@, configured) {
                Ok(after) => result matches Ok(plan) && plan@ == after && plan.wf(),
                Err(message) => result matches Err(error) && error@ == message,
            },
    {
        let ghost before = self@;
        let used = match plugin_providers(
            &configured.name,
            &configured.dependencies,
            &configured.graph.entries,
        ) {
            Ok(used) => used,
            Err(message) => return Err(message),
        };
        let mut plan = self;
        let graph = match merge_tasks(plan.graph, configured.graph.entries, label) {
            Ok(graph) => graph,
            Err(message) => return Err(message),
        };
        plan.graph = graph;
        let plugin = match module {
            Some(path) => path.to_owned().concat("/").concat(&configured.name),
            None => configured.name.clone(),
        };
        let version = plugin.concat("@").concat(&configured.version);
        plan.versions.push(version);
        assert(text::texts(plan.versions@) == before.versions.push(version@));
        plan.names.push(configured.name.clone());
        assert(text::texts(plan.names@) == before.names.push(configured.name@));
        let one = PluginUse {
            plugin: configured.name,
            dependencies: configured.dependencies,
            used,
        };
        plan.uses.push(one);
        assert(uses_of(plan.uses@) == before.uses.push(one@));
        Ok(plan)
    }

    /// The graph of the build: checks that the dependencies which plugins
    /// declare and use are present, and replaces references to tasks of other
    /// plugins by the keys of those tasks. Declared but unreferenced
    /// dependencies are allowed — a plugin may declare optional capabilities
    /// that not every module configuration activates.
    ///
    /// # Errors
    ///
    /// Returns a description when a dependency is not present, or a reference
    /// cannot be resolved.
    pub fn finish(self, several: bool) -> (result: Result<TaskGraph, String>)
        requires
            self.wf(),
        ensures
            match plan_fault(self@, several) {
                Some(message) => result matches Err(error) && error@ == message,
                None => result matches Ok(graph) && graph.wf() && are_linked(
                    self@.names,
                    several,
                    self@.tasks,
                    graph.entries@,
                ),
            },
    {
        if let Some(message) = find_missing(&self.uses, &self.names) {
            return Err(message);
        }
        let plan = self;
        link_tasks(plan.graph, &plan.names, several)
    }
}

pub proof fn lemma_longest(names: Seq<Seq<char>>, label: Seq<char>, n: int)
    requires
        0 <= n <= names.len(),
    ensures
        match longest_name(names, label, n) {
            Some(name) => is_labelled(label, name) && forall|i: int|
                0 <= i < n && is_labelled(label, #[trigger] names[i]) ==> names[i].len()
                    <= name.len(),
            None => forall|i: int| 0 <= i < n ==> !is_labelled(label, #[trigger] names[i]),
        },
    decreases n,
{
    if n > 0 {
        lemma_longest(names, label, n - 1);
    }
}

/// A plugin finds the tasks of another one in its own module: the module part
/// of its label is kept, and the name of the plugin replaced. This holds
/// unless the label is itself the name of a plugin or ends in a longer one.
pub proof fn law_provider_is_in_the_same_module(
    names: Seq<Seq<char>>,
    module: Seq<char>,
    consumer: Seq<char>,
    plugin: Seq<char>,
)
    requires
        names.contains(consumer),
        !names.contains(module + "/"@ + consumer),
        forall|name: Seq<char>|
            names.contains(name) && #[trigger] is_labelled(module + "/"@ + consumer, name)
                ==> name.len() <= consumer.len(),
    ensures
        provider_label(names, module + "/"@ + consumer, plugin) == Some(
            module + "/"@ + plugin,
        ),
{
    reveal_strlit("/");
    let label = module + "/"@ + consumer;
    let n = names.len() as int;
    let own = "/"@ + consumer;
    assert(label.subrange(label.len() - own.len(), label.len() as int) == own);
    assert(is_labelled(label, consumer));
    lemma_longest(names, label, n);
    let i = choose|i: int| 0 <= i < names.len() && names[i] == consumer;
    assert(is_labelled(label, names[i]));
    lemma_longest_occurs(names, label, n);
    let name = longest_name(names, label, n)->0;
    assert(name.len() == consumer.len());
    assert(label.take(label.len() - name.len() - 1) == module);
}

pub proof fn lemma_longest_occurs(names: Seq<Seq<char>>, label: Seq<char>, n: int)
    requires
        0 <= n <= names.len(),
    ensures
        longest_name(names, label, n) matches Some(name) ==> names.contains(name),
    decreases n,
{
    if n > 0 {
        lemma_longest_occurs(names, label, n - 1);
    }
}

proof fn lemma_no_undeclared(
    plugin: Seq<char>,
    declared: Seq<Seq<char>>,
    tasks: Seq<Task>,
    from: int,
    i: int,
)
    requires
        0 <= from <= i < tasks.len(),
        undeclared(plugin, declared, tasks, from) is None,
    ensures
        undeclared_in(plugin, declared, tasks[i], 0) is None,
    decreases i - from,
{
    if from < i {
        lemma_no_undeclared(plugin, declared, tasks, from + 1, i);
    }
}

proof fn lemma_no_undeclared_in(
    plugin: Seq<char>,
    declared: Seq<Seq<char>>,
    task: Task,
    from: int,
    j: int,
)
    requires
        0 <= from <= j < task.depends_on@.len(),
        undeclared_in(plugin, declared, task, from) is None,
    ensures
        task::cross_ref(task.depends_on@[j]@) matches Some((provider, name)) ==> declared.contains(
            provider,
        ),
    decreases j - from,
{
    if from < j {
        lemma_no_undeclared_in(plugin, declared, task, from + 1, j);
    }
}

/// Undeclared references are build errors: where a plugin enters a plan, every
/// task of it refers only to plugins that it declares to depend on.
pub proof fn law_references_are_declared(
    plan: Plan,
    module: Option<Seq<char>>,
    label: Seq<char>,
    configured: Configured,
    i: int,
    j: int,
)
    requires
        with_plugin(plan, module, label, configured) is Ok,
        0 <= i < configured.graph.entries@.len(),
        0 <= j < configured.graph.entries@[i].depends_on@.len(),
    ensures
        task::cross_ref(configured.graph.entries@[i].depends_on@[j]@) matches Some((provider, name))
            ==> text::texts(configured.dependencies@).contains(provider),
{
    let tasks = configured.graph.entries@;
    let declared = text::texts(configured.dependencies@);
    lemma_no_undeclared(configured.name@, declared, tasks, 0, i);
    lemma_no_undeclared_in(configured.name@, declared, tasks[i], 0, j);
}

proof fn lemma_merged_keeps(tasks: Seq<Task>, more: Seq<Task>, label: Seq<char>, n: int)
    requires
        0 <= n <= more.len(),
    ensures
        merged(tasks, more, label, n) matches Ok(all) ==> all == tasks + more.take(n),
    decreases n,
{
    if n > 0 {
        lemma_merged_keeps(tasks, more, label, n - 1);
        if let Ok(before) = merged(tasks, more, label, n - 1) {
            assert(tasks + more.take(n) == (tasks + more.take(n - 1)).push(more[n - 1]));
        }
    } else {
        assert(tasks + more.take(0) == tasks);
    }
}

/// No task is lost or changed when plugins are merged: the tasks of a plugin
/// stand behind those that were there.
pub proof fn law_merging_keeps_tasks(
    plan: Plan,
    module: Option<Seq<char>>,
    label: Seq<char>,
    configured: Configured,
)
    ensures
        with_plugin(plan, module, label, configured) matches Ok(after) ==> after.tasks
            == plan.tasks + configured.graph.entries@,
{
    let more = configured.graph.entries@;
    lemma_merged_keeps(plan.tasks, more, label, more.len() as int);
    assert(more.take(more.len() as int) == more);
}

} // verus!
