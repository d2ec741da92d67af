//! The graph of a build's tasks.

use vstd::prelude::*;
use crate::task;
use crate::task::Task;
use crate::text;

verus! {

/// A graph-level problem that prevents a build from being scheduled.
#[derive(Debug, PartialEq, Eq)]
pub enum GraphError {
    /// A task's `dependsOn` references a task that was never registered.
    UnknownDependency {
        /// The task holding the bad reference.
        task: String,
        /// The referenced but undefined task.
        dep: String,
    },
    /// `dependsOn` edges form a cycle; `path` is the cycle without the
    /// closing edge, e.g. `["a", "b"]` for `a -> b -> a`.
    Cycle(Vec<String>),
}

/// What a [`GraphError`] holds.
pub enum Fault {
    /// An undefined task.
    UnknownDependency {
        /// The task holding the bad reference.
        task: Seq<char>,
        /// The referenced but undefined task.
        dep: Seq<char>,
    },
    /// A cycle.
    Cycle(Seq<Seq<char>>),
}

impl View for GraphError {
    type V = Fault;

    open spec fn view(&self) -> Fault {
        match *self {
            GraphError::UnknownDependency { task, dep } => Fault::UnknownDependency {
                task: task@,
                dep: dep@,
            },
            GraphError::Cycle(path) => Fault::Cycle(text::texts(path@)),
        }
    }
}

/// What is said of a graph that cannot be scheduled.
pub open spec fn fault_text(fault: Fault) -> Seq<char> {
    match fault {
        Fault::UnknownDependency { task, dep } => "task '"@ + task + "' depends on undefined task '"@
            + dep + "'"@,
        Fault::Cycle(path) => {
            let chain = "task dependency cycle: "@ + text::join_text(path, " -> "@);
            if path.len() > 0 {
                chain + " -> "@ + path[0]
            } else {
                chain
            }
        },
    }
}

impl GraphError {
    /// A description for the user.
    pub fn message(&self) -> (s: String)
        ensures
            s@ == fault_text(self@),
    {
        match self {
            GraphError::UnknownDependency { task, dep } => "task '".to_owned().concat(task).concat(
                "' depends on undefined task '",
            ).concat(dep).concat("'"),
            GraphError::Cycle(path) => {
                let chain = "task dependency cycle: ".to_owned().concat(&text::join(path, " -> "));
                if path.len() > 0 {
                    chain.concat(" -> ").concat(&path[0])
                } else {
                    chain
                }
            },
        }
    }
}

/// The key of a task: `module::name`.
pub open spec fn key_text(module: Seq<char>, name: Seq<char>) -> Seq<char> {
    module + "::"@ + name
}

/// The key of a task.
pub open spec fn key_of(task: Task) -> Seq<char> {
    key_text(task.module@, task.name@)
}

/// The key a dependency of a task in `module` refers to: one that contains
/// `::` is a key already, anything else names a task of the same module.
pub open spec fn dep_key(module: Seq<char>, dep: Seq<char>) -> Seq<char> {
    if text::has_text(dep, "::"@) {
        dep
    } else {
        key_text(module, dep)
    }
}

/// The keys a task depends on.
pub open spec fn dep_keys(task: Task) -> Seq<Seq<char>> {
    Seq::new(task.depends_on@.len(), |i: int| dep_key(task.module@, task.depends_on@[i]@))
}

/// The position of the first task with a key, from `from` on.
pub open spec fn find_from(tasks: Seq<Task>, key: Seq<char>, from: int) -> Option<int>
    decreases tasks.len() - from,
{
    if from >= tasks.len() {
        None
    } else if key_of(tasks[from]) == key {
        Some(from)
    } else {
        find_from(tasks, key, from + 1)
    }
}

/// The task with a key.
pub open spec fn task_for(tasks: Seq<Task>, key: Seq<char>) -> Option<Task> {
    match find_from(tasks, key, 0) {
        Some(i) => Some(tasks[i]),
        None => None,
    }
}

/// The depths found so far, by key; the first entry of a key counts.
pub open spec fn depth_in(done: Seq<(Seq<char>, nat)>, key: Seq<char>) -> Option<nat>
    decreases done.len(),
{
    if done.len() == 0 {
        None
    } else if done.first().0 == key {
        Some(done.first().1)
    } else {
        depth_in(done.drop_first(), key)
    }
}

/// The position of `key` in `list`, from `from` on.
pub open spec fn index_from(list: Seq<Seq<char>>, key: Seq<char>, from: int) -> int
    decreases list.len() - from,
{
    if from >= list.len() || list[from] == key {
        from
    } else {
        index_from(list, key, from + 1)
    }
}

/// How many tasks are not on a chain of keys.
pub open spec fn outside(tasks: Seq<Task>, chain: Seq<Seq<char>>) -> nat
    decreases tasks.len(),
{
    if tasks.len() == 0 {
        0
    } else {
        outside(tasks.drop_last(), chain) + if chain.contains(key_of(tasks.last())) {
            0nat
        } else {
            1nat
        }
    }
}

/// The depths that an exploration knows, and the depth it was made for.
pub struct Explored {
    /// The depths found so far.
    pub done: Seq<(Seq<char>, nat)>,
    /// The depth in question.
    pub depth: nat,
}

/// Explores the task `key`, which the last task of `chain` depends on: a key
/// on the chain closes a cycle, a depth that is known is taken, and otherwise
/// the dependencies are explored first. A task without dependencies has depth
/// zero, any other is one deeper than the deepest it depends on.
pub open spec fn explore(
    tasks: Seq<Task>,
    done: Seq<(Seq<char>, nat)>,
    chain: Seq<Seq<char>>,
    key: Seq<char>,
) -> Result<Explored, Fault>
    decreases outside(tasks, chain), 0nat,
{
    if chain.contains(key) {
        Err(Fault::Cycle(chain.skip(index_from(chain, key, 0))))
    } else {
        match depth_in(done, key) {
            Some(depth) => Ok(Explored { done, depth }),
            None => match task_for(tasks, key) {
                None => Err(
                    Fault::UnknownDependency {
                        task: if chain.len() > 0 {
                            chain.last()
                        } else {
                            Seq::empty()
                        },
                        dep: key,
                    },
                ),
                Some(task) => {
                    proof {
                        lemma_outside_drops(tasks, chain, key);
                    }
                    match explore_deps(
                        tasks,
                        done,
                        chain.push(key),
                        dep_keys(task),
                        dep_keys(task).len(),
                    ) {
                        Err(fault) => Err(fault),
                        Ok(inner) => {
                            let depth = if dep_keys(task).len() == 0 {
                                0
                            } else {
                                inner.depth + 1
                            };
                            Ok(Explored { done: inner.done.push((key, depth)), depth })
                        },
                    }
                },
            },
        }
    }
}

/// Explores the first `n` of a task's dependencies; the depth is that of the
/// deepest.
pub open spec fn explore_deps(
    tasks: Seq<Task>,
    done: Seq<(Seq<char>, nat)>,
    chain: Seq<Seq<char>>,
    deps: Seq<Seq<char>>,
    n: nat,
) -> Result<Explored, Fault>
    decreases outside(tasks, chain), n + 1,
{
    if n == 0 {
        Ok(Explored { done, depth: 0 })
    } else {
        match explore_deps(tasks, done, chain, deps, (n - 1) as nat) {
            Err(fault) => Err(fault),
            Ok(before) => match explore(tasks, before.done, chain, deps[n - 1]) {
                Err(fault) => Err(fault),
                Ok(next) => Ok(
                    Explored { done: next.done, depth: larger(before.depth, next.depth) },
                ),
            },
        }
    }
}

/// The larger of two numbers.
pub open spec fn larger(a: nat, b: nat) -> nat {
    if a < b {
        b
    } else {
        a
    }
}

/// Explores the first `n` tasks, in registration order.
pub open spec fn explore_all(tasks: Seq<Task>, n: int) -> Result<Seq<(Seq<char>, nat)>, Fault>
    decreases n,
{
    if n <= 0 {
        Ok(Seq::empty())
    } else {
        match explore_all(tasks, n - 1) {
            Err(fault) => Err(fault),
            Ok(done) => match explore(tasks, done, Seq::empty(), key_of(tasks[n - 1])) {
                Err(fault) => Err(fault),
                Ok(next) => Ok(next.done),
            },
        }
    }
}

/// The depth of each task.
pub open spec fn depths_of(tasks: Seq<Task>) -> Result<Seq<nat>, Fault> {
    match explore_all(tasks, tasks.len() as int) {
        Err(fault) => Err(fault),
        Ok(done) => Ok(Seq::new(tasks.len(), |i: int| depth_in(done, key_of(tasks[i]))->0)),
    }
}

/// The largest of the first `n` depths, zero where there are none.
pub open spec fn deepest(depths: Seq<nat>, n: int) -> nat
    decreases n,
{
    if n <= 0 {
        0
    } else {
        larger(deepest(depths, n - 1), depths[n - 1])
    }
}

/// The positions among the first `n` that have a depth, in order.
pub open spec fn at_depth(depths: Seq<nat>, depth: nat, n: int) -> Seq<int>
    decreases n,
{
    if n <= 0 {
        Seq::empty()
    } else {
        let before = at_depth(depths, depth, n - 1);
        if depths[n - 1] == depth {
            before.push(n - 1)
        } else {
            before
        }
    }
}

/// The waves of a build: the positions of the tasks at each depth, in
/// registration order. There is always a first wave.
pub open spec fn waves_of(tasks: Seq<Task>) -> Result<Seq<Seq<int>>, Fault> {
    match depths_of(tasks) {
        Err(fault) => Err(fault),
        Ok(depths) => Ok(
            Seq::new(
                deepest(depths, depths.len() as int) + 1,
                |d: int| at_depth(depths, d as nat, depths.len() as int),
            ),
        ),
    }
}

/// What the search for a key finds.
pub proof fn lemma_find(tasks: Seq<Task>, key: Seq<char>, from: int)
    requires
        0 <= from <= tasks.len(),
    ensures
        match find_from(tasks, key, from) {
            Some(i) => from <= i < tasks.len() && key_of(tasks[i]) == key,
            None => forall|i: int|
                from <= i < tasks.len() ==> key_of(#[trigger] tasks[i]) != key,
        },
    decreases tasks.len() - from,
{
    if from < tasks.len() && key_of(tasks[from]) != key {
        lemma_find(tasks, key, from + 1);
    }
}

proof fn lemma_outside_shrinks(tasks: Seq<Task>, chain: Seq<Seq<char>>, key: Seq<char>)
    ensures
        outside(tasks, chain.push(key)) <= outside(tasks, chain),
        (exists|i: int| 0 <= i < tasks.len() && key_of(#[trigger] tasks[i]) == key)
            && !chain.contains(key) ==> outside(tasks, chain.push(key)) < outside(tasks, chain),
    decreases tasks.len(),
{
    if tasks.len() > 0 {
        let rest = tasks.drop_last();
        lemma_outside_shrinks(rest, chain, key);
        let longer = chain.push(key);
        let last = key_of(tasks.last());
        if chain.contains(last) {
            let j = choose|j: int| 0 <= j < chain.len() && chain[j] == last;
            assert(longer[j] == last);
        }
        if last == key {
            assert(longer[chain.len() as int] == key);
        }
        if exists|i: int| 0 <= i < tasks.len() && key_of(#[trigger] tasks[i]) == key {
            let i = choose|i: int| 0 <= i < tasks.len() && key_of(#[trigger] tasks[i]) == key;
            if i < rest.len() {
                assert(key_of(rest[i]) == key);
            }
        }
    }
}

/// Pushing the key of a task that is not on a chain leaves fewer outside it.
pub proof fn lemma_outside_drops(tasks: Seq<Task>, chain: Seq<Seq<char>>, key: Seq<char>)
    requires
        task_for(tasks, key) is Some,
        !chain.contains(key),
    ensures
        outside(tasks, chain.push(key)) < outside(tasks, chain),
{
    lemma_find(tasks, key, 0);
    lemma_outside_shrinks(tasks, chain, key);
}

/// The set of tasks registered for one build, keyed by `module::name`.
///
/// Declaration order is preserved so waves, failure reports, and therefore
/// build output are reproducible across runs.
#[derive(Debug, PartialEq, Eq)]
pub struct TaskGraph {
    /// The tasks, in registration order.
    pub entries: Vec<Task>,
}

/// The key `module::name`.
pub fn task_key(module: &str, name: &str) -> (key: String)
    ensures
        key@ == key_text(module@, name@),
{
    module.to_owned().concat("::").concat(name)
}

/// The key a dependency of a task in `module` refers to.
pub fn resolved_key(module: &str, dep: &str) -> (key: String)
    ensures
        key@ == dep_key(module@, dep@),
{
    if text::contains(dep, "::") {
        dep.to_owned()
    } else {
        task_key(module, dep)
    }
}

/// Whether no two tasks have the same key.
pub open spec fn distinct_keys(tasks: Seq<Task>) -> bool {
    forall|i: int, j: int|
        0 <= i < j < tasks.len() ==> key_of(#[trigger] tasks[i]) != key_of(#[trigger] tasks[j])
}

/// The dependencies of a list that do not refer to other plugins.
pub open spec fn own_deps(deps: Seq<Seq<char>>) -> Seq<Seq<char>>
    decreases deps.len(),
{
    if deps.len() == 0 {
        Seq::empty()
    } else {
        let before = own_deps(deps.drop_last());
        if task::cross_ref(deps.last()) is None {
            before.push(deps.last())
        } else {
            before
        }
    }
}

/// Whether two tasks differ in nothing but their dependencies.
pub open spec fn same_but_deps(a: Task, b: Task) -> bool {
    &&& a.name == b.name
    &&& a.module == b.module
    &&& a.inputs == b.inputs
    &&& a.outputs == b.outputs
    &&& a.action == b.action
}

impl TaskGraph {
    /// Whether no two tasks have the same key.
    pub open spec fn wf(&self) -> bool {
        distinct_keys(self.entries@)
    }

    /// Creates an empty graph.
    #[must_use]
    pub fn new() -> (graph: TaskGraph)
        ensures
            graph.wf(),
            graph.entries@ == Seq::<Task>::empty(),
    {
        TaskGraph { entries: Vec::new() }
    }

    fn find(&self, key: &str) -> (at: Option<usize>)
        ensures
            match at {
                Some(i) => i < self.entries@.len() && find_from(self.entries@, key@, 0) == Some(
                    i as int,
                ),
                None => find_from(self.entries@, key@, 0) is None,
            },
    {
        let mut i: usize = 0;
        while i < self.entries.len()
            invariant
                i <= self.entries@.len(),
                find_from(self.entries@, key@, 0) == find_from(self.entries@, key@, i as int),
            decreases self.entries.len() - i,
        {
            let task = &self.entries[i];
            if text::str_eq(&task_key(&task.module, &task.name), key) {
                return Some(i);
            }
            i += 1;
        }
        None
    }

    /// Registers a task.
    ///
    /// # Errors
    ///
    /// Returns an error when a task with the same `module::name` is
    /// already registered.
    pub fn register(&mut self, task: Task) -> (result: Result<(), String>)
        requires
            old(self).wf(),
        ensures
            final(self).wf(),
            match result {
                Ok(_) => {
                    &&& task_for(old(self).entries@, key_of(task)) is None
                    &&& final(self).entries@ == old(self).entries@.push(task)
                },
                Err(message) => {
                    &&& task_for(old(self).entries@, key_of(task)) is Some
                    &&& final(self).entries@ == old(self).entries@
                    &&& message@ == "task '"@ + key_of(task) + "' is already registered"@
                },
            },
    {
        let key = task_key(&task.module, &task.name);
        let ghost before = self.entries@;
        proof {
            lemma_find(before, key@, 0);
        }
        if self.find(&key).is_some() {
            return Err("task '".to_owned().concat(&key).concat("' is already registered"));
        }
        self.entries.push(task);
        assert forall|i: int, j: int| 0 <= i < j < self.entries@.len() implies key_of(
            #[trigger] self.entries@[i],
        ) != key_of(#[trigger] self.entries@[j]) by {
            assert(self.entries@[i] == before[i]);
            if j < before.len() {
                assert(self.entries@[j] == before[j]);
            }
        }
        Ok(())
    }

    /// The number of registered tasks.
    #[must_use]
    pub fn len(&self) -> (n: usize)
        ensures
            n == self.entries@.len(),
    {
        self.entries.len()
    }

    /// Whether the graph has no tasks.
    #[must_use]
    pub fn is_empty(&self) -> (empty: bool)
        ensures
            empty == (self.entries@.len() == 0),
    {
        self.entries.len() == 0
    }

    /// Looks up a task by module and name.
    #[must_use]
    pub fn get(&self, module: &str, name: &str) -> (task: Option<&Task>)
        ensures
            match task {
                Some(t) => task_for(self.entries@, key_text(module@, name@)) == Some(*t),
                None => task_for(self.entries@, key_text(module@, name@)) is None,
            },
    {
        match self.find(&task_key(module, name)) {
            Some(i) => Some(&self.entries[i]),
            None => None,
        }
    }

    /// The tasks in registration order.
    pub fn tasks(&self) -> (tasks: &Vec<Task>)
        ensures
            tasks@ == self.entries@,
    {
        &self.entries
    }

    /// Removes cross-plugin dependency references (`"plugin:task"` format)
    /// from every task's `depends_on` list, leaving same-module bare names
    /// intact. Used by the host to validate a plugin's own graph after
    /// stripping references that reference tasks from other plugins (which
    /// have not been registered yet at per-plugin validation time).
    pub fn strip_cross_plugin_refs(&mut self)
        ensures
            old(self).wf() ==> final(self).wf(),
            final(self).entries@.len() == old(self).entries@.len(),
            forall|i: int|
                0 <= i < old(self).entries@.len() ==> {
                    &&& same_but_deps(old(self).entries@[i], #[trigger] final(self).entries@[i])
                    &&& text::texts(final(self).entries@[i].depends_on@) == own_deps(
                        text::texts(old(self).entries@[i].depends_on@),
                    )
                },
    {
        let ghost before = self.entries@;
        let mut i: usize = 0;
        while i < self.entries.len()
            invariant
                i <= self.entries@.len(),
                self.entries@.len() == before.len(),
                forall|j: int|
                    i <= j < before.len() ==> #[trigger] self.entries@[j] == before[j],
                forall|j: int|
                    0 <= j < i ==> {
                        &&& same_but_deps(before[j], #[trigger] self.entries@[j])
                        &&& text::texts(self.entries@[j].depends_on@) == own_deps(
                            text::texts(before[j].depends_on@),
                        )
                    },
            decreases self.entries.len() - i,
        {
            let deps = keep_own(&self.entries[i].depends_on);
            self.entries[i].depends_on = deps;
            i += 1;
        }
    }
}

fn keep_own(deps: &Vec<String>) -> (kept: Vec<String>)
    ensures
        text::texts(kept@) == own_deps(text::texts(deps@)),
{
    let ghost all = text::texts(deps@);
    let mut kept: Vec<String> = Vec::new();
    let mut i: usize = 0;
    assert(text::texts(kept@) == own_deps(all.take(0)));
    while i < deps.len()
        invariant
            all == text::texts(deps@),
            i <= deps@.len(),
            text::texts(kept@) == own_deps(all.take(i as int)),
        decreases deps.len() - i,
    {
        assert(all.take(i + 1).drop_last() == all.take(i as int));
        if task::split_cross_plugin_ref(&deps[i]).is_none() {
            let ghost was = kept@;
            kept.push(deps[i].clone());
            assert(text::texts(kept@) == text::texts(was).push(all[i as int]));
        }
        i += 1;
    }
    assert(all.take(i as int) == all);
    kept
}

/// The depths that a list holds.
pub open spec fn depths_known(done: Seq<(String, usize)>) -> Seq<(Seq<char>, nat)> {
    Seq::new(done.len(), |i: int| (done[i].0@, done[i].1 as nat))
}

/// Whether each depth is at most its position in the list.
spec fn is_ladder(done: Seq<(String, usize)>) -> bool {
    forall|i: int| 0 <= i < done.len() ==> (#[trigger] done[i]).1 <= i
}

fn find_depth(done: &Vec<(String, usize)>, key: &str) -> (depth: Option<usize>)
    requires
        is_ladder(done@),
    ensures
        match depth {
            Some(d) => depth_in(depths_known(done@), key@) == Some(d as nat) && d < done@.len(),
            None => depth_in(depths_known(done@), key@) is None,
        },
{
    let ghost all = depths_known(done@);
    let mut i: usize = 0;
    assert(all.skip(0) == all);
    while i < done.len()
        invariant
            is_ladder(done@),
            all == depths_known(done@),
            i <= done@.len(),
            depth_in(all, key@) == depth_in(all.skip(i as int), key@),
        decreases done.len() - i,
    {
        assert(all.skip(i as int).drop_first() == all.skip(i + 1));
        assert(all.skip(i as int).first() == (done@[i as int].0@, done@[i as int].1 as nat));
        if text::str_eq(&done[i].0, key) {
            return Some(done[i].1);
        }
        i += 1;
    }
    None
}

fn index_in(list: &Vec<String>, key: &str) -> (at: usize)
    requires
        text::texts(list@).contains(key@),
    ensures
        at == index_from(text::texts(list@), key@, 0),
        at < list@.len(),
{
    let ghost all = text::texts(list@);
    let mut i: usize = 0;
    while i < list.len()
        invariant
            all == text::texts(list@),
            i <= list@.len(),
            forall|j: int| 0 <= j < i ==> #[trigger] all[j] != key@,
            index_from(all, key@, 0) == index_from(all, key@, i as int),
        decreases list.len() - i,
    {
        assert(all[i as int] == list@[i as int]@);
        if text::str_eq(&list[i], key) {
            return i;
        }
        i += 1;
    }
    proof {
        let j = choose|j: int| 0 <= j < all.len() && all[j] == key@;
        assert(all[j] != key@);
    }
    i
}

proof fn lemma_deps_err(
    tasks: Seq<Task>,
    done: Seq<(Seq<char>, nat)>,
    chain: Seq<Seq<char>>,
    deps: Seq<Seq<char>>,
    m: nat,
    n: nat,
)
    requires
        m <= n,
        explore_deps(tasks, done, chain, deps, m) is Err,
    ensures
        explore_deps(tasks, done, chain, deps, n) == explore_deps(tasks, done, chain, deps, m),
    decreases n,
{
    if m < n {
        lemma_deps_err(tasks, done, chain, deps, m, (n - 1) as nat);
    }
}

proof fn lemma_all_err(tasks: Seq<Task>, m: int, n: int)
    requires
        0 <= m <= n,
        explore_all(tasks, m) is Err,
    ensures
        explore_all(tasks, n) == explore_all(tasks, m),
    decreases n,
{
    if m < n {
        lemma_all_err(tasks, m, n - 1);
    }
}

/// A list of waves as a specification value.
pub open spec fn wave_list(waves: Seq<Vec<usize>>) -> Seq<Seq<int>> {
    Seq::new(waves.len(), |d: int| positions(waves[d]@))
}

/// A list of positions as a specification value.
pub open spec fn positions(list: Seq<usize>) -> Seq<int> {
    Seq::new(list.len(), |i: int| list[i] as int)
}

impl TaskGraph {
    /// Finds the depth of the task `key` below the tasks on `stack`, keeping
    /// in `done` the depths it finds on the way.
    fn explore(&self, key: &str, done: &mut Vec<(String, usize)>, stack: &mut Vec<String>) -> (result:
        Result<usize, GraphError>)
        requires
            is_ladder(old(done)@),
        ensures
            is_ladder(final(done)@),
            old(done)@.len() <= final(done)@.len(),
            match explore(
                self.entries@,
                depths_known(old(done)@),
                text::texts(old(stack)@),
                key@,
            ) {
                Ok(explored) => {
                    &&& result matches Ok(depth) && depth == explored.depth
                    &&& explored.depth < final(done)@.len()
                    &&& depths_known(final(done)@) == explored.done
                    &&& text::texts(final(stack)@) == text::texts(old(stack)@)
                },
                Err(fault) => result matches Err(error) && error@ == fault,
            },
        decreases outside(self.entries@, text::texts(old(stack)@)),
    {
        let ghost tasks = self.entries@;
        let ghost chain = text::texts(stack@);
        let ghost start = depths_known(done@);
        if text::position(stack, key).is_some() {
            assert(chain.contains(key@)) by {
                let i = choose|i: int| 0 <= i < stack@.len() && (#[trigger] stack@[i])@ == key@;
                assert(chain[i] == key@);
            }
            let at = index_in(stack, key);
            let path = stack.split_off(at);
            assert(text::texts(path@) == chain.skip(at as int));
            return Err(GraphError::Cycle(path));
        }
        assert(!chain.contains(key@));
        if let Some(depth) = find_depth(done, key) {
            return Ok(depth);
        }
        let at = match self.find(key) {
            Some(at) => at,
            None => {
                let n: usize = stack.len();
                return Err(
                    GraphError::UnknownDependency {
                        task: if n > 0 {
                            stack[n - 1].clone()
                        } else {
                            String::new()
                        },
                        dep: key.to_owned(),
                    },
                );
            },
        };
        let task = &self.entries[at];
        let ghost deps = dep_keys(*task);
        proof {
            lemma_outside_drops(tasks, chain, key@);
        }
        stack.push(key.to_owned());
        let ghost longer = chain.push(key@);
        assert(text::texts(stack@) == longer);
        let mut max_dep: usize = 0;
        let mut i: usize = 0;
        while i < task.depends_on.len()
            invariant
                tasks == self.entries@,
                deps == dep_keys(*task),
                !chain.contains(key@),
                depth_in(start, key@) is None,
                task_for(tasks, key@) == Some(*task),
                longer == chain.push(key@),
                outside(tasks, longer) < outside(tasks, chain),
                chain == text::texts(old(stack)@),
                start == depths_known(old(done)@),
                i <= deps.len(),
                deps.len() == task.depends_on@.len(),
                is_ladder(done@),
                text::texts(stack@) == longer,
                old(done)@.len() <= done@.len(),
                i > 0 ==> max_dep < done@.len(),
                explore_deps(tasks, start, longer, deps, i as nat) == Ok::<Explored, Fault>(
                    Explored { done: depths_known(done@), depth: max_dep as nat },
                ),
            decreases task.depends_on.len() - i,
        {
            let next = resolved_key(&task.module, &task.depends_on[i]);
            assert(next@ == deps[i as int]);
            match self.explore(&next, done, stack) {
                Ok(depth) => {
                    if max_dep < depth {
                        max_dep = depth;
                    }
                },
                Err(error) => {
                    proof {
                        lemma_deps_err(tasks, start, longer, deps, (i + 1) as nat, deps.len());
                    }
                    return Err(error);
                },
            }
            i += 1;
        }
        let ghost full = stack@;
        let _ = stack.pop();
        assert forall|k: int| 0 <= k < chain.len() implies text::texts(stack@)[k] == chain[k] by {
            assert(text::texts(full)[k] == longer[k]);
        }
        assert(text::texts(stack@) == chain);
        assert(max_dep == 0 || max_dep < done.len());
        let depth: usize = if task.depends_on.len() == 0 {
            0
        } else {
            max_dep + 1
        };
        let ghost was = done@;
        done.push((key.to_owned(), depth));
        assert(depths_known(done@) == depths_known(was).push((key@, depth as nat)));
        Ok(depth)
    }

    /// The positions of the tasks of each wave.
    ///
    /// # Errors
    ///
    /// Returns [`GraphError::UnknownDependency`] or [`GraphError::Cycle`]
    /// when the graph cannot be scheduled.
    pub fn wave_positions(&self) -> (result: Result<Vec<Vec<usize>>, GraphError>)
        ensures
            match waves_of(self.entries@) {
                Ok(waves) => result matches Ok(list) && wave_list(list@) == waves,
                Err(fault) => result matches Err(error) && error@ == fault,
            },
    {
        let ghost tasks = self.entries@;
        let mut done: Vec<(String, usize)> = Vec::new();
        let mut stack: Vec<String> = Vec::new();
        let mut own: Vec<usize> = Vec::new();
        let mut n: usize = 0;
        assert(depths_known(done@) == Seq::<(Seq<char>, nat)>::empty());
        assert(text::texts(stack@) == Seq::<Seq<char>>::empty());
        while n < self.entries.len()
            invariant
                tasks == self.entries@,
                n <= tasks.len(),
                is_ladder(done@),
                text::texts(stack@) == Seq::<Seq<char>>::empty(),
                explore_all(tasks, n as int) == Ok::<Seq<(Seq<char>, nat)>, Fault>(
                    depths_known(done@),
                ),
            decreases self.entries.len() - n,
        {
            let key = task_key(&self.entries[n].module, &self.entries[n].name);
            if let Err(error) = self.explore(&key, &mut done, &mut stack) {
                proof {
                    lemma_all_err(tasks, n + 1, tasks.len() as int);
                }
                return Err(error);
            }
            n += 1;
        }
        let ghost depths = depths_of(tasks)->Ok_0;
        proof {
            lemma_all_known(tasks, tasks.len() as int);
        }
        let mut max_depth: usize = 0;
        let mut i: usize = 0;
        while i < self.entries.len()
            invariant
                tasks == self.entries@,
                i <= tasks.len(),
                is_ladder(done@),
                depths == Seq::new(
                    tasks.len(),
                    |k: int| depth_in(depths_known(done@), key_of(tasks[k]))->0,
                ),
                forall|k: int|
                    0 <= k < tasks.len() ==> depth_in(
                        depths_known(done@),
                        key_of(#[trigger] tasks[k]),
                    ) is Some,
                own@.len() == i,
                forall|k: int| 0 <= k < i ==> #[trigger] own@[k] == depths[k],
                max_depth == deepest(depths, i as int),
                max_depth == 0 || max_depth < done@.len(),
            decreases self.entries.len() - i,
        {
            let key = task_key(&self.entries[i].module, &self.entries[i].name);
            assert(depth_in(depths_known(done@), key_of(tasks[i as int])) is Some);
            let depth: usize = match find_depth(&done, &key) {
                Some(depth) => depth,
                None => 0,
            };
            assert(depth == depths[i as int]);
            own.push(depth);
            if max_depth < depth {
                max_depth = depth;
            }
            i += 1;
        }
        let mut waves: Vec<Vec<usize>> = Vec::new();
        let mut d: usize = 0;
        assert(max_depth == 0 || max_depth < done.len());
        let count: usize = max_depth + 1;
        while d < count
            invariant
                d <= count,
                own@.len() == depths.len(),
                forall|k: int| 0 <= k < depths.len() ==> #[trigger] own@[k] == depths[k],
                waves@.len() == d,
                forall|e: int|
                    0 <= e < d ==> positions((#[trigger] waves@[e])@) == at_depth(
                        depths,
                        e as nat,
                        depths.len() as int,
                    ),
            decreases count - d,
        {
            let mut wave: Vec<usize> = Vec::new();
            let mut k: usize = 0;
            assert(positions(wave@) == Seq::<int>::empty());
            while k < own.len()
                invariant
                    own@.len() == depths.len(),
                    forall|m: int| 0 <= m < depths.len() ==> #[trigger] own@[m] == depths[m],
                    k <= own@.len(),
                    positions(wave@) == at_depth(depths, d as nat, k as int),
                decreases own.len() - k,
            {
                if own[k] == d {
                    let ghost was = wave@;
                    wave.push(k);
                    assert(positions(wave@) == positions(was).push(k as int));
                }
                k += 1;
            }
            waves.push(wave);
            d += 1;
        }
        assert(wave_list(waves@) == waves_of(tasks)->Ok_0);
        Ok(waves)
    }
}

/// The positions that a wave's tasks are at.
pub open spec fn are_tasks_at(wave: Seq<&Task>, tasks: Seq<Task>, at: Seq<int>) -> bool {
    &&& wave.len() == at.len()
    &&& forall|i: int| 0 <= i < at.len() ==> *(#[trigger] wave[i]) == tasks[at[i]]
}

/// What `locate` may give for a task of another plugin that a task of
/// `module` depends on.
pub open spec fn may_locate<F: Fn(&str, &str, &str) -> Option<String>>(
    locate: F,
    module: Seq<char>,
    plugin: Seq<char>,
    task: Seq<char>,
    provider: Option<String>,
) -> bool {
    exists|m: &str, p: &str, t: &str|
        m@ == module && p@ == plugin && t@ == task && #[trigger] locate.ensures(
            (m, p, t),
            provider,
        )
}

/// Whether `after` is what `locate` may turn a dependency into: one on another
/// plugin's task becomes the key that `locate` gives, any other stays.
pub open spec fn is_located<F: Fn(&str, &str, &str) -> Option<String>>(
    locate: F,
    module: Seq<char>,
    before: String,
    after: String,
) -> bool {
    match task::cross_ref(before@) {
        None => after == before,
        Some((plugin, name)) => may_locate(locate, module, plugin, name, Some(after)),
    }
}

impl TaskGraph {
    /// Partitions the graph into waves: every task lands in the wave one
    /// greater than the longest dependency chain feeding it, so tasks in the
    /// same wave are mutually independent and all dependencies of wave `n`
    /// are in earlier waves. Tasks within a wave are ordered by registration
    /// order.
    ///
    /// # Errors
    ///
    /// Returns [`GraphError::UnknownDependency`] or [`GraphError::Cycle`]
    /// when the graph cannot be scheduled.
    pub fn waves(&self) -> (result: Result<Vec<Vec<&Task>>, GraphError>)
        ensures
            match waves_of(self.entries@) {
                Ok(waves) => result matches Ok(list) && list@.len() == waves.len() && forall|d: int|
                    0 <= d < waves.len() ==> are_tasks_at(
                        (#[trigger] list@[d])@,
                        self.entries@,
                        waves[d],
                    ),
                Err(fault) => result matches Err(error) && error@ == fault,
            },
    {
        let at = match self.wave_positions() {
            Ok(at) => at,
            Err(error) => return Err(error),
        };
        let ghost waves = wave_list(at@);
        proof {
            lemma_waves_in_range(self.entries@);
        }
        let mut list: Vec<Vec<&Task>> = Vec::new();
        let mut d: usize = 0;
        while d < at.len()
            invariant
                waves == wave_list(at@),
                d <= at@.len(),
                forall|e: int, i: int|
                    #![trigger waves[e][i]]
                    0 <= e < waves.len() && 0 <= i < waves[e].len() ==> 0 <= waves[e][i]
                        < self.entries@.len(),
                list@.len() == d,
                forall|e: int|
                    0 <= e < d ==> are_tasks_at((#[trigger] list@[e])@, self.entries@, waves[e]),
            decreases at.len() - d,
        {
            let mut wave: Vec<&Task> = Vec::new();
            let mut i: usize = 0;
            assert(waves[d as int] == positions(at@[d as int]@));
            while i < at[d].len()
                invariant
                    waves == wave_list(at@),
                    d < at@.len(),
                    waves[d as int] == positions(at@[d as int]@),
                    forall|e: int, k: int|
                        #![trigger waves[e][k]]
                        0 <= e < waves.len() && 0 <= k < waves[e].len() ==> 0 <= waves[e][k]
                            < self.entries@.len(),
                    i <= at@[d as int]@.len(),
                    wave@.len() == i,
                    forall|k: int|
                        0 <= k < i ==> *(#[trigger] wave@[k]) == self.entries@[waves[d as int][k]],
                decreases at@[d as int]@.len() - i,
            {
                assert(0 <= waves[d as int][i as int] < self.entries@.len());
                wave.push(&self.entries[at[d][i]]);
                i += 1;
            }
            list.push(wave);
            d += 1;
        }
        Ok(list)
    }

    /// Resolves cross-plugin dependency references in `depends_on` entries.
    ///
    /// A cross-plugin dep uses the format `"plugin_name:task_name"` (single
    /// colon). The `locate_provider` closure decides where the provider
    /// task actually lives: tasks are registered under module labels that
    /// embed both the project module and the plugin name, so only the
    /// caller knows how to map `(consumer module, provider plugin,
    /// task name)` onto a concrete graph key such as `"app/ulite/kmp"`.
    /// Returning `None` reports an unknown dependency.
    ///
    /// After resolution every cross-plugin entry is replaced with the
    /// provider's absolute `module::task` key; [`Self::waves`] treats keys
    /// containing `::` as absolute and everything else as same-module.
    ///
    /// # Errors
    ///
    /// Returns [`GraphError::UnknownDependency`] when `locate_provider`
    /// finds no registration for a referenced plugin task.
    pub fn resolve_cross_plugin_deps<F: Fn(&str, &str, &str) -> Option<String>>(
        &mut self,
        locate_provider: &F,
    ) -> (result: Result<(), GraphError>)
        requires
            forall|m: &str, p: &str, t: &str| #[trigger] locate_provider.requires((m, p, t)),
        ensures
            old(self).wf() ==> final(self).wf(),
            final(self).entries@.len() == old(self).entries@.len(),
            forall|i: int|
                0 <= i < old(self).entries@.len() ==> same_but_deps(
                    old(self).entries@[i],
                    #[trigger] final(self).entries@[i],
                ),
            match result {
                Ok(_) => forall|i: int|
                    0 <= i < old(self).entries@.len() ==> are_located(
                        *locate_provider,
                        old(self).entries@[i],
                        #[trigger] final(self).entries@[i],
                    ),
                Err(error) => exists|i: int, j: int|
                    #[trigger] is_unlocated(
                        *locate_provider,
                        old(self).entries@,
                        i,
                        j,
                        error@,
                    ) && are_located_up_to(
                        *locate_provider,
                        old(self).entries@,
                        final(self).entries@,
                        i,
                        j,
                    ),
            },
    {
        let ghost before = self.entries@;
        let mut i: usize = 0;
        while i < self.entries.len()
            invariant
                forall|m: &str, p: &str, t: &str| #[trigger] locate_provider.requires((m, p, t)),
                before == old(self).entries@,
                i <= self.entries@.len(),
                self.entries@.len() == before.len(),
                forall|k: int|
                    i <= k < before.len() ==> #[trigger] self.entries@[k] == before[k],
                forall|k: int|
                    0 <= k < i ==> same_but_deps(before[k], #[trigger] self.entries@[k])
                        && are_located(*locate_provider, before[k], self.entries@[k]),
            decreases self.entries.len() - i,
        {
            let (deps, lost) = locate_deps(&self.entries[i], locate_provider);
            let ghost located = deps@;
            self.entries[i].depends_on = deps;
            match lost {
                None => {},
                Some(j) => {
                    let task = &self.entries[i];
                    let error = GraphError::UnknownDependency {
                        task: task_key(&task.module, &task.name),
                        dep: task.depends_on[j].clone(),
                    };
                    proof {
                        let after = self.entries@;
                        assert(after[i as int].depends_on@ == located);
                        lemma_located_found(
                            *locate_provider,
                            before[i as int],
                            located.take(j as int),
                        );
                        assert forall|k: int, m: int|
                            0 <= k < i && 0 <= m < before[k].depends_on@.len() implies #[trigger]
                            is_found(*locate_provider, before[k], m) by {
                            assert(same_but_deps(before[k], self.entries@[k]));
                            lemma_located_found(
                                *locate_provider,
                                before[k],
                                self.entries@[k].depends_on@,
                            );
                        }
                        assert(is_unlocated(*locate_provider, before, i as int, j as int, error@));
                        assert(are_located_up_to(
                            *locate_provider,
                            before,
                            after,
                            i as int,
                            j as int,
                        ));
                    }
                    return Err(error);
                },
            }
            i += 1;
        }
        Ok(())
    }
}

/// Whether the dependencies of `after` are what `locate` may turn those of
/// `before` into.
pub open spec fn are_located<F: Fn(&str, &str, &str) -> Option<String>>(
    locate: F,
    before: Task,
    after: Task,
) -> bool {
    &&& after.depends_on@.len() == before.depends_on@.len()
    &&& forall|j: int|
        0 <= j < before.depends_on@.len() ==> is_located(
            locate,
            before.module@,
            before.depends_on@[j],
            #[trigger] after.depends_on@[j],
        )
}

/// Whether the dependencies before dependency `j` of task `i`, in the order of
/// the tasks and of the dependencies of each, are what `locate` may turn them
/// into, and that one and all behind it are as they were.
pub open spec fn are_located_up_to<F: Fn(&str, &str, &str) -> Option<String>>(
    locate: F,
    before: Seq<Task>,
    after: Seq<Task>,
    i: int,
    j: int,
) -> bool {
    let from = before[i].depends_on@;
    let to = after[i].depends_on@;
    &&& after.len() == before.len()
    &&& forall|k: int| 0 <= k < i ==> are_located(locate, before[k], #[trigger] after[k])
    &&& to.len() == from.len()
    &&& forall|m: int|
        0 <= m < j ==> is_located(locate, before[i].module@, from[m], #[trigger] to[m])
    &&& forall|m: int| j <= m < from.len() ==> #[trigger] to[m] == from[m]
    &&& forall|k: int| i < k < before.len() ==> #[trigger] after[k] == before[k]
}

/// Whether dependency `j` of a task, which reads `dep`, is on a task of another
/// plugin that `locate` may not find.
pub open spec fn is_lost<F: Fn(&str, &str, &str) -> Option<String>>(
    locate: F,
    task: Task,
    j: int,
    dep: Seq<char>,
) -> bool {
    &&& 0 <= j < task.depends_on@.len()
    &&& task.depends_on@[j]@ == dep
    &&& task::cross_ref(dep) matches Some((plugin, name)) && may_locate(
        locate,
        task.module@,
        plugin,
        name,
        None,
    )
}

/// Whether dependency `j` of a task is its own plugin's, or one that `locate`
/// may find.
pub open spec fn is_found<F: Fn(&str, &str, &str) -> Option<String>>(
    locate: F,
    task: Task,
    j: int,
) -> bool {
    task::cross_ref(task.depends_on@[j]@) matches Some((plugin, name)) ==> exists|provider: String|
        #[trigger] may_locate(locate, task.module@, plugin, name, Some(provider))
}

/// Whether a fault reports dependency `j` of task `i`, which `locate` may not
/// find, and everything before it may be found.
pub open spec fn is_unlocated<F: Fn(&str, &str, &str) -> Option<String>>(
    locate: F,
    tasks: Seq<Task>,
    i: int,
    j: int,
    fault: Fault,
) -> bool {
    &&& 0 <= i < tasks.len()
    &&& fault matches Fault::UnknownDependency { task, dep } && task == key_of(tasks[i])
        && is_lost(locate, tasks[i], j, dep)
    &&& forall|m: int| 0 <= m < j ==> #[trigger] is_found(locate, tasks[i], m)
    &&& forall|k: int, m: int|
        0 <= k < i && 0 <= m < tasks[k].depends_on@.len() ==> #[trigger] is_found(
            locate,
            tasks[k],
            m,
        )
}

proof fn lemma_located_found<F: Fn(&str, &str, &str) -> Option<String>>(
    locate: F,
    task: Task,
    deps: Seq<String>,
)
    requires
        deps.len() <= task.depends_on@.len(),
        forall|k: int|
            0 <= k < deps.len() ==> is_located(
                locate,
                task.module@,
                task.depends_on@[k],
                #[trigger] deps[k],
            ),
    ensures
        forall|m: int| 0 <= m < deps.len() ==> #[trigger] is_found(locate, task, m),
{
    assert forall|m: int| 0 <= m < deps.len() implies #[trigger] is_found(locate, task, m) by {
        assert(is_located(locate, task.module@, task.depends_on@[m], deps[m]));
    }
}

/// The dependencies of a task with those on other plugins' tasks located, up to
/// the first one that cannot be, and the position of that one.
fn locate_deps<F: Fn(&str, &str, &str) -> Option<String>>(task: &Task, locate: &F) -> (result: (
    Vec<String>,
    Option<usize>,
))
    requires
        forall|m: &str, p: &str, t: &str| #[trigger] locate.requires((m, p, t)),
    ensures
        result.0@.len() == task.depends_on@.len(),
        result.1 matches Some(j) ==> is_lost(
            *locate,
            *task,
            j as int,
            task.depends_on@[j as int]@,
        ),
        forall|k: int|
            0 <= k < result.0@.len() && (result.1 matches Some(j) ==> k < j) ==> is_located(
                *locate,
                task.module@,
                task.depends_on@[k],
                #[trigger] result.0@[k],
            ),
        forall|k: int|
            0 <= k < result.0@.len() && (result.1 matches Some(j) && j <= k)
                ==> #[trigger] result.0@[k] == task.depends_on@[k],
{
    let mut deps: Vec<String> = Vec::new();
    let mut lost: Option<usize> = None;
    let mut j: usize = 0;
    while j < task.depends_on.len()
        invariant
            forall|m: &str, p: &str, t: &str| #[trigger] locate.requires((m, p, t)),
            j <= task.depends_on@.len(),
            deps@.len() == j,
            lost matches Some(at) ==> at < j && is_lost(
                *locate,
                *task,
                at as int,
                task.depends_on@[at as int]@,
            ),
            forall|k: int|
                0 <= k < j && (lost matches Some(at) ==> k < at) ==> is_located(
                    *locate,
                    task.module@,
                    task.depends_on@[k],
                    #[trigger] deps@[k],
                ),
            forall|k: int|
                0 <= k < j && (lost matches Some(at) && at <= k) ==> #[trigger] deps@[k]
                    == task.depends_on@[k],
        decreases task.depends_on.len() - j,
    {
        let dep = &task.depends_on[j];
        let mut next = dep.clone();
        if lost.is_none() {
            if let Some((plugin, name)) = task::split_cross_plugin_ref(dep) {
                let module = task.module.as_str();
                match locate(module, plugin, name) {
                    Some(provider) => {
                        assert(may_locate(
                            *locate,
                            task.module@,
                            plugin@,
                            name@,
                            Some(provider),
                        ));
                        next = provider;
                    },
                    None => {
                        assert(may_locate(*locate, task.module@, plugin@, name@, None));
                        lost = Some(j);
                    },
                }
            }
        }
        deps.push(next);
        j += 1;
    }
    (deps, lost)
}

pub(crate) proof fn lemma_at_depth(depths: Seq<nat>, depth: nat, n: int)
    requires
        0 <= n <= depths.len(),
    ensures
        forall|i: int|
            0 <= i < at_depth(depths, depth, n).len() ==> 0 <= #[trigger] at_depth(
                depths,
                depth,
                n,
            )[i] < n && depths[at_depth(depths, depth, n)[i]] == depth,
        forall|i: int, j: int|
            0 <= i < j < at_depth(depths, depth, n).len() ==> #[trigger] at_depth(
                depths,
                depth,
                n,
            )[i] < #[trigger] at_depth(depths, depth, n)[j],
        forall|k: int|
            0 <= k < n && #[trigger] depths[k] == depth ==> at_depth(depths, depth, n).contains(k),
    decreases n,
{
    if n > 0 {
        lemma_at_depth(depths, depth, n - 1);
        let before = at_depth(depths, depth, n - 1);
        let after = at_depth(depths, depth, n);
        assert forall|k: int| 0 <= k < n && #[trigger] depths[k] == depth implies after.contains(
            k,
        ) by {
            if k < n - 1 {
                let i = choose|i: int| 0 <= i < before.len() && before[i] == k;
                assert(after[i] == k);
            } else {
                assert(after[before.len() as int] == k);
            }
        }
    }
}

/// The positions in waves are those of tasks.
pub proof fn lemma_waves_in_range(tasks: Seq<Task>)
    ensures
        waves_of(tasks) matches Ok(waves) ==> forall|e: int, i: int|
            #![trigger waves[e][i]]
            0 <= e < waves.len() && 0 <= i < waves[e].len() ==> 0 <= waves[e][i] < tasks.len(),
{
    if let Ok(waves) = waves_of(tasks) {
        let depths = depths_of(tasks)->Ok_0;
        assert forall|e: int, i: int|
            #![trigger waves[e][i]]
            0 <= e < waves.len() && 0 <= i < waves[e].len() implies 0 <= waves[e][i]
            < tasks.len() by {
            lemma_at_depth(depths, e as nat, depths.len() as int);
        }
    }
}

pub(crate) proof fn lemma_depth_stays(done: Seq<(Seq<char>, nat)>, entry: (Seq<char>, nat), key: Seq<char>)
    ensures
        depth_in(done.push(entry), key) == match depth_in(done, key) {
            Some(d) => Some(d),
            None => if entry.0 == key {
                Some(entry.1)
            } else {
                None
            },
        },
    decreases done.len(),
{
    let longer = done.push(entry);
    if done.len() == 0 {
        assert(longer.drop_first() == Seq::<(Seq<char>, nat)>::empty());
    } else {
        assert(longer.drop_first() == done.drop_first().push(entry));
        lemma_depth_stays(done.drop_first(), entry, key);
    }
}

/// Whether everything that one list of depths knows, another knows too.
pub open spec fn knows_more(few: Seq<(Seq<char>, nat)>, many: Seq<(Seq<char>, nat)>) -> bool {
    forall|key: Seq<char>| #[trigger]
        depth_in(few, key) is Some ==> depth_in(many, key) == depth_in(few, key)
}

pub(crate) proof fn lemma_explore_knows(
    tasks: Seq<Task>,
    done: Seq<(Seq<char>, nat)>,
    chain: Seq<Seq<char>>,
    key: Seq<char>,
)
    ensures
        explore(tasks, done, chain, key) matches Ok(e) ==> knows_more(done, e.done) && depth_in(
            e.done,
            key,
        ) == Some(e.depth),
    decreases outside(tasks, chain), 0nat,
{
    if explore(tasks, done, chain, key) is Ok && depth_in(done, key) is None {
        let e = explore(tasks, done, chain, key)->Ok_0;
        let task = task_for(tasks, key)->0;
        lemma_outside_drops(tasks, chain, key);
        lemma_deps_know(tasks, done, chain.push(key), dep_keys(task), dep_keys(task).len());
        let inner = explore_deps(
            tasks,
            done,
            chain.push(key),
            dep_keys(task),
            dep_keys(task).len(),
        )->Ok_0;
        assert forall|k: Seq<char>| #[trigger] depth_in(done, k) is Some implies depth_in(e.done, k)
            == depth_in(done, k) by {
            lemma_depth_stays(inner.done, (key, e.depth), k);
        }
        lemma_depth_stays(inner.done, (key, e.depth), key);
        assert(chain.push(key)[chain.len() as int] == key);
        lemma_not_found_below(
            tasks,
            done,
            chain.push(key),
            dep_keys(task),
            dep_keys(task).len(),
            key,
        );
    }
}

pub(crate) proof fn lemma_deps_know(
    tasks: Seq<Task>,
    done: Seq<(Seq<char>, nat)>,
    chain: Seq<Seq<char>>,
    deps: Seq<Seq<char>>,
    n: nat,
)
    ensures
        explore_deps(tasks, done, chain, deps, n) matches Ok(e) ==> knows_more(done, e.done),
    decreases outside(tasks, chain), n + 1,
{
    if n > 0 && explore_deps(tasks, done, chain, deps, n) is Ok {
        let m = (n - 1) as nat;
        lemma_deps_know(tasks, done, chain, deps, m);
        let before = explore_deps(tasks, done, chain, deps, m)->Ok_0;
        lemma_explore_knows(tasks, before.done, chain, deps[n - 1]);
        let e = explore_deps(tasks, done, chain, deps, n)->Ok_0;
        assert forall|k: Seq<char>| #[trigger] depth_in(done, k) is Some implies depth_in(e.done, k)
            == depth_in(done, k) by {
            assert(depth_in(before.done, k) is Some);
        }
    }
}

/// Below a chain, the keys on the chain are not finished.
proof fn lemma_not_found_below(
    tasks: Seq<Task>,
    done: Seq<(Seq<char>, nat)>,
    chain: Seq<Seq<char>>,
    deps: Seq<Seq<char>>,
    n: nat,
    key: Seq<char>,
)
    requires
        chain.contains(key),
        depth_in(done, key) is None,
    ensures
        explore_deps(tasks, done, chain, deps, n) matches Ok(e) ==> depth_in(e.done, key) is None,
    decreases outside(tasks, chain), n + 1,
{
    if n > 0 && explore_deps(tasks, done, chain, deps, n) is Ok {
        let m = (n - 1) as nat;
        lemma_not_found_below(tasks, done, chain, deps, m, key);
        let before = explore_deps(tasks, done, chain, deps, m)->Ok_0;
        lemma_not_found_at(tasks, before.done, chain, deps[n - 1], key);
    }
}

proof fn lemma_not_found_at(
    tasks: Seq<Task>,
    done: Seq<(Seq<char>, nat)>,
    chain: Seq<Seq<char>>,
    at: Seq<char>,
    key: Seq<char>,
)
    requires
        chain.contains(key),
        depth_in(done, key) is None,
    ensures
        explore(tasks, done, chain, at) matches Ok(e) ==> depth_in(e.done, key) is None,
    decreases outside(tasks, chain), 0nat,
{
    if explore(tasks, done, chain, at) is Ok && depth_in(done, at) is None {
        let e = explore(tasks, done, chain, at)->Ok_0;
        let task = task_for(tasks, at)->0;
        let longer = chain.push(at);
        lemma_outside_drops(tasks, chain, at);
        let i = choose|i: int| 0 <= i < chain.len() && chain[i] == key;
        assert(longer[i] == key);
        lemma_not_found_below(tasks, done, longer, dep_keys(task), dep_keys(task).len(), key);
        let inner = explore_deps(tasks, done, longer, dep_keys(task), dep_keys(task).len())->Ok_0;
        lemma_depth_stays(inner.done, (at, e.depth), key);
    }
}

/// Once the first tasks are explored, their depths are known.
pub(crate) proof fn lemma_all_known(tasks: Seq<Task>, n: int)
    requires
        0 <= n <= tasks.len(),
    ensures
        explore_all(tasks, n) matches Ok(done) ==> forall|k: int|
            0 <= k < n ==> depth_in(done, key_of(#[trigger] tasks[k])) is Some,
    decreases n,
{
    if n > 0 && explore_all(tasks, n) is Ok {
        lemma_all_known(tasks, n - 1);
        let before = explore_all(tasks, n - 1)->Ok_0;
        lemma_explore_knows(tasks, before, Seq::empty(), key_of(tasks[n - 1]));
        let done = explore_all(tasks, n)->Ok_0;
        assert forall|k: int| 0 <= k < n implies depth_in(done, key_of(#[trigger] tasks[k])) is Some by {
            if k < n - 1 {
                assert(depth_in(before, key_of(tasks[k])) is Some);
            }
        }
    }
}

} // verus!
