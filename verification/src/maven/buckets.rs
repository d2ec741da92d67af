//! Partitioning the winning nodes into classpaths.
//!
//! - `compile`: declared `api`/`implementation`/`compileOnly` plus the
//!   compile-scope children of `api`/`implementation` deps, transitively;
//!   `compileOnly` deps contribute only their own jar.
//! - `runtime`: the full transitive closure of `api`/`implementation`/
//!   `runtimeOnly` deps.
//! - `processor`: `ksp` deps and their closure.
//! - `api`: the declared `api` deps themselves.
//! - `test_compile`/`test_runtime`: `testImplementation` deps layered on
//!   top of the main `compile`/`runtime` classpaths.
//! - `android_test_compile`/`android_test_runtime`: the same for
//!   `androidTestImplementation`.

use vstd::prelude::*;
use crate::maven;
use crate::maven::{Declared, DeclaredDep, Ga, MavenScope};
use crate::maven::graph;
use crate::maven::graph::{Edge, GraphNode, Node};
use crate::maven::pom::PomScope;
use crate::text;

verus! {

/// A classpath that winning nodes are collected for.
#[derive(Debug, Clone, Copy, PartialEq, Eq, Structural)]
pub enum Bucket {
    /// What the module compiles against.
    Compile,
    /// What the module runs with.
    Runtime,
    /// What annotation processing runs with.
    Processor,
    /// What consumers of the module see.
    Api,
    /// What unit tests compile against.
    TestCompile,
    /// What unit tests run with.
    TestRuntime,
    /// What instrumented tests compile against.
    AndroidTestCompile,
    /// What instrumented tests run with.
    AndroidTestRuntime,
}

/// The order in which the artifacts of the buckets are fetched.
pub open spec fn bucket_order() -> Seq<Bucket> {
    seq![
        Bucket::Compile,
        Bucket::Runtime,
        Bucket::Processor,
        Bucket::Api,
        Bucket::TestCompile,
        Bucket::TestRuntime,
        Bucket::AndroidTestCompile,
        Bucket::AndroidTestRuntime,
    ]
}

/// The bucket at a position of [`bucket_order`].
pub fn nth_bucket(n: usize) -> (bucket: Bucket)
    requires
        n < 8,
    ensures
        bucket == bucket_order()[n as int],
{
    if n == 0 {
        Bucket::Compile
    } else if n == 1 {
        Bucket::Runtime
    } else if n == 2 {
        Bucket::Processor
    } else if n == 3 {
        Bucket::Api
    } else if n == 4 {
        Bucket::TestCompile
    } else if n == 5 {
        Bucket::TestRuntime
    } else if n == 6 {
        Bucket::AndroidTestCompile
    } else {
        Bucket::AndroidTestRuntime
    }
}

/// Whether a `group:artifact` is declared under one of the scopes.
pub open spec fn is_root(declared: Seq<Declared>, scopes: Seq<MavenScope>, ga: Ga) -> bool {
    exists|i: int|
        0 <= i < declared.len() && scopes.contains((#[trigger] declared[i]).scope)
            && declared[i].gav.ga == ga
}

/// Whether an edge is followed: any edge, or only those of one scope.
pub open spec fn is_followed(edge: Edge, only: Option<PomScope>) -> bool {
    match only {
        Some(scope) => edge.scope == scope,
        None => true,
    }
}

/// Whether node `i` has a followed edge `e` to `ga`.
pub open spec fn leads(winners: Seq<Node>, only: Option<PomScope>, i: int, e: int, ga: Ga) -> bool {
    &&& 0 <= i < winners.len()
    &&& 0 <= e < winners[i].edges.len()
    &&& is_followed(winners[i].edges[e], only)
    &&& winners[i].edges[e].ga == ga
}

/// Whether a followed edge leads from one `group:artifact` to another.
pub open spec fn step(winners: Seq<Node>, only: Option<PomScope>, from: Ga, to: Ga) -> bool {
    exists|i: int, e: int| #[trigger]
        leads(winners, only, i, e, to) && winners[i].gav.ga == from
}

/// Whether a path starts at a declared root and follows edges all the way.
pub open spec fn is_path(
    winners: Seq<Node>,
    declared: Seq<Declared>,
    scopes: Seq<MavenScope>,
    only: Option<PomScope>,
    path: Seq<Ga>,
) -> bool {
    &&& path.len() > 0
    &&& is_root(declared, scopes, path[0])
    &&& forall|k: int|
        0 <= k < path.len() - 1 ==> step(winners, only, #[trigger] path[k], path[k + 1])
}

/// Whether a `group:artifact` can be reached from the roots declared under
/// the scopes.
pub open spec fn reachable(
    winners: Seq<Node>,
    declared: Seq<Declared>,
    scopes: Seq<MavenScope>,
    only: Option<PomScope>,
    ga: Ga,
) -> bool {
    exists|path: Seq<Ga>| #[trigger]
        is_path(winners, declared, scopes, only, path) && path.last() == ga
}

/// Whether a `group:artifact` belongs on the main compile classpath.
pub open spec fn in_compile(winners: Seq<Node>, declared: Seq<Declared>, ga: Ga) -> bool {
    ||| reachable(
        winners,
        declared,
        seq![MavenScope::Api, MavenScope::Implementation],
        Some(PomScope::Compile),
        ga,
    )
    ||| is_root(declared, seq![MavenScope::CompileOnly], ga)
}

/// Whether a `group:artifact` belongs on the main runtime classpath.
pub open spec fn in_runtime(winners: Seq<Node>, declared: Seq<Declared>, ga: Ga) -> bool {
    reachable(
        winners,
        declared,
        seq![MavenScope::Api, MavenScope::Implementation, MavenScope::RuntimeOnly],
        None,
        ga,
    )
}

/// Whether a `group:artifact` belongs in a bucket.
pub open spec fn in_bucket(
    bucket: Bucket,
    winners: Seq<Node>,
    declared: Seq<Declared>,
    ga: Ga,
) -> bool {
    match bucket {
        Bucket::Compile => in_compile(winners, declared, ga),
        Bucket::Runtime => in_runtime(winners, declared, ga),
        Bucket::Processor => reachable(winners, declared, seq![MavenScope::Ksp], None, ga),
        Bucket::Api => is_root(declared, seq![MavenScope::Api], ga),
        Bucket::TestCompile => in_compile(winners, declared, ga) || reachable(
            winners,
            declared,
            seq![MavenScope::TestImplementation],
            Some(PomScope::Compile),
            ga,
        ),
        Bucket::TestRuntime => in_runtime(winners, declared, ga) || reachable(
            winners,
            declared,
            seq![MavenScope::TestImplementation],
            None,
            ga,
        ),
        Bucket::AndroidTestCompile => in_compile(winners, declared, ga) || reachable(
            winners,
            declared,
            seq![MavenScope::AndroidTestImplementation],
            Some(PomScope::Compile),
            ga,
        ),
        Bucket::AndroidTestRuntime => in_runtime(winners, declared, ga) || reachable(
            winners,
            declared,
            seq![MavenScope::AndroidTestImplementation],
            None,
            ga,
        ),
    }
}

/// The first `n` winning nodes as far as they belong in a bucket, in order.
pub open spec fn members(
    bucket: Bucket,
    winners: Seq<Node>,
    declared: Seq<Declared>,
    n: int,
) -> Seq<Node>
    decreases n,
{
    if n <= 0 {
        Seq::empty()
    } else {
        let before = members(bucket, winners, declared, n - 1);
        if in_bucket(bucket, winners, declared, winners[n - 1].gav.ga) {
            before.push(winners[n - 1])
        } else {
            before
        }
    }
}

/// All winning nodes that belong in a bucket, in order.
pub open spec fn bucket_nodes(
    bucket: Bucket,
    winners: Seq<Node>,
    declared: Seq<Declared>,
) -> Seq<Node> {
    members(bucket, winners, declared, winners.len() as int)
}

/// Whether `list` contains `scope`.
fn has_scope(list: &Vec<MavenScope>, scope: MavenScope) -> (yes: bool)
    ensures
        yes == list@.contains(scope),
{
    let mut i: usize = 0;
    while i < list.len()
        invariant
            i <= list.len(),
            forall|j: int| 0 <= j < i ==> list@[j] != scope,
        decreases list.len() - i,
    {
        if list[i] == scope {
            return true;
        }
        i += 1;
    }
    false
}

fn declares(
    declared: &Vec<DeclaredDep>,
    scopes: &Vec<MavenScope>,
    group: &str,
    artifact: &str,
) -> (yes: bool)
    ensures
        yes == is_root(
            maven::declared_deps(declared@),
            scopes@,
            Ga { group: group@, artifact: artifact@ },
        ),
{
    let ghost roots = maven::declared_deps(declared@);
    let ghost ga = Ga { group: group@, artifact: artifact@ };
    let mut i: usize = 0;
    while i < declared.len()
        invariant
            roots == maven::declared_deps(declared@),
            ga == (Ga { group: group@, artifact: artifact@ }),
            i <= declared.len(),
            forall|j: int|
                0 <= j < i ==> !(scopes@.contains((#[trigger] roots[j]).scope) && roots[j].gav.ga
                    == ga),
        decreases declared.len() - i,
    {
        let dep = &declared[i];
        assert(roots[i as int] == dep@);
        if has_scope(scopes, dep.scope) && text::str_eq(&dep.dependency.group, group)
            && text::str_eq(&dep.dependency.artifact, artifact) {
            return true;
        }
        i += 1;
    }
    false
}

/// Whether position `j` waits to be looked at.
spec fn waits(todo: Seq<usize>, j: int) -> bool {
    exists|k: int| 0 <= k < todo.len() && #[trigger] todo[k] == j
}

/// How many positions are not marked.
spec fn unmarked(marked: Seq<bool>) -> nat
    decreases marked.len(),
{
    if marked.len() == 0 {
        0
    } else {
        unmarked(marked.drop_last()) + if marked.last() {
            0nat
        } else {
            1nat
        }
    }
}

proof fn lemma_mark(marked: Seq<bool>, at: int)
    requires
        0 <= at < marked.len(),
        !marked[at],
    ensures
        unmarked(marked.update(at, true)) + 1 == unmarked(marked),
    decreases marked.len(),
{
    let after = marked.update(at, true);
    if at == marked.len() - 1 {
        assert(after.drop_last() == marked.drop_last());
    } else {
        assert(after.drop_last() == marked.drop_last().update(at, true));
        lemma_mark(marked.drop_last(), at);
    }
}

pub proof fn lemma_path_extends(
    winners: Seq<Node>,
    declared: Seq<Declared>,
    scopes: Seq<MavenScope>,
    only: Option<PomScope>,
    i: int,
    e: int,
    ga: Ga,
)
    requires
        leads(winners, only, i, e, ga),
        reachable(winners, declared, scopes, only, winners[i].gav.ga),
    ensures
        reachable(winners, declared, scopes, only, ga),
{
    let from = winners[i].gav.ga;
    let path = choose|path: Seq<Ga>| #[trigger]
        is_path(winners, declared, scopes, only, path) && path.last() == from;
    let longer = path.push(ga);
    assert(step(winners, only, from, ga));
    assert forall|k: int| 0 <= k < longer.len() - 1 implies step(
        winners,
        only,
        #[trigger] longer[k],
        longer[k + 1],
    ) by {
        if k < path.len() - 1 {
            assert(step(winners, only, path[k], path[k + 1]));
        }
    }
    assert(is_path(winners, declared, scopes, only, longer));
}

pub proof fn lemma_root_reachable(
    winners: Seq<Node>,
    declared: Seq<Declared>,
    scopes: Seq<MavenScope>,
    only: Option<PomScope>,
    ga: Ga,
)
    requires
        is_root(declared, scopes, ga),
    ensures
        reachable(winners, declared, scopes, only, ga),
{
    let path = seq![ga];
    assert(is_path(winners, declared, scopes, only, path));
}

/// Whether everything that node `i` leads to is marked.
spec fn is_closed(winners: Seq<Node>, only: Option<PomScope>, marked: Seq<bool>, i: int) -> bool {
    forall|e: int, j: int|
        0 <= j < winners.len() && #[trigger] leads(
            winners,
            only,
            i,
            e,
            (#[trigger] winners[j]).gav.ga,
        ) ==> marked[j]
}

proof fn lemma_all_reached(
    winners: Seq<Node>,
    declared: Seq<Declared>,
    scopes: Seq<MavenScope>,
    only: Option<PomScope>,
    marked: Seq<bool>,
    path: Seq<Ga>,
    at: int,
)
    requires
        marked.len() == winners.len(),
        forall|i: int|
            0 <= i < winners.len() && is_root(declared, scopes, (#[trigger] winners[i]).gav.ga)
                ==> marked[i],
        forall|i: int|
            0 <= i < winners.len() && #[trigger] marked[i] ==> is_closed(winners, only, marked, i),
        is_path(winners, declared, scopes, only, path),
        0 <= at < winners.len(),
        path.last() == winners[at].gav.ga,
    ensures
        marked[at],
    decreases path.len(),
{
    let n = path.len() - 1;
    if n > 0 {
        let shorter = path.drop_last();
        assert(step(winners, only, path[n - 1], path[n]));
        let (i, e) = choose|i: int, e: int| #[trigger]
            leads(winners, only, i, e, path[n]) && winners[i].gav.ga == path[n - 1];
        assert forall|k: int| 0 <= k < shorter.len() - 1 implies step(
            winners,
            only,
            #[trigger] shorter[k],
            shorter[k + 1],
        ) by {
            assert(step(winners, only, path[k], path[k + 1]));
        }
        assert(is_path(winners, declared, scopes, only, shorter));
        lemma_all_reached(winners, declared, scopes, only, marked, shorter, i);
        assert(is_closed(winners, only, marked, i));
        assert(leads(winners, only, i, e, winners[at].gav.ga));
    }
}

/// Which winning nodes can be reached from the roots declared under the
/// scopes, along the edges that are followed.
pub fn reach(
    nodes: &Vec<GraphNode>,
    at: &Vec<usize>,
    declared: &Vec<DeclaredDep>,
    scopes: &Vec<MavenScope>,
    only: Option<PomScope>,
) -> (marked: Vec<bool>)
    requires
        graph::are_positions(nodes@, at@),
    ensures
        marked@.len() == at@.len(),
        forall|i: int|
            0 <= i < at@.len() ==> #[trigger] marked@[i] == reachable(
                graph::picked(nodes@, at@),
                maven::declared_deps(declared@),
                scopes@,
                only,
                graph::picked(nodes@, at@)[i].gav.ga,
            ),
{
    let ghost winners = graph::picked(nodes@, at@);
    let ghost roots = maven::declared_deps(declared@);
    let mut marked: Vec<bool> = Vec::new();
    let mut todo: Vec<usize> = Vec::new();
    let mut i: usize = 0;
    while i < at.len()
        invariant
            graph::are_positions(nodes@, at@),
            winners == graph::picked(nodes@, at@),
            roots == maven::declared_deps(declared@),
            i <= at.len(),
            marked@.len() == i,
            forall|j: int|
                0 <= j < i ==> #[trigger] marked@[j] == is_root(
                    roots,
                    scopes@,
                    winners[j].gav.ga,
                ),
            forall|j: int| 0 <= j < i && #[trigger] marked@[j] ==> waits(todo@, j),
            forall|k: int| 0 <= k < todo@.len() ==> (#[trigger] todo@[k]) < i && marked@[todo@[k] as int],
        decreases at.len() - i,
    {
        let coordinate = &nodes[at[i]].coordinate;
        assert(winners[i as int].gav == coordinate@);
        let root = declares(declared, scopes, &coordinate.group, &coordinate.artifact);
        let ghost was = todo@;
        let ghost flags = marked@;
        marked.push(root);
        if root {
            todo.push(i);
            assert(todo@[was.len() as int] == i);
        }
        proof {
            assert forall|j: int| 0 <= j < i + 1 && #[trigger] marked@[j] implies waits(
                todo@,
                j,
            ) by {
                if j < i {
                    assert(flags[j]);
                    let k = choose|k: int| 0 <= k < was.len() && #[trigger] was[k] == j;
                    assert(todo@[k] == j);
                }
            }
            assert forall|k: int| 0 <= k < todo@.len() implies (#[trigger] todo@[k]) < i + 1
                && marked@[todo@[k] as int] by {
                if k < was.len() {
                    assert(todo@[k] == was[k]);
                    assert(flags[was[k] as int]);
                }
            }
        }
        i += 1;
    }
    proof {
        assert forall|j: int| 0 <= j < winners.len() && #[trigger] marked@[j] implies reachable(
            winners,
            roots,
            scopes@,
            only,
            winners[j].gav.ga,
        ) by {
            lemma_root_reachable(winners, roots, scopes@, only, winners[j].gav.ga);
        }
    }
    while todo.len() > 0
        invariant
            graph::are_positions(nodes@, at@),
            winners == graph::picked(nodes@, at@),
            roots == maven::declared_deps(declared@),
            marked@.len() == winners.len(),
            forall|j: int|
                0 <= j < winners.len() && is_root(roots, scopes@, (#[trigger] winners[j]).gav.ga)
                    ==> marked@[j],
            forall|j: int|
                0 <= j < winners.len() && #[trigger] marked@[j] ==> reachable(
                    winners,
                    roots,
                    scopes@,
                    only,
                    winners[j].gav.ga,
                ),
            forall|k: int|
                0 <= k < todo@.len() ==> (#[trigger] todo@[k]) < winners.len()
                    && marked@[todo@[k] as int],
            forall|j: int|
                0 <= j < winners.len() && #[trigger] marked@[j] ==> waits(todo@, j)
                    || is_closed(winners, only, marked@, j),
        decreases 2 * unmarked(marked@) + todo@.len(),
    {
        let ghost measure = 2 * unmarked(marked@) + todo@.len();
        let ghost outer = todo@;
        let n: usize = todo.len();
        let current: usize = todo[n - 1];
        let _ = todo.pop();
        let node = &nodes[at[current]];
        assert(winners[current as int] == node@);
        assert(outer[n - 1] == current && marked@[current as int]);
        proof {
            assert forall|j: int| 0 <= j < winners.len() && #[trigger] marked@[j] && j
                != current implies waits(todo@, j) || is_closed(
                winners,
                only,
                marked@,
                j,
            ) by {
                if waits(outer, j) {
                    let k = choose|k: int| 0 <= k < outer.len() && #[trigger] outer[k] == j;
                    assert(todo@[k] == j);
                }
            }
            assert forall|k: int| 0 <= k < todo@.len() implies (#[trigger] todo@[k])
                < winners.len() && marked@[todo@[k] as int] by {
                assert(todo@[k] == outer[k]);
            }
        }
        let mut e: usize = 0;
        while e < node.edges.len()
            invariant
                graph::are_positions(nodes@, at@),
                winners == graph::picked(nodes@, at@),
                roots == maven::declared_deps(declared@),
                marked@.len() == winners.len(),
                current < winners.len(),
                winners[current as int] == node@,
                marked@[current as int],
                e <= node.edges@.len(),
                2 * unmarked(marked@) + todo@.len() < measure,
                forall|j: int|
                    0 <= j < winners.len() && is_root(
                        roots,
                        scopes@,
                        (#[trigger] winners[j]).gav.ga,
                    ) ==> marked@[j],
                forall|j: int|
                    0 <= j < winners.len() && #[trigger] marked@[j] ==> reachable(
                        winners,
                        roots,
                        scopes@,
                        only,
                        winners[j].gav.ga,
                    ),
                forall|k: int|
                    0 <= k < todo@.len() ==> (#[trigger] todo@[k]) < winners.len()
                        && marked@[todo@[k] as int],
                forall|j: int|
                    0 <= j < winners.len() && #[trigger] marked@[j] && j != current
                        ==> waits(todo@, j) || is_closed(winners, only, marked@, j),
                forall|f: int, j: int|
                    0 <= f < e && 0 <= j < winners.len() && #[trigger] leads(
                        winners,
                        only,
                        current as int,
                        f,
                        (#[trigger] winners[j]).gav.ga,
                    ) ==> marked@[j],
            decreases node.edges.len() - e,
        {
            let edge = &node.edges[e];
            assert(winners[current as int].edges[e as int] == edge@);
            let follows = match only {
                Some(scope) => edge.scope == scope,
                None => true,
            };
            assert(follows == is_followed(edge@, only));
            let mut t: usize = 0;
            while follows && t < at.len()
                invariant
                    graph::are_positions(nodes@, at@),
                    winners == graph::picked(nodes@, at@),
                    roots == maven::declared_deps(declared@),
                    marked@.len() == winners.len(),
                    current < winners.len(),
                    winners[current as int] == node@,
                    marked@[current as int],
                    e < node.edges@.len(),
                    winners[current as int].edges[e as int] == edge@,
                    *edge == node.edges@[e as int],
                    follows == is_followed(edge@, only),
                    t <= at@.len(),
                    2 * unmarked(marked@) + todo@.len() < measure,
                    forall|j: int|
                        0 <= j < winners.len() && is_root(
                            roots,
                            scopes@,
                            (#[trigger] winners[j]).gav.ga,
                        ) ==> marked@[j],
                    forall|j: int|
                        0 <= j < winners.len() && #[trigger] marked@[j] ==> reachable(
                            winners,
                            roots,
                            scopes@,
                            only,
                            winners[j].gav.ga,
                        ),
                    forall|k: int|
                        0 <= k < todo@.len() ==> (#[trigger] todo@[k]) < winners.len()
                            && marked@[todo@[k] as int],
                    forall|j: int|
                        0 <= j < winners.len() && #[trigger] marked@[j] && j != current
                            ==> waits(todo@, j) || is_closed(
                            winners,
                            only,
                            marked@,
                            j,
                        ),
                    forall|f: int, j: int|
                        0 <= f < e && 0 <= j < winners.len() && #[trigger] leads(
                            winners,
                            only,
                            current as int,
                            f,
                            (#[trigger] winners[j]).gav.ga,
                        ) ==> marked@[j],
                    forall|j: int|
                        0 <= j < t && (#[trigger] winners[j]).gav.ga == edge@.ga ==> marked@[j],
                decreases at.len() - t,
            {
                let target = &nodes[at[t]].coordinate;
                assert(winners[t as int].gav == target@);
                if text::str_eq(&target.group, &edge.group) && text::str_eq(
                    &target.artifact,
                    &edge.artifact,
                ) && !marked[t] {
                    let ghost flags = marked@;
                    let ghost was = todo@;
                    proof {
                        assert(leads(
                            winners,
                            only,
                            current as int,
                            e as int,
                            winners[t as int].gav.ga,
                        ));
                        lemma_path_extends(
                            winners,
                            roots,
                            scopes@,
                            only,
                            current as int,
                            e as int,
                            winners[t as int].gav.ga,
                        );
                        lemma_mark(flags, t as int);
                    }
                    marked[t] = true;
                    todo.push(t);
                    proof {
                        assert(todo@[was.len() as int] == t);
                        assert forall|k: int| 0 <= k < todo@.len() implies (#[trigger] todo@[k])
                            < winners.len() && marked@[todo@[k] as int] by {
                            if k < was.len() {
                                assert(todo@[k] == was[k]);
                                assert(flags[was[k] as int]);
                            }
                        }
                        assert forall|j: int|
                            0 <= j < winners.len() && #[trigger] marked@[j] && j
                                != current implies waits(todo@, j) || is_closed(
                            winners,
                            only,
                            marked@,
                            j,
                        ) by {
                            if j != t {
                                assert(flags[j]);
                                if waits(was, j) {
                                    let k = choose|k: int|
                                        0 <= k < was.len() && #[trigger] was[k] == j;
                                    assert(todo@[k] == j);
                                } else {
                                    assert(is_closed(winners, only, flags, j));
                                }
                            }
                        }
                    }
                }
                t += 1;
            }
            e += 1;
        }
        assert(is_closed(winners, only, marked@, current as int));
    }
    proof {
        assert forall|i: int| 0 <= i < at@.len() implies #[trigger] marked@[i] == reachable(
            winners,
            roots,
            scopes@,
            only,
            winners[i].gav.ga,
        ) by {
            if reachable(winners, roots, scopes@, only, winners[i].gav.ga) {
                let path = choose|path: Seq<Ga>| #[trigger]
                    is_path(winners, roots, scopes@, only, path) && path.last()
                        == winners[i].gav.ga;
                lemma_all_reached(winners, roots, scopes@, only, marked@, path, i);
            }
        }
    }
    marked
}

fn direct(
    nodes: &Vec<GraphNode>,
    at: &Vec<usize>,
    declared: &Vec<DeclaredDep>,
    scopes: &Vec<MavenScope>,
) -> (marked: Vec<bool>)
    requires
        graph::are_positions(nodes@, at@),
    ensures
        marked@.len() == at@.len(),
        forall|i: int|
            0 <= i < at@.len() ==> #[trigger] marked@[i] == is_root(
                maven::declared_deps(declared@),
                scopes@,
                graph::picked(nodes@, at@)[i].gav.ga,
            ),
{
    let mut marked: Vec<bool> = Vec::new();
    let mut i: usize = 0;
    while i < at.len()
        invariant
            graph::are_positions(nodes@, at@),
            i <= at.len(),
            marked@.len() == i,
            forall|j: int|
                0 <= j < i ==> #[trigger] marked@[j] == is_root(
                    maven::declared_deps(declared@),
                    scopes@,
                    graph::picked(nodes@, at@)[j].gav.ga,
                ),
        decreases at.len() - i,
    {
        let coordinate = &nodes[at[i]].coordinate;
        marked.push(declares(declared, scopes, &coordinate.group, &coordinate.artifact));
        i += 1;
    }
    marked
}

fn either(a: &Vec<bool>, b: &Vec<bool>) -> (both: Vec<bool>)
    requires
        a@.len() == b@.len(),
    ensures
        both@.len() == a@.len(),
        forall|i: int| 0 <= i < a@.len() ==> #[trigger] both@[i] == (a@[i] || b@[i]),
{
    let mut both: Vec<bool> = Vec::new();
    let mut i: usize = 0;
    while i < a.len()
        invariant
            a@.len() == b@.len(),
            i <= a@.len(),
            both@.len() == i,
            forall|j: int| 0 <= j < i ==> #[trigger] both@[j] == (a@[j] || b@[j]),
        decreases a.len() - i,
    {
        both.push(a[i] || b[i]);
        i += 1;
    }
    both
}

fn scope_list(list: &[MavenScope]) -> (scopes: Vec<MavenScope>)
    ensures
        scopes@ == list@,
{
    let mut scopes: Vec<MavenScope> = Vec::new();
    let mut i: usize = 0;
    while i < list.len()
        invariant
            i <= list@.len(),
            scopes@ == list@.take(i as int),
        decreases list.len() - i,
    {
        scopes.push(list[i]);
        assert(list@.take(i + 1) == list@.take(i as int).push(list@[i as int]));
        i += 1;
    }
    assert(list@.take(i as int) == list@);
    scopes
}

fn reach_from(
    nodes: &Vec<GraphNode>,
    at: &Vec<usize>,
    declared: &Vec<DeclaredDep>,
    list: &[MavenScope],
    only: Option<PomScope>,
) -> (marked: Vec<bool>)
    requires
        graph::are_positions(nodes@, at@),
    ensures
        marked@.len() == at@.len(),
        forall|i: int|
            0 <= i < at@.len() ==> #[trigger] marked@[i] == reachable(
                graph::picked(nodes@, at@),
                maven::declared_deps(declared@),
                list@,
                only,
                graph::picked(nodes@, at@)[i].gav.ga,
            ),
{
    let scopes = scope_list(list);
    reach(nodes, at, declared, &scopes, only)
}

fn compile_set(nodes: &Vec<GraphNode>, at: &Vec<usize>, declared: &Vec<DeclaredDep>) -> (marked:
    Vec<bool>)
    requires
        graph::are_positions(nodes@, at@),
    ensures
        marked@.len() == at@.len(),
        forall|i: int|
            0 <= i < at@.len() ==> #[trigger] marked@[i] == in_compile(
                graph::picked(nodes@, at@),
                maven::declared_deps(declared@),
                graph::picked(nodes@, at@)[i].gav.ga,
            ),
{
    let closure = reach_from(
        nodes,
        at,
        declared,
        &[MavenScope::Api, MavenScope::Implementation],
        Some(PomScope::Compile),
    );
    assert([MavenScope::Api, MavenScope::Implementation]@ == seq![
        MavenScope::Api,
        MavenScope::Implementation,
    ]);
    let only = scope_list(&[MavenScope::CompileOnly]);
    assert(only@ == seq![MavenScope::CompileOnly]);
    either(&closure, &direct(nodes, at, declared, &only))
}

fn runtime_set(nodes: &Vec<GraphNode>, at: &Vec<usize>, declared: &Vec<DeclaredDep>) -> (marked:
    Vec<bool>)
    requires
        graph::are_positions(nodes@, at@),
    ensures
        marked@.len() == at@.len(),
        forall|i: int|
            0 <= i < at@.len() ==> #[trigger] marked@[i] == in_runtime(
                graph::picked(nodes@, at@),
                maven::declared_deps(declared@),
                graph::picked(nodes@, at@)[i].gav.ga,
            ),
{
    assert([MavenScope::Api, MavenScope::Implementation, MavenScope::RuntimeOnly]@ == seq![
        MavenScope::Api,
        MavenScope::Implementation,
        MavenScope::RuntimeOnly,
    ]);
    reach_from(
        nodes,
        at,
        declared,
        &[MavenScope::Api, MavenScope::Implementation, MavenScope::RuntimeOnly],
        None,
    )
}

/// Which winning nodes belong in a bucket.
pub fn bucket(
    which: Bucket,
    nodes: &Vec<GraphNode>,
    at: &Vec<usize>,
    declared: &Vec<DeclaredDep>,
) -> (marked: Vec<bool>)
    requires
        graph::are_positions(nodes@, at@),
    ensures
        marked@.len() == at@.len(),
        forall|i: int|
            0 <= i < at@.len() ==> #[trigger] marked@[i] == in_bucket(
                which,
                graph::picked(nodes@, at@),
                maven::declared_deps(declared@),
                graph::picked(nodes@, at@)[i].gav.ga,
            ),
{
    assert([MavenScope::Ksp]@ == seq![MavenScope::Ksp]);
    assert([MavenScope::Api]@ == seq![MavenScope::Api]);
    assert([MavenScope::TestImplementation]@ == seq![MavenScope::TestImplementation]);
    assert([MavenScope::AndroidTestImplementation]@ == seq![
        MavenScope::AndroidTestImplementation,
    ]);
    match which {
        Bucket::Compile => compile_set(nodes, at, declared),
        Bucket::Runtime => runtime_set(nodes, at, declared),
        Bucket::Processor => reach_from(nodes, at, declared, &[MavenScope::Ksp], None),
        Bucket::Api => {
            let scopes = scope_list(&[MavenScope::Api]);
            direct(nodes, at, declared, &scopes)
        },
        Bucket::TestCompile => either(
            &compile_set(nodes, at, declared),
            &reach_from(
                nodes,
                at,
                declared,
                &[MavenScope::TestImplementation],
                Some(PomScope::Compile),
            ),
        ),
        Bucket::TestRuntime => either(
            &runtime_set(nodes, at, declared),
            &reach_from(nodes, at, declared, &[MavenScope::TestImplementation], None),
        ),
        Bucket::AndroidTestCompile => either(
            &compile_set(nodes, at, declared),
            &reach_from(
                nodes,
                at,
                declared,
                &[MavenScope::AndroidTestImplementation],
                Some(PomScope::Compile),
            ),
        ),
        Bucket::AndroidTestRuntime => either(
            &runtime_set(nodes, at, declared),
            &reach_from(nodes, at, declared, &[MavenScope::AndroidTestImplementation], None),
        ),
    }
}

pub proof fn lemma_reach_more(
    winners: Seq<Node>,
    declared: Seq<Declared>,
    few: Seq<MavenScope>,
    many: Seq<MavenScope>,
    only: Option<PomScope>,
    ga: Ga,
)
    requires
        forall|scope: MavenScope| #[trigger] few.contains(scope) ==> many.contains(scope),
        reachable(winners, declared, few, only, ga),
    ensures
        reachable(winners, declared, many, None, ga),
{
    let path = choose|path: Seq<Ga>| #[trigger]
        is_path(winners, declared, few, only, path) && path.last() == ga;
    let i = choose|i: int|
        0 <= i < declared.len() && few.contains((#[trigger] declared[i]).scope)
            && declared[i].gav.ga == path[0];
    assert(many.contains(declared[i].scope));
    assert forall|k: int| 0 <= k < path.len() - 1 implies step(
        winners,
        None,
        #[trigger] path[k],
        path[k + 1],
    ) by {
        assert(step(winners, only, path[k], path[k + 1]));
        let (n, e) = choose|n: int, e: int| #[trigger]
            leads(winners, only, n, e, path[k + 1]) && winners[n].gav.ga == path[k];
        assert(leads(winners, None, n, e, path[k + 1]));
    }
    assert(is_path(winners, declared, many, None, path));
}

/// The classpaths of tests contain the main ones.
pub proof fn law_tests_layer_on_main(winners: Seq<Node>, declared: Seq<Declared>, ga: Ga)
    ensures
        in_bucket(Bucket::Compile, winners, declared, ga) ==> in_bucket(
            Bucket::TestCompile,
            winners,
            declared,
            ga,
        ) && in_bucket(Bucket::AndroidTestCompile, winners, declared, ga),
        in_bucket(Bucket::Runtime, winners, declared, ga) ==> in_bucket(
            Bucket::TestRuntime,
            winners,
            declared,
            ga,
        ) && in_bucket(Bucket::AndroidTestRuntime, winners, declared, ga),
{
}

/// What consumers see is also compiled against and run with.
pub proof fn law_api_is_compiled_and_run(winners: Seq<Node>, declared: Seq<Declared>, ga: Ga)
    requires
        in_bucket(Bucket::Api, winners, declared, ga),
    ensures
        in_bucket(Bucket::Compile, winners, declared, ga),
        in_bucket(Bucket::Runtime, winners, declared, ga),
{
    let api = seq![MavenScope::Api];
    let main = seq![MavenScope::Api, MavenScope::Implementation];
    let run = seq![MavenScope::Api, MavenScope::Implementation, MavenScope::RuntimeOnly];
    let i = choose|i: int|
        0 <= i < declared.len() && api.contains((#[trigger] declared[i]).scope)
            && declared[i].gav.ga == ga;
    assert(main[0] == MavenScope::Api && run[0] == MavenScope::Api);
    assert(main.contains(declared[i].scope) && run.contains(declared[i].scope));
    lemma_root_reachable(winners, declared, main, Some(PomScope::Compile), ga);
    lemma_root_reachable(winners, declared, run, None, ga);
}

/// What a module compiles against it also runs with, `compileOnly` deps apart.
pub proof fn law_compiled_code_runs(winners: Seq<Node>, declared: Seq<Declared>, ga: Ga)
    requires
        in_bucket(Bucket::Compile, winners, declared, ga),
        !is_root(declared, seq![MavenScope::CompileOnly], ga),
    ensures
        in_bucket(Bucket::Runtime, winners, declared, ga),
{
    let main = seq![MavenScope::Api, MavenScope::Implementation];
    let run = seq![MavenScope::Api, MavenScope::Implementation, MavenScope::RuntimeOnly];
    assert forall|scope: MavenScope| #[trigger] main.contains(scope) implies run.contains(scope) by {
        let k = choose|k: int| 0 <= k < main.len() && main[k] == scope;
        assert(run[k] == scope);
    }
    lemma_reach_more(winners, declared, main, run, Some(PomScope::Compile), ga);
}

/// A `compileOnly` dep contributes its own jar and nothing else: where nothing
/// else is declared, the compile classpath holds the declared deps only and
/// the runtime classpath is empty.
pub proof fn law_compile_only_stands_alone(winners: Seq<Node>, declared: Seq<Declared>, ga: Ga)
    requires
        forall|i: int|
            0 <= i < declared.len() ==> (#[trigger] declared[i]).scope == MavenScope::CompileOnly,
    ensures
        in_bucket(Bucket::Compile, winners, declared, ga) <==> is_root(
            declared,
            seq![MavenScope::CompileOnly],
            ga,
        ),
        !in_bucket(Bucket::Runtime, winners, declared, ga),
{
    let main = seq![MavenScope::Api, MavenScope::Implementation];
    let run = seq![MavenScope::Api, MavenScope::Implementation, MavenScope::RuntimeOnly];
    if reachable(winners, declared, main, Some(PomScope::Compile), ga) {
        let path = choose|path: Seq<Ga>| #[trigger]
            is_path(winners, declared, main, Some(PomScope::Compile), path) && path.last() == ga;
        assert(is_root(declared, main, path[0]));
    }
    if reachable(winners, declared, run, None, ga) {
        let path = choose|path: Seq<Ga>| #[trigger]
            is_path(winners, declared, run, None, path) && path.last() == ga;
        assert(is_root(declared, run, path[0]));
    }
}

proof fn lemma_members(bucket: Bucket, winners: Seq<Node>, declared: Seq<Declared>, n: int)
    requires
        graph::in_order(winners),
        0 <= n <= winners.len(),
    ensures
        graph::in_order(members(bucket, winners, declared, n)),
        forall|i: int|
            0 <= i < members(bucket, winners, declared, n).len() ==> exists|j: int|
                0 <= j < n && winners[j] == #[trigger] members(bucket, winners, declared, n)[i],
    decreases n,
{
    if n > 0 {
        lemma_members(bucket, winners, declared, n - 1);
        let before = members(bucket, winners, declared, n - 1);
        let after = members(bucket, winners, declared, n);
        assert forall|i: int| 0 <= i < after.len() implies exists|j: int|
            0 <= j < n && winners[j] == #[trigger] after[i] by {
            if i < before.len() {
                assert(after[i] == before[i]);
                let j = choose|j: int| 0 <= j < n - 1 && winners[j] == before[i];
                assert(winners[j] == after[i]);
            } else {
                assert(winners[n - 1] == after[i]);
            }
        }
        assert forall|i: int, j: int| 0 <= i < j < after.len() implies graph::compare_ga(
            (#[trigger] after[i]).gav.ga,
            (#[trigger] after[j]).gav.ga,
        ) == text::Relation::Less by {
            if j < before.len() {
                assert(after[i] == before[i] && after[j] == before[j]);
            } else {
                assert(after[i] == before[i]);
                let k = choose|k: int| 0 <= k < n - 1 && winners[k] == before[i];
                assert(winners[k] == after[i] && winners[n - 1] == after[j]);
            }
        }
    }
}

/// Every bucket is sorted by group and artifact and holds each of them once.
pub proof fn law_buckets_are_sorted(bucket: Bucket, nodes: Seq<Node>, declared: Seq<Declared>)
    ensures
        graph::in_order(bucket_nodes(bucket, graph::winners_of(nodes), declared)),
{
    let winners = graph::winners_of(nodes);
    graph::law_one_winner_each(nodes);
    lemma_members(bucket, winners, declared, winners.len() as int);
}

} // verus!
