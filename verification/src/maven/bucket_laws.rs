//! What each classpath holds, told by what is declared and by what the POMs
//! name: each one is the smallest that holds its roots and keeps to its rule.

use vstd::prelude::*;
use crate::maven::buckets;
use crate::maven::buckets::Bucket;
use crate::maven::graph::Node;
use crate::maven::pom::PomScope;
use crate::maven::{Declared, Ga, MavenScope};

verus! {

/// Whether a `group:artifact` is declared under a scope.
pub open spec fn is_declared(declared: Seq<Declared>, scope: MavenScope, ga: Ga) -> bool {
    exists|k: int|
        0 <= k < declared.len() && (#[trigger] declared[k]).scope == scope && declared[k].gav.ga
            == ga
}

/// Whether the POM of a winning node names a `group:artifact`.
pub open spec fn names(winners: Seq<Node>, i: int, ga: Ga) -> bool {
    0 <= i < winners.len() && exists|e: int|
        0 <= e < winners[i].edges.len() && (#[trigger] winners[i].edges[e]).ga == ga
}

/// Whether the POM of a winning node names a `group:artifact` in compile scope.
pub open spec fn names_to_compile(winners: Seq<Node>, i: int, ga: Ga) -> bool {
    0 <= i < winners.len() && exists|e: int|
        0 <= e < winners[i].edges.len() && (#[trigger] winners[i].edges[e]).ga == ga
            && winners[i].edges[e].scope == PomScope::Compile
}

/// Whether a set holds whatever the POM of a member names.
pub open spec fn is_closed(winners: Seq<Node>, set: Set<Ga>) -> bool {
    forall|i: int, ga: Ga| #[trigger]
        names(winners, i, ga) && set.contains(winners[i].gav.ga) ==> set.contains(ga)
}

/// Whether a set holds whatever the POM of a member names in compile scope.
pub open spec fn is_closed_to_compile(winners: Seq<Node>, set: Set<Ga>) -> bool {
    forall|i: int, ga: Ga| #[trigger]
        names_to_compile(winners, i, ga) && set.contains(winners[i].gav.ga) ==> set.contains(ga)
}

proof fn lemma_step(
    winners: Seq<Node>,
    declared: Seq<Declared>,
    scopes: Seq<MavenScope>,
    i: int,
    ga: Ga,
)
    requires
        names(winners, i, ga),
        buckets::reachable(winners, declared, scopes, None, winners[i].gav.ga),
    ensures
        buckets::reachable(winners, declared, scopes, None, ga),
{
    let e = choose|e: int|
        0 <= e < winners[i].edges.len() && (#[trigger] winners[i].edges[e]).ga == ga;
    assert(buckets::leads(winners, None, i, e, ga));
    buckets::lemma_path_extends(winners, declared, scopes, None, i, e, ga);
}

proof fn lemma_compile_step(
    winners: Seq<Node>,
    declared: Seq<Declared>,
    scopes: Seq<MavenScope>,
    i: int,
    ga: Ga,
)
    requires
        names_to_compile(winners, i, ga),
        buckets::reachable(
            winners,
            declared,
            scopes,
            Some(PomScope::Compile),
            winners[i].gav.ga,
        ),
    ensures
        buckets::reachable(winners, declared, scopes, Some(PomScope::Compile), ga),
{
    let e = choose|e: int|
        0 <= e < winners[i].edges.len() && (#[trigger] winners[i].edges[e]).ga == ga
            && winners[i].edges[e].scope == PomScope::Compile;
    assert(buckets::leads(winners, Some(PomScope::Compile), i, e, ga));
    buckets::lemma_path_extends(
        winners,
        declared,
        scopes,
        Some(PomScope::Compile),
        i,
        e,
        ga,
    );
}

/// The classpaths that code runs with are closed: where an artifact is on one,
/// so is whatever its POM names, in any scope, however the artifact got there.
pub proof fn law_runtimes_are_closed(winners: Seq<Node>, declared: Seq<Declared>, i: int, ga: Ga)
    requires
        names(winners, i, ga),
    ensures
        buckets::in_bucket(Bucket::Runtime, winners, declared, winners[i].gav.ga)
            ==> buckets::in_bucket(Bucket::Runtime, winners, declared, ga),
        buckets::in_bucket(Bucket::Processor, winners, declared, winners[i].gav.ga)
            ==> buckets::in_bucket(Bucket::Processor, winners, declared, ga),
        buckets::in_bucket(Bucket::TestRuntime, winners, declared, winners[i].gav.ga)
            ==> buckets::in_bucket(Bucket::TestRuntime, winners, declared, ga),
        buckets::in_bucket(Bucket::AndroidTestRuntime, winners, declared, winners[i].gav.ga)
            ==> buckets::in_bucket(Bucket::AndroidTestRuntime, winners, declared, ga),
{
    let from = winners[i].gav.ga;
    let main = seq![MavenScope::Api, MavenScope::Implementation, MavenScope::RuntimeOnly];
    let ksp = seq![MavenScope::Ksp];
    let test = seq![MavenScope::TestImplementation];
    let android = seq![MavenScope::AndroidTestImplementation];
    if buckets::reachable(winners, declared, main, None, from) {
        lemma_step(winners, declared, main, i, ga);
    }
    if buckets::reachable(winners, declared, ksp, None, from) {
        lemma_step(winners, declared, ksp, i, ga);
    }
    if buckets::reachable(winners, declared, test, None, from) {
        lemma_step(winners, declared, test, i, ga);
    }
    if buckets::reachable(winners, declared, android, None, from) {
        lemma_step(winners, declared, android, i, ga);
    }
}

/// The classpaths that code compiles against are closed in compile scope,
/// `compileOnly` deps apart: where an artifact is on one, so is whatever its POM
/// names in compile scope.
pub proof fn law_compile_classpaths_are_closed(
    winners: Seq<Node>,
    declared: Seq<Declared>,
    i: int,
    ga: Ga,
)
    requires
        names_to_compile(winners, i, ga),
        !is_declared(declared, MavenScope::CompileOnly, winners[i].gav.ga),
    ensures
        buckets::in_bucket(Bucket::Compile, winners, declared, winners[i].gav.ga)
            ==> buckets::in_bucket(Bucket::Compile, winners, declared, ga),
        buckets::in_bucket(Bucket::TestCompile, winners, declared, winners[i].gav.ga)
            ==> buckets::in_bucket(Bucket::TestCompile, winners, declared, ga),
        buckets::in_bucket(Bucket::AndroidTestCompile, winners, declared, winners[i].gav.ga)
            ==> buckets::in_bucket(Bucket::AndroidTestCompile, winners, declared, ga),
{
    let from = winners[i].gav.ga;
    let compile = Some(PomScope::Compile);
    let only = seq![MavenScope::CompileOnly];
    let main = seq![MavenScope::Api, MavenScope::Implementation];
    let test = seq![MavenScope::TestImplementation];
    let android = seq![MavenScope::AndroidTestImplementation];
    if buckets::is_root(declared, only, from) {
        let k = choose|k: int|
            0 <= k < declared.len() && only.contains((#[trigger] declared[k]).scope)
                && declared[k].gav.ga == from;
        assert(declared[k].scope == MavenScope::CompileOnly);
    }
    if buckets::reachable(winners, declared, main, compile, from) {
        lemma_compile_step(winners, declared, main, i, ga);
    }
    if buckets::reachable(winners, declared, test, compile, from) {
        lemma_compile_step(winners, declared, test, i, ga);
    }
    if buckets::reachable(winners, declared, android, compile, from) {
        lemma_compile_step(winners, declared, android, i, ga);
    }
}

/// Whether nodes at these positions follow each other by what their POMs name
/// in compile scope.
pub open spec fn is_compile_chain(winners: Seq<Node>, chain: Seq<int>) -> bool {
    &&& chain.len() > 0
    &&& forall|s: int| 0 <= s < chain.len() ==> 0 <= #[trigger] chain[s] < winners.len()
    &&& forall|s: int|
        0 < s < chain.len() ==> names_to_compile(
            winners,
            chain[s - 1],
            winners[#[trigger] chain[s]].gav.ga,
        )
}

proof fn lemma_chain(
    winners: Seq<Node>,
    declared: Seq<Declared>,
    scopes: Seq<MavenScope>,
    chain: Seq<int>,
    s: int,
)
    requires
        is_compile_chain(winners, chain),
        buckets::is_root(declared, scopes, winners[chain[0]].gav.ga),
        0 <= s < chain.len(),
    ensures
        buckets::reachable(
            winners,
            declared,
            scopes,
            Some(PomScope::Compile),
            winners[chain[s]].gav.ga,
        ),
    decreases s,
{
    if s == 0 {
        buckets::lemma_root_reachable(
            winners,
            declared,
            scopes,
            Some(PomScope::Compile),
            winners[chain[0]].gav.ga,
        );
    } else {
        lemma_chain(winners, declared, scopes, chain, s - 1);
        lemma_compile_step(
            winners,
            declared,
            scopes,
            chain[s - 1],
            winners[chain[s]].gav.ga,
        );
    }
}

/// Whatever a chain of compile-scope dependencies leads to from an `api` or
/// `implementation` dep is on every compile classpath, from a test dep on that
/// of the tests.
pub proof fn law_compile_chains_arrive(winners: Seq<Node>, declared: Seq<Declared>, chain: Seq<int>)
    requires
        is_compile_chain(winners, chain),
    ensures
        ({
            let first = winners[chain[0]].gav.ga;
            let last = winners[chain.last()].gav.ga;
            &&& is_declared(declared, MavenScope::Api, first) || is_declared(
                declared,
                MavenScope::Implementation,
                first,
            ) ==> buckets::in_bucket(Bucket::Compile, winners, declared, last)
                && buckets::in_bucket(Bucket::TestCompile, winners, declared, last)
                && buckets::in_bucket(Bucket::AndroidTestCompile, winners, declared, last)
            &&& is_declared(declared, MavenScope::TestImplementation, first) ==> buckets::in_bucket(
                Bucket::TestCompile,
                winners,
                declared,
                last,
            )
            &&& is_declared(declared, MavenScope::AndroidTestImplementation, first)
                ==> buckets::in_bucket(Bucket::AndroidTestCompile, winners, declared, last)
        }),
{
    let first = winners[chain[0]].gav.ga;
    let s = chain.len() - 1;
    let main = seq![MavenScope::Api, MavenScope::Implementation];
    let test = seq![MavenScope::TestImplementation];
    let android = seq![MavenScope::AndroidTestImplementation];
    assert(main[0] == MavenScope::Api && main[1] == MavenScope::Implementation);
    assert(test[0] == MavenScope::TestImplementation);
    assert(android[0] == MavenScope::AndroidTestImplementation);
    if is_declared(declared, MavenScope::Api, first) {
        lemma_root(declared, MavenScope::Api, main, first);
        lemma_chain(winners, declared, main, chain, s);
    }
    if is_declared(declared, MavenScope::Implementation, first) {
        lemma_root(declared, MavenScope::Implementation, main, first);
        lemma_chain(winners, declared, main, chain, s);
    }
    if is_declared(declared, MavenScope::TestImplementation, first) {
        lemma_root(declared, MavenScope::TestImplementation, test, first);
        lemma_chain(winners, declared, test, chain, s);
    }
    if is_declared(declared, MavenScope::AndroidTestImplementation, first) {
        lemma_root(declared, MavenScope::AndroidTestImplementation, android, first);
        lemma_chain(winners, declared, android, chain, s);
    }
}

proof fn lemma_root(declared: Seq<Declared>, scope: MavenScope, scopes: Seq<MavenScope>, ga: Ga)
    requires
        is_declared(declared, scope, ga),
        scopes.contains(scope),
    ensures
        buckets::is_root(declared, scopes, ga),
{
    let k = choose|k: int|
        0 <= k < declared.len() && (#[trigger] declared[k]).scope == scope && declared[k].gav.ga
            == ga;
    assert(scopes.contains(declared[k].scope));
}

/// Each declared dep is on the classpaths that its scope feeds.
pub proof fn law_scopes_feed_classpaths(winners: Seq<Node>, declared: Seq<Declared>, k: int)
    requires
        0 <= k < declared.len(),
    ensures
        ({
            let ga = declared[k].gav.ga;
            match declared[k].scope {
                MavenScope::Api => {
                    &&& buckets::in_bucket(Bucket::Compile, winners, declared, ga)
                    &&& buckets::in_bucket(Bucket::Runtime, winners, declared, ga)
                    &&& buckets::in_bucket(Bucket::Api, winners, declared, ga)
                    &&& buckets::in_bucket(Bucket::TestCompile, winners, declared, ga)
                    &&& buckets::in_bucket(Bucket::TestRuntime, winners, declared, ga)
                    &&& buckets::in_bucket(Bucket::AndroidTestCompile, winners, declared, ga)
                    &&& buckets::in_bucket(Bucket::AndroidTestRuntime, winners, declared, ga)
                },
                MavenScope::Implementation => {
                    &&& buckets::in_bucket(Bucket::Compile, winners, declared, ga)
                    &&& buckets::in_bucket(Bucket::Runtime, winners, declared, ga)
                    &&& buckets::in_bucket(Bucket::TestCompile, winners, declared, ga)
                    &&& buckets::in_bucket(Bucket::TestRuntime, winners, declared, ga)
                    &&& buckets::in_bucket(Bucket::AndroidTestCompile, winners, declared, ga)
                    &&& buckets::in_bucket(Bucket::AndroidTestRuntime, winners, declared, ga)
                },
                MavenScope::RuntimeOnly => {
                    &&& buckets::in_bucket(Bucket::Runtime, winners, declared, ga)
                    &&& buckets::in_bucket(Bucket::TestRuntime, winners, declared, ga)
                    &&& buckets::in_bucket(Bucket::AndroidTestRuntime, winners, declared, ga)
                },
                MavenScope::CompileOnly => {
                    &&& buckets::in_bucket(Bucket::Compile, winners, declared, ga)
                    &&& buckets::in_bucket(Bucket::TestCompile, winners, declared, ga)
                    &&& buckets::in_bucket(Bucket::AndroidTestCompile, winners, declared, ga)
                },
                MavenScope::Ksp => buckets::in_bucket(Bucket::Processor, winners, declared, ga),
                MavenScope::TestImplementation => {
                    &&& buckets::in_bucket(Bucket::TestCompile, winners, declared, ga)
                    &&& buckets::in_bucket(Bucket::TestRuntime, winners, declared, ga)
                },
                MavenScope::AndroidTestImplementation => {
                    &&& buckets::in_bucket(Bucket::AndroidTestCompile, winners, declared, ga)
                    &&& buckets::in_bucket(Bucket::AndroidTestRuntime, winners, declared, ga)
                },
            }
        }),
{
    let ga = declared[k].gav.ga;
    let scope = declared[k].scope;
    let compile = seq![MavenScope::Api, MavenScope::Implementation];
    let run = seq![MavenScope::Api, MavenScope::Implementation, MavenScope::RuntimeOnly];
    assert(is_declared(declared, scope, ga));
    assert(compile[0] == MavenScope::Api && compile[1] == MavenScope::Implementation);
    assert(run[0] == MavenScope::Api && run[1] == MavenScope::Implementation && run[2]
        == MavenScope::RuntimeOnly);
    if scope == MavenScope::Api || scope == MavenScope::Implementation {
        lemma_root(declared, scope, compile, ga);
        buckets::lemma_root_reachable(winners, declared, compile, Some(PomScope::Compile), ga);
    }
    if run.contains(scope) {
        lemma_root(declared, scope, run, ga);
        buckets::lemma_root_reachable(winners, declared, run, None, ga);
    }
    let own = seq![scope];
    assert(own[0] == scope);
    lemma_root(declared, scope, own, ga);
    buckets::lemma_root_reachable(winners, declared, own, None, ga);
    buckets::lemma_root_reachable(winners, declared, own, Some(PomScope::Compile), ga);
}

proof fn lemma_least(
    winners: Seq<Node>,
    declared: Seq<Declared>,
    scopes: Seq<MavenScope>,
    set: Set<Ga>,
    path: Seq<Ga>,
    n: int,
)
    requires
        is_closed(winners, set),
        forall|ga: Ga| #[trigger] buckets::is_root(declared, scopes, ga) ==> set.contains(ga),
        buckets::is_path(winners, declared, scopes, None, path),
        0 <= n < path.len(),
    ensures
        set.contains(path[n]),
    decreases n,
{
    if n > 0 {
        lemma_least(winners, declared, scopes, set, path, n - 1);
        assert(buckets::step(winners, None, path[n - 1], path[n - 1 + 1]));
        let (i, e) = choose|i: int, e: int| #[trigger]
            buckets::leads(winners, None, i, e, path[n]) && winners[i].gav.ga == path[n - 1];
        assert(winners[i].edges[e].ga == path[n]);
        assert(names(winners, i, path[n]));
    }
}

proof fn lemma_least_compile(
    winners: Seq<Node>,
    declared: Seq<Declared>,
    scopes: Seq<MavenScope>,
    set: Set<Ga>,
    path: Seq<Ga>,
    n: int,
)
    requires
        is_closed_to_compile(winners, set),
        forall|ga: Ga| #[trigger] buckets::is_root(declared, scopes, ga) ==> set.contains(ga),
        buckets::is_path(winners, declared, scopes, Some(PomScope::Compile), path),
        0 <= n < path.len(),
    ensures
        set.contains(path[n]),
    decreases n,
{
    let compile = Some(PomScope::Compile);
    if n > 0 {
        lemma_least_compile(winners, declared, scopes, set, path, n - 1);
        assert(buckets::step(winners, compile, path[n - 1], path[n - 1 + 1]));
        let (i, e) = choose|i: int, e: int| #[trigger]
            buckets::leads(winners, compile, i, e, path[n]) && winners[i].gav.ga == path[n - 1];
        assert(winners[i].edges[e].ga == path[n]);
        assert(names_to_compile(winners, i, path[n]));
    }
}

proof fn lemma_reached(
    winners: Seq<Node>,
    declared: Seq<Declared>,
    scopes: Seq<MavenScope>,
    set: Set<Ga>,
    ga: Ga,
)
    requires
        is_closed(winners, set),
        forall|k: int|
            0 <= k < declared.len() && scopes.contains((#[trigger] declared[k]).scope)
                ==> set.contains(declared[k].gav.ga),
        buckets::reachable(winners, declared, scopes, None, ga),
    ensures
        set.contains(ga),
{
    let path = choose|path: Seq<Ga>| #[trigger]
        buckets::is_path(winners, declared, scopes, None, path) && path.last() == ga;
    lemma_least(winners, declared, scopes, set, path, path.len() - 1);
}

proof fn lemma_reached_to_compile(
    winners: Seq<Node>,
    declared: Seq<Declared>,
    scopes: Seq<MavenScope>,
    set: Set<Ga>,
    ga: Ga,
)
    requires
        is_closed_to_compile(winners, set),
        forall|k: int|
            0 <= k < declared.len() && scopes.contains((#[trigger] declared[k]).scope)
                ==> set.contains(declared[k].gav.ga),
        buckets::reachable(winners, declared, scopes, Some(PomScope::Compile), ga),
    ensures
        set.contains(ga),
{
    let compile = Some(PomScope::Compile);
    let path = choose|path: Seq<Ga>| #[trigger]
        buckets::is_path(winners, declared, scopes, compile, path) && path.last() == ga;
    lemma_least_compile(winners, declared, scopes, set, path, path.len() - 1);
}

/// Whether a set holds what is declared under a scope.
pub open spec fn holds_scope(declared: Seq<Declared>, scope: MavenScope, set: Set<Ga>) -> bool {
    forall|k: int|
        0 <= k < declared.len() && (#[trigger] declared[k]).scope == scope ==> set.contains(
            declared[k].gav.ga,
        )
}

/// Nothing else is on a classpath that code runs with: whatever holds the deps
/// declared for it and is closed holds all of it.
pub proof fn law_runtimes_hold_nothing_else(
    winners: Seq<Node>,
    declared: Seq<Declared>,
    set: Set<Ga>,
    ga: Ga,
)
    requires
        is_closed(winners, set),
        set.contains(ga) == false,
    ensures
        holds_scope(declared, MavenScope::Api, set) && holds_scope(
            declared,
            MavenScope::Implementation,
            set,
        ) && holds_scope(declared, MavenScope::RuntimeOnly, set) ==> {
            &&& !buckets::in_bucket(Bucket::Runtime, winners, declared, ga)
            &&& holds_scope(declared, MavenScope::TestImplementation, set) ==> !buckets::in_bucket(
                Bucket::TestRuntime,
                winners,
                declared,
                ga,
            )
            &&& holds_scope(declared, MavenScope::AndroidTestImplementation, set)
                ==> !buckets::in_bucket(Bucket::AndroidTestRuntime, winners, declared, ga)
        },
        holds_scope(declared, MavenScope::Ksp, set) ==> !buckets::in_bucket(
            Bucket::Processor,
            winners,
            declared,
            ga,
        ),
{
    let main = seq![MavenScope::Api, MavenScope::Implementation, MavenScope::RuntimeOnly];
    let ksp = seq![MavenScope::Ksp];
    let test = seq![MavenScope::TestImplementation];
    let android = seq![MavenScope::AndroidTestImplementation];
    assert forall|scope: MavenScope| #[trigger] main.contains(scope) implies scope
        == MavenScope::Api || scope == MavenScope::Implementation || scope
        == MavenScope::RuntimeOnly by {}
    if holds_scope(declared, MavenScope::Api, set) && holds_scope(
        declared,
        MavenScope::Implementation,
        set,
    ) && holds_scope(declared, MavenScope::RuntimeOnly, set) && buckets::reachable(
        winners,
        declared,
        main,
        None,
        ga,
    ) {
        lemma_reached(winners, declared, main, set, ga);
    }
    if holds_scope(declared, MavenScope::Ksp, set) && buckets::reachable(
        winners,
        declared,
        ksp,
        None,
        ga,
    ) {
        lemma_reached(winners, declared, ksp, set, ga);
    }
    if holds_scope(declared, MavenScope::TestImplementation, set) && buckets::reachable(
        winners,
        declared,
        test,
        None,
        ga,
    ) {
        lemma_reached(winners, declared, test, set, ga);
    }
    if holds_scope(declared, MavenScope::AndroidTestImplementation, set) && buckets::reachable(
        winners,
        declared,
        android,
        None,
        ga,
    ) {
        lemma_reached(winners, declared, android, set, ga);
    }
}

/// Nothing else is on a classpath that code compiles against: whatever holds the
/// deps declared for it and is closed in compile scope holds all of it but for
/// the `compileOnly` deps.
pub proof fn law_compile_classpaths_hold_nothing_else(
    winners: Seq<Node>,
    declared: Seq<Declared>,
    set: Set<Ga>,
    ga: Ga,
)
    requires
        is_closed_to_compile(winners, set),
        holds_scope(declared, MavenScope::Api, set),
        holds_scope(declared, MavenScope::Implementation, set),
        set.contains(ga) == false,
        !is_declared(declared, MavenScope::CompileOnly, ga),
    ensures
        !buckets::in_bucket(Bucket::Compile, winners, declared, ga),
        holds_scope(declared, MavenScope::TestImplementation, set) ==> !buckets::in_bucket(
            Bucket::TestCompile,
            winners,
            declared,
            ga,
        ),
        holds_scope(declared, MavenScope::AndroidTestImplementation, set) ==> !buckets::in_bucket(
            Bucket::AndroidTestCompile,
            winners,
            declared,
            ga,
        ),
{
    let compile = Some(PomScope::Compile);
    let main = seq![MavenScope::Api, MavenScope::Implementation];
    let only = seq![MavenScope::CompileOnly];
    let test = seq![MavenScope::TestImplementation];
    let android = seq![MavenScope::AndroidTestImplementation];
    if buckets::is_root(declared, only, ga) {
        let k = choose|k: int|
            0 <= k < declared.len() && only.contains((#[trigger] declared[k]).scope)
                && declared[k].gav.ga == ga;
        assert(declared[k].scope == MavenScope::CompileOnly);
    }
    if buckets::reachable(winners, declared, main, compile, ga) {
        lemma_reached_to_compile(winners, declared, main, set, ga);
    }
    if holds_scope(declared, MavenScope::TestImplementation, set) && buckets::reachable(
        winners,
        declared,
        test,
        compile,
        ga,
    ) {
        lemma_reached_to_compile(winners, declared, test, set, ga);
    }
    if holds_scope(declared, MavenScope::AndroidTestImplementation, set) && buckets::reachable(
        winners,
        declared,
        android,
        compile,
        ga,
    ) {
        lemma_reached_to_compile(winners, declared, android, set, ga);
    }
}

/// Consumers of a module see exactly the deps that it declares as `api`.
pub proof fn law_api_is_what_is_declared(winners: Seq<Node>, declared: Seq<Declared>, ga: Ga)
    ensures
        buckets::in_bucket(Bucket::Api, winners, declared, ga) <==> is_declared(
            declared,
            MavenScope::Api,
            ga,
        ),
{
    let api = seq![MavenScope::Api];
    assert(api[0] == MavenScope::Api);
    if is_declared(declared, MavenScope::Api, ga) {
        lemma_root(declared, MavenScope::Api, api, ga);
    }
    if buckets::is_root(declared, api, ga) {
        let k = choose|k: int|
            0 <= k < declared.len() && api.contains((#[trigger] declared[k]).scope)
                && declared[k].gav.ga == ga;
        assert(declared[k].scope == MavenScope::Api);
    }
}

/// What tests compile against they also run with, `compileOnly` deps apart.
pub proof fn law_compiled_tests_run(winners: Seq<Node>, declared: Seq<Declared>, ga: Ga)
    requires
        !is_declared(declared, MavenScope::CompileOnly, ga),
    ensures
        buckets::in_bucket(Bucket::TestCompile, winners, declared, ga) ==> buckets::in_bucket(
            Bucket::TestRuntime,
            winners,
            declared,
            ga,
        ),
        buckets::in_bucket(Bucket::AndroidTestCompile, winners, declared, ga) ==> buckets::in_bucket(
            Bucket::AndroidTestRuntime,
            winners,
            declared,
            ga,
        ),
{
    let compile = Some(PomScope::Compile);
    let only = seq![MavenScope::CompileOnly];
    let test = seq![MavenScope::TestImplementation];
    let android = seq![MavenScope::AndroidTestImplementation];
    if buckets::is_root(declared, only, ga) {
        let k = choose|k: int|
            0 <= k < declared.len() && only.contains((#[trigger] declared[k]).scope)
                && declared[k].gav.ga == ga;
        assert(declared[k].scope == MavenScope::CompileOnly);
    }
    if buckets::in_bucket(Bucket::Compile, winners, declared, ga) {
        buckets::law_compiled_code_runs(winners, declared, ga);
    }
    if buckets::reachable(winners, declared, test, compile, ga) {
        buckets::lemma_reach_more(winners, declared, test, test, compile, ga);
    }
    if buckets::reachable(winners, declared, android, compile, ga) {
        buckets::lemma_reach_more(winners, declared, android, android, compile, ga);
    }
}

} // verus!
