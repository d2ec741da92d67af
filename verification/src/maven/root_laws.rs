//! The files of the artifacts that a module declares itself, and what is noted of
//! artifacts that have none.

use vstd::prelude::*;
use crate::maven;
use crate::maven::buckets;
use crate::maven::buckets::Bucket;
use crate::maven::graph;
use crate::maven::graph::Node;
use crate::maven::pom::Pom;
use crate::maven::resolver;
use crate::maven::resolver::{Settled, Step, Wanted};
use crate::maven::resolver_laws;
use crate::maven::{Declared, Ga, Gav, MavenScope};
use crate::text;
use crate::text::Relation;

verus! {

proof fn lemma_path_for(list: Seq<(Ga, Seq<char>)>, ga: Ga)
    ensures
        match resolver::path_for(list, ga) {
            Some(path) => list.contains((ga, path)),
            None => forall|i: int| 0 <= i < list.len() ==> (#[trigger] list[i]).0 != ga,
        },
    decreases list.len(),
{
    if list.len() > 0 && list[0].0 != ga {
        let rest = list.drop_first();
        lemma_path_for(rest, ga);
        match resolver::path_for(rest, ga) {
            Some(path) => {
                let i = choose|i: int| 0 <= i < rest.len() && rest[i] == (ga, path);
                assert(list[i + 1] == (ga, path));
            },
            None => {
                assert forall|i: int| 0 <= i < list.len() implies (#[trigger] list[i]).0 != ga by {
                    if i > 0 {
                        assert(rest[i - 1] == list[i]);
                    }
                }
            },
        }
    } else if list.len() > 0 {
        assert(list[0] == (ga, list[0].1));
    }
}

proof fn lemma_first_path(lists: Seq<Seq<(Ga, Seq<char>)>>, ga: Ga, from: int)
    requires
        0 <= from <= lists.len(),
    ensures
        match resolver::first_path(lists, ga, from) {
            Some(path) => exists|k: int|
                from <= k < lists.len() && resolver::path_for(#[trigger] lists[k], ga) == Some(path),
            None => forall|k: int|
                from <= k < lists.len() ==> resolver::path_for(#[trigger] lists[k], ga) is None,
        },
    decreases lists.len() - from,
{
    if from < lists.len() {
        lemma_first_path(lists, ga, from + 1);
        assert(lists[from] == lists[from]);
    }
}

/// Whether an artifact is a file that goes on classpaths.
pub open spec fn is_file(node: Node) -> bool {
    node.packaging == "jar"@ || node.packaging == "aar"@
}

/// Whether no two winners are of the same artifact.
spec fn are_distinct(winners: Seq<Node>) -> bool {
    forall|i: int, j: int|
        0 <= i < j < winners.len() ==> (#[trigger] winners[i]).gav.ga != (
        #[trigger] winners[j]).gav.ga
}

proof fn lemma_distinct(nodes: Seq<Node>)
    ensures
        are_distinct(graph::winners_of(nodes)),
{
    let winners = graph::winners_of(nodes);
    graph::law_one_winner_each(nodes);
    assert forall|i: int, j: int| 0 <= i < j < winners.len() implies (#[trigger] winners[i]).gav.ga
        != (#[trigger] winners[j]).gav.ga by {
        text::lemma_compare_reflexive(winners[i].gav.ga.group);
        text::lemma_compare_reflexive(winners[i].gav.ga.artifact);
        assert(graph::compare_ga(winners[i].gav.ga, winners[j].gav.ga) == Relation::Less);
    }
}

proof fn lemma_bucket_path(
    bucket: Bucket,
    winners: Seq<Node>,
    declared: Seq<Declared>,
    outcomes: Seq<Settled>,
    places: spec_fn(Gav, Seq<char>) -> Seq<char>,
    w: int,
)
    requires
        resolver_laws::are_fetched(
            resolver::bucket_wanted(bucket, winners, declared),
            outcomes,
            places,
        ),
        are_distinct(winners),
        0 <= w < winners.len(),
    ensures
        resolver::bucket_paths(bucket, winners, declared, outcomes) matches Ok(list)
            && resolver::path_for(list, winners[w].gav.ga) == if is_file(winners[w])
            && buckets::in_bucket(bucket, winners, declared, winners[w].gav.ga) {
            Some(places(winners[w].gav, winners[w].packaging))
        } else {
            None
        },
{
    let nodes = buckets::bucket_nodes(bucket, winners, declared);
    let wanted = resolver::wanted_of(nodes);
    let n = wanted.len() as int;
    resolver_laws::lemma_settled(wanted, outcomes, places, n);
    let list = resolver::settle(wanted, outcomes, n)->Ok_0;
    resolver_laws::lemma_members(bucket, winners, declared, winners.len() as int);
    resolver_laws::lemma_wanted(nodes);
    let ga = winners[w].gav.ga;
    lemma_path_for(list, ga);
    if let Some(path) = resolver::path_for(list, ga) {
        let k = choose|k: int| 0 <= k < list.len() && list[k] == (ga, path);
        assert(wanted.contains(wanted[k]));
        let j = choose|j: int|
            0 <= j < nodes.len() && resolver_laws::stands_for(wanted[k], #[trigger] nodes[j]);
        assert(nodes.contains(nodes[j]));
        let i = choose|i: int|
            0 <= i < winners.len() && #[trigger] winners[i] == nodes[j] && buckets::in_bucket(
                bucket,
                winners,
                declared,
                winners[i].gav.ga,
            );
        assert(winners[i].gav.ga == ga);
        if i < w {
            assert(winners[i].gav.ga != winners[w].gav.ga);
        } else if w < i {
            assert(winners[w].gav.ga != winners[i].gav.ga);
        }
        assert(i == w);
    } else if is_file(winners[w]) && buckets::in_bucket(bucket, winners, declared, ga) {
        assert(nodes.contains(winners[w]));
        let j = choose|j: int| 0 <= j < nodes.len() && nodes[j] == winners[w];
        let one = Wanted { gav: winners[w].gav, packaging: winners[w].packaging };
        assert(resolver_laws::stands_for(one, nodes[j]));
        assert(wanted.contains(one));
        let k = choose|k: int| 0 <= k < wanted.len() && wanted[k] == one;
        assert(list[k].0 == ga);
    }
}

proof fn lemma_lists(
    winners: Seq<Node>,
    declared: Seq<Declared>,
    fetched: Seq<Seq<Settled>>,
    places: spec_fn(Gav, Seq<char>) -> Seq<char>,
    n: int,
    w: int,
)
    requires
        resolver_laws::all_fetched(winners, declared, fetched, places),
        are_distinct(winners),
        0 <= n <= 8,
        0 <= w < winners.len(),
    ensures
        resolver::gathered(winners, declared, fetched, n) matches Ok(lists) && lists.len() == n
            && forall|k: int|
            0 <= k < n ==> resolver::path_for(#[trigger] lists[k], winners[w].gav.ga)
                == if is_file(winners[w]) && buckets::in_bucket(
                buckets::bucket_order()[k],
                winners,
                declared,
                winners[w].gav.ga,
            ) {
                Some(places(winners[w].gav, winners[w].packaging))
            } else {
                None
            },
    decreases n,
{
    if n > 0 {
        lemma_lists(winners, declared, fetched, places, n - 1, w);
        assert(resolver_laws::are_fetched(
            resolver::bucket_wanted(buckets::bucket_order()[n - 1], winners, declared),
            fetched[n - 1],
            places,
        ));
        lemma_bucket_path(
            buckets::bucket_order()[n - 1],
            winners,
            declared,
            fetched[n - 1],
            places,
            w,
        );
    }
}

/// Whether an artifact is declared, in whatever scope.
pub open spec fn is_declared(declared: Seq<Declared>, ga: Ga) -> bool {
    exists|d: int| 0 <= d < declared.len() && (#[trigger] declared[d]).gav.ga == ga
}

/// What is declared in any scope belongs on one of the classpaths.
proof fn lemma_some_bucket(winners: Seq<Node>, declared: Seq<Declared>, ga: Ga) -> (k: int)
    requires
        is_declared(declared, ga),
    ensures
        0 <= k < 8,
        buckets::in_bucket(buckets::bucket_order()[k], winners, declared, ga),
{
    let d = choose|d: int| 0 <= d < declared.len() && (#[trigger] declared[d]).gav.ga == ga;
    let scope = declared[d].scope;
    let only = Some(maven::pom::PomScope::Compile);
    match scope {
        MavenScope::Api => {
            let scopes = seq![MavenScope::Api, MavenScope::Implementation];
            assert(scopes[0] == scope);
            assert(scopes.contains(declared[d].scope));
            buckets::lemma_root_reachable(winners, declared, scopes, only, ga);
            0
        },
        MavenScope::Implementation => {
            let scopes = seq![MavenScope::Api, MavenScope::Implementation];
            assert(scopes[1] == scope);
            assert(scopes.contains(declared[d].scope));
            buckets::lemma_root_reachable(winners, declared, scopes, only, ga);
            0
        },
        MavenScope::RuntimeOnly => {
            let scopes = seq![
                MavenScope::Api,
                MavenScope::Implementation,
                MavenScope::RuntimeOnly,
            ];
            assert(scopes[2] == scope);
            assert(scopes.contains(declared[d].scope));
            buckets::lemma_root_reachable(winners, declared, scopes, None, ga);
            1
        },
        MavenScope::CompileOnly => {
            let scopes = seq![MavenScope::CompileOnly];
            assert(scopes[0] == scope);
            assert(scopes.contains(declared[d].scope));
            0
        },
        MavenScope::Ksp => {
            let scopes = seq![MavenScope::Ksp];
            assert(scopes[0] == scope);
            assert(scopes.contains(declared[d].scope));
            buckets::lemma_root_reachable(winners, declared, scopes, None, ga);
            2
        },
        MavenScope::TestImplementation => {
            let scopes = seq![MavenScope::TestImplementation];
            assert(scopes[0] == scope);
            assert(scopes.contains(declared[d].scope));
            buckets::lemma_root_reachable(winners, declared, scopes, only, ga);
            4
        },
        MavenScope::AndroidTestImplementation => {
            let scopes = seq![MavenScope::AndroidTestImplementation];
            assert(scopes[0] == scope);
            assert(scopes.contains(declared[d].scope));
            buckets::lemma_root_reachable(winners, declared, scopes, only, ga);
            6
        },
    }
}

proof fn lemma_roots(
    winners: Seq<Node>,
    declared: Seq<Declared>,
    lists: Seq<Seq<(Ga, Seq<char>)>>,
    n: int,
    w: int,
)
    requires
        0 <= n <= winners.len(),
        0 <= w < winners.len(),
        are_distinct(winners),
    ensures
        forall|path: Seq<char>| #[trigger]
            resolver::roots_of(winners, declared, lists, n).contains((winners[w].gav.ga, path))
                <==> w < n && is_declared(declared, winners[w].gav.ga) && resolver::first_path(
                lists,
                winners[w].gav.ga,
                0,
            ) == Some(path),
    decreases n,
{
    if n > 0 {
        lemma_roots(winners, declared, lists, n - 1, w);
        let before = resolver::roots_of(winners, declared, lists, n - 1);
        let after = resolver::roots_of(winners, declared, lists, n);
        let ga = winners[w].gav.ga;
        let own = winners[n - 1].gav.ga;
        if w < n - 1 {
            assert(winners[w].gav.ga != winners[n - 1].gav.ga);
        } else if w > n - 1 {
            assert(winners[n - 1].gav.ga != winners[w].gav.ga);
        }
        assert forall|path: Seq<char>| #[trigger] after.contains((ga, path)) <==> w < n
            && is_declared(declared, ga) && resolver::first_path(lists, ga, 0) == Some(path) by {
            if before.contains((ga, path)) {
                let i = choose|i: int| 0 <= i < before.len() && before[i] == (ga, path);
                assert(after[i] == (ga, path));
            }
            if after.contains((ga, path)) && !before.contains((ga, path)) {
                let i = choose|i: int| 0 <= i < after.len() && after[i] == (ga, path);
                if i < before.len() {
                    assert(before[i] == (ga, path));
                }
                assert(own == ga);
            }
            if w == n - 1 && is_declared(declared, ga) && resolver::first_path(lists, ga, 0)
                == Some(path) {
                assert(after[before.len() as int] == (ga, path));
            }
        }
    }
}

/// Once all artifacts are fetched, the files of those that are declared, in
/// whatever scope, are known by their names, and those of no others.
pub proof fn law_declared_artifacts_are_known_by_name(
    poms: Seq<(Gav, Pom)>,
    declared: Seq<Declared>,
    fetched: Seq<Seq<Settled>>,
    places: spec_fn(Gav, Seq<char>) -> Seq<char>,
    w: int,
    path: Seq<char>,
)
    requires
        graph::expanded(poms, declared).missing is None,
        resolver_laws::all_fetched(
            graph::winners_of(graph::expanded(poms, declared).nodes),
            declared,
            fetched,
            places,
        ),
        0 <= w < graph::winners_of(graph::expanded(poms, declared).nodes).len(),
    ensures
        ({
            let node = graph::winners_of(graph::expanded(poms, declared).nodes)[w];
            &&& resolver::resolution(poms, declared, fetched) matches Step::Done(done)
            &&& done.root_paths.contains((node.gav.ga, path)) <==> is_declared(
                declared,
                node.gav.ga,
            ) && is_file(node) && path == places(node.gav, node.packaging)
        }),
{
    let nodes = graph::expanded(poms, declared).nodes;
    let winners = graph::winners_of(nodes);
    let ga = winners[w].gav.ga;
    lemma_distinct(nodes);
    lemma_lists(winners, declared, fetched, places, 8, w);
    let lists = resolver::gathered(winners, declared, fetched, 8)->Ok_0;
    lemma_roots(winners, declared, lists, winners.len() as int, w);
    let roots = resolver::roots_of(winners, declared, lists, winners.len() as int);
    assert(roots.contains((ga, path)) <==> is_declared(declared, ga) && resolver::first_path(
        lists,
        ga,
        0,
    ) == Some(path));
    lemma_first_path(lists, ga, 0);
    if is_declared(declared, ga) && is_file(winners[w]) {
        let k = lemma_some_bucket(winners, declared, ga);
        assert(resolver::path_for(lists[k], ga) is Some);
    }
}

proof fn lemma_unsupported(nodes: Seq<Node>, i: int)
    requires
        0 <= i < nodes.len(),
        !is_file(nodes[i]),
        nodes[i].packaging != "pom"@,
    ensures
        resolver::unsupported_notes(nodes).contains(
            maven::gav_text(nodes[i].gav) + " uses packaging '"@ + nodes[i].packaging
                + "'; only jar and aar artifacts are materialized"@,
        ),
    decreases nodes.len(),
{
    let note = maven::gav_text(nodes[i].gav) + " uses packaging '"@ + nodes[i].packaging
        + "'; only jar and aar artifacts are materialized"@;
    let front = nodes.drop_last();
    let before = resolver::unsupported_notes(front);
    let after = resolver::unsupported_notes(nodes);
    if i < front.len() {
        assert(front[i] == nodes[i]);
        lemma_unsupported(front, i);
        let k = choose|k: int| 0 <= k < before.len() && before[k] == note;
        assert(after[k] == note);
    } else {
        assert(nodes.last() == nodes[i]);
        assert(after[before.len() as int] == note);
    }
}

/// What is neither a jar, an AAR nor a BOM is noted where it belongs on a
/// classpath, for it gets no file.
pub proof fn law_other_packagings_are_noted(
    poms: Seq<(Gav, Pom)>,
    declared: Seq<Declared>,
    fetched: Seq<Seq<Settled>>,
    w: int,
    k: int,
)
    requires
        resolver::resolution(poms, declared, fetched) is Done,
        0 <= w < graph::winners_of(graph::expanded(poms, declared).nodes).len(),
        0 <= k < 8,
        ({
            let winners = graph::winners_of(graph::expanded(poms, declared).nodes);
            &&& !is_file(winners[w])
            &&& winners[w].packaging != "pom"@
            &&& buckets::in_bucket(
                buckets::bucket_order()[k],
                winners,
                declared,
                winners[w].gav.ga,
            )
        }),
    ensures
        ({
            let node = graph::winners_of(graph::expanded(poms, declared).nodes)[w];
            resolver::resolution(poms, declared, fetched)->Done_0.notes.contains(
                maven::gav_text(node.gav) + " uses packaging '"@ + node.packaging
                    + "'; only jar and aar artifacts are materialized"@,
            )
        }),
{
    let walk = graph::expanded(poms, declared);
    let winners = graph::winners_of(walk.nodes);
    let node = winners[w];
    let note = maven::gav_text(node.gav) + " uses packaging '"@ + node.packaging
        + "'; only jar and aar artifacts are materialized"@;
    let bucket = buckets::bucket_order()[k];
    let nodes = buckets::bucket_nodes(bucket, winners, declared);
    resolver_laws::lemma_members(bucket, winners, declared, winners.len() as int);
    assert(winners[w] == node);
    assert(nodes.contains(node));
    let i = choose|i: int| 0 <= i < nodes.len() && nodes[i] == node;
    lemma_unsupported(nodes, i);
    lemma_all_noted(winners, declared, 8, k, note);
    let lost = graph::superseded(walk.nodes, winners, winners.len() as int);
    let all = resolver::all_unsupported(winners, declared, 8);
    let j = choose|j: int| 0 <= j < all.len() && all[j] == note;
    let notes = resolver::resolution(poms, declared, fetched)->Done_0.notes;
    assert(notes =~= walk.notes + lost + all);
    assert(notes[walk.notes.len() + lost.len() + j] == note);
}

proof fn lemma_all_noted(
    winners: Seq<Node>,
    declared: Seq<Declared>,
    n: int,
    k: int,
    note: Seq<char>,
)
    requires
        0 <= k < n <= 8,
        resolver::unsupported_notes(
            buckets::bucket_nodes(buckets::bucket_order()[k], winners, declared),
        ).contains(note),
    ensures
        resolver::all_unsupported(winners, declared, n).contains(note),
    decreases n,
{
    let before = resolver::all_unsupported(winners, declared, n - 1);
    let after = resolver::all_unsupported(winners, declared, n);
    let own = resolver::unsupported_notes(
        buckets::bucket_nodes(buckets::bucket_order()[n - 1], winners, declared),
    );
    if k < n - 1 {
        lemma_all_noted(winners, declared, n - 1, k, note);
        let j = choose|j: int| 0 <= j < before.len() && before[j] == note;
        assert(after[j] == note);
    } else {
        let j = choose|j: int| 0 <= j < own.len() && own[j] == note;
        assert(after[before.len() + j] == note);
    }
}

/// An artifact has a file exactly where one was fetched for it; the first that
/// could not be fetched is reported instead.
pub proof fn law_only_fetched_artifacts_have_files(
    wanted: Seq<Wanted>,
    outcomes: Seq<Settled>,
    n: int,
    ga: Ga,
    path: Seq<char>,
)
    requires
        0 <= n <= outcomes.len(),
    ensures
        match resolver::settle(wanted, outcomes, n) {
            Ok(list) => {
                &&& list.len() <= n
                &&& list.contains((ga, path)) <==> exists|i: int|
                    0 <= i < n && #[trigger] outcomes[i] == Settled::Path(path) && wanted[i].gav.ga
                        == ga
                &&& forall|i: int| 0 <= i < n ==> !(#[trigger] outcomes[i] is Failed)
            },
            Err(failure) => exists|i: int|
                0 <= i < n && #[trigger] outcomes[i] == Settled::Failed(failure) && forall|h: int|
                    0 <= h < i ==> !(#[trigger] outcomes[h] is Failed),
        },
    decreases n,
{
    if n > 0 {
        law_only_fetched_artifacts_have_files(wanted, outcomes, n - 1, ga, path);
        match resolver::settle(wanted, outcomes, n - 1) {
            Err(failure) => {
                let i = choose|i: int|
                    0 <= i < n - 1 && #[trigger] outcomes[i] == Settled::Failed(failure)
                        && forall|h: int| 0 <= h < i ==> !(#[trigger] outcomes[h] is Failed);
                assert(outcomes[i] == Settled::Failed(failure));
            },
            Ok(before) => {
                match outcomes[n - 1] {
                    Settled::Path(own) => {
                        let list = resolver::settle(wanted, outcomes, n)->Ok_0;
                        let entry = (wanted[n - 1].gav.ga, own);
                        assert(list =~= before.push(entry));
                        assert(list[before.len() as int] == entry);
                        if before.contains((ga, path)) {
                            let k = choose|k: int|
                                0 <= k < before.len() && before[k] == (ga, path);
                            assert(list[k] == (ga, path));
                        }
                        if list.contains((ga, path)) && !before.contains((ga, path)) {
                            let k = choose|k: int| 0 <= k < list.len() && list[k] == (ga, path);
                            if k < before.len() {
                                assert(before[k] == (ga, path));
                            }
                            assert(outcomes[n - 1] == Settled::Path(path));
                        }
                        if own == path && wanted[n - 1].gav.ga == ga {
                            assert(list[before.len() as int] == (ga, path));
                        }
                    },
                    Settled::Failed(failure) => {
                        assert(outcomes[n - 1] == Settled::Failed(failure));
                    },
                    Settled::Skipped => {},
                }
            },
        }
    }
}

proof fn lemma_gathered_so_far(
    winners: Seq<Node>,
    declared: Seq<Declared>,
    fetched: Seq<Seq<Settled>>,
    places: spec_fn(Gav, Seq<char>) -> Seq<char>,
    n: int,
)
    requires
        0 <= n <= fetched.len(),
        n <= 8,
        forall|k: int|
            0 <= k < n ==> resolver_laws::are_fetched(
                resolver::bucket_wanted(buckets::bucket_order()[k], winners, declared),
                #[trigger] fetched[k],
                places,
            ),
    ensures
        resolver::gathered(winners, declared, fetched, n) is Ok,
    decreases n,
{
    if n > 0 {
        lemma_gathered_so_far(winners, declared, fetched, places, n - 1);
        assert(resolver_laws::are_fetched(
            resolver::bucket_wanted(buckets::bucket_order()[n - 1], winners, declared),
            fetched[n - 1],
            places,
        ));
        let wanted = resolver::bucket_wanted(buckets::bucket_order()[n - 1], winners, declared);
        resolver_laws::lemma_settled(wanted, fetched[n - 1], places, wanted.len() as int);
    }
}

/// The artifacts are asked for classpath by classpath: after those of the first
/// `n` were fetched, those of the next, which are the jars and AARs that belong on
/// it.
pub proof fn law_artifacts_are_asked_for_in_turn(
    poms: Seq<(Gav, Pom)>,
    declared: Seq<Declared>,
    fetched: Seq<Seq<Settled>>,
    places: spec_fn(Gav, Seq<char>) -> Seq<char>,
    wanted: Wanted,
)
    requires
        graph::expanded(poms, declared).missing is None,
        fetched.len() < 8,
        forall|k: int|
            0 <= k < fetched.len() ==> resolver_laws::are_fetched(
                resolver::bucket_wanted(
                    buckets::bucket_order()[k],
                    graph::winners_of(graph::expanded(poms, declared).nodes),
                    declared,
                ),
                #[trigger] fetched[k],
                places,
            ),
    ensures
        ({
            let winners = graph::winners_of(graph::expanded(poms, declared).nodes);
            let order = seq![
                Bucket::Compile,
                Bucket::Runtime,
                Bucket::Processor,
                Bucket::Api,
                Bucket::TestCompile,
                Bucket::TestRuntime,
                Bucket::AndroidTestCompile,
                Bucket::AndroidTestRuntime,
            ];
            &&& resolver::resolution(poms, declared, fetched) matches Step::Artifacts(list)
            &&& list.contains(wanted) <==> exists|w: int|
                0 <= w < winners.len() && is_file(#[trigger] winners[w]) && buckets::in_bucket(
                    order[fetched.len() as int],
                    winners,
                    declared,
                    winners[w].gav.ga,
                ) && wanted.gav == winners[w].gav && wanted.packaging == winners[w].packaging
        }),
{
    let winners = graph::winners_of(graph::expanded(poms, declared).nodes);
    let n = fetched.len() as int;
    lemma_gathered_so_far(winners, declared, fetched, places, n);
    let bucket = buckets::bucket_order()[n];
    let nodes = buckets::bucket_nodes(bucket, winners, declared);
    let list = resolver::wanted_of(nodes);
    resolver_laws::lemma_members(bucket, winners, declared, winners.len() as int);
    resolver_laws::lemma_wanted(nodes);
    if list.contains(wanted) {
        let j = choose|j: int|
            0 <= j < nodes.len() && resolver_laws::stands_for(wanted, #[trigger] nodes[j]);
        assert(nodes.contains(nodes[j]));
        let w = choose|w: int|
            0 <= w < winners.len() && #[trigger] winners[w] == nodes[j] && buckets::in_bucket(
                bucket,
                winners,
                declared,
                winners[w].gav.ga,
            );
        assert(is_file(winners[w]));
    }
    if exists|w: int|
        0 <= w < winners.len() && is_file(#[trigger] winners[w]) && buckets::in_bucket(
            bucket,
            winners,
            declared,
            winners[w].gav.ga,
        ) && wanted.gav == winners[w].gav && wanted.packaging == winners[w].packaging {
        let w = choose|w: int|
            0 <= w < winners.len() && is_file(#[trigger] winners[w]) && buckets::in_bucket(
                bucket,
                winners,
                declared,
                winners[w].gav.ga,
            ) && wanted.gav == winners[w].gav && wanted.packaging == winners[w].packaging;
        assert(nodes.contains(winners[w]));
        let j = choose|j: int| 0 <= j < nodes.len() && nodes[j] == winners[w];
        assert(resolver_laws::stands_for(wanted, nodes[j]));
    }
}

/// Whether paths are those of nodes, in their order.
pub open spec fn are_paths_of(
    paths: Seq<Seq<char>>,
    nodes: Seq<Node>,
    places: spec_fn(Gav, Seq<char>) -> Seq<char>,
) -> bool {
    &&& paths.len() == nodes.len()
    &&& forall|i: int|
        0 <= i < paths.len() ==> #[trigger] paths[i] == places(nodes[i].gav, nodes[i].packaging)
}

proof fn lemma_all_wanted(nodes: Seq<Node>)
    requires
        forall|i: int| 0 <= i < nodes.len() ==> is_file(#[trigger] nodes[i]),
    ensures
        resolver::wanted_of(nodes).len() == nodes.len(),
        forall|i: int|
            0 <= i < nodes.len() ==> #[trigger] resolver::wanted_of(nodes)[i] == (Wanted {
                gav: nodes[i].gav,
                packaging: nodes[i].packaging,
            }),
    decreases nodes.len(),
{
    if nodes.len() > 0 {
        let front = nodes.drop_last();
        assert forall|i: int| 0 <= i < front.len() implies is_file(#[trigger] front[i]) by {
            assert(nodes[i] == front[i]);
        }
        lemma_all_wanted(front);
        assert(is_file(nodes[nodes.len() - 1]));
    }
}

proof fn lemma_ordered_bucket(
    bucket: Bucket,
    winners: Seq<Node>,
    declared: Seq<Declared>,
    outcomes: Seq<Settled>,
    places: spec_fn(Gav, Seq<char>) -> Seq<char>,
)
    requires
        resolver_laws::are_fetched(
            resolver::bucket_wanted(bucket, winners, declared),
            outcomes,
            places,
        ),
        forall|i: int| 0 <= i < winners.len() ==> is_file(#[trigger] winners[i]),
    ensures
        resolver::bucket_paths(bucket, winners, declared, outcomes) matches Ok(list)
            && are_paths_of(
            resolver::just_paths(list),
            buckets::bucket_nodes(bucket, winners, declared),
            places,
        ),
{
    let nodes = buckets::bucket_nodes(bucket, winners, declared);
    let wanted = resolver::wanted_of(nodes);
    resolver_laws::lemma_members(bucket, winners, declared, winners.len() as int);
    assert forall|i: int| 0 <= i < nodes.len() implies is_file(#[trigger] nodes[i]) by {
        assert(nodes.contains(nodes[i]));
        let w = choose|w: int|
            0 <= w < winners.len() && #[trigger] winners[w] == nodes[i] && buckets::in_bucket(
                bucket,
                winners,
                declared,
                winners[w].gav.ga,
            );
        assert(is_file(winners[w]));
    }
    lemma_all_wanted(nodes);
    resolver_laws::lemma_settled(wanted, outcomes, places, wanted.len() as int);
}

proof fn lemma_ordered_lists(
    winners: Seq<Node>,
    declared: Seq<Declared>,
    fetched: Seq<Seq<Settled>>,
    places: spec_fn(Gav, Seq<char>) -> Seq<char>,
    n: int,
)
    requires
        resolver_laws::all_fetched(winners, declared, fetched, places),
        forall|i: int| 0 <= i < winners.len() ==> is_file(#[trigger] winners[i]),
        0 <= n <= 8,
    ensures
        resolver::gathered(winners, declared, fetched, n) matches Ok(lists) && lists.len() == n
            && forall|k: int|
            0 <= k < n ==> are_paths_of(
                resolver::just_paths(#[trigger] lists[k]),
                buckets::bucket_nodes(buckets::bucket_order()[k], winners, declared),
                places,
            ),
    decreases n,
{
    if n > 0 {
        lemma_ordered_lists(winners, declared, fetched, places, n - 1);
        assert(resolver_laws::are_fetched(
            resolver::bucket_wanted(buckets::bucket_order()[n - 1], winners, declared),
            fetched[n - 1],
            places,
        ));
        lemma_ordered_bucket(
            buckets::bucket_order()[n - 1],
            winners,
            declared,
            fetched[n - 1],
            places,
        );
    }
}

/// The files of a classpath stand in the order of the artifacts on it, which is
/// that of their names.
pub proof fn law_classpaths_are_in_order(
    poms: Seq<(Gav, Pom)>,
    declared: Seq<Declared>,
    fetched: Seq<Seq<Settled>>,
    places: spec_fn(Gav, Seq<char>) -> Seq<char>,
)
    requires
        graph::expanded(poms, declared).missing is None,
        resolver_laws::all_fetched(
            graph::winners_of(graph::expanded(poms, declared).nodes),
            declared,
            fetched,
            places,
        ),
        ({
            let winners = graph::winners_of(graph::expanded(poms, declared).nodes);
            forall|i: int| 0 <= i < winners.len() ==> is_file(#[trigger] winners[i])
        }),
    ensures
        ({
            let winners = graph::winners_of(graph::expanded(poms, declared).nodes);
            let compile = buckets::bucket_nodes(Bucket::Compile, winners, declared);
            let runtime = buckets::bucket_nodes(Bucket::Runtime, winners, declared);
            let tests = buckets::bucket_nodes(Bucket::TestRuntime, winners, declared);
            &&& resolver::resolution(poms, declared, fetched) matches Step::Done(done)
            &&& are_paths_of(done.classpath.compile, compile, places)
            &&& are_paths_of(done.classpath.runtime, runtime, places)
            &&& are_paths_of(done.classpath.test_runtime, tests, places)
            &&& graph::in_order(compile)
            &&& graph::in_order(runtime)
            &&& graph::in_order(tests)
        }),
{
    let nodes = graph::expanded(poms, declared).nodes;
    let winners = graph::winners_of(nodes);
    lemma_ordered_lists(winners, declared, fetched, places, 8);
    let lists = resolver::gathered(winners, declared, fetched, 8)->Ok_0;
    let order = buckets::bucket_order();
    assert(are_paths_of(
        resolver::just_paths(lists[0]),
        buckets::bucket_nodes(order[0], winners, declared),
        places,
    ));
    assert(are_paths_of(
        resolver::just_paths(lists[1]),
        buckets::bucket_nodes(order[1], winners, declared),
        places,
    ));
    assert(are_paths_of(
        resolver::just_paths(lists[5]),
        buckets::bucket_nodes(order[5], winners, declared),
        places,
    ));
    buckets::law_buckets_are_sorted(Bucket::Compile, nodes, declared);
    buckets::law_buckets_are_sorted(Bucket::Runtime, nodes, declared);
    buckets::law_buckets_are_sorted(Bucket::TestRuntime, nodes, declared);
}

} // verus!
