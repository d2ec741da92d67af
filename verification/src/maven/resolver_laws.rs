//! What a finished resolution holds, told by the nodes of the graph.

use vstd::prelude::*;
use crate::maven;
use crate::maven::buckets;
use crate::maven::buckets::Bucket;
use crate::maven::graph;
use crate::maven::graph::Node;
use crate::maven::pom::Pom;
use crate::maven::resolver;
use crate::maven::resolver::{Settled, Step, Wanted};
use crate::maven::{Declared, Gav};

verus! {

/// Where the artifact of each coordinate lies once it is fetched, given its
/// packaging.
pub type Places = spec_fn(Gav, Seq<char>) -> Seq<char>;

/// Whether artifacts were fetched to their places.
pub open spec fn are_fetched(wanted: Seq<Wanted>, outcomes: Seq<Settled>, places: Places) -> bool {
    &&& wanted.len() <= outcomes.len()
    &&& forall|i: int|
        0 <= i < wanted.len() ==> #[trigger] outcomes[i] == Settled::Path(
            places(wanted[i].gav, wanted[i].packaging),
        )
}

/// Whether the artifacts of every bucket were fetched to their places.
pub open spec fn all_fetched(
    winners: Seq<Node>,
    declared: Seq<Declared>,
    fetched: Seq<Seq<Settled>>,
    places: Places,
) -> bool {
    &&& fetched.len() == 8
    &&& forall|k: int|
        0 <= k < 8 ==> are_fetched(
            resolver::bucket_wanted(buckets::bucket_order()[k], winners, declared),
            #[trigger] fetched[k],
            places,
        )
}

/// Whether a path is that of a winning jar or AAR in a bucket.
pub open spec fn is_path_of(
    bucket: Bucket,
    winners: Seq<Node>,
    declared: Seq<Declared>,
    places: Places,
    path: Seq<char>,
    i: int,
) -> bool {
    &&& 0 <= i < winners.len()
    &&& buckets::in_bucket(bucket, winners, declared, winners[i].gav.ga)
    &&& winners[i].packaging == "jar"@ || winners[i].packaging == "aar"@
    &&& path == places(winners[i].gav, winners[i].packaging)
}

/// Whether a list holds the paths of exactly the winning jars and AARs of a
/// bucket.
pub open spec fn holds_bucket(
    list: Seq<Seq<char>>,
    bucket: Bucket,
    winners: Seq<Node>,
    declared: Seq<Declared>,
    places: Places,
) -> bool {
    forall|path: Seq<char>| #[trigger]
        list.contains(path) <==> exists|i: int| #[trigger]
            is_path_of(bucket, winners, declared, places, path, i)
}

pub proof fn lemma_members(
    bucket: Bucket,
    winners: Seq<Node>,
    declared: Seq<Declared>,
    n: int,
)
    requires
        0 <= n <= winners.len(),
    ensures
        forall|node: Node| #[trigger]
            buckets::members(bucket, winners, declared, n).contains(node) <==> exists|i: int|
                0 <= i < n && #[trigger] winners[i] == node && buckets::in_bucket(
                    bucket,
                    winners,
                    declared,
                    winners[i].gav.ga,
                ),
    decreases n,
{
    let after = buckets::members(bucket, winners, declared, n);
    if n > 0 {
        lemma_members(bucket, winners, declared, n - 1);
        let before = buckets::members(bucket, winners, declared, n - 1);
        assert forall|node: Node| #[trigger] after.contains(node) <==> exists|i: int|
            0 <= i < n && #[trigger] winners[i] == node && buckets::in_bucket(
                bucket,
                winners,
                declared,
                winners[i].gav.ga,
            ) by {
            if after.contains(node) {
                let k = choose|k: int| 0 <= k < after.len() && after[k] == node;
                if k < before.len() {
                    assert(before[k] == node);
                    assert(before.contains(node));
                    let i = choose|i: int|
                        0 <= i < n - 1 && #[trigger] winners[i] == node && buckets::in_bucket(
                            bucket,
                            winners,
                            declared,
                            winners[i].gav.ga,
                        );
                    assert(winners[i] == node);
                } else {
                    assert(winners[n - 1] == node);
                }
            }
            if exists|i: int|
                0 <= i < n && #[trigger] winners[i] == node && buckets::in_bucket(
                    bucket,
                    winners,
                    declared,
                    winners[i].gav.ga,
                ) {
                let i = choose|i: int|
                    0 <= i < n && #[trigger] winners[i] == node && buckets::in_bucket(
                        bucket,
                        winners,
                        declared,
                        winners[i].gav.ga,
                    );
                if i < n - 1 {
                    assert(before.contains(node));
                    let k = choose|k: int| 0 <= k < before.len() && before[k] == node;
                    assert(after[k] == node);
                } else {
                    assert(after[before.len() as int] == node);
                }
            }
        }
    } else {
        assert forall|node: Node| #[trigger] after.contains(node) implies false by {}
    }
}

/// Whether a wish stands for a jar or an AAR.
pub open spec fn stands_for(wanted: Wanted, node: Node) -> bool {
    &&& node.packaging == "jar"@ || node.packaging == "aar"@
    &&& wanted.gav == node.gav
    &&& wanted.packaging == node.packaging
}

pub proof fn lemma_wanted(nodes: Seq<Node>)
    ensures
        forall|wanted: Wanted| #[trigger]
            resolver::wanted_of(nodes).contains(wanted) <==> exists|i: int|
                0 <= i < nodes.len() && stands_for(wanted, #[trigger] nodes[i]),
    decreases nodes.len(),
{
    let after = resolver::wanted_of(nodes);
    if nodes.len() > 0 {
        let front = nodes.drop_last();
        lemma_wanted(front);
        let before = resolver::wanted_of(front);
        let n = nodes.len() - 1;
        assert forall|wanted: Wanted| #[trigger] after.contains(wanted) <==> exists|i: int|
            0 <= i < nodes.len() && stands_for(wanted, #[trigger] nodes[i]) by {
            if after.contains(wanted) {
                let k = choose|k: int| 0 <= k < after.len() && after[k] == wanted;
                if k < before.len() {
                    assert(before[k] == wanted);
                    assert(before.contains(wanted));
                    let i = choose|i: int|
                        0 <= i < front.len() && stands_for(wanted, #[trigger] front[i]);
                    assert(nodes[i] == front[i]);
                } else {
                    assert(stands_for(wanted, nodes[n]));
                }
            }
            if exists|i: int| 0 <= i < nodes.len() && stands_for(wanted, #[trigger] nodes[i]) {
                let i = choose|i: int|
                    0 <= i < nodes.len() && stands_for(wanted, #[trigger] nodes[i]);
                if i < n {
                    assert(front[i] == nodes[i]);
                    assert(before.contains(wanted));
                    let k = choose|k: int| 0 <= k < before.len() && before[k] == wanted;
                    assert(after[k] == wanted);
                } else {
                    assert(after[before.len() as int] == wanted);
                }
            }
        }
    } else {
        assert forall|wanted: Wanted| #[trigger] after.contains(wanted) implies false by {}
    }
}

pub proof fn lemma_settled(wanted: Seq<Wanted>, outcomes: Seq<Settled>, places: Places, n: int)
    requires
        are_fetched(wanted, outcomes, places),
        0 <= n <= wanted.len(),
    ensures
        resolver::settle(wanted, outcomes, n) matches Ok(list) && list.len() == n && forall|i: int|
            0 <= i < n ==> #[trigger] list[i] == (
                wanted[i].gav.ga,
                places(wanted[i].gav, wanted[i].packaging),
            ),
    decreases n,
{
    if n > 0 {
        lemma_settled(wanted, outcomes, places, n - 1);
        assert(outcomes[n - 1] == Settled::Path(
            places(wanted[n - 1].gav, wanted[n - 1].packaging),
        ));
    }
}

proof fn lemma_bucket(
    bucket: Bucket,
    winners: Seq<Node>,
    declared: Seq<Declared>,
    outcomes: Seq<Settled>,
    places: Places,
)
    requires
        are_fetched(resolver::bucket_wanted(bucket, winners, declared), outcomes, places),
    ensures
        resolver::bucket_paths(bucket, winners, declared, outcomes) matches Ok(list)
            && holds_bucket(resolver::just_paths(list), bucket, winners, declared, places),
{
    let nodes = buckets::bucket_nodes(bucket, winners, declared);
    let wanted = resolver::wanted_of(nodes);
    let n = wanted.len() as int;
    lemma_settled(wanted, outcomes, places, n);
    let list = resolver::settle(wanted, outcomes, n)->Ok_0;
    let paths = resolver::just_paths(list);
    lemma_members(bucket, winners, declared, winners.len() as int);
    lemma_wanted(nodes);
    assert forall|path: Seq<char>| #[trigger] paths.contains(path) <==> exists|i: int| #[trigger]
        is_path_of(bucket, winners, declared, places, path, i) by {
        if paths.contains(path) {
            let k = choose|k: int| 0 <= k < paths.len() && paths[k] == path;
            assert(list[k].1 == path);
            assert(wanted.contains(wanted[k]));
            let j = choose|j: int| 0 <= j < nodes.len() && stands_for(wanted[k], #[trigger] nodes[j]);
            assert(nodes.contains(nodes[j]));
            let i = choose|i: int|
                0 <= i < winners.len() && #[trigger] winners[i] == nodes[j] && buckets::in_bucket(
                    bucket,
                    winners,
                    declared,
                    winners[i].gav.ga,
                );
            assert(is_path_of(bucket, winners, declared, places, path, i));
        }
        if exists|i: int| #[trigger] is_path_of(bucket, winners, declared, places, path, i) {
            let i = choose|i: int| #[trigger]
                is_path_of(bucket, winners, declared, places, path, i);
            let node = winners[i];
            assert(nodes.contains(node));
            let j = choose|j: int| 0 <= j < nodes.len() && nodes[j] == node;
            let one = Wanted { gav: node.gav, packaging: node.packaging };
            assert(stands_for(one, nodes[j]));
            assert(wanted.contains(one));
            let k = choose|k: int| 0 <= k < wanted.len() && wanted[k] == one;
            assert(list[k].1 == path);
            assert(paths[k] == path);
        }
    }
}

proof fn lemma_gathered(
    winners: Seq<Node>,
    declared: Seq<Declared>,
    fetched: Seq<Seq<Settled>>,
    places: Places,
    n: int,
)
    requires
        all_fetched(winners, declared, fetched, places),
        0 <= n <= 8,
    ensures
        resolver::gathered(winners, declared, fetched, n) matches Ok(lists) && lists.len() == n
            && forall|k: int|
            0 <= k < n ==> holds_bucket(
                resolver::just_paths(#[trigger] lists[k]),
                buckets::bucket_order()[k],
                winners,
                declared,
                places,
            ),
    decreases n,
{
    if n > 0 {
        lemma_gathered(winners, declared, fetched, places, n - 1);
        assert(are_fetched(
            resolver::bucket_wanted(buckets::bucket_order()[n - 1], winners, declared),
            fetched[n - 1],
            places,
        ));
        lemma_bucket(
            buckets::bucket_order()[n - 1],
            winners,
            declared,
            fetched[n - 1],
            places,
        );
    }
}

/// Once all artifacts are fetched a resolution is done, and each of its
/// classpaths holds the files of exactly those winning jars and AARs that belong
/// on it.
pub proof fn law_classpaths_hold_their_buckets(
    poms: Seq<(Gav, Pom)>,
    declared: Seq<Declared>,
    fetched: Seq<Seq<Settled>>,
    places: Places,
)
    requires
        graph::expanded(poms, declared).missing is None,
        all_fetched(
            graph::winners_of(graph::expanded(poms, declared).nodes),
            declared,
            fetched,
            places,
        ),
    ensures
        ({
            let winners = graph::winners_of(graph::expanded(poms, declared).nodes);
            &&& resolver::resolution(poms, declared, fetched) matches Step::Done(done)
            &&& holds_bucket(done.classpath.compile, Bucket::Compile, winners, declared, places)
            &&& holds_bucket(done.classpath.runtime, Bucket::Runtime, winners, declared, places)
            &&& holds_bucket(
                done.classpath.processor,
                Bucket::Processor,
                winners,
                declared,
                places,
            )
            &&& holds_bucket(done.classpath.api, Bucket::Api, winners, declared, places)
            &&& holds_bucket(
                done.classpath.test_compile,
                Bucket::TestCompile,
                winners,
                declared,
                places,
            )
            &&& holds_bucket(
                done.classpath.test_runtime,
                Bucket::TestRuntime,
                winners,
                declared,
                places,
            )
            &&& holds_bucket(
                done.classpath.android_test_compile,
                Bucket::AndroidTestCompile,
                winners,
                declared,
                places,
            )
            &&& holds_bucket(
                done.classpath.android_test_runtime,
                Bucket::AndroidTestRuntime,
                winners,
                declared,
                places,
            )
        }),
{
    let winners = graph::winners_of(graph::expanded(poms, declared).nodes);
    lemma_gathered(winners, declared, fetched, places, 8);
    let lists = resolver::gathered(winners, declared, fetched, 8)->Ok_0;
    let order = buckets::bucket_order();
    assert(holds_bucket(resolver::just_paths(lists[0]), order[0], winners, declared, places));
    assert(holds_bucket(resolver::just_paths(lists[1]), order[1], winners, declared, places));
    assert(holds_bucket(resolver::just_paths(lists[2]), order[2], winners, declared, places));
    assert(holds_bucket(resolver::just_paths(lists[3]), order[3], winners, declared, places));
    assert(holds_bucket(resolver::just_paths(lists[4]), order[4], winners, declared, places));
    assert(holds_bucket(resolver::just_paths(lists[5]), order[5], winners, declared, places));
    assert(holds_bucket(resolver::just_paths(lists[6]), order[6], winners, declared, places));
    assert(holds_bucket(resolver::just_paths(lists[7]), order[7], winners, declared, places));
}

/// Whether an outcome is a failure.
pub open spec fn has_failed(outcomes: Seq<Settled>, i: int) -> bool {
    0 <= i < outcomes.len() && outcomes[i] is Failed
}

proof fn lemma_settle_failed(wanted: Seq<Wanted>, outcomes: Seq<Settled>, n: int, i: int)
    requires
        0 <= i < n <= outcomes.len(),
        has_failed(outcomes, i),
    ensures
        resolver::settle(wanted, outcomes, n) is Err,
    decreases n,
{
    if i < n - 1 {
        lemma_settle_failed(wanted, outcomes, n - 1, i);
    }
}

/// A resolution never succeeds past a failure: where an artifact of a bucket
/// could not be fetched, no classpath is made.
pub proof fn law_failures_are_not_passed_over(
    poms: Seq<(Gav, Pom)>,
    declared: Seq<Declared>,
    fetched: Seq<Seq<Settled>>,
    k: int,
    i: int,
)
    requires
        graph::expanded(poms, declared).missing is None,
        0 <= k < fetched.len(),
        k < 8,
        has_failed(fetched[k], i),
        i < resolver::bucket_wanted(
            buckets::bucket_order()[k],
            graph::winners_of(graph::expanded(poms, declared).nodes),
            declared,
        ).len(),
    ensures
        resolver::resolution(poms, declared, fetched) is Failed,
{
    let winners = graph::winners_of(graph::expanded(poms, declared).nodes);
    let wanted = resolver::bucket_wanted(buckets::bucket_order()[k], winners, declared);
    let n = resolver::shorter(wanted.len(), fetched[k].len());
    lemma_settle_failed(wanted, fetched[k], n, i);
    lemma_gathered_failed(
        winners,
        declared,
        fetched,
        k,
        resolver::shorter(fetched.len(), 8),
    );
}

proof fn lemma_gathered_failed(
    winners: Seq<Node>,
    declared: Seq<Declared>,
    fetched: Seq<Seq<Settled>>,
    k: int,
    n: int,
)
    requires
        0 <= k < n,
        resolver::bucket_paths(
            buckets::bucket_order()[k],
            winners,
            declared,
            fetched[k],
        ) is Err,
    ensures
        resolver::gathered(winners, declared, fetched, n) is Err,
    decreases n,
{
    if k < n - 1 {
        lemma_gathered_failed(winners, declared, fetched, k, n - 1);
    }
}

proof fn lemma_superseded_by(nodes: Seq<Node>, winner: Gav, n: int, i: int)
    requires
        0 <= i < n <= nodes.len(),
        nodes[i].gav.ga == winner.ga,
        nodes[i].gav.version != winner.version,
    ensures
        graph::superseded_by(nodes, winner, n).contains(
            maven::gav_text(nodes[i].gav) + " superseded by "@ + winner.version,
        ),
    decreases n,
{
    let note = maven::gav_text(nodes[i].gav) + " superseded by "@ + winner.version;
    let after = graph::superseded_by(nodes, winner, n);
    let before = graph::superseded_by(nodes, winner, n - 1);
    if i < n - 1 {
        lemma_superseded_by(nodes, winner, n - 1, i);
        let k = choose|k: int| 0 <= k < before.len() && before[k] == note;
        assert(after[k] == note);
    } else {
        assert(after[before.len() as int] == note);
    }
}

proof fn lemma_superseded(nodes: Seq<Node>, winners: Seq<Node>, n: int, w: int, i: int)
    requires
        0 <= w < n <= winners.len(),
        0 <= i < nodes.len(),
        nodes[i].gav.ga == winners[w].gav.ga,
        nodes[i].gav.version != winners[w].gav.version,
    ensures
        graph::superseded(nodes, winners, n).contains(
            maven::gav_text(nodes[i].gav) + " superseded by "@ + winners[w].gav.version,
        ),
    decreases n,
{
    let note = maven::gav_text(nodes[i].gav) + " superseded by "@ + winners[w].gav.version;
    let after = graph::superseded(nodes, winners, n);
    let before = graph::superseded(nodes, winners, n - 1);
    if w < n - 1 {
        lemma_superseded(nodes, winners, n - 1, w, i);
        let k = choose|k: int| 0 <= k < before.len() && before[k] == note;
        assert(after[k] == note);
    } else {
        let own = graph::superseded_by(nodes, winners[w].gav, nodes.len() as int);
        lemma_superseded_by(nodes, winners[w].gav, nodes.len() as int, i);
        let k = choose|k: int| 0 <= k < own.len() && own[k] == note;
        assert(after[before.len() + k] == note);
    }
}

/// Every version that loses against another is noted, with the one that won.
pub proof fn law_losers_are_noted(
    poms: Seq<(Gav, Pom)>,
    declared: Seq<Declared>,
    fetched: Seq<Seq<Settled>>,
    w: int,
    i: int,
)
    requires
        resolver::resolution(poms, declared, fetched) is Done,
        ({
            let nodes = graph::expanded(poms, declared).nodes;
            let winners = graph::winners_of(nodes);
            &&& 0 <= w < winners.len()
            &&& 0 <= i < nodes.len()
            &&& nodes[i].gav.ga == winners[w].gav.ga
            &&& nodes[i].gav.version != winners[w].gav.version
        }),
    ensures
        ({
            let nodes = graph::expanded(poms, declared).nodes;
            let winners = graph::winners_of(nodes);
            resolver::resolution(poms, declared, fetched)->Done_0.notes.contains(
                maven::gav_text(nodes[i].gav) + " superseded by "@ + winners[w].gav.version,
            )
        }),
{
    let walk = graph::expanded(poms, declared);
    let nodes = walk.nodes;
    let winners = graph::winners_of(nodes);
    let n = winners.len() as int;
    let note = maven::gav_text(nodes[i].gav) + " superseded by "@ + winners[w].gav.version;
    lemma_superseded(nodes, winners, n, w, i);
    let notes = resolver::resolution(poms, declared, fetched)->Done_0.notes;
    let lost = graph::superseded(nodes, winners, n);
    let k = choose|k: int| 0 <= k < lost.len() && lost[k] == note;
    assert(notes[walk.notes.len() + k] == note);
}

} // verus!
