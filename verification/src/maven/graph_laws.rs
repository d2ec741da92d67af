//! What holds of every expansion.

use vstd::prelude::*;
use crate::maven::{Declared, Ga, Gav};
use crate::maven::graph;
use crate::maven::graph::{Node, Walk};
use crate::maven::pom::Pom;

verus! {

/// How many of the known POMs have not been entered.
pub open spec fn unseen(poms: Seq<(Gav, Pom)>, seen: Seq<Gav>) -> nat
    decreases poms.len(),
{
    if poms.len() == 0 {
        0
    } else {
        unseen(poms.drop_first(), seen) + if seen.contains(poms.first().0) {
            0nat
        } else {
            1nat
        }
    }
}

/// Whether a coordinate has a finished node.
pub open spec fn has_node(nodes: Seq<Node>, gav: Gav) -> bool {
    exists|i: int| 0 <= i < nodes.len() && (#[trigger] nodes[i]).gav == gav
}

/// Whether some version of a `group:artifact` has been entered.
pub open spec fn has_entered(seen: Seq<Gav>, ga: Ga) -> bool {
    exists|i: int| 0 <= i < seen.len() && (#[trigger] seen[i]).ga == ga
}

/// What a step of a walk keeps: everything entered stays entered, finished
/// nodes stay and new ones come behind them, and every coordinate the step
/// entered is finished unless the step stopped.
spec fn keeps(before: Walk, after: Walk) -> bool {
    &&& before.seen.is_prefix_of(after.seen)
    &&& before.nodes.is_prefix_of(after.nodes)
    &&& forall|i: int|
        before.nodes.len() <= i < after.nodes.len() ==> {
            &&& after.seen.contains((#[trigger] after.nodes[i]).gav)
            &&& !before.seen.contains(after.nodes[i].gav)
        }
    &&& after.missing is None ==> forall|i: int|
        before.seen.len() <= i < after.seen.len() ==> has_node(
            after.nodes,
            #[trigger] after.seen[i],
        )
}

proof fn lemma_node_stays(before: Seq<Node>, after: Seq<Node>, gav: Gav)
    requires
        before.is_prefix_of(after),
        has_node(before, gav),
    ensures
        has_node(after, gav),
{
    let i = choose|i: int| 0 <= i < before.len() && (#[trigger] before[i]).gav == gav;
    assert(after[i] == before[i]);
}

proof fn lemma_seen_stays(before: Seq<Gav>, after: Seq<Gav>, gav: Gav)
    requires
        before.is_prefix_of(after),
        before.contains(gav),
    ensures
        after.contains(gav),
{
    let i = choose|i: int| 0 <= i < before.len() && before[i] == gav;
    assert(after[i] == gav);
}

proof fn lemma_keeps_chain(a: Walk, b: Walk, c: Walk)
    requires
        keeps(a, b),
        keeps(b, c),
        b.missing is None || c == b,
    ensures
        keeps(a, c),
{
    assert(a.seen.is_prefix_of(c.seen));
    assert(a.nodes.is_prefix_of(c.nodes));
    assert forall|i: int| a.nodes.len() <= i < c.nodes.len() implies c.seen.contains(
        (#[trigger] c.nodes[i]).gav,
    ) && !a.seen.contains(c.nodes[i].gav) by {
        let gav = c.nodes[i].gav;
        if i < b.nodes.len() {
            assert(b.nodes[i] == c.nodes[i]);
            lemma_seen_stays(b.seen, c.seen, gav);
        } else if a.seen.contains(gav) {
            lemma_seen_stays(a.seen, b.seen, gav);
        }
    }
    if c.missing is None {
        assert forall|i: int| a.seen.len() <= i < c.seen.len() implies has_node(
            c.nodes,
            #[trigger] c.seen[i],
        ) by {
            if i < b.seen.len() {
                assert(b.seen[i] == c.seen[i]);
                lemma_node_stays(b.nodes, c.nodes, b.seen[i]);
            }
        }
    }
}

proof fn lemma_expand_keeps(poms: Seq<(Gav, Pom)>, walk: Walk, gav: Gav, depth: nat)
    ensures
        keeps(walk, graph::expand(poms, walk, gav, depth)),
        walk.missing is None && graph::expand(poms, walk, gav, depth).missing is None
            ==> graph::expand(poms, walk, gav, depth).seen.contains(gav),
    decreases depth, 0nat,
{
    let after = graph::expand(poms, walk, gav, depth);
    if walk.missing is Some || walk.seen.contains(gav) {
    } else if depth > 0 && graph::pom_for(poms, gav) is Some {
        let pom = graph::pom_for(poms, gav)->0;
        let inside = graph::entered(walk, gav, pom);
        let below = (depth - 1) as nat;
        lemma_follow_keeps(poms, inside, pom, pom.deps.len(), below);
        let done = graph::follow(poms, inside, pom, pom.deps.len(), below);
        assert(inside.seen[walk.seen.len() as int] == gav);
        assert(done.walk.seen[walk.seen.len() as int] == gav);
        assert(walk.seen.is_prefix_of(after.seen));
        assert(walk.nodes.is_prefix_of(after.nodes));
        assert forall|i: int| walk.nodes.len() <= i < after.nodes.len() implies after.seen.contains(
            (#[trigger] after.nodes[i]).gav,
        ) && !walk.seen.contains(after.nodes[i].gav) by {
            if i < done.walk.nodes.len() {
                assert(after.nodes[i] == done.walk.nodes[i]);
                if walk.seen.contains(after.nodes[i].gav) {
                    lemma_seen_stays(walk.seen, inside.seen, after.nodes[i].gav);
                }
            } else {
                assert(after.nodes[i].gav == gav);
            }
        }
        if after.missing is None {
            assert forall|i: int| walk.seen.len() <= i < after.seen.len() implies has_node(
                after.nodes,
                #[trigger] after.seen[i],
            ) by {
                if i == walk.seen.len() {
                    assert(after.nodes[after.nodes.len() - 1].gav == gav);
                } else {
                    assert(has_node(done.walk.nodes, done.walk.seen[i]));
                    lemma_node_stays(done.walk.nodes, after.nodes, after.seen[i]);
                }
            }
        }
    }
}

proof fn lemma_follow_keeps(
    poms: Seq<(Gav, Pom)>,
    walk: Walk,
    pom: Pom,
    n: nat,
    depth: nat,
)
    ensures
        keeps(walk, graph::follow(poms, walk, pom, n, depth).walk),
        graph::follow(poms, walk, pom, n, depth).walk.missing is None ==> forall|i: int|
            0 <= i < graph::follow(poms, walk, pom, n, depth).edges.len() ==> has_entered(
                graph::follow(poms, walk, pom, n, depth).walk.seen,
                (#[trigger] graph::follow(poms, walk, pom, n, depth).edges[i]).ga,
            ),
    decreases depth, n + 1,
{
    if n > 0 {
        let m = (n - 1) as nat;
        lemma_follow_keeps(poms, walk, pom, m, depth);
        let before = graph::follow(poms, walk, pom, m, depth);
        let after = graph::follow(poms, walk, pom, n, depth);
        let dep = pom.deps[n - 1];
        if before.walk.missing is None {
            match graph::child_version(
                dep,
                graph::managed_entries(pom.managed_deps),
                before.walk.managed,
            ) {
                Err(_) => {
                    lemma_keeps_chain(walk, before.walk, after.walk);
                },
                Ok(v) => {
                    let child = Gav { ga: graph::dep_ga(dep), version: v };
                    lemma_expand_keeps(poms, before.walk, child, depth);
                    lemma_keeps_chain(walk, before.walk, after.walk);
                    if after.walk.missing is None {
                        let at = choose|i: int|
                            0 <= i < after.walk.seen.len() && after.walk.seen[i] == child;
                        assert(after.walk.seen[at].ga == child.ga);
                        assert forall|i: int| 0 <= i < after.edges.len() implies has_entered(
                            after.walk.seen,
                            (#[trigger] after.edges[i]).ga,
                        ) by {
                            if i < before.edges.len() {
                                assert(after.edges[i] == before.edges[i]);
                                let ga = before.edges[i].ga;
                                let j = choose|j: int|
                                    0 <= j < before.walk.seen.len() && (
                                    #[trigger] before.walk.seen[j]).ga == ga;
                                assert(after.walk.seen[j].ga == ga);
                            }
                        }
                    }
                },
            }
        }
    }
}

/// Whether every edge of the nodes from position `from` on leads to a
/// `group:artifact` that has been entered.
spec fn edges_enter(walk: Walk, from: int) -> bool {
    forall|i: int, e: int|
        #![trigger walk.nodes[i].edges[e]]
        from <= i < walk.nodes.len() && 0 <= e < walk.nodes[i].edges.len() ==> has_entered(
            walk.seen,
            walk.nodes[i].edges[e].ga,
        )
}

proof fn lemma_edges_stay(before: Walk, after: Walk, from: int, upto: int)
    requires
        0 <= from,
        upto <= before.nodes.len(),
        edges_enter(before, from),
        before.seen.is_prefix_of(after.seen),
        before.nodes.is_prefix_of(after.nodes),
    ensures
        forall|i: int, e: int|
            #![trigger after.nodes[i].edges[e]]
            from <= i < upto && 0 <= e < after.nodes[i].edges.len() ==> has_entered(
                after.seen,
                after.nodes[i].edges[e].ga,
            ),
{
    assert forall|i: int, e: int|
        #![trigger after.nodes[i].edges[e]]
        from <= i < upto && 0 <= e < after.nodes[i].edges.len() implies has_entered(
        after.seen,
        after.nodes[i].edges[e].ga,
    ) by {
        assert(after.nodes[i] == before.nodes[i]);
        let ga = before.nodes[i].edges[e].ga;
        assert(has_entered(before.seen, ga));
        let j = choose|j: int| 0 <= j < before.seen.len() && (#[trigger] before.seen[j]).ga == ga;
        assert(after.seen[j].ga == ga);
    }
}

proof fn lemma_expand_edges(
    poms: Seq<(Gav, Pom)>,
    walk: Walk,
    gav: Gav,
    depth: nat,
    from: int,
)
    requires
        0 <= from <= walk.nodes.len(),
        edges_enter(walk, from),
        walk.missing is None,
    ensures
        edges_enter(graph::expand(poms, walk, gav, depth), from),
    decreases depth, 0nat,
{
    let after = graph::expand(poms, walk, gav, depth);
    if !walk.seen.contains(gav) && depth > 0 && graph::pom_for(poms, gav) is Some {
        let pom = graph::pom_for(poms, gav)->0;
        let inside = graph::entered(walk, gav, pom);
        let below = (depth - 1) as nat;
        lemma_edges_stay(walk, inside, from, walk.nodes.len() as int);
        assert(edges_enter(inside, from));
        lemma_follow_edges(poms, inside, pom, pom.deps.len(), below, from);
        lemma_follow_keeps(poms, inside, pom, pom.deps.len(), below);
        let done = graph::follow(poms, inside, pom, pom.deps.len(), below);
        if done.walk.missing is None {
            let n = done.walk.nodes.len();
            lemma_edges_stay(done.walk, after, from, n as int);
            assert(after.nodes[n as int].edges == done.edges);
            assert(after.seen == done.walk.seen);
            assert forall|i: int, e: int|
                #![trigger after.nodes[i].edges[e]]
                from <= i < after.nodes.len() && 0 <= e
                    < after.nodes[i].edges.len() implies has_entered(
                after.seen,
                after.nodes[i].edges[e].ga,
            ) by {
                if i == n {
                    assert(has_entered(done.walk.seen, done.edges[e].ga));
                }
            }
        }
    }
}

proof fn lemma_follow_edges(
    poms: Seq<(Gav, Pom)>,
    walk: Walk,
    pom: Pom,
    n: nat,
    depth: nat,
    from: int,
)
    requires
        0 <= from <= walk.nodes.len(),
        edges_enter(walk, from),
        walk.missing is None,
    ensures
        edges_enter(graph::follow(poms, walk, pom, n, depth).walk, from),
    decreases depth, n + 1,
{
    if n > 0 {
        let m = (n - 1) as nat;
        lemma_follow_edges(poms, walk, pom, m, depth, from);
        lemma_follow_keeps(poms, walk, pom, m, depth);
        let before = graph::follow(poms, walk, pom, m, depth);
        let after = graph::follow(poms, walk, pom, n, depth);
        let dep = pom.deps[n - 1];
        if before.walk.missing is None {
            match graph::child_version(
                dep,
                graph::managed_entries(pom.managed_deps),
                before.walk.managed,
            ) {
                Err(_) => {
                    lemma_edges_stay(
                        before.walk,
                        after.walk,
                        from,
                        before.walk.nodes.len() as int,
                    );
                },
                Ok(v) => {
                    lemma_expand_edges(
                        poms,
                        before.walk,
                        Gav { ga: graph::dep_ga(dep), version: v },
                        depth,
                        from,
                    );
                },
            }
        }
    }
}

proof fn lemma_versioned(poms: Seq<(Gav, Pom)>, declared: Seq<Declared>, n: int)
    requires
        0 <= n <= declared.len(),
    ensures
        keeps(graph::blank_walk(), graph::expand_versioned(poms, declared, n)),
        edges_enter(graph::expand_versioned(poms, declared, n), 0),
    decreases n,
{
    if n > 0 {
        lemma_versioned(poms, declared, n - 1);
        let before = graph::expand_versioned(poms, declared, n - 1);
        let gav = declared[n - 1].gav;
        if gav.version.len() > 0 {
            lemma_expand_keeps(poms, before, gav, poms.len());
            lemma_keeps_chain(
                graph::blank_walk(),
                before,
                graph::expand(poms, before, gav, poms.len()),
            );
            if before.missing is None {
                lemma_expand_edges(poms, before, gav, poms.len(), 0);
            }
        }
    }
}

proof fn lemma_managed(poms: Seq<(Gav, Pom)>, walk: Walk, declared: Seq<Declared>, n: int)
    requires
        0 <= n <= declared.len(),
        keeps(graph::blank_walk(), walk),
        edges_enter(walk, 0),
    ensures
        keeps(graph::blank_walk(), graph::expand_managed(poms, walk, declared, n)),
        edges_enter(graph::expand_managed(poms, walk, declared, n), 0),
    decreases n,
{
    if n > 0 {
        lemma_managed(poms, walk, declared, n - 1);
        let before = graph::expand_managed(poms, walk, declared, n - 1);
        let after = graph::expand_managed(poms, walk, declared, n);
        let gav = declared[n - 1].gav;
        if gav.version.len() == 0 && before.missing is None {
            match graph::version_for(before.managed, gav.ga) {
                Some(v) => {
                    let root = Gav { ga: gav.ga, version: v };
                    lemma_expand_keeps(poms, before, root, poms.len());
                    lemma_keeps_chain(graph::blank_walk(), before, after);
                    lemma_expand_edges(poms, before, root, poms.len(), 0);
                },
                None => {
                    lemma_keeps_chain(graph::blank_walk(), before, after);
                    lemma_edges_stay(before, after, 0, before.nodes.len() as int);
                },
            }
        }
    }
}

/// A completed expansion is closed: every coordinate that was entered has a
/// node, every node's coordinate was entered, and every edge leads to a
/// `group:artifact` that has a winner.
pub proof fn law_graph_is_closed(poms: Seq<(Gav, Pom)>, declared: Seq<Declared>)
    requires
        graph::expanded(poms, declared).missing is None,
    ensures
        ({
            let walk = graph::expanded(poms, declared);
            &&& forall|i: int|
                0 <= i < walk.seen.len() ==> has_node(walk.nodes, #[trigger] walk.seen[i])
            &&& forall|i: int|
                0 <= i < walk.nodes.len() ==> walk.seen.contains((#[trigger] walk.nodes[i]).gav)
            &&& forall|i: int, e: int|
                #![trigger walk.nodes[i].edges[e]]
                0 <= i < walk.nodes.len() && 0 <= e < walk.nodes[i].edges.len() ==> graph::chosen(
                    walk.nodes,
                    walk.nodes[i].edges[e].ga,
                ) is Some
        }),
{
    let n = declared.len() as int;
    lemma_versioned(poms, declared, n);
    lemma_managed(poms, graph::expand_versioned(poms, declared, n), declared, n);
    let walk = graph::expanded(poms, declared);
    assert forall|i: int, e: int|
        #![trigger walk.nodes[i].edges[e]]
        0 <= i < walk.nodes.len() && 0 <= e < walk.nodes[i].edges.len() implies graph::chosen(
        walk.nodes,
        walk.nodes[i].edges[e].ga,
    ) is Some by {
        let ga = walk.nodes[i].edges[e].ga;
        assert(has_entered(walk.seen, ga));
        let j = choose|j: int| 0 <= j < walk.seen.len() && (#[trigger] walk.seen[j]).ga == ga;
        assert(has_node(walk.nodes, walk.seen[j]));
        let k = choose|k: int|
            0 <= k < walk.nodes.len() && (#[trigger] walk.nodes[k]).gav == walk.seen[j];
        lemma_chosen_exists(walk.nodes, k);
    }
}

proof fn lemma_chosen_exists(nodes: Seq<Node>, at: int)
    requires
        0 <= at < nodes.len(),
    ensures
        graph::chosen(nodes, nodes[at].gav.ga) is Some,
    decreases nodes.len(),
{
    if at < nodes.len() - 1 {
        lemma_chosen_exists(nodes.drop_last(), at);
    }
}

proof fn lemma_unseen_shrinks(poms: Seq<(Gav, Pom)>, before: Seq<Gav>, after: Seq<Gav>)
    requires
        before.is_prefix_of(after),
    ensures
        unseen(poms, after) <= unseen(poms, before),
    decreases poms.len(),
{
    if poms.len() > 0 {
        lemma_unseen_shrinks(poms.drop_first(), before, after);
        if before.contains(poms.first().0) {
            lemma_seen_stays(before, after, poms.first().0);
        }
    }
}

proof fn lemma_unseen_drops(poms: Seq<(Gav, Pom)>, seen: Seq<Gav>, gav: Gav)
    requires
        !seen.contains(gav),
        graph::pom_for(poms, gav) is Some,
    ensures
        unseen(poms, seen.push(gav)) < unseen(poms, seen),
    decreases poms.len(),
{
    let rest = poms.drop_first();
    let more = seen.push(gav);
    assert(more[seen.len() as int] == gav);
    assert(seen.is_prefix_of(more));
    if poms.first().0 == gav {
        lemma_unseen_shrinks(rest, seen, more);
    } else {
        lemma_unseen_drops(rest, seen, gav);
        if seen.contains(poms.first().0) {
            lemma_seen_stays(seen, more, poms.first().0);
        }
    }
}

proof fn lemma_unseen_none(poms: Seq<(Gav, Pom)>, seen: Seq<Gav>, gav: Gav)
    requires
        unseen(poms, seen) == 0,
        !seen.contains(gav),
    ensures
        graph::pom_for(poms, gav) is None,
    decreases poms.len(),
{
    if poms.len() > 0 {
        lemma_unseen_none(poms.drop_first(), seen, gav);
    }
}

proof fn lemma_unseen_bound(poms: Seq<(Gav, Pom)>, seen: Seq<Gav>)
    ensures
        unseen(poms, seen) <= poms.len(),
    decreases poms.len(),
{
    if poms.len() > 0 {
        lemma_unseen_bound(poms.drop_first(), seen);
    }
}

proof fn lemma_expand_depth(poms: Seq<(Gav, Pom)>, walk: Walk, gav: Gav, depth: nat, more: nat)
    requires
        unseen(poms, walk.seen) <= depth <= more,
    ensures
        graph::expand(poms, walk, gav, depth) == graph::expand(poms, walk, gav, more),
        walk.missing is None ==> (graph::expand(poms, walk, gav, depth).missing matches Some(g)
            ==> graph::pom_for(poms, g) is None),
    decreases depth, 0nat,
{
    if walk.missing is None && !walk.seen.contains(gav) {
        if depth == 0 {
            lemma_unseen_none(poms, walk.seen, gav);
        }
        if graph::pom_for(poms, gav) is Some {
            let pom = graph::pom_for(poms, gav)->0;
            lemma_unseen_drops(poms, walk.seen, gav);
            lemma_follow_depth(
                poms,
                graph::entered(walk, gav, pom),
                pom,
                pom.deps.len(),
                (depth - 1) as nat,
                (more - 1) as nat,
            );
        }
    }
}

proof fn lemma_follow_depth(
    poms: Seq<(Gav, Pom)>,
    walk: Walk,
    pom: Pom,
    n: nat,
    depth: nat,
    more: nat,
)
    requires
        unseen(poms, walk.seen) <= depth <= more,
    ensures
        graph::follow(poms, walk, pom, n, depth) == graph::follow(poms, walk, pom, n, more),
        walk.missing is None ==> (graph::follow(poms, walk, pom, n, depth).walk.missing matches Some(
            g,
        ) ==> graph::pom_for(poms, g) is None),
    decreases depth, n + 1,
{
    if n > 0 {
        let m = (n - 1) as nat;
        lemma_follow_depth(poms, walk, pom, m, depth, more);
        let before = graph::follow(poms, walk, pom, m, depth);
        let dep = pom.deps[n - 1];
        if before.walk.missing is None {
            if let Ok(v) = graph::child_version(
                dep,
                graph::managed_entries(pom.managed_deps),
                before.walk.managed,
            ) {
                lemma_follow_keeps(poms, walk, pom, m, depth);
                lemma_unseen_shrinks(poms, walk.seen, before.walk.seen);
                lemma_expand_depth(
                    poms,
                    before.walk,
                    Gav { ga: graph::dep_ga(dep), version: v },
                    depth,
                    more,
                );
            }
        }
    }
}

/// The bound on the chain of coordinates being entered never takes effect:
/// the number of known POMs is enough, and a larger bound changes nothing.
pub proof fn law_depth_is_enough(
    poms: Seq<(Gav, Pom)>,
    walk: Walk,
    gav: Gav,
    depth: nat,
)
    requires
        poms.len() <= depth,
    ensures
        graph::expand(poms, walk, gav, depth) == graph::expand(poms, walk, gav, poms.len()),
{
    lemma_unseen_bound(poms, walk.seen);
    lemma_expand_depth(poms, walk, gav, poms.len(), depth);
}

/// An expansion asks only for POMs that are not known, so that every POM is
/// asked for at most once.
pub proof fn law_asks_for_the_unknown(poms: Seq<(Gav, Pom)>, declared: Seq<Declared>)
    ensures
        graph::expanded(poms, declared).missing matches Some(g) ==> graph::pom_for(poms, g) is None,
{
    let n = declared.len() as int;
    lemma_versioned_asks(poms, declared, n);
    lemma_managed_asks(poms, graph::expand_versioned(poms, declared, n), declared, n);
}

proof fn lemma_versioned_asks(poms: Seq<(Gav, Pom)>, declared: Seq<Declared>, n: int)
    ensures
        graph::expand_versioned(poms, declared, n).missing matches Some(g) ==> graph::pom_for(
            poms,
            g,
        ) is None,
    decreases n,
{
    if n > 0 {
        lemma_versioned_asks(poms, declared, n - 1);
        let before = graph::expand_versioned(poms, declared, n - 1);
        lemma_unseen_bound(poms, before.seen);
        lemma_expand_depth(poms, before, declared[n - 1].gav, poms.len(), poms.len());
    }
}

proof fn lemma_managed_asks(poms: Seq<(Gav, Pom)>, walk: Walk, declared: Seq<Declared>, n: int)
    requires
        walk.missing matches Some(g) ==> graph::pom_for(poms, g) is None,
    ensures
        graph::expand_managed(poms, walk, declared, n).missing matches Some(g) ==> graph::pom_for(
            poms,
            g,
        ) is None,
    decreases n,
{
    if n > 0 {
        lemma_managed_asks(poms, walk, declared, n - 1);
        let before = graph::expand_managed(poms, walk, declared, n - 1);
        let ga = declared[n - 1].gav.ga;
        if let Some(v) = graph::version_for(before.managed, ga) {
            lemma_unseen_bound(poms, before.seen);
            lemma_expand_depth(poms, before, Gav { ga, version: v }, poms.len(), poms.len());
        }
    }
}

/// The first BOM to manage a version wins: versions that later ones manage
/// change nothing where an earlier one gave a version.
pub proof fn law_first_bom_wins(managed: Seq<Gav>, later: Seq<Gav>, ga: Ga)
    ensures
        graph::version_for(managed + later, ga) == match graph::version_for(managed, ga) {
            Some(v) => Some(v),
            None => graph::version_for(later, ga),
        },
    decreases managed.len(),
{
    let all = managed + later;
    if managed.len() == 0 {
        assert(all == later);
    } else {
        assert(all.first() == managed.first());
        assert(all.drop_first() == managed.drop_first() + later);
        law_first_bom_wins(managed.drop_first(), later, ga);
    }
}

} // verus!
