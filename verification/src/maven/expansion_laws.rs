//! What an expansion enters and follows, told by what is declared and by what
//! the POMs say.

use vstd::prelude::*;
use crate::maven;
use crate::maven::graph;
use crate::maven::graph::{Edge, Node, Walk};
use crate::maven::graph_laws;
use crate::maven::pom::{Pom, PomDep};
use crate::maven::{Declared, Ga, Gav};
use crate::text;

verus! {

/// The `group:artifact` of a POM dependency.
pub open spec fn ga_of(dep: PomDep) -> Ga {
    Ga { group: dep.group, artifact: dep.artifact }
}

/// Whether an entry of `dependencyManagement` is the first one that gives a
/// `group:artifact` a version.
pub open spec fn is_first_managed(deps: Seq<PomDep>, ga: Ga, k: int) -> bool {
    &&& 0 <= k < deps.len()
    &&& ga_of(deps[k]) == ga
    &&& deps[k].version is Some
    &&& forall|j: int|
        0 <= j < k && ga_of(#[trigger] deps[j]) == ga ==> deps[j].version is None
}

/// Whether a child is followed at a version: that coordinate is entered, and
/// there is an edge to it in the scope that the POM names.
pub open spec fn is_followed(
    walk: Walk,
    edges: Seq<Edge>,
    dep: PomDep,
    version: Seq<char>,
) -> bool {
    &&& walk.seen.contains(Gav { ga: ga_of(dep), version })
    &&& edges.contains(Edge { ga: ga_of(dep), scope: dep.scope })
}

/// Whether a child is followed at a version that a BOM manages.
pub open spec fn is_followed_as_managed(walk: Walk, edges: Seq<Edge>, dep: PomDep) -> bool {
    exists|version: Seq<char>|
        walk.managed.contains(Gav { ga: ga_of(dep), version }) && #[trigger] is_followed(
            walk,
            edges,
            dep,
            version,
        )
}

/// Whether a child of a POM is taken care of: one with a version is followed at
/// that version; one without at the version that the POM itself manages, else at
/// one that a BOM manages, and so is one whose version is a property; a child
/// that no version can be found for is noted.
pub open spec fn is_child_done(walk: Walk, edges: Seq<Edge>, pom: Pom, d: int) -> bool {
    let dep = pom.deps[d];
    let ga = ga_of(dep);
    match dep.version {
        Some(v) => if !text::has_text(v, "${"@) {
            is_followed(walk, edges, dep, v)
        } else {
            is_followed_as_managed(walk, edges, dep) || walk.notes.contains(
                maven::gav_text(Gav { ga, version: v })
                    + " uses a property version; parent POMs are outside the resolver's scope"@,
            )
        },
        None => if exists|k: int| is_first_managed(pom.managed_deps, ga, k) {
            forall|k: int|
                is_first_managed(pom.managed_deps, ga, k) ==> is_followed(
                    walk,
                    edges,
                    dep,
                    (#[trigger] pom.managed_deps[k]).version->0,
                )
        } else {
            is_followed_as_managed(walk, edges, dep) || walk.notes.contains(
                maven::ga_text(ga)
                    + " declares no version and no BOM provides one; its dependencies are not followed"@,
            )
        },
    }
}

/// Whether an edge stands for a child of a POM.
pub open spec fn is_edge_of(pom: Pom, edge: Edge) -> bool {
    exists|d: int|
        0 <= d < pom.deps.len() && ga_of(#[trigger] pom.deps[d]) == edge.ga && pom.deps[d].scope
            == edge.scope
}

/// Whether a node is what its POM says: it has the POM's packaging, every child
/// is taken care of, and there are no other edges.
pub open spec fn is_node_done(poms: Seq<(Gav, Pom)>, walk: Walk, node: Node) -> bool {
    &&& graph::pom_for(poms, node.gav) matches Some(pom)
    &&& node.packaging == pom.packaging
    &&& forall|d: int|
        0 <= d < pom.deps.len() ==> #[trigger] is_child_done(walk, node.edges, pom, d)
    &&& forall|e: int| 0 <= e < node.edges.len() ==> is_edge_of(pom, #[trigger] node.edges[e])
}

/// Whether a BOM's versions are managed.
pub open spec fn is_bom_met(poms: Seq<(Gav, Pom)>, walk: Walk, gav: Gav) -> bool {
    graph::pom_for(poms, gav) matches Some(pom) ==> pom.packaging == "pom"@ ==> forall|k: int|
        0 <= k < pom.managed_deps.len() && (#[trigger] pom.managed_deps[k]).version is Some
            ==> walk.managed.contains(
            Gav { ga: ga_of(pom.managed_deps[k]), version: pom.managed_deps[k].version->0 },
        )
}

/// Whether a version is managed by a BOM that was entered.
pub open spec fn is_from_bom(poms: Seq<(Gav, Pom)>, walk: Walk, managed: Gav) -> bool {
    exists|i: int, k: int| #[trigger] is_entry_of(poms, walk, i, k, managed)
}

/// Whether entry `k` of the BOM that was entered at position `i` gives a version.
pub open spec fn is_entry_of(
    poms: Seq<(Gav, Pom)>,
    walk: Walk,
    i: int,
    k: int,
    managed: Gav,
) -> bool {
    &&& 0 <= i < walk.seen.len()
    &&& graph::pom_for(poms, walk.seen[i]) matches Some(pom)
    &&& pom.packaging == "pom"@
    &&& 0 <= k < pom.managed_deps.len()
    &&& ga_of(pom.managed_deps[k]) == managed.ga
    &&& pom.managed_deps[k].version == Some(managed.version)
}

/// Whether a coordinate is called for by child `d` of the one that was entered
/// at position `j`.
pub open spec fn is_child_of(
    poms: Seq<(Gav, Pom)>,
    walk: Walk,
    j: int,
    d: int,
    gav: Gav,
) -> bool {
    &&& 0 <= j < walk.seen.len()
    &&& graph::pom_for(poms, walk.seen[j]) matches Some(pom)
    &&& 0 <= d < pom.deps.len()
    &&& ga_of(pom.deps[d]) == gav.ga
    &&& pom.deps[d].version == Some(gav.version) || walk.managed.contains(gav) || exists|k: int|
        0 <= k < pom.managed_deps.len() && ga_of(#[trigger] pom.managed_deps[k]) == gav.ga
            && pom.managed_deps[k].version == Some(gav.version)
}

/// Whether a coordinate is declared, or one of the first `upto` that were
/// entered calls for it.
pub open spec fn is_called_for(
    poms: Seq<(Gav, Pom)>,
    declared: Seq<Declared>,
    walk: Walk,
    gav: Gav,
    upto: int,
) -> bool {
    ||| exists|d: int|
        0 <= d < declared.len() && (#[trigger] declared[d]).gav.ga == gav.ga && (
        declared[d].gav.version == gav.version || (declared[d].gav.version.len() == 0
            && walk.managed.contains(gav)))
    ||| exists|j: int, d: int| j < upto && #[trigger] is_child_of(poms, walk, j, d, gav)
}

/// Whether one walk has come further than another.
spec fn grows(a: Walk, b: Walk) -> bool {
    &&& a.seen.is_prefix_of(b.seen)
    &&& a.nodes.is_prefix_of(b.nodes)
    &&& a.notes.is_prefix_of(b.notes)
    &&& a.managed.is_prefix_of(b.managed)
}

spec fn is_sound(poms: Seq<(Gav, Pom)>, declared: Seq<Declared>, walk: Walk) -> bool {
    &&& forall|i: int|
        0 <= i < walk.nodes.len() ==> is_node_done(poms, walk, #[trigger] walk.nodes[i])
    &&& forall|i: int|
        0 <= i < walk.seen.len() ==> is_bom_met(poms, walk, #[trigger] walk.seen[i])
    &&& forall|i: int|
        0 <= i < walk.managed.len() ==> is_from_bom(poms, walk, #[trigger] walk.managed[i])
    &&& forall|i: int|
        0 <= i < walk.seen.len() ==> is_called_for(
            poms,
            declared,
            walk,
            #[trigger] walk.seen[i],
            i,
        )
}

proof fn lemma_in_prefix<A>(a: Seq<A>, b: Seq<A>, x: A)
    requires
        a.is_prefix_of(b),
        a.contains(x),
    ensures
        b.contains(x),
{
    let i = choose|i: int| 0 <= i < a.len() && a[i] == x;
    assert(b[i] == x);
}

proof fn lemma_prefix_chain<A>(a: Seq<A>, b: Seq<A>, c: Seq<A>)
    requires
        a.is_prefix_of(b),
        b.is_prefix_of(c),
    ensures
        a.is_prefix_of(c),
{
    assert(a =~= c.subrange(0, a.len() as int)) by {
        assert(a =~= b.subrange(0, a.len() as int));
        assert(b =~= c.subrange(0, b.len() as int));
        assert forall|i: int| 0 <= i < a.len() implies a[i] == c[i] by {
            assert(a[i] == b.subrange(0, a.len() as int)[i]);
            assert(b[i] == c.subrange(0, b.len() as int)[i]);
        }
    }
}

proof fn lemma_grows_chain(a: Walk, b: Walk, c: Walk)
    requires
        grows(a, b),
        grows(b, c),
    ensures
        grows(a, c),
{
    lemma_prefix_chain(a.seen, b.seen, c.seen);
    lemma_prefix_chain(a.nodes, b.nodes, c.nodes);
    lemma_prefix_chain(a.notes, b.notes, c.notes);
    lemma_prefix_chain(a.managed, b.managed, c.managed);
}

proof fn lemma_followed_stays(
    a: Walk,
    b: Walk,
    edges: Seq<Edge>,
    more: Seq<Edge>,
    dep: PomDep,
    version: Seq<char>,
)
    requires
        grows(a, b),
        edges.is_prefix_of(more),
        is_followed(a, edges, dep, version),
    ensures
        is_followed(b, more, dep, version),
{
    lemma_in_prefix(a.seen, b.seen, Gav { ga: ga_of(dep), version });
    lemma_in_prefix(edges, more, Edge { ga: ga_of(dep), scope: dep.scope });
}

proof fn lemma_child_stays(
    a: Walk,
    b: Walk,
    edges: Seq<Edge>,
    more: Seq<Edge>,
    pom: Pom,
    d: int,
)
    requires
        grows(a, b),
        edges.is_prefix_of(more),
        is_child_done(a, edges, pom, d),
    ensures
        is_child_done(b, more, pom, d),
{
    let dep = pom.deps[d];
    let ga = ga_of(dep);
    if is_followed_as_managed(a, edges, dep) {
        let version = choose|version: Seq<char>|
            a.managed.contains(Gav { ga: ga_of(dep), version }) && #[trigger] is_followed(
                a,
                edges,
                dep,
                version,
            );
        lemma_in_prefix(a.managed, b.managed, Gav { ga, version });
        lemma_followed_stays(a, b, edges, more, dep, version);
        assert(is_followed_as_managed(b, more, dep));
    }
    match dep.version {
        Some(v) => {
            if !text::has_text(v, "${"@) {
                lemma_followed_stays(a, b, edges, more, dep, v);
            } else if !is_followed_as_managed(a, edges, dep) {
                lemma_in_prefix(
                    a.notes,
                    b.notes,
                    maven::gav_text(Gav { ga, version: v })
                        + " uses a property version; parent POMs are outside the resolver's scope"@,
                );
            }
        },
        None => {
            if exists|k: int| is_first_managed(pom.managed_deps, ga, k) {
                assert forall|k: int| is_first_managed(pom.managed_deps, ga, k) implies is_followed(
                    b,
                    more,
                    dep,
                    (#[trigger] pom.managed_deps[k]).version->0,
                ) by {
                    lemma_followed_stays(
                        a,
                        b,
                        edges,
                        more,
                        dep,
                        pom.managed_deps[k].version->0,
                    );
                }
            } else if !is_followed_as_managed(a, edges, dep) {
                lemma_in_prefix(
                    a.notes,
                    b.notes,
                    maven::ga_text(ga)
                        + " declares no version and no BOM provides one; its dependencies are not followed"@,
                );
            }
        },
    }
}

proof fn lemma_called_stays(
    poms: Seq<(Gav, Pom)>,
    declared: Seq<Declared>,
    a: Walk,
    b: Walk,
    gav: Gav,
    upto: int,
)
    requires
        grows(a, b),
        is_called_for(poms, declared, a, gav, upto),
    ensures
        is_called_for(poms, declared, b, gav, upto),
{
    if a.managed.contains(gav) {
        lemma_in_prefix(a.managed, b.managed, gav);
    }
    if exists|d: int|
        0 <= d < declared.len() && (#[trigger] declared[d]).gav.ga == gav.ga && (
        declared[d].gav.version == gav.version || (declared[d].gav.version.len() == 0
            && a.managed.contains(gav))) {
        let d = choose|d: int|
            0 <= d < declared.len() && (#[trigger] declared[d]).gav.ga == gav.ga && (
            declared[d].gav.version == gav.version || (declared[d].gav.version.len() == 0
                && a.managed.contains(gav)));
        assert(declared[d].gav.ga == gav.ga);
    } else {
        let (j, d) = choose|j: int, d: int|
            j < upto && #[trigger] is_child_of(poms, a, j, d, gav);
        assert(b.seen[j] == a.seen[j]);
        assert(is_child_of(poms, b, j, d, gav));
    }
}

/// What was sound stays so for what was there, as a walk goes on.
proof fn lemma_sound_stays(
    poms: Seq<(Gav, Pom)>,
    declared: Seq<Declared>,
    a: Walk,
    b: Walk,
)
    requires
        grows(a, b),
        is_sound(poms, declared, a),
    ensures
        forall|i: int|
            0 <= i < a.nodes.len() ==> is_node_done(poms, b, #[trigger] b.nodes[i]),
        forall|i: int| 0 <= i < a.seen.len() ==> is_bom_met(poms, b, #[trigger] b.seen[i]),
        forall|i: int|
            0 <= i < a.managed.len() ==> is_from_bom(poms, b, #[trigger] b.managed[i]),
        forall|i: int|
            0 <= i < a.seen.len() ==> is_called_for(poms, declared, b, #[trigger] b.seen[i], i),
{
    assert forall|i: int| 0 <= i < a.nodes.len() implies is_node_done(
        poms,
        b,
        #[trigger] b.nodes[i],
    ) by {
        assert(b.nodes[i] == a.nodes[i]);
        let node = a.nodes[i];
        assert(is_node_done(poms, a, node));
        let pom = graph::pom_for(poms, node.gav)->0;
        assert forall|d: int| 0 <= d < pom.deps.len() implies #[trigger] is_child_done(
            b,
            node.edges,
            pom,
            d,
        ) by {
            assert(is_child_done(a, node.edges, pom, d));
            assert(node.edges =~= node.edges.subrange(0, node.edges.len() as int));
            lemma_child_stays(a, b, node.edges, node.edges, pom, d);
        }
    }
    assert forall|i: int| 0 <= i < a.seen.len() implies is_bom_met(poms, b, #[trigger] b.seen[i]) by {
        assert(b.seen[i] == a.seen[i]);
        assert(is_bom_met(poms, a, a.seen[i]));
        if let Some(pom) = graph::pom_for(poms, a.seen[i]) {
            if pom.packaging == "pom"@ {
                assert forall|k: int|
                    0 <= k < pom.managed_deps.len() && (
                    #[trigger] pom.managed_deps[k]).version is Some implies b.managed.contains(
                    Gav {
                        ga: ga_of(pom.managed_deps[k]),
                        version: pom.managed_deps[k].version->0,
                    },
                ) by {
                    lemma_in_prefix(
                        a.managed,
                        b.managed,
                        Gav {
                            ga: ga_of(pom.managed_deps[k]),
                            version: pom.managed_deps[k].version->0,
                        },
                    );
                }
            }
        }
    }
    assert forall|i: int| 0 <= i < a.managed.len() implies is_from_bom(
        poms,
        b,
        #[trigger] b.managed[i],
    ) by {
        assert(b.managed[i] == a.managed[i]);
        assert(is_from_bom(poms, a, a.managed[i]));
        let (s, k) = choose|s: int, k: int| #[trigger]
            is_entry_of(poms, a, s, k, a.managed[i]);
        assert(b.seen[s] == a.seen[s]);
        assert(is_entry_of(poms, b, s, k, b.managed[i]));
    }
    assert forall|i: int| 0 <= i < a.seen.len() implies is_called_for(
        poms,
        declared,
        b,
        #[trigger] b.seen[i],
        i,
    ) by {
        assert(b.seen[i] == a.seen[i]);
        assert(is_called_for(poms, declared, a, a.seen[i], i));
        lemma_called_stays(poms, declared, a, b, a.seen[i], i);
    }
}

proof fn lemma_version_occurs(list: Seq<Gav>, ga: Ga)
    ensures
        graph::version_for(list, ga) matches Some(version) ==> list.contains(Gav { ga, version }),
    decreases list.len(),
{
    if list.len() > 0 {
        if list.first().ga == ga {
            assert(list[0] == (Gav { ga, version: list.first().version }));
        } else {
            lemma_version_occurs(list.drop_first(), ga);
            if let Some(version) = graph::version_for(list, ga) {
                let rest = list.drop_first();
                let i = choose|i: int| 0 <= i < rest.len() && rest[i] == (Gav { ga, version });
                assert(list[i + 1] == (Gav { ga, version }));
            }
        }
    }
}

proof fn lemma_first_managed(deps: Seq<PomDep>, ga: Ga)
    ensures
        match graph::version_for(graph::managed_entries(deps), ga) {
            Some(v) => exists|k: int|
                is_first_managed(deps, ga, k) && (#[trigger] deps[k]).version == Some(v),
            None => forall|k: int| !is_first_managed(deps, ga, k),
        },
        forall|j: int, k: int|
            is_first_managed(deps, ga, j) && is_first_managed(deps, ga, k) ==> j == k,
    decreases deps.len(),
{
    if deps.len() > 0 {
        let front = deps.drop_last();
        let last = deps.last();
        let n = deps.len() - 1;
        lemma_first_managed(front, ga);
        let before = graph::managed_entries(front);
        if let Some(v) = last.version {
            let one = seq![Gav { ga: graph::dep_ga(last), version: v }];
            assert(graph::managed_entries(deps) =~= before + one);
            graph_laws::law_first_bom_wins(before, one, ga);
            assert(one.drop_first() =~= Seq::<Gav>::empty());
            assert(graph::version_for(one.drop_first(), ga) is None);
            assert(graph::version_for(one, ga) == if ga_of(last) == ga {
                Some(v)
            } else {
                None
            });
        } else {
            assert(graph::managed_entries(deps) == before);
        }
        assert forall|k: int| is_first_managed(front, ga, k) implies is_first_managed(deps, ga, k) by {
            assert(deps[k] == front[k]);
            assert forall|j: int|
                0 <= j < k && ga_of(#[trigger] deps[j]) == ga implies deps[j].version is None by {
                assert(front[j] == deps[j]);
            }
        }
        assert forall|k: int| is_first_managed(deps, ga, k) && k < n implies is_first_managed(
            front,
            ga,
            k,
        ) by {
            assert(deps[k] == front[k]);
            assert forall|j: int|
                0 <= j < k && ga_of(#[trigger] front[j]) == ga implies front[j].version is None by {
                assert(front[j] == deps[j]);
            }
        }
        match graph::version_for(before, ga) {
            Some(v) => {
                let k = choose|k: int|
                    is_first_managed(front, ga, k) && (#[trigger] front[k]).version == Some(v);
                assert(deps[k] == front[k]);
                assert(is_first_managed(deps, ga, k));
            },
            None => {
                if ga_of(last) == ga && last.version is Some {
                    assert forall|j: int|
                        0 <= j < n && ga_of(#[trigger] deps[j]) == ga implies deps[j].version is None by {
                        if deps[j].version is Some {
                            lemma_some_first(front, ga, j);
                        }
                    }
                    assert(is_first_managed(deps, ga, n));
                    assert(deps[n].version == last.version);
                } else {
                    assert forall|k: int| !is_first_managed(deps, ga, k) by {
                        if is_first_managed(deps, ga, k) && k < n {
                            assert(is_first_managed(front, ga, k));
                        }
                    }
                }
            },
        }
    }
}

proof fn lemma_some_first(deps: Seq<PomDep>, ga: Ga, j: int)
    requires
        0 <= j < deps.len(),
        ga_of(deps[j]) == ga,
        deps[j].version is Some,
    ensures
        exists|k: int| is_first_managed(deps, ga, k),
    decreases j,
{
    if !is_first_managed(deps, ga, j) {
        let i = choose|i: int|
            0 <= i < j && ga_of(#[trigger] deps[i]) == ga && deps[i].version is Some;
        lemma_some_first(deps, ga, i);
    }
}

proof fn lemma_entries_managed(deps: Seq<PomDep>)
    ensures
        forall|k: int|
            0 <= k < deps.len() && (#[trigger] deps[k]).version is Some
                ==> graph::managed_entries(deps).contains(
                Gav { ga: ga_of(deps[k]), version: deps[k].version->0 },
            ),
        forall|i: int|
            0 <= i < graph::managed_entries(deps).len() ==> exists|k: int|
                0 <= k < deps.len() && ga_of(#[trigger] deps[k])
                    == (#[trigger] graph::managed_entries(deps)[i]).ga && deps[k].version == Some(
                    graph::managed_entries(deps)[i].version,
                ),
    decreases deps.len(),
{
    if deps.len() > 0 {
        let front = deps.drop_last();
        let before = graph::managed_entries(front);
        let all = graph::managed_entries(deps);
        lemma_entries_managed(front);
        assert forall|k: int|
            0 <= k < deps.len() && (#[trigger] deps[k]).version is Some implies all.contains(
            Gav { ga: ga_of(deps[k]), version: deps[k].version->0 },
        ) by {
            let gav = Gav { ga: ga_of(deps[k]), version: deps[k].version->0 };
            if k < front.len() {
                assert(front[k] == deps[k]);
                assert(before.contains(gav));
                let i = choose|i: int| 0 <= i < before.len() && before[i] == gav;
                assert(all[i] == gav);
            } else {
                assert(all[before.len() as int] == gav);
            }
        }
        assert forall|i: int| 0 <= i < all.len() implies exists|k: int|
            0 <= k < deps.len() && ga_of(#[trigger] deps[k]) == (#[trigger] all[i]).ga
                && deps[k].version == Some(all[i].version) by {
            if i < before.len() {
                assert(all[i] == before[i]);
                let k = choose|k: int|
                    0 <= k < front.len() && ga_of(#[trigger] front[k]) == before[i].ga
                        && front[k].version == Some(before[i].version);
                assert(deps[k] == front[k]);
            } else {
                assert(ga_of(deps[deps.len() - 1]) == all[i].ga);
            }
        }
    }
}

proof fn lemma_enter(
    poms: Seq<(Gav, Pom)>,
    declared: Seq<Declared>,
    walk: Walk,
    gav: Gav,
    pom: Pom,
)
    requires
        is_sound(poms, declared, walk),
        graph::pom_for(poms, gav) == Some(pom),
        is_called_for(poms, declared, walk, gav, walk.seen.len() as int),
    ensures
        grows(walk, graph::entered(walk, gav, pom)),
        is_sound(poms, declared, graph::entered(walk, gav, pom)),
{
    let after = graph::entered(walk, gav, pom);
    let n = walk.seen.len() as int;
    assert(walk.seen =~= after.seen.subrange(0, n));
    assert(walk.nodes =~= after.nodes.subrange(0, walk.nodes.len() as int));
    assert(walk.notes =~= after.notes.subrange(0, walk.notes.len() as int));
    assert(walk.managed =~= after.managed.subrange(0, walk.managed.len() as int));
    lemma_sound_stays(poms, declared, walk, after);
    lemma_called_stays(poms, declared, walk, after, gav, n);
    lemma_entries_managed(pom.managed_deps);
    let entries = graph::managed_entries(pom.managed_deps);
    assert(after.seen[n] == gav);
    assert(is_bom_met(poms, after, gav)) by {
        if pom.packaging == "pom"@ {
            assert forall|k: int|
                0 <= k < pom.managed_deps.len() && (
                #[trigger] pom.managed_deps[k]).version is Some implies after.managed.contains(
                Gav { ga: ga_of(pom.managed_deps[k]), version: pom.managed_deps[k].version->0 },
            ) by {
                let one = Gav {
                    ga: ga_of(pom.managed_deps[k]),
                    version: pom.managed_deps[k].version->0,
                };
                assert(entries.contains(one));
                let i = choose|i: int| 0 <= i < entries.len() && entries[i] == one;
                assert(after.managed[walk.managed.len() + i] == one);
            }
        }
    }
    assert forall|i: int| 0 <= i < after.managed.len() implies is_from_bom(
        poms,
        after,
        #[trigger] after.managed[i],
    ) by {
        if i >= walk.managed.len() {
            let e = i - walk.managed.len();
            assert(after.managed[i] == entries[e]);
            let k = choose|k: int|
                0 <= k < pom.managed_deps.len() && ga_of(#[trigger] pom.managed_deps[k])
                    == entries[e].ga && pom.managed_deps[k].version == Some(entries[e].version);
            assert(is_entry_of(poms, after, n, k, after.managed[i]));
        }
    }
}

proof fn lemma_expand(
    poms: Seq<(Gav, Pom)>,
    declared: Seq<Declared>,
    walk: Walk,
    gav: Gav,
    depth: nat,
)
    requires
        is_sound(poms, declared, walk),
        walk.missing is None,
        is_called_for(poms, declared, walk, gav, walk.seen.len() as int),
    ensures
        grows(walk, graph::expand(poms, walk, gav, depth)),
        graph::expand(poms, walk, gav, depth).missing is None ==> is_sound(
            poms,
            declared,
            graph::expand(poms, walk, gav, depth),
        ) && graph::expand(poms, walk, gav, depth).seen.contains(gav),
    decreases depth, 0nat,
{
    let after = graph::expand(poms, walk, gav, depth);
    lemma_grows_self(walk);
    if !walk.seen.contains(gav) && depth > 0 && graph::pom_for(poms, gav) is Some {
        let pom = graph::pom_for(poms, gav)->0;
        let inside = graph::entered(walk, gav, pom);
        let below = (depth - 1) as nat;
        let at = walk.seen.len() as int;
        lemma_enter(poms, declared, walk, gav, pom);
        assert(inside.seen[at] == gav);
        lemma_follow(poms, declared, inside, gav, at, pom, pom.deps.len(), below);
        let done = graph::follow(poms, inside, pom, pom.deps.len(), below);
        lemma_grows_chain(walk, inside, done.walk);
        if done.walk.missing is None {
            let n = done.walk.nodes.len() as int;
            assert(done.walk.nodes =~= after.nodes.subrange(0, n));
            lemma_grows_self(done.walk);
            assert(grows(done.walk, after));
            lemma_grows_chain(walk, done.walk, after);
            lemma_sound_stays(poms, declared, done.walk, after);
            let node = after.nodes[n];
            assert forall|d: int| 0 <= d < pom.deps.len() implies #[trigger] is_child_done(
                after,
                node.edges,
                pom,
                d,
            ) by {
                assert(is_child_done(done.walk, done.edges, pom, d));
                assert(node.edges =~= node.edges.subrange(0, node.edges.len() as int));
                lemma_child_stays(done.walk, after, done.edges, node.edges, pom, d);
            }
            assert(is_node_done(poms, after, node));
            lemma_in_prefix(inside.seen, done.walk.seen, gav);
        }
    }
}

proof fn lemma_grows_self(walk: Walk)
    ensures
        grows(walk, walk),
{
    assert(walk.seen =~= walk.seen.subrange(0, walk.seen.len() as int));
    assert(walk.nodes =~= walk.nodes.subrange(0, walk.nodes.len() as int));
    assert(walk.notes =~= walk.notes.subrange(0, walk.notes.len() as int));
    assert(walk.managed =~= walk.managed.subrange(0, walk.managed.len() as int));
}

proof fn lemma_follow(
    poms: Seq<(Gav, Pom)>,
    declared: Seq<Declared>,
    walk: Walk,
    gav: Gav,
    at: int,
    pom: Pom,
    n: nat,
    depth: nat,
)
    requires
        is_sound(poms, declared, walk),
        walk.missing is None,
        n <= pom.deps.len(),
        0 <= at < walk.seen.len(),
        walk.seen[at] == gav,
        graph::pom_for(poms, gav) == Some(pom),
    ensures
        grows(walk, graph::follow(poms, walk, pom, n, depth).walk),
        graph::follow(poms, walk, pom, n, depth).walk.missing is None ==> {
            let after = graph::follow(poms, walk, pom, n, depth);
            &&& is_sound(poms, declared, after.walk)
            &&& forall|d: int|
                0 <= d < n ==> #[trigger] is_child_done(after.walk, after.edges, pom, d)
            &&& forall|e: int|
                0 <= e < after.edges.len() ==> is_edge_of(pom, #[trigger] after.edges[e])
        },
    decreases depth, n + 1,
{
    lemma_grows_self(walk);
    if n > 0 {
        let m = (n - 1) as nat;
        lemma_follow(poms, declared, walk, gav, at, pom, m, depth);
        let before = graph::follow(poms, walk, pom, m, depth);
        let after = graph::follow(poms, walk, pom, n, depth);
        let dep = pom.deps[n - 1];
        let ga = ga_of(dep);
        let local = graph::managed_entries(pom.managed_deps);
        if before.walk.missing is None {
            lemma_first_managed(pom.managed_deps, ga);
            lemma_version_occurs(before.walk.managed, ga);
            lemma_grows_self(before.walk);
            assert(before.walk.seen[at] == gav);
            match graph::child_version(dep, local, before.walk.managed) {
                Err(note) => {
                    assert(before.walk.notes =~= after.walk.notes.subrange(
                        0,
                        before.walk.notes.len() as int,
                    ));
                    assert(grows(before.walk, after.walk));
                    lemma_grows_chain(walk, before.walk, after.walk);
                    lemma_sound_stays(poms, declared, before.walk, after.walk);
                    assert(after.walk.notes[before.walk.notes.len() as int] == note);
                    assert(after.edges =~= before.edges.subrange(0, before.edges.len() as int));
                    assert forall|d: int| 0 <= d < n implies #[trigger] is_child_done(
                        after.walk,
                        after.edges,
                        pom,
                        d,
                    ) by {
                        if d < m {
                            assert(is_child_done(before.walk, before.edges, pom, d));
                            lemma_child_stays(
                                before.walk,
                                after.walk,
                                before.edges,
                                after.edges,
                                pom,
                                d,
                            );
                        }
                    }
                },
                Ok(v) => {
                    let child = Gav { ga, version: v };
                    assert(is_child_of(poms, before.walk, at, n - 1, child)) by {
                        if dep.version is None && graph::version_for(local, ga) == Some(v) {
                            let k = choose|k: int|
                                is_first_managed(pom.managed_deps, ga, k) && (
                                #[trigger] pom.managed_deps[k]).version == Some(v);
                            assert(ga_of(pom.managed_deps[k]) == ga);
                        }
                    }
                    assert(is_called_for(
                        poms,
                        declared,
                        before.walk,
                        child,
                        before.walk.seen.len() as int,
                    ));
                    lemma_expand(poms, declared, before.walk, child, depth);
                    lemma_grows_chain(walk, before.walk, after.walk);
                    if after.walk.missing is None {
                        let edge = Edge { ga, scope: dep.scope };
                        assert(after.edges == before.edges.push(edge));
                        assert(before.edges =~= after.edges.subrange(
                            0,
                            before.edges.len() as int,
                        ));
                        assert(after.edges[before.edges.len() as int] == edge);
                        assert(is_followed(after.walk, after.edges, dep, v));
                        assert forall|e: int| 0 <= e < after.edges.len() implies is_edge_of(
                            pom,
                            #[trigger] after.edges[e],
                        ) by {
                            if e < before.edges.len() {
                                assert(after.edges[e] == before.edges[e]);
                            } else {
                                assert(ga_of(pom.deps[n - 1]) == edge.ga);
                            }
                        }
                        assert forall|d: int| 0 <= d < n implies #[trigger] is_child_done(
                            after.walk,
                            after.edges,
                            pom,
                            d,
                        ) by {
                            if d < m {
                                assert(is_child_done(before.walk, before.edges, pom, d));
                                lemma_child_stays(
                                    before.walk,
                                    after.walk,
                                    before.edges,
                                    after.edges,
                                    pom,
                                    d,
                                );
                            } else {
                                if before.walk.managed.contains(child) {
                                    lemma_in_prefix(
                                        before.walk.managed,
                                        after.walk.managed,
                                        child,
                                    );
                                }
                            }
                        }
                    }
                },
            }
        }
    }
}

proof fn lemma_versioned(poms: Seq<(Gav, Pom)>, declared: Seq<Declared>, n: int)
    requires
        0 <= n <= declared.len(),
    ensures
        ({
            let walk = graph::expand_versioned(poms, declared, n);
            walk.missing is None ==> {
                &&& is_sound(poms, declared, walk)
                &&& forall|d: int|
                    0 <= d < n && (#[trigger] declared[d]).gav.version.len() > 0
                        ==> walk.seen.contains(declared[d].gav)
            }
        }),
    decreases n,
{
    if n > 0 {
        lemma_versioned(poms, declared, n - 1);
        let before = graph::expand_versioned(poms, declared, n - 1);
        let after = graph::expand_versioned(poms, declared, n);
        let gav = declared[n - 1].gav;
        if gav.version.len() > 0 && before.missing is None {
            assert(is_called_for(poms, declared, before, gav, before.seen.len() as int));
            lemma_expand(poms, declared, before, gav, poms.len());
            if after.missing is None {
                assert forall|d: int|
                    0 <= d < n && (
                    #[trigger] declared[d]).gav.version.len() > 0 implies after.seen.contains(
                    declared[d].gav,
                ) by {
                    if d < n - 1 {
                        lemma_in_prefix(before.seen, after.seen, declared[d].gav);
                    }
                }
            }
        }
    }
}

/// Whether a declared dep without a version is taken care of: it is entered at a
/// version that a BOM manages, or noted.
pub open spec fn is_unversioned_done(walk: Walk, ga: Ga) -> bool {
    ||| exists|version: Seq<char>|
        walk.managed.contains(Gav { ga, version }) && #[trigger] walk.seen.contains(
            Gav { ga, version },
        )
    ||| walk.notes.contains(
        maven::ga_text(ga) + " has no version and no BOM provides one; it is skipped"@,
    )
}

proof fn lemma_unversioned(
    poms: Seq<(Gav, Pom)>,
    start: Walk,
    declared: Seq<Declared>,
    n: int,
)
    requires
        0 <= n <= declared.len(),
        start.missing is None ==> is_sound(poms, declared, start),
    ensures
        ({
            let walk = graph::expand_managed(poms, start, declared, n);
            walk.missing is None ==> {
                &&& start.missing is None
                &&& grows(start, walk)
                &&& is_sound(poms, declared, walk)
                &&& forall|d: int|
                    0 <= d < n && (#[trigger] declared[d]).gav.version.len() == 0
                        ==> is_unversioned_done(walk, declared[d].gav.ga)
                &&& forall|d: int|
                    0 <= d < n && (#[trigger] declared[d]).gav.version.len() == 0 ==> (
                    graph::version_for(start.managed, declared[d].gav.ga) matches Some(version)
                        ==> walk.seen.contains(Gav { ga: declared[d].gav.ga, version }))
            }
        }),
    decreases n,
{
    lemma_grows_self(start);
    if n > 0 {
        lemma_unversioned(poms, start, declared, n - 1);
        let before = graph::expand_managed(poms, start, declared, n - 1);
        let after = graph::expand_managed(poms, start, declared, n);
        let gav = declared[n - 1].gav;
        if after.missing is None && gav.version.len() == 0 {
            assert(before.missing is None);
            lemma_grows_self(before);
            lemma_version_occurs(before.managed, gav.ga);
            let later = before.managed.skip(start.managed.len() as int);
            assert(before.managed =~= start.managed + later);
            graph_laws::law_first_bom_wins(start.managed, later, gav.ga);
            match graph::version_for(before.managed, gav.ga) {
                Some(v) => {
                    let root = Gav { ga: gav.ga, version: v };
                    assert(declared[n - 1].gav.ga == root.ga);
                    assert(is_called_for(
                        poms,
                        declared,
                        before,
                        root,
                        before.seen.len() as int,
                    ));
                    lemma_expand(poms, declared, before, root, poms.len());
                    lemma_in_prefix(before.managed, after.managed, root);
                },
                None => {
                    assert(before.notes =~= after.notes.subrange(0, before.notes.len() as int));
                    assert(after.notes[before.notes.len() as int] == graph::unmanaged_note(gav.ga));
                    lemma_sound_stays(poms, declared, before, after);
                },
            }
            assert(grows(before, after));
            lemma_grows_chain(start, before, after);
            assert forall|d: int|
                0 <= d < n && (
                #[trigger] declared[d]).gav.version.len() == 0 implies is_unversioned_done(
                after,
                declared[d].gav.ga,
            ) && (graph::version_for(start.managed, declared[d].gav.ga) matches Some(version)
                ==> after.seen.contains(Gav { ga: declared[d].gav.ga, version })) by {
                let ga = declared[d].gav.ga;
                if d < n - 1 {
                    assert(is_unversioned_done(before, ga));
                    if let Some(version) = graph::version_for(start.managed, ga) {
                        lemma_in_prefix(before.seen, after.seen, Gav { ga, version });
                    }
                    if exists|version: Seq<char>|
                        before.managed.contains(Gav { ga, version })
                            && #[trigger] before.seen.contains(Gav { ga, version }) {
                        let version = choose|version: Seq<char>|
                            before.managed.contains(Gav { ga, version })
                                && #[trigger] before.seen.contains(Gav { ga, version });
                        lemma_in_prefix(before.managed, after.managed, Gav { ga, version });
                        lemma_in_prefix(before.seen, after.seen, Gav { ga, version });
                    } else {
                        lemma_in_prefix(
                            before.notes,
                            after.notes,
                            maven::ga_text(ga)
                                + " has no version and no BOM provides one; it is skipped"@,
                        );
                    }
                }
            }
        }
    }
}

proof fn lemma_expanded(poms: Seq<(Gav, Pom)>, declared: Seq<Declared>)
    requires
        graph::expanded(poms, declared).missing is None,
    ensures
        ({
            let first = graph::expand_versioned(poms, declared, declared.len() as int);
            let walk = graph::expanded(poms, declared);
            &&& first.missing is None
            &&& grows(first, walk)
            &&& is_sound(poms, declared, first)
            &&& is_sound(poms, declared, walk)
        }),
{
    let n = declared.len() as int;
    lemma_versioned(poms, declared, n);
    lemma_unversioned(poms, graph::expand_versioned(poms, declared, n), declared, n);
}

/// Every declared dep is entered: one with a version at that version, one
/// without at a version that a BOM manages, or else it is noted that none does.
pub proof fn law_declared_deps_are_entered(
    poms: Seq<(Gav, Pom)>,
    declared: Seq<Declared>,
    d: int,
)
    requires
        graph::expanded(poms, declared).missing is None,
        0 <= d < declared.len(),
    ensures
        ({
            let walk = graph::expanded(poms, declared);
            let gav = declared[d].gav;
            if gav.version.len() > 0 {
                walk.seen.contains(gav)
            } else {
                is_unversioned_done(walk, gav.ga)
            }
        }),
{
    let n = declared.len() as int;
    let first = graph::expand_versioned(poms, declared, n);
    let walk = graph::expanded(poms, declared);
    lemma_expanded(poms, declared);
    lemma_versioned(poms, declared, n);
    lemma_unversioned(poms, first, declared, n);
    if declared[d].gav.version.len() > 0 {
        lemma_in_prefix(first.seen, walk.seen, declared[d].gav);
    }
}

/// A declared BOM gives its versions to the declared deps without one: a dep
/// that any BOM among the declared deps manages is entered at a managed version,
/// wherever the two are declared.
pub proof fn law_boms_give_versions(
    poms: Seq<(Gav, Pom)>,
    declared: Seq<Declared>,
    b: int,
    k: int,
    d: int,
)
    requires
        graph::expanded(poms, declared).missing is None,
        0 <= b < declared.len(),
        0 <= d < declared.len(),
        declared[b].gav.version.len() > 0,
        declared[d].gav.version.len() == 0,
        graph::pom_for(poms, declared[b].gav) matches Some(pom) && pom.packaging == "pom"@ && 0 <= k
            < pom.managed_deps.len() && ga_of(pom.managed_deps[k]) == declared[d].gav.ga
            && pom.managed_deps[k].version is Some,
    ensures
        exists|version: Seq<char>|
            graph::expanded(poms, declared).managed.contains(
                Gav { ga: declared[d].gav.ga, version },
            ) && #[trigger] graph::expanded(poms, declared).seen.contains(
                Gav { ga: declared[d].gav.ga, version },
            ),
{
    let n = declared.len() as int;
    let first = graph::expand_versioned(poms, declared, n);
    let walk = graph::expanded(poms, declared);
    let ga = declared[d].gav.ga;
    let pom = graph::pom_for(poms, declared[b].gav)->0;
    lemma_expanded(poms, declared);
    lemma_versioned(poms, declared, n);
    lemma_unversioned(poms, first, declared, n);
    assert(first.seen.contains(declared[b].gav));
    let i = choose|i: int| 0 <= i < first.seen.len() && first.seen[i] == declared[b].gav;
    assert(is_bom_met(poms, first, first.seen[i]));
    let one = Gav { ga: ga_of(pom.managed_deps[k]), version: pom.managed_deps[k].version->0 };
    assert(first.managed.contains(one));
    lemma_some_version(first.managed, one);
    lemma_version_occurs(first.managed, ga);
    let version = graph::version_for(first.managed, ga)->0;
    lemma_in_prefix(first.managed, walk.managed, Gav { ga, version });
    assert(walk.seen.contains(Gav { ga, version }));
}

proof fn lemma_some_version(list: Seq<Gav>, gav: Gav)
    requires
        list.contains(gav),
    ensures
        graph::version_for(list, gav.ga) is Some,
    decreases list.len(),
{
    if list.first().ga != gav.ga {
        let rest = list.drop_first();
        let i = choose|i: int| 0 <= i < list.len() && list[i] == gav;
        assert(rest[i - 1] == gav);
        lemma_some_version(rest, gav);
    }
}

/// Transitive dependencies are followed: the node of each coordinate has the
/// packaging that its POM names, and every child that the POM names, in whatever
/// scope, is entered at its version and stands as an edge of the node, or it is
/// noted why it cannot be. Nothing else does.
pub proof fn law_children_are_followed(poms: Seq<(Gav, Pom)>, declared: Seq<Declared>, i: int)
    requires
        graph::expanded(poms, declared).missing is None,
        0 <= i < graph::expanded(poms, declared).nodes.len(),
    ensures
        is_node_done(
            poms,
            graph::expanded(poms, declared),
            graph::expanded(poms, declared).nodes[i],
        ),
{
    lemma_expanded(poms, declared);
    let walk = graph::expanded(poms, declared);
    assert(is_node_done(poms, walk, walk.nodes[i]));
}

/// The versions that are managed are those of the BOMs that were entered, all of
/// them and no others.
pub proof fn law_managed_versions_are_those_of_boms(
    poms: Seq<(Gav, Pom)>,
    declared: Seq<Declared>,
    i: int,
)
    requires
        graph::expanded(poms, declared).missing is None,
    ensures
        ({
            let walk = graph::expanded(poms, declared);
            &&& 0 <= i < walk.seen.len() ==> is_bom_met(poms, walk, walk.seen[i])
            &&& 0 <= i < walk.managed.len() ==> is_from_bom(poms, walk, walk.managed[i])
        }),
{
    lemma_expanded(poms, declared);
    let walk = graph::expanded(poms, declared);
    if 0 <= i < walk.seen.len() {
        assert(is_bom_met(poms, walk, walk.seen[i]));
    }
    if 0 <= i < walk.managed.len() {
        assert(is_from_bom(poms, walk, walk.managed[i]));
    }
}

/// Nothing is entered that is not called for: every coordinate is declared, or a
/// coordinate that was entered before it names it as a child.
pub proof fn law_entered_coordinates_are_called_for(
    poms: Seq<(Gav, Pom)>,
    declared: Seq<Declared>,
    i: int,
)
    requires
        graph::expanded(poms, declared).missing is None,
        0 <= i < graph::expanded(poms, declared).seen.len(),
    ensures
        is_called_for(
            poms,
            declared,
            graph::expanded(poms, declared),
            graph::expanded(poms, declared).seen[i],
            i,
        ),
{
    lemma_expanded(poms, declared);
    let walk = graph::expanded(poms, declared);
    assert(is_called_for(poms, declared, walk, walk.seen[i], i));
}

} // verus!
