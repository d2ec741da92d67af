//! Which version of an artifact is taken.

use vstd::prelude::*;
use crate::maven::{Ga, Gav};
use crate::maven::graph;
use crate::maven::graph::Node;
use crate::maven::pom::PomDep;
use crate::maven::version;
use crate::text;
use crate::text::Relation;

verus! {

/// Of versions that are equally new, the one that was met first is taken.
pub proof fn law_first_of_equals_is_chosen(nodes: Seq<Node>, i: int)
    requires
        0 <= i < nodes.len(),
        forall|j: int|
            0 <= j < i && (#[trigger] nodes[j]).gav.ga == nodes[i].gav.ga
                ==> version::version_relation(nodes[i].gav.version, nodes[j].gav.version)
                == Relation::Greater,
        forall|j: int|
            i < j < nodes.len() && (#[trigger] nodes[j]).gav.ga == nodes[i].gav.ga
                ==> version::version_relation(nodes[j].gav.version, nodes[i].gav.version)
                != Relation::Greater,
    ensures
        graph::chosen(nodes, nodes[i].gav.ga) == Some(nodes[i]),
    decreases nodes.len(),
{
    let ga = nodes[i].gav.ga;
    let before = nodes.drop_last();
    let last = nodes.len() - 1;
    if i < last {
        assert forall|j: int| 0 <= j < i && (#[trigger] before[j]).gav.ga == before[i].gav.ga implies
            version::version_relation(before[i].gav.version, before[j].gav.version)
            == Relation::Greater by {
            assert(nodes[j] == before[j]);
        }
        assert forall|j: int|
            i < j < before.len() && (#[trigger] before[j]).gav.ga == before[i].gav.ga implies
            version::version_relation(before[j].gav.version, before[i].gav.version)
            != Relation::Greater by {
            assert(nodes[j] == before[j]);
        }
        law_first_of_equals_is_chosen(before, i);
        assert(nodes[last] == nodes.last());
    } else if graph::chosen(before, ga) is Some {
        let best = graph::lemma_chosen_occurs(before, ga);
        assert(nodes[best] == before[best]);
    }
}

/// Whether the first entry for an artifact stands at a position of a list.
pub open spec fn is_first(list: Seq<Gav>, ga: Ga, i: int) -> bool {
    &&& 0 <= i < list.len()
    &&& list[i].ga == ga
    &&& forall|h: int| 0 <= h < i ==> (#[trigger] list[h]).ga != ga
}

/// Whether a list has no entry for an artifact.
pub open spec fn has_none(list: Seq<Gav>, ga: Ga) -> bool {
    forall|i: int| 0 <= i < list.len() ==> (#[trigger] list[i]).ga != ga
}

proof fn lemma_first(list: Seq<Gav>, ga: Ga, i: int)
    requires
        is_first(list, ga, i),
    ensures
        graph::version_for(list, ga) == Some(list[i].version),
    decreases i,
{
    if i > 0 {
        assert(list[0].ga != ga);
        let rest = list.drop_first();
        assert forall|h: int| 0 <= h < i - 1 implies (#[trigger] rest[h]).ga != ga by {
            assert(rest[h] == list[h + 1]);
        }
        assert(rest[i - 1] == list[i]);
        lemma_first(rest, ga, i - 1);
    }
}

proof fn lemma_none(list: Seq<Gav>, ga: Ga)
    requires
        has_none(list, ga),
    ensures
        graph::version_for(list, ga) is None,
    decreases list.len(),
{
    if list.len() > 0 {
        assert(list[0].ga != ga);
        let rest = list.drop_first();
        assert forall|h: int| 0 <= h < rest.len() implies (#[trigger] rest[h]).ga != ga by {
            assert(rest[h] == list[h + 1]);
        }
        lemma_none(rest, ga);
    }
}

/// Whether a text has a property in it, such as `${kotlin.version}`.
pub open spec fn has_property(s: Seq<char>) -> bool {
    exists|i: int| 0 <= i < s.len() - 1 && #[trigger] s[i] == '$' && s[i + 1] == '{'
}

/// The version of a child is the one that its POM gives. Without one it is the one
/// that the POM manages itself, or else the one of the BOMs, the first in each
/// case; with a property it is the one of the BOMs. A child for which there is
/// none is not followed.
pub proof fn law_child_versions_are_found(
    dep: PomDep,
    local: Seq<Gav>,
    managed: Seq<Gav>,
    i: int,
    j: int,
)
    ensures
        ({
            let ga = Ga { group: dep.group, artifact: dep.artifact };
            let result = graph::child_version(dep, local, managed);
            match dep.version {
                Some(given) => if has_property(given) {
                    &&& is_first(managed, ga, j) ==> result == Ok::<Seq<char>, Seq<char>>(
                        managed[j].version,
                    )
                    &&& has_none(managed, ga) ==> result is Err
                } else {
                    result == Ok::<Seq<char>, Seq<char>>(given)
                },
                None => {
                    &&& is_first(local, ga, i) ==> result == Ok::<Seq<char>, Seq<char>>(
                        local[i].version,
                    )
                    &&& has_none(local, ga) && is_first(managed, ga, j) ==> result == Ok::<
                        Seq<char>,
                        Seq<char>,
                    >(managed[j].version)
                    &&& has_none(local, ga) && has_none(managed, ga) ==> result is Err
                },
            }
        }),
{
    let ga = Ga { group: dep.group, artifact: dep.artifact };
    if is_first(managed, ga, j) {
        lemma_first(managed, ga, j);
    }
    if is_first(local, ga, i) {
        lemma_first(local, ga, i);
    }
    if has_none(managed, ga) {
        lemma_none(managed, ga);
    }
    if has_none(local, ga) {
        lemma_none(local, ga);
    }
    if let Some(given) = dep.version {
        reveal_strlit("${");
        if text::has_text(given, "${"@) {
            let at = choose|at: int| text::occurs_at(given, "${"@, at);
            assert(given.subrange(at, at + 2)[0] == given[at]);
            assert(given.subrange(at, at + 2)[1] == given[at + 1]);
            assert(given[at] == '$');
        }
        if has_property(given) {
            let at = choose|at: int|
                0 <= at < given.len() - 1 && #[trigger] given[at] == '$' && given[at + 1] == '{';
            assert(given.subrange(at, at + 2) =~= "${"@);
            assert(text::occurs_at(given, "${"@, at));
        }
    }
}

/// Artifacts are ordered by their group, and within a group by their name.
pub proof fn law_artifacts_are_ordered_by_group_and_name(a: Ga, b: Ga)
    ensures
        text::compare_text(a.group, b.group) == Relation::Less ==> graph::compare_ga(a, b)
            == Relation::Less,
        a.group == b.group && text::compare_text(a.artifact, b.artifact) == Relation::Less
            ==> graph::compare_ga(a, b) == Relation::Less,
        graph::compare_ga(a, b) == Relation::Equal ==> a == b,
{
    text::lemma_compare_reflexive(a.group);
    if graph::compare_ga(a, b) == Relation::Equal {
        text::lemma_compare_equal(a.group, b.group);
        text::lemma_compare_equal(a.artifact, b.artifact);
    }
}

} // verus!
