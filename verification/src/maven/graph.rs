//! Expanding declared dependencies into the graph of all reachable versions,
//! and picking one version per `group:artifact`.
//!
//! The expansion walks the POMs that are known. Where it needs one that is
//! not, it stops and names the coordinate; once that POM has been added it is
//! run again and gets further.

use vstd::prelude::*;
use crate::maven;
use crate::maven::{DeclaredDep, Declared, Dependency, Ga, Gav};
use crate::maven::pom;
use crate::maven::pom::{Pom, PomDep, PomDependency, PomProject, PomScope};
use crate::maven::version;
use crate::text;
use crate::text::Relation;

verus! {

/// The POM of a coordinate.
#[derive(Debug, PartialEq, Eq)]
pub struct KnownPom {
    /// The coordinate.
    pub coordinate: Dependency,
    /// Its POM.
    pub pom: PomProject,
}

/// What a list of known POMs holds.
pub open spec fn known(poms: Seq<KnownPom>) -> Seq<(Gav, Pom)> {
    Seq::new(poms.len(), |i: int| (poms[i].coordinate@, poms[i].pom@))
}

/// A child of a node, by the scope it is needed in.
#[derive(Debug, PartialEq, Eq)]
pub struct PomEdge {
    /// The child's group.
    pub group: String,
    /// The child's artifact.
    pub artifact: String,
    /// The scope.
    pub scope: PomScope,
}

/// What a [`PomEdge`] holds.
pub struct Edge {
    /// The child.
    pub ga: Ga,
    /// The scope.
    pub scope: PomScope,
}

impl View for PomEdge {
    type V = Edge;

    open spec fn view(&self) -> Edge {
        Edge { ga: Ga { group: self.group@, artifact: self.artifact@ }, scope: self.scope }
    }
}

/// What a list of edges holds.
pub open spec fn edges_of(edges: Seq<PomEdge>) -> Seq<Edge> {
    Seq::new(edges.len(), |i: int| edges[i]@)
}

/// A node of the graph: one version of one `group:artifact`.
#[derive(Debug, PartialEq, Eq)]
pub struct GraphNode {
    /// The coordinate.
    pub coordinate: Dependency,
    /// The packaging its POM names.
    pub packaging: String,
    /// The children that are followed.
    pub edges: Vec<PomEdge>,
}

/// What a [`GraphNode`] holds.
pub struct Node {
    /// The coordinate.
    pub gav: Gav,
    /// The packaging.
    pub packaging: Seq<char>,
    /// The children.
    pub edges: Seq<Edge>,
}

impl View for GraphNode {
    type V = Node;

    open spec fn view(&self) -> Node {
        Node { gav: self.coordinate@, packaging: self.packaging@, edges: edges_of(self.edges@) }
    }
}

/// What a list of nodes holds.
pub open spec fn nodes_of(nodes: Seq<GraphNode>) -> Seq<Node> {
    Seq::new(nodes.len(), |i: int| nodes[i]@)
}

/// What a list of coordinates holds.
pub open spec fn gavs_of(list: Seq<Dependency>) -> Seq<Gav> {
    Seq::new(list.len(), |i: int| list[i]@)
}

/// How far an expansion has come.
pub struct Walk {
    /// The coordinates that have been entered.
    pub seen: Seq<Gav>,
    /// The finished nodes, children before their parents.
    pub nodes: Seq<Node>,
    /// What has been noted.
    pub notes: Seq<Seq<char>>,
    /// The versions that BOMs manage, in the order in which they were met.
    pub managed: Seq<Gav>,
    /// The coordinate whose POM is needed and not known.
    pub missing: Option<Gav>,
}

/// Before the first coordinate.
pub open spec fn blank_walk() -> Walk {
    Walk {
        seen: Seq::empty(),
        nodes: Seq::empty(),
        notes: Seq::empty(),
        managed: Seq::empty(),
        missing: None,
    }
}

/// The known POM of a coordinate.
pub open spec fn pom_for(poms: Seq<(Gav, Pom)>, gav: Gav) -> Option<Pom>
    decreases poms.len(),
{
    if poms.len() == 0 {
        None
    } else if poms.first().0 == gav {
        Some(poms.first().1)
    } else {
        pom_for(poms.drop_first(), gav)
    }
}

/// The version that a list gives a `group:artifact`: the first one counts.
pub open spec fn version_for(list: Seq<Gav>, ga: Ga) -> Option<Seq<char>>
    decreases list.len(),
{
    if list.len() == 0 {
        None
    } else if list.first().ga == ga {
        Some(list.first().version)
    } else {
        version_for(list.drop_first(), ga)
    }
}

/// The versions that `dependencyManagement` entries give.
pub open spec fn managed_entries(deps: Seq<PomDep>) -> Seq<Gav>
    decreases deps.len(),
{
    if deps.len() == 0 {
        Seq::empty()
    } else {
        let before = managed_entries(deps.drop_last());
        match deps.last().version {
            Some(v) => before.push(Gav { ga: dep_ga(deps.last()), version: v }),
            None => before,
        }
    }
}

/// The `group:artifact` of a POM dependency.
pub open spec fn dep_ga(dep: PomDep) -> Ga {
    Ga { group: dep.group, artifact: dep.artifact }
}

/// The version at which a child is followed, or the note on why it is not.
/// A child without a version takes the one that its own POM manages, else the
/// one that a BOM manages; a child whose version is a property takes the one
/// that a BOM manages.
pub open spec fn child_version(dep: PomDep, local: Seq<Gav>, managed: Seq<Gav>) -> Result<
    Seq<char>,
    Seq<char>,
> {
    let ga = dep_ga(dep);
    match dep.version {
        None => match version_for(local, ga) {
            Some(v) => Ok(v),
            None => match version_for(managed, ga) {
                Some(v) => Ok(v),
                None => Err(
                    maven::ga_text(ga)
                        + " declares no version and no BOM provides one; its dependencies are not followed"@,
                ),
            },
        },
        Some(given) => if text::has_text(given, "${"@) {
            match version_for(managed, ga) {
                Some(v) => Ok(v),
                None => Err(
                    maven::gav_text(Gav { ga, version: given })
                        + " uses a property version; parent POMs are outside the resolver's scope"@,
                ),
            }
        } else {
            Ok(given)
        },
    }
}

/// A walk on the way through the children of a node, with the edges to those
/// that were followed.
pub struct Followed {
    /// The walk.
    pub walk: Walk,
    /// The edges.
    pub edges: Seq<Edge>,
}

/// The walk after a coordinate: a coordinate that was entered before is left
/// alone; another one is entered, its children are followed in order, and its
/// node is finished behind theirs. A BOM's managed versions join those met
/// before it. `depth` bounds the chain of coordinates that are being entered,
/// which is never longer than the list of known POMs.
pub open spec fn expand(poms: Seq<(Gav, Pom)>, walk: Walk, gav: Gav, depth: nat) -> Walk
    decreases depth, 0nat,
{
    if walk.missing is Some || walk.seen.contains(gav) {
        walk
    } else {
        let found = if depth == 0 {
            None
        } else {
            pom_for(poms, gav)
        };
        match found {
            None => Walk { missing: Some(gav), ..walk },
            Some(pom) => {
                let done = follow(
                    poms,
                    entered(walk, gav, pom),
                    pom,
                    pom.deps.len(),
                    (depth - 1) as nat,
                );
                finished(done, gav, pom)
            },
        }
    }
}

/// The walk when a coordinate has just been entered.
pub open spec fn entered(walk: Walk, gav: Gav, pom: Pom) -> Walk {
    Walk {
        seen: walk.seen.push(gav),
        managed: if pom.packaging == "pom"@ {
            walk.managed + managed_entries(pom.managed_deps)
        } else {
            walk.managed
        },
        ..walk
    }
}

/// The walk when the children of a node have been followed.
pub open spec fn finished(done: Followed, gav: Gav, pom: Pom) -> Walk {
    if done.walk.missing is Some {
        done.walk
    } else {
        Walk {
            nodes: done.walk.nodes.push(
                Node { gav, packaging: pom.packaging, edges: done.edges },
            ),
            ..done.walk
        }
    }
}

/// The walk after the first `n` children of a POM.
pub open spec fn follow(
    poms: Seq<(Gav, Pom)>,
    walk: Walk,
    pom: Pom,
    n: nat,
    depth: nat,
) -> Followed
    decreases depth, n + 1,
{
    if n == 0 {
        Followed { walk, edges: Seq::empty() }
    } else {
        let before = follow(poms, walk, pom, (n - 1) as nat, depth);
        let dep = pom.deps[n - 1];
        if before.walk.missing is Some {
            before
        } else {
            match child_version(dep, managed_entries(pom.managed_deps), before.walk.managed) {
                Err(note) => Followed {
                    walk: Walk { notes: before.walk.notes.push(note), ..before.walk },
                    ..before
                },
                Ok(v) => {
                    let after = expand(
                        poms,
                        before.walk,
                        Gav { ga: dep_ga(dep), version: v },
                        depth,
                    );
                    Followed {
                        walk: after,
                        edges: if after.missing is Some {
                            before.edges
                        } else {
                            before.edges.push(Edge { ga: dep_ga(dep), scope: dep.scope })
                        },
                    }
                },
            }
        }
    }
}

/// The walk through the first `n` declared dependencies that carry a version.
pub open spec fn expand_versioned(
    poms: Seq<(Gav, Pom)>,
    declared: Seq<Declared>,
    n: int,
) -> Walk
    decreases n,
{
    if n <= 0 {
        blank_walk()
    } else {
        let before = expand_versioned(poms, declared, n - 1);
        let gav = declared[n - 1].gav;
        if gav.version.len() > 0 {
            expand(poms, before, gav, poms.len())
        } else {
            before
        }
    }
}

/// The walk through the first `n` declared dependencies that carry no
/// version, at the version that a BOM manages.
pub open spec fn expand_managed(
    poms: Seq<(Gav, Pom)>,
    walk: Walk,
    declared: Seq<Declared>,
    n: int,
) -> Walk
    decreases n,
{
    if n <= 0 {
        walk
    } else {
        let before = expand_managed(poms, walk, declared, n - 1);
        let gav = declared[n - 1].gav;
        if gav.version.len() > 0 || before.missing is Some {
            before
        } else {
            match version_for(before.managed, gav.ga) {
                Some(v) => expand(poms, before, Gav { ga: gav.ga, version: v }, poms.len()),
                None => Walk { notes: before.notes.push(unmanaged_note(gav.ga)), ..before },
            }
        }
    }
}

/// What is noted of a declared dependency that no BOM gives a version.
pub open spec fn unmanaged_note(ga: Ga) -> Seq<char> {
    maven::ga_text(ga) + " has no version and no BOM provides one; it is skipped"@
}

/// The walk through all declared dependencies: first those that carry a
/// version, so that every BOM among them is known, then the others.
pub open spec fn expanded(poms: Seq<(Gav, Pom)>, declared: Seq<Declared>) -> Walk {
    expand_managed(
        poms,
        expand_versioned(poms, declared, declared.len() as int),
        declared,
        declared.len() as int,
    )
}

/// Groups compare first, then artifacts.
pub open spec fn compare_ga(a: Ga, b: Ga) -> Relation {
    let groups = text::compare_text(a.group, b.group);
    if groups != Relation::Equal {
        groups
    } else {
        text::compare_text(a.artifact, b.artifact)
    }
}

/// Whether nodes stand in the order of their `group:artifact`, each once.
pub open spec fn in_order(nodes: Seq<Node>) -> bool {
    forall|i: int, j: int|
        0 <= i < j < nodes.len() ==> compare_ga(
            (#[trigger] nodes[i]).gav.ga,
            (#[trigger] nodes[j]).gav.ga,
        ) == Relation::Less
}

/// The node that stands for a `group:artifact`: the one with the highest
/// version, the first discovered among equals.
pub open spec fn chosen(nodes: Seq<Node>, ga: Ga) -> Option<Node>
    decreases nodes.len(),
{
    if nodes.len() == 0 {
        None
    } else {
        let before = chosen(nodes.drop_last(), ga);
        let node = nodes.last();
        if node.gav.ga != ga {
            before
        } else {
            match before {
                Some(best) => if version::version_relation(node.gav.version, best.gav.version)
                    == Relation::Greater {
                    Some(node)
                } else {
                    before
                },
                None => Some(node),
            }
        }
    }
}

/// Whether `winners` lists exactly the chosen nodes, in order.
pub open spec fn are_winners(winners: Seq<Node>, nodes: Seq<Node>) -> bool {
    &&& in_order(winners)
    &&& forall|i: int|
        0 <= i < winners.len() ==> chosen(nodes, (#[trigger] winners[i]).gav.ga) == Some(
            winners[i],
        )
    &&& forall|ga: Ga| #[trigger]
        chosen(nodes, ga) is Some ==> exists|i: int|
            0 <= i < winners.len() && (#[trigger] winners[i]).gav.ga == ga
}

/// The position of a `group:artifact` among nodes in order: how many come
/// before it.
pub open spec fn place(nodes: Seq<Node>, ga: Ga, from: int) -> int
    decreases nodes.len() - from,
{
    if from >= nodes.len() || compare_ga(nodes[from].gav.ga, ga) != Relation::Less {
        from
    } else {
        place(nodes, ga, from + 1)
    }
}

/// The chosen nodes after one more node.
pub open spec fn with_node(winners: Seq<Node>, node: Node) -> Seq<Node> {
    let at = place(winners, node.gav.ga, 0);
    if at < winners.len() && winners[at].gav.ga == node.gav.ga {
        if version::version_relation(node.gav.version, winners[at].gav.version)
            == Relation::Greater {
            winners.update(at, node)
        } else {
            winners
        }
    } else {
        winners.insert(at, node)
    }
}

/// The chosen node of each `group:artifact`, in order.
pub open spec fn winners_of(nodes: Seq<Node>) -> Seq<Node>
    decreases nodes.len(),
{
    if nodes.len() == 0 {
        Seq::empty()
    } else {
        with_node(winners_of(nodes.drop_last()), nodes.last())
    }
}

/// The notes on the first `n` nodes that lose against `winner`.
pub open spec fn superseded_by(nodes: Seq<Node>, winner: Gav, n: int) -> Seq<Seq<char>>
    decreases n,
{
    if n <= 0 {
        Seq::empty()
    } else {
        let before = superseded_by(nodes, winner, n - 1);
        let gav = nodes[n - 1].gav;
        if gav.ga == winner.ga && gav.version != winner.version {
            before.push(maven::gav_text(gav) + " superseded by "@ + winner.version)
        } else {
            before
        }
    }
}

/// The notes on the nodes that lose against the first `n` winners.
pub open spec fn superseded(nodes: Seq<Node>, winners: Seq<Node>, n: int) -> Seq<Seq<char>>
    decreases n,
{
    if n <= 0 {
        Seq::empty()
    } else {
        superseded(nodes, winners, n - 1) + superseded_by(
            nodes,
            winners[n - 1].gav,
            nodes.len() as int,
        )
    }
}

/// The state of an expansion.
pub struct Session {
    /// The coordinates that have been entered.
    pub seen: Vec<Dependency>,
    /// The finished nodes.
    pub nodes: Vec<GraphNode>,
    /// What has been noted.
    pub notes: Vec<String>,
    /// The versions that BOMs manage.
    pub managed: Vec<Dependency>,
    /// The coordinate whose POM is needed and not known.
    pub missing: Option<Dependency>,
}

/// An optional coordinate as a specification value.
pub open spec fn opt_gav(coordinate: Option<Dependency>) -> Option<Gav> {
    match coordinate {
        Some(coordinate) => Some(coordinate@),
        None => None,
    }
}

impl View for Session {
    type V = Walk;

    open spec fn view(&self) -> Walk {
        Walk {
            seen: gavs_of(self.seen@),
            nodes: nodes_of(self.nodes@),
            notes: text::texts(self.notes@),
            managed: gavs_of(self.managed@),
            missing: opt_gav(self.missing),
        }
    }
}

/// Whether two coordinates are the same.
pub fn same_coordinate(a: &Dependency, b: &Dependency) -> (same: bool)
    ensures
        same == (a@ == b@),
{
    text::str_eq(&a.group, &b.group) && text::str_eq(&a.artifact, &b.artifact) && text::str_eq(
        &a.version,
        &b.version,
    )
}

fn find_pom<'a>(poms: &'a Vec<KnownPom>, coordinate: &Dependency) -> (found: Option<
    &'a PomProject,
>)
    ensures
        match found {
            Some(pom) => pom_for(known(poms@), coordinate@) == Some(pom@),
            None => pom_for(known(poms@), coordinate@) is None,
        },
{
    let ghost all = known(poms@);
    let mut i: usize = 0;
    assert(all.skip(0) == all);
    while i < poms.len()
        invariant
            all == known(poms@),
            i <= poms.len(),
            pom_for(all, coordinate@) == pom_for(all.skip(i as int), coordinate@),
        decreases poms.len() - i,
    {
        assert(all.skip(i as int).drop_first() == all.skip(i + 1));
        if same_coordinate(&poms[i].coordinate, coordinate) {
            return Some(&poms[i].pom);
        }
        i += 1;
    }
    None
}

fn find_version<'a>(list: &'a Vec<Dependency>, group: &str, artifact: &str) -> (found: Option<
    &'a String,
>)
    ensures
        match found {
            Some(v) => version_for(gavs_of(list@), Ga { group: group@, artifact: artifact@ })
                == Some(v@),
            None => version_for(gavs_of(list@), Ga { group: group@, artifact: artifact@ }) is None,
        },
{
    let ghost all = gavs_of(list@);
    let ghost ga = Ga { group: group@, artifact: artifact@ };
    let mut i: usize = 0;
    assert(all.skip(0) == all);
    while i < list.len()
        invariant
            all == gavs_of(list@),
            ga == (Ga { group: group@, artifact: artifact@ }),
            i <= list.len(),
            version_for(all, ga) == version_for(all.skip(i as int), ga),
        decreases list.len() - i,
    {
        assert(all.skip(i as int).drop_first() == all.skip(i + 1));
        assert(all.skip(i as int).first() == list@[i as int]@);
        if text::str_eq(&list[i].group, group) && text::str_eq(&list[i].artifact, artifact) {
            return Some(&list[i].version);
        }
        i += 1;
    }
    None
}

/// Appends the versions that `dependencyManagement` entries give.
fn add_managed(list: &mut Vec<Dependency>, deps: &Vec<PomDependency>)
    ensures
        gavs_of(final(list)@) == gavs_of(old(list)@) + managed_entries(pom::pom_deps(deps@)),
{
    let ghost before = gavs_of(list@);
    let ghost all = pom::pom_deps(deps@);
    let mut i: usize = 0;
    assert(before == before + managed_entries(all.take(0)));
    while i < deps.len()
        invariant
            all == pom::pom_deps(deps@),
            i <= deps.len(),
            gavs_of(list@) == before + managed_entries(all.take(i as int)),
        decreases deps.len() - i,
    {
        assert(all.take(i + 1).drop_last() == all.take(i as int));
        let ghost inner = managed_entries(all.take(i as int));
        let ghost was = list@;
        if let Some(v) = &deps[i].version {
            let entry = Dependency {
                group: deps[i].group.clone(),
                artifact: deps[i].artifact.clone(),
                version: v.clone(),
            };
            list.push(entry);
            assert(gavs_of(list@) == gavs_of(was).push(entry@));
            assert((before + inner).push(entry@) == before + inner.push(entry@));
        }
        i += 1;
    }
    assert(all.take(i as int) == all);
}

/// `group:artifact`.
pub fn ga_string(group: &str, artifact: &str) -> (s: String)
    ensures
        s@ == maven::ga_text(Ga { group: group@, artifact: artifact@ }),
{
    group.to_owned().concat(":").concat(artifact)
}

/// `group:artifact:version`.
pub fn gav_string(coordinate: &Dependency) -> (s: String)
    ensures
        s@ == maven::gav_text(coordinate@),
{
    ga_string(&coordinate.group, &coordinate.artifact).concat(":").concat(&coordinate.version)
}

fn resolve_child(
    dep: &PomDependency,
    local: &Vec<Dependency>,
    managed: &Vec<Dependency>,
) -> (result: Result<String, String>)
    ensures
        match child_version(dep@, gavs_of(local@), gavs_of(managed@)) {
            Ok(v) => result matches Ok(s) && s@ == v,
            Err(note) => result matches Err(s) && s@ == note,
        },
{
    match &dep.version {
        None => {
            if let Some(v) = find_version(local, &dep.group, &dep.artifact) {
                return Ok(v.clone());
            }
            if let Some(v) = find_version(managed, &dep.group, &dep.artifact) {
                return Ok(v.clone());
            }
            Err(
                ga_string(&dep.group, &dep.artifact).concat(
                    " declares no version and no BOM provides one; its dependencies are not followed",
                ),
            )
        },
        Some(given) => {
            if text::contains(given, "${") {
                if let Some(v) = find_version(managed, &dep.group, &dep.artifact) {
                    return Ok(v.clone());
                }
                Err(
                    ga_string(&dep.group, &dep.artifact).concat(":").concat(given).concat(
                        " uses a property version; parent POMs are outside the resolver's scope",
                    ),
                )
            } else {
                Ok(given.clone())
            }
        },
    }
}

proof fn lemma_follow_stops(
    poms: Seq<(Gav, Pom)>,
    walk: Walk,
    pom: Pom,
    m: nat,
    n: nat,
    depth: nat,
)
    requires
        m <= n,
        follow(poms, walk, pom, m, depth).walk.missing is Some,
    ensures
        follow(poms, walk, pom, n, depth) == follow(poms, walk, pom, m, depth),
    decreases n,
{
    if m < n {
        lemma_follow_stops(poms, walk, pom, m, (n - 1) as nat, depth);
    }
}

impl Session {
    /// An expansion that has not begun.
    pub fn new() -> (session: Session)
        ensures
            session@ == blank_walk(),
    {
        let session = Session {
            seen: Vec::new(),
            nodes: Vec::new(),
            notes: Vec::new(),
            managed: Vec::new(),
            missing: None,
        };
        assert(session@.seen == blank_walk().seen);
        assert(session@.nodes == blank_walk().nodes);
        assert(session@.notes == blank_walk().notes);
        assert(session@.managed == blank_walk().managed);
        session
    }

    fn note(&mut self, note: String)
        ensures
            final(self)@ == (Walk { notes: old(self)@.notes.push(note@), ..old(self)@ }),
    {
        let ghost before = self.notes@;
        self.notes.push(note);
        assert(text::texts(self.notes@) == text::texts(before).push(note@));
    }

    fn has_seen(&self, coordinate: &Dependency) -> (yes: bool)
        ensures
            yes == self@.seen.contains(coordinate@),
    {
        let mut i: usize = 0;
        while i < self.seen.len()
            invariant
                i <= self.seen.len(),
                forall|j: int| 0 <= j < i ==> (#[trigger] self.seen@[j])@ != coordinate@,
            decreases self.seen.len() - i,
        {
            if same_coordinate(&self.seen[i], coordinate) {
                assert(self@.seen[i as int] == coordinate@);
                return true;
            }
            i += 1;
        }
        assert forall|j: int| 0 <= j < self@.seen.len() implies self@.seen[j] != coordinate@ by {
            assert(self.seen@[j]@ != coordinate@);
        }
        false
    }

    /// Enters `coordinate`: records its node and those of its children,
    /// recursively.
    ///
    /// When the POM's packaging is `pom` (a BOM), its `dependencyManagement`
    /// entries are recorded as version constraints. Version-less child
    /// dependencies are resolved against these constraints.
    pub fn expand(&mut self, poms: &Vec<KnownPom>, coordinate: &Dependency, depth: usize)
        ensures
            final(self)@ == expand(known(poms@), old(self)@, coordinate@, depth as nat),
        decreases depth,
    {
        let ghost start = self@;
        let ghost table = known(poms@);
        if self.missing.is_some() || self.has_seen(coordinate) {
            return ;
        }
        let found = if depth == 0 {
            None
        } else {
            find_pom(poms, coordinate)
        };
        let document = match found {
            Some(document) => document,
            None => {
                self.missing = Some(coordinate.clone());
                return ;
            },
        };
        let ghost pom = document@;
        let below: usize = depth - 1;
        let ghost seen = self.seen@;
        self.seen.push(coordinate.clone());
        assert(gavs_of(self.seen@) == gavs_of(seen).push(coordinate@));
        if text::str_eq(&document.packaging, "pom") {
            add_managed(&mut self.managed, &document.managed_deps);
        }
        let mut local: Vec<Dependency> = Vec::new();
        assert(gavs_of(local@) == Seq::<Gav>::empty());
        add_managed(&mut local, &document.managed_deps);
        assert(gavs_of(local@) == managed_entries(pom.managed_deps));
        let ghost inside = entered(start, coordinate@, pom);
        assert(self@ == inside);
        let mut edges: Vec<PomEdge> = Vec::new();
        assert(edges_of(edges@) == Seq::<Edge>::empty());
        let mut i: usize = 0;
        while i < document.deps.len()
            invariant
                table == known(poms@),
                pom == document@,
                below + 1 == depth,
                start == old(self)@,
                start.missing is None,
                !start.seen.contains(coordinate@),
                pom_for(table, coordinate@) == Some(pom),
                inside == entered(start, coordinate@, pom),
                gavs_of(local@) == managed_entries(pom.managed_deps),
                i <= document.deps.len(),
                self@.missing is None,
                (Followed { walk: self@, edges: edges_of(edges@) }) == follow(
                    table,
                    inside,
                    pom,
                    i as nat,
                    below as nat,
                ),
            decreases document.deps.len() - i,
        {
            let dep = &document.deps[i];
            assert(pom.deps[i as int] == dep@);
            match resolve_child(dep, &local, &self.managed) {
                Err(note) => {
                    self.note(note);
                },
                Ok(v) => {
                    let child = Dependency {
                        group: dep.group.clone(),
                        artifact: dep.artifact.clone(),
                        version: v,
                    };
                    self.expand(poms, &child, below);
                    if self.missing.is_some() {
                        proof {
                            lemma_follow_stops(
                                table,
                                inside,
                                pom,
                                (i + 1) as nat,
                                pom.deps.len(),
                                below as nat,
                            );
                        }
                        return ;
                    }
                    let edge = PomEdge {
                        group: dep.group.clone(),
                        artifact: dep.artifact.clone(),
                        scope: dep.scope,
                    };
                    let ghost was = edges@;
                    edges.push(edge);
                    assert(edges_of(edges@) == edges_of(was).push(edge@));
                },
            }
            i += 1;
        }
        let node = GraphNode {
            coordinate: coordinate.clone(),
            packaging: document.packaging.clone(),
            edges,
        };
        let ghost nodes = self.nodes@;
        self.nodes.push(node);
        assert(nodes_of(self.nodes@) == nodes_of(nodes).push(node@));
    }

    /// Expands all declared dependencies: first every one that already
    /// carries a version, so that BOMs among them provide versions, then the
    /// version-managed ones.
    pub fn run(poms: &Vec<KnownPom>, declared: &Vec<DeclaredDep>) -> (session: Session)
        ensures
            session@ == expanded(known(poms@), maven::declared_deps(declared@)),
    {
        let ghost table = known(poms@);
        let ghost roots = maven::declared_deps(declared@);
        let mut session = Session::new();
        let mut i: usize = 0;
        while i < declared.len()
            invariant
                table == known(poms@),
                roots == maven::declared_deps(declared@),
                i <= declared.len(),
                session@ == expand_versioned(table, roots, i as int),
            decreases declared.len() - i,
        {
            assert(roots[i as int].gav == declared@[i as int].dependency@);
            if !declared[i].dependency.is_version_managed() {
                session.expand(poms, &declared[i].dependency, poms.len());
            }
            i += 1;
        }
        let ghost first = session@;
        let mut j: usize = 0;
        while j < declared.len()
            invariant
                table == known(poms@),
                roots == maven::declared_deps(declared@),
                j <= declared.len(),
                session@ == expand_managed(table, first, roots, j as int),
            decreases declared.len() - j,
        {
            let dependency = &declared[j].dependency;
            assert(roots[j as int].gav == dependency@);
            if dependency.is_version_managed() && session.missing.is_none() {
                let found = match find_version(
                    &session.managed,
                    &dependency.group,
                    &dependency.artifact,
                ) {
                    Some(v) => Some(v.clone()),
                    None => None,
                };
                match found {
                    Some(v) => {
                        let root = Dependency {
                            group: dependency.group.clone(),
                            artifact: dependency.artifact.clone(),
                            version: v,
                        };
                        session.expand(poms, &root, poms.len());
                    },
                    None => {
                        session.note(
                            ga_string(&dependency.group, &dependency.artifact).concat(
                                " has no version and no BOM provides one; it is skipped",
                            ),
                        );
                    },
                }
            }
            j += 1;
        }
        session
    }
}

/// The nodes at the given positions.
pub open spec fn picked(nodes: Seq<GraphNode>, at: Seq<usize>) -> Seq<Node> {
    Seq::new(at.len(), |i: int| nodes[at[i] as int]@)
}

/// Whether all positions are those of nodes.
pub open spec fn are_positions(nodes: Seq<GraphNode>, at: Seq<usize>) -> bool {
    forall|i: int| 0 <= i < at.len() ==> #[trigger] at[i] < nodes.len()
}

fn compare_names(a: &Dependency, b: &Dependency) -> (relation: Relation)
    ensures
        relation == compare_ga(a@.ga, b@.ga),
{
    let groups = text::compare_str(&a.group, &b.group);
    if groups != Relation::Equal {
        groups
    } else {
        text::compare_str(&a.artifact, &b.artifact)
    }
}

/// Picks the winning version per `group:artifact` by the highest-version
/// rule; ties keep the first-discovered version. Returns the positions of the
/// winning nodes.
pub fn winners(nodes: &Vec<GraphNode>) -> (at: Vec<usize>)
    ensures
        are_positions(nodes@, at@),
        picked(nodes@, at@) == winners_of(nodes_of(nodes@)),
{
    let ghost all = nodes_of(nodes@);
    let mut at: Vec<usize> = Vec::new();
    let mut n: usize = 0;
    assert(picked(nodes@, at@) == winners_of(all.take(0)));
    while n < nodes.len()
        invariant
            all == nodes_of(nodes@),
            n <= nodes.len(),
            are_positions(nodes@, at@),
            picked(nodes@, at@) == winners_of(all.take(n as int)),
        decreases nodes.len() - n,
    {
        assert(all.take(n + 1).drop_last() == all.take(n as int));
        let coordinate = &nodes[n].coordinate;
        let ghost list = picked(nodes@, at@);
        let ghost was = at@;
        let ghost ga = coordinate@.ga;
        let mut i: usize = 0;
        while i < at.len() && compare_names(&nodes[at[i]].coordinate, coordinate) == Relation::Less
            invariant
                list == picked(nodes@, at@),
                are_positions(nodes@, at@),
                n < nodes.len(),
                *coordinate == nodes@[n as int].coordinate,
                ga == coordinate@.ga,
                i <= at.len(),
                place(list, ga, 0) == place(list, ga, i as int),
            decreases at.len() - i,
        {
            assert(list[i as int] == nodes@[at@[i as int] as int]@);
            i += 1;
        }
        proof {
            if i < at.len() {
                assert(list[i as int] == nodes@[at@[i as int] as int]@);
            }
            assert(place(list, ga, 0) == i);
        }
        let present = i < at.len() && text::str_eq(
            &nodes[at[i]].coordinate.group,
            &coordinate.group,
        ) && text::str_eq(&nodes[at[i]].coordinate.artifact, &coordinate.artifact);
        if present {
            if version::relate_versions(
                &coordinate.version,
                &nodes[at[i]].coordinate.version,
            ) == Relation::Greater {
                at[i] = n;
                assert(picked(nodes@, at@) == list.update(i as int, all[n as int]));
            }
        } else {
            at.insert(i, n);
            assert(picked(nodes@, at@) == list.insert(i as int, all[n as int]));
            assert forall|m: int| 0 <= m < at@.len() implies #[trigger] at@[m] < nodes@.len() by {
                if m < i {
                    assert(at@[m] == was[m]);
                } else if m > i {
                    assert(at@[m] == was[m - 1]);
                }
            }
        }
        n += 1;
    }
    assert(all.take(n as int) == all);
    at
}

/// The notes on the nodes that lose against a winner.
pub fn superseded_notes(nodes: &Vec<GraphNode>, at: &Vec<usize>) -> (notes: Vec<String>)
    requires
        are_positions(nodes@, at@),
    ensures
        text::texts(notes@) == superseded(
            nodes_of(nodes@),
            picked(nodes@, at@),
            at@.len() as int,
        ),
{
    let ghost all = nodes_of(nodes@);
    let ghost list = picked(nodes@, at@);
    let mut notes: Vec<String> = Vec::new();
    let mut i: usize = 0;
    assert(text::texts(notes@) == Seq::<Seq<char>>::empty());
    while i < at.len()
        invariant
            all == nodes_of(nodes@),
            list == picked(nodes@, at@),
            are_positions(nodes@, at@),
            i <= at.len(),
            text::texts(notes@) == superseded(all, list, i as int),
        decreases at.len() - i,
    {
        let winner = &nodes[at[i]].coordinate;
        let ghost before = text::texts(notes@);
        let mut n: usize = 0;
        assert(before == before + superseded_by(all, winner@, 0));
        while n < nodes.len()
            invariant
                all == nodes_of(nodes@),
                n <= nodes.len(),
                text::texts(notes@) == before + superseded_by(all, winner@, n as int),
            decreases nodes.len() - n,
        {
            let loser = &nodes[n].coordinate;
            assert(all[n as int].gav == loser@);
            let ghost inner = superseded_by(all, winner@, n as int);
            let ghost was = notes@;
            if text::str_eq(&loser.group, &winner.group) && text::str_eq(
                &loser.artifact,
                &winner.artifact,
            ) && !text::str_eq(&loser.version, &winner.version) {
                let note = gav_string(loser).concat(" superseded by ").concat(&winner.version);
                notes.push(note);
                assert(text::texts(notes@) == text::texts(was).push(note@));
                assert((before + inner).push(note@) == before + inner.push(note@));
            }
            n += 1;
        }
        assert(list[i as int].gav == winner@);
        i += 1;
    }
    notes
}

proof fn lemma_ga_flip(a: Ga, b: Ga)
    ensures
        compare_ga(b, a) == text::flip(compare_ga(a, b)),
{
    text::lemma_compare_flip(a.group, b.group);
    text::lemma_compare_flip(a.artifact, b.artifact);
}

proof fn lemma_ga_equal(a: Ga, b: Ga)
    ensures
        compare_ga(a, b) == Relation::Equal <==> a == b,
{
    text::lemma_compare_reflexive(a.group);
    text::lemma_compare_reflexive(a.artifact);
    if compare_ga(a, b) == Relation::Equal {
        text::lemma_compare_equal(a.group, b.group);
        text::lemma_compare_equal(a.artifact, b.artifact);
    }
}

proof fn lemma_ga_transitive(a: Ga, b: Ga, c: Ga)
    requires
        compare_ga(a, b) == Relation::Less,
        compare_ga(b, c) == Relation::Less,
    ensures
        compare_ga(a, c) == Relation::Less,
{
    if text::compare_text(a.group, b.group) == Relation::Equal {
        text::lemma_compare_equal(a.group, b.group);
    }
    if text::compare_text(b.group, c.group) == Relation::Equal {
        text::lemma_compare_equal(b.group, c.group);
    }
    if text::compare_text(a.group, b.group) == Relation::Less && text::compare_text(
        b.group,
        c.group,
    ) == Relation::Less {
        text::lemma_compare_transitive(a.group, b.group, c.group);
    }
    if text::compare_text(a.artifact, b.artifact) == Relation::Less && text::compare_text(
        b.artifact,
        c.artifact,
    ) == Relation::Less {
        text::lemma_compare_transitive(a.artifact, b.artifact, c.artifact);
    }
}

proof fn lemma_place(nodes: Seq<Node>, ga: Ga, from: int)
    requires
        in_order(nodes),
        0 <= from <= nodes.len(),
    ensures
        from <= place(nodes, ga, from) <= nodes.len(),
        forall|i: int|
            from <= i < place(nodes, ga, from) ==> compare_ga((#[trigger] nodes[i]).gav.ga, ga)
                == Relation::Less,
        forall|i: int|
            place(nodes, ga, from) <= i < nodes.len() ==> compare_ga(
                (#[trigger] nodes[i]).gav.ga,
                ga,
            ) != Relation::Less,
    decreases nodes.len() - from,
{
    if from < nodes.len() {
        if compare_ga(nodes[from].gav.ga, ga) == Relation::Less {
            lemma_place(nodes, ga, from + 1);
        } else {
            assert forall|i: int| from <= i < nodes.len() implies compare_ga(
                (#[trigger] nodes[i]).gav.ga,
                ga,
            ) != Relation::Less by {
                if i > from && compare_ga(nodes[i].gav.ga, ga) == Relation::Less {
                    lemma_ga_transitive(nodes[from].gav.ga, nodes[i].gav.ga, ga);
                }
            }
        }
    }
}

/// Distinct positions of nodes in order hold distinct names.
proof fn lemma_names_differ(nodes: Seq<Node>, i: int, j: int)
    requires
        in_order(nodes),
        0 <= i < nodes.len(),
        0 <= j < nodes.len(),
        nodes[i].gav.ga == nodes[j].gav.ga,
    ensures
        i == j,
{
    lemma_ga_equal(nodes[i].gav.ga, nodes[j].gav.ga);
    if i < j {
        assert(compare_ga(nodes[i].gav.ga, nodes[j].gav.ga) == Relation::Less);
    } else if j < i {
        assert(compare_ga(nodes[j].gav.ga, nodes[i].gav.ga) == Relation::Less);
    }
}

proof fn lemma_winner_replaced(winners: Seq<Node>, nodes: Seq<Node>, at: int)
    requires
        nodes.len() > 0,
        are_winners(winners, nodes.drop_last()),
        at == place(winners, nodes.last().gav.ga, 0),
        0 <= at < winners.len(),
        winners[at].gav.ga == nodes.last().gav.ga,
    ensures
        are_winners(with_node(winners, nodes.last()), nodes),
{
    let node = nodes.last();
    let ga = node.gav.ga;
    let before = nodes.drop_last();
    let after = with_node(winners, node);
    assert(chosen(before, ga) == Some(winners[at]));
    assert(after.len() == winners.len());
    assert forall|i: int| 0 <= i < after.len() implies (#[trigger] after[i]).gav.ga
        == winners[i].gav.ga by {}
    assert forall|i: int, j: int| 0 <= i < j < after.len() implies compare_ga(
        (#[trigger] after[i]).gav.ga,
        (#[trigger] after[j]).gav.ga,
    ) == Relation::Less by {
        assert(compare_ga(winners[i].gav.ga, winners[j].gav.ga) == Relation::Less);
    }
    assert forall|i: int| 0 <= i < after.len() implies chosen(
        nodes,
        (#[trigger] after[i]).gav.ga,
    ) == Some(after[i]) by {
        if i != at {
            if winners[i].gav.ga == ga {
                lemma_names_differ(winners, i, at);
            }
            assert(after[i] == winners[i]);
            assert(chosen(before, winners[i].gav.ga) == Some(winners[i]));
        }
    }
    assert forall|name: Ga| #[trigger] chosen(nodes, name) is Some implies exists|i: int|
        0 <= i < after.len() && (#[trigger] after[i]).gav.ga == name by {
        if name == ga {
            assert(after[at].gav.ga == name);
        } else {
            assert(chosen(before, name) is Some);
            let i = choose|i: int| 0 <= i < winners.len() && (#[trigger] winners[i]).gav.ga == name;
            assert(after[i].gav.ga == name);
        }
    }
}

proof fn lemma_winner_added(winners: Seq<Node>, nodes: Seq<Node>, at: int)
    requires
        nodes.len() > 0,
        are_winners(winners, nodes.drop_last()),
        at == place(winners, nodes.last().gav.ga, 0),
        !(at < winners.len() && winners[at].gav.ga == nodes.last().gav.ga),
    ensures
        are_winners(with_node(winners, nodes.last()), nodes),
{
    let node = nodes.last();
    let ga = node.gav.ga;
    let before = nodes.drop_last();
    lemma_place(winners, ga, 0);
    let after = with_node(winners, node);
    assert(after == winners.insert(at, node));
    assert forall|i: int| at <= i < winners.len() implies compare_ga(
        ga,
        (#[trigger] winners[i]).gav.ga,
    ) == Relation::Less by {
        lemma_ga_flip(winners[i].gav.ga, ga);
        lemma_ga_equal(winners[i].gav.ga, ga);
        if winners[i].gav.ga == ga && i > at {
            assert(compare_ga(winners[at].gav.ga, winners[i].gav.ga) == Relation::Less);
        }
    }
    assert forall|i: int| 0 <= i < winners.len() implies (#[trigger] winners[i]).gav.ga != ga by {
        lemma_ga_equal(winners[i].gav.ga, ga);
        lemma_ga_equal(ga, winners[i].gav.ga);
    }
    assert(chosen(before, ga) is None);
    assert forall|i: int| 0 <= i < after.len() implies #[trigger] after[i] == if i < at {
        winners[i]
    } else if i == at {
        node
    } else {
        winners[i - 1]
    } by {}
    assert forall|i: int, j: int| 0 <= i < j < after.len() implies compare_ga(
        (#[trigger] after[i]).gav.ga,
        (#[trigger] after[j]).gav.ga,
    ) == Relation::Less by {
        if i < at && j > at {
            assert(compare_ga(winners[i].gav.ga, winners[j - 1].gav.ga) == Relation::Less);
        } else if i > at {
            assert(compare_ga(winners[i - 1].gav.ga, winners[j - 1].gav.ga) == Relation::Less);
        } else if j < at {
            assert(compare_ga(winners[i].gav.ga, winners[j].gav.ga) == Relation::Less);
        }
    }
    assert forall|i: int| 0 <= i < after.len() implies chosen(
        nodes,
        (#[trigger] after[i]).gav.ga,
    ) == Some(after[i]) by {
        if i < at {
            assert(chosen(before, winners[i].gav.ga) == Some(winners[i]));
        } else if i > at {
            assert(chosen(before, winners[i - 1].gav.ga) == Some(winners[i - 1]));
        }
    }
    assert forall|name: Ga| #[trigger] chosen(nodes, name) is Some implies exists|i: int|
        0 <= i < after.len() && (#[trigger] after[i]).gav.ga == name by {
        if name == ga {
            assert(after[at].gav.ga == name);
        } else {
            assert(chosen(before, name) is Some);
            let i = choose|i: int| 0 <= i < winners.len() && (#[trigger] winners[i]).gav.ga == name;
            if i < at {
                assert(after[i].gav.ga == name);
            } else {
                assert(after[i + 1].gav.ga == name);
            }
        }
    }
}

/// One node stands for each `group:artifact` of the graph, and the nodes that
/// do are in the order of their names.
pub proof fn law_one_winner_each(nodes: Seq<Node>)
    ensures
        are_winners(winners_of(nodes), nodes),
    decreases nodes.len(),
{
    if nodes.len() > 0 {
        law_one_winner_each(nodes.drop_last());
        let winners = winners_of(nodes.drop_last());
        let at = place(winners, nodes.last().gav.ga, 0);
        lemma_place(winners, nodes.last().gav.ga, 0);
        if at < winners.len() && winners[at].gav.ga == nodes.last().gav.ga {
            lemma_winner_replaced(winners, nodes, at);
        } else {
            lemma_winner_added(winners, nodes, at);
        }
    }
}

/// Whether the versions under which a `group:artifact` occurs are ordered
/// transitively.
pub open spec fn ordered_versions(nodes: Seq<Node>, ga: Ga) -> bool {
    forall|i: int, j: int, k: int|
        #![trigger nodes[i], nodes[j], nodes[k]]
        0 <= i < nodes.len() && 0 <= j < nodes.len() && 0 <= k < nodes.len() && nodes[i].gav.ga
            == ga && nodes[j].gav.ga == ga && nodes[k].gav.ga == ga && version::version_relation(
            nodes[i].gav.version,
            nodes[j].gav.version,
        ) != Relation::Greater && version::version_relation(
            nodes[j].gav.version,
            nodes[k].gav.version,
        ) != Relation::Greater ==> version::version_relation(
            nodes[i].gav.version,
            nodes[k].gav.version,
        ) != Relation::Greater
}

/// The chosen node is one of the nodes.
pub proof fn lemma_chosen_occurs(nodes: Seq<Node>, ga: Ga) -> (at: int)
    requires
        chosen(nodes, ga) is Some,
    ensures
        0 <= at < nodes.len(),
        nodes[at] == chosen(nodes, ga)->0,
        nodes[at].gav.ga == ga,
    decreases nodes.len(),
{
    let before = nodes.drop_last();
    if nodes.last().gav.ga == ga && chosen(nodes, ga) == Some(nodes.last()) {
        nodes.len() - 1
    } else {
        lemma_chosen_occurs(before, ga)
    }
}

/// The highest version wins: no version under which a `group:artifact`
/// occurs is higher than the chosen one, as long as those versions are ordered
/// transitively.
pub proof fn law_highest_version_wins(nodes: Seq<Node>, ga: Ga, i: int)
    requires
        ordered_versions(nodes, ga),
        0 <= i < nodes.len(),
        nodes[i].gav.ga == ga,
    ensures
        chosen(nodes, ga) is Some,
        version::version_relation(nodes[i].gav.version, chosen(nodes, ga)->0.gav.version)
            != Relation::Greater,
    decreases nodes.len(),
{
    let before = nodes.drop_last();
    let last = nodes.len() - 1;
    assert(ordered_versions(before, ga)) by {
        assert forall|a: int, b: int, c: int|
            #![trigger before[a], before[b], before[c]]
            0 <= a < before.len() && 0 <= b < before.len() && 0 <= c < before.len()
                && before[a].gav.ga == ga && before[b].gav.ga == ga && before[c].gav.ga == ga
                && version::version_relation(before[a].gav.version, before[b].gav.version)
                != Relation::Greater && version::version_relation(
                before[b].gav.version,
                before[c].gav.version,
            ) != Relation::Greater implies version::version_relation(
            before[a].gav.version,
            before[c].gav.version,
        ) != Relation::Greater by {
            assert(before[a] == nodes[a] && before[b] == nodes[b] && before[c] == nodes[c]);
        }
    }
    version::law_reflexive(nodes[i].gav.version);
    if i < last {
        assert(before[i] == nodes[i]);
        law_highest_version_wins(before, ga, i);
        let best = lemma_chosen_occurs(before, ga);
        assert(before[best] == nodes[best]);
        if nodes[last].gav.ga == ga {
            version::law_swapped(nodes[last].gav.version, nodes[best].gav.version);
            assert(nodes[i].gav.ga == ga && nodes[best].gav.ga == ga && nodes[last].gav.ga == ga);
        }
    } else if chosen(before, ga) is Some {
        let best = lemma_chosen_occurs(before, ga);
        version::law_swapped(nodes[i].gav.version, nodes[best].gav.version);
    }
}

/// A version that is higher than every other one of its `group:artifact` is the
/// chosen one, however the others are ordered among themselves.
pub proof fn law_greatest_version_is_chosen(nodes: Seq<Node>, i: int)
    requires
        0 <= i < nodes.len(),
        forall|j: int|
            0 <= j < nodes.len() && j != i && (#[trigger] nodes[j]).gav.ga == nodes[i].gav.ga
                ==> version::version_relation(nodes[i].gav.version, nodes[j].gav.version)
                == Relation::Greater,
    ensures
        chosen(nodes, nodes[i].gav.ga) == Some(nodes[i]),
    decreases nodes.len(),
{
    let ga = nodes[i].gav.ga;
    let before = nodes.drop_last();
    let last = nodes.len() - 1;
    if i < last {
        assert forall|j: int|
            0 <= j < before.len() && j != i && (#[trigger] before[j]).gav.ga
                == before[i].gav.ga implies version::version_relation(
            before[i].gav.version,
            before[j].gav.version,
        ) == Relation::Greater by {
            assert(nodes[j] == before[j]);
        }
        law_greatest_version_is_chosen(before, i);
        if nodes[last].gav.ga == ga {
            version::law_swapped(nodes[i].gav.version, nodes[last].gav.version);
        }
    } else if chosen(before, ga) is Some {
        let best = lemma_chosen_occurs(before, ga);
        assert(nodes[best] == before[best]);
    }
}

} // verus!
