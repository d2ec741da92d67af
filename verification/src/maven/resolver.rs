//! Resolving declared dependencies into a classpath.
//!
//! A resolution needs POMs and artifacts that it cannot fetch itself. It is
//! run on what has been fetched so far and answers with what it needs next:
//! the POM of a coordinate, or the artifacts of a bucket. The caller fetches,
//! adds what it got, and runs it again, until it is done or has failed.

use vstd::prelude::*;
use crate::maven;
use crate::maven::{Classpath, Declared, DeclaredDep, Dependency, Failure, Ga, Gav, MavenRepo, Paths, ResolveError};
use crate::maven::buckets;
use crate::maven::buckets::Bucket;
use crate::maven::fetch;
use crate::maven::fetch::{Attempt, FetchStep};
use crate::maven::graph;
use crate::maven::graph::{GraphNode, KnownPom, Node, Session};
use crate::maven::pom;
use crate::maven::pom::{Pom, PomProject};
use crate::text;

verus! {

/// The resolved path of a declared root.
#[derive(Debug, PartialEq, Eq)]
pub struct RootPath {
    /// The root's group.
    pub group: String,
    /// The root's artifact.
    pub artifact: String,
    /// The file it materialized to.
    pub path: String,
}

/// The resolved file each direct declared root coordinate materialized to, in
/// the order of the coordinates.
#[derive(Debug, PartialEq, Eq)]
pub struct RootPaths {
    /// The roots.
    pub entries: Vec<RootPath>,
}

/// What a list of root paths holds.
pub open spec fn located(entries: Seq<RootPath>) -> Seq<(Ga, Seq<char>)> {
    Seq::new(
        entries.len(),
        |i: int|
            (Ga { group: entries[i].group@, artifact: entries[i].artifact@ }, entries[i].path@),
    )
}

/// The path that a list gives a `group:artifact`: the first one counts.
pub open spec fn path_for(list: Seq<(Ga, Seq<char>)>, ga: Ga) -> Option<Seq<char>>
    decreases list.len(),
{
    if list.len() == 0 {
        None
    } else if list.first().0 == ga {
        Some(list.first().1)
    } else {
        path_for(list.drop_first(), ga)
    }
}

fn find_path<'a>(entries: &'a Vec<RootPath>, group: &str, artifact: &str) -> (path: Option<
    &'a String,
>)
    ensures
        match path {
            Some(p) => path_for(located(entries@), Ga { group: group@, artifact: artifact@ })
                == Some(p@),
            None => path_for(
                located(entries@),
                Ga { group: group@, artifact: artifact@ },
            ) is None,
        },
{
    let ghost all = located(entries@);
    let ghost ga = Ga { group: group@, artifact: artifact@ };
    let mut i: usize = 0;
    assert(all.skip(0) == all);
    while i < entries.len()
        invariant
            all == located(entries@),
            ga == (Ga { group: group@, artifact: artifact@ }),
            i <= entries.len(),
            path_for(all, ga) == path_for(all.skip(i as int), ga),
        decreases entries.len() - i,
    {
        assert(all.skip(i as int).drop_first() == all.skip(i + 1));
        let entry = &entries[i];
        assert(all.skip(i as int).first() == (
            Ga { group: entry.group@, artifact: entry.artifact@ },
            entry.path@,
        ));
        if text::str_eq(&entry.group, group) && text::str_eq(&entry.artifact, artifact) {
            return Some(&entry.path);
        }
        i += 1;
    }
    None
}

impl RootPaths {
    /// The file that the root `group:artifact` materialized to.
    pub fn get(&self, group: &str, artifact: &str) -> (path: Option<&String>)
        ensures
            match path {
                Some(p) => path_for(
                    located(self.entries@),
                    Ga { group: group@, artifact: artifact@ },
                ) == Some(p@),
                None => path_for(
                    located(self.entries@),
                    Ga { group: group@, artifact: artifact@ },
                ) is None,
            },
    {
        find_path(&self.entries, group, artifact)
    }
}

/// The outcome of a [`Resolver::resolve`] run: the classpath plus
/// informational notes (conflicts resolved, children skipped, unsupported
/// packaging) that a caller may surface to the user.
#[derive(Debug, PartialEq, Eq)]
pub struct Resolution {
    /// The resolved classpath.
    pub classpath: Classpath,
    /// The resolved path of each direct declared `deps {}` root coordinate
    /// (keyed by `(group, artifact)`) that materialized to a jar or an AAR
    /// `classes.jar`.  Coordinates that carry no artifact (a BOM, say, or
    /// a dep that did not resolve) are absent.
    pub root_paths: RootPaths,
    /// Human-readable notes about choices made during resolution.
    pub notes: Vec<String>,
}

/// What a [`Resolution`] holds.
pub struct Resolved {
    /// The classpath.
    pub classpath: Paths,
    /// The paths of the declared roots.
    pub root_paths: Seq<(Ga, Seq<char>)>,
    /// The notes.
    pub notes: Seq<Seq<char>>,
}

impl View for Resolution {
    type V = Resolved;

    open spec fn view(&self) -> Resolved {
        Resolved {
            classpath: self.classpath@,
            root_paths: located(self.root_paths.entries@),
            notes: text::texts(self.notes@),
        }
    }
}

/// An artifact to fetch.
#[derive(Debug, PartialEq, Eq)]
pub struct Artifact {
    /// The coordinate.
    pub coordinate: Dependency,
    /// The packaging: `jar` or `aar`.
    pub packaging: String,
}

/// What an [`Artifact`] holds.
pub struct Wanted {
    /// The coordinate.
    pub gav: Gav,
    /// The packaging.
    pub packaging: Seq<char>,
}

impl View for Artifact {
    type V = Wanted;

    open spec fn view(&self) -> Wanted {
        Wanted { gav: self.coordinate@, packaging: self.packaging@ }
    }
}

/// What a list of artifacts holds.
pub open spec fn wanted_list(artifacts: Seq<Artifact>) -> Seq<Wanted> {
    Seq::new(artifacts.len(), |i: int| artifacts[i]@)
}

/// What became of an artifact that was to be fetched.
#[derive(Debug, PartialEq, Eq)]
pub enum Outcome {
    /// It lies at this path.
    Path(String),
    /// Fetching it failed.
    Failed(ResolveError),
    /// It was left out because fetching another had failed.
    Skipped,
}

/// What an [`Outcome`] holds.
pub enum Settled {
    /// It lies at this path.
    Path(Seq<char>),
    /// Fetching it failed.
    Failed(Failure),
    /// It was left out.
    Skipped,
}

impl View for Outcome {
    type V = Settled;

    open spec fn view(&self) -> Settled {
        match *self {
            Outcome::Path(path) => Settled::Path(path@),
            Outcome::Failed(error) => Settled::Failed(error@),
            Outcome::Skipped => Settled::Skipped,
        }
    }
}

/// What lists of outcomes hold, one list per bucket.
pub open spec fn settled_lists(fetched: Seq<Vec<Outcome>>) -> Seq<Seq<Settled>> {
    Seq::new(fetched.len(), |k: int| settled_list(fetched[k]@))
}

/// What a list of outcomes holds.
pub open spec fn settled_list(outcomes: Seq<Outcome>) -> Seq<Settled> {
    Seq::new(outcomes.len(), |i: int| outcomes[i]@)
}

/// What a resolution needs next, or how it ended.
#[derive(Debug, PartialEq, Eq)]
pub enum Progress {
    /// The POM of this coordinate is needed.
    Pom(Dependency),
    /// These artifacts are needed.
    Artifacts(Vec<Artifact>),
    /// The resolution is done.
    Done(Resolution),
    /// The resolution has failed.
    Failed(ResolveError),
}

/// What a [`Progress`] holds.
pub enum Step {
    /// A POM is needed.
    Pom(Gav),
    /// Artifacts are needed.
    Artifacts(Seq<Wanted>),
    /// Done.
    Done(Resolved),
    /// Failed.
    Failed(Failure),
}

impl View for Progress {
    type V = Step;

    open spec fn view(&self) -> Step {
        match *self {
            Progress::Pom(coordinate) => Step::Pom(coordinate@),
            Progress::Artifacts(artifacts) => Step::Artifacts(wanted_list(artifacts@)),
            Progress::Done(resolution) => Step::Done(resolution@),
            Progress::Failed(error) => Step::Failed(error@),
        }
    }
}

/// Whether a packaging is fetched.
pub open spec fn is_fetched(packaging: Seq<char>) -> bool {
    packaging == "jar"@ || packaging == "aar"@
}

/// The artifacts to fetch for nodes: jars and AARs.
pub open spec fn wanted_of(nodes: Seq<Node>) -> Seq<Wanted>
    decreases nodes.len(),
{
    if nodes.len() == 0 {
        Seq::empty()
    } else {
        let before = wanted_of(nodes.drop_last());
        let node = nodes.last();
        if is_fetched(node.packaging) {
            before.push(Wanted { gav: node.gav, packaging: node.packaging })
        } else {
            before
        }
    }
}

/// The notes on nodes whose packaging contributes nothing, BOMs apart.
pub open spec fn unsupported_notes(nodes: Seq<Node>) -> Seq<Seq<char>>
    decreases nodes.len(),
{
    if nodes.len() == 0 {
        Seq::empty()
    } else {
        let before = unsupported_notes(nodes.drop_last());
        let node = nodes.last();
        if node.packaging == "pom"@ || is_fetched(node.packaging) {
            before
        } else {
            before.push(
                maven::gav_text(node.gav) + " uses packaging '"@ + node.packaging
                    + "'; only jar and aar artifacts are materialized"@,
            )
        }
    }
}

/// The notes on the nodes of the first `n` buckets.
pub open spec fn all_unsupported(winners: Seq<Node>, declared: Seq<Declared>, n: int) -> Seq<
    Seq<char>,
>
    decreases n,
{
    if n <= 0 {
        Seq::empty()
    } else {
        all_unsupported(winners, declared, n - 1) + unsupported_notes(
            buckets::bucket_nodes(buckets::bucket_order()[n - 1], winners, declared),
        )
    }
}

/// The paths that the first `n` artifacts were fetched to, in order, or the
/// first failure among them.
pub open spec fn settle(wanted: Seq<Wanted>, outcomes: Seq<Settled>, n: int) -> Result<
    Seq<(Ga, Seq<char>)>,
    Failure,
>
    decreases n,
{
    if n <= 0 {
        Ok(Seq::empty())
    } else {
        match settle(wanted, outcomes, n - 1) {
            Err(failure) => Err(failure),
            Ok(before) => match outcomes[n - 1] {
                Settled::Path(path) => Ok(before.push((wanted[n - 1].gav.ga, path))),
                Settled::Failed(failure) => Err(failure),
                Settled::Skipped => Ok(before),
            },
        }
    }
}

/// The smaller of two lengths.
pub open spec fn shorter(a: nat, b: nat) -> int {
    if a < b {
        a as int
    } else {
        b as int
    }
}

/// The artifacts of a bucket.
pub open spec fn bucket_wanted(bucket: Bucket, winners: Seq<Node>, declared: Seq<Declared>) -> Seq<
    Wanted,
> {
    wanted_of(buckets::bucket_nodes(bucket, winners, declared))
}

/// The paths of a bucket's artifacts.
pub open spec fn bucket_paths(
    bucket: Bucket,
    winners: Seq<Node>,
    declared: Seq<Declared>,
    outcomes: Seq<Settled>,
) -> Result<Seq<(Ga, Seq<char>)>, Failure> {
    let wanted = bucket_wanted(bucket, winners, declared);
    settle(wanted, outcomes, shorter(wanted.len(), outcomes.len()))
}

/// The paths of the artifacts of the first `n` buckets, or the first failure
/// among them.
pub open spec fn gathered(
    winners: Seq<Node>,
    declared: Seq<Declared>,
    fetched: Seq<Seq<Settled>>,
    n: int,
) -> Result<Seq<Seq<(Ga, Seq<char>)>>, Failure>
    decreases n,
{
    if n <= 0 {
        Ok(Seq::empty())
    } else {
        match gathered(winners, declared, fetched, n - 1) {
            Err(failure) => Err(failure),
            Ok(before) => match bucket_paths(
                buckets::bucket_order()[n - 1],
                winners,
                declared,
                fetched[n - 1],
            ) {
                Err(failure) => Err(failure),
                Ok(paths) => Ok(before.push(paths)),
            },
        }
    }
}

/// The first path that the lists from `from` on give a `group:artifact`.
pub open spec fn first_path(lists: Seq<Seq<(Ga, Seq<char>)>>, ga: Ga, from: int) -> Option<
    Seq<char>,
>
    decreases lists.len() - from,
{
    if from >= lists.len() {
        None
    } else {
        match path_for(lists[from], ga) {
            Some(path) => Some(path),
            None => first_path(lists, ga, from + 1),
        }
    }
}

/// Whether a `group:artifact` is declared, whatever its scope.
pub open spec fn is_declared(declared: Seq<Declared>, ga: Ga) -> bool {
    exists|i: int| 0 <= i < declared.len() && (#[trigger] declared[i]).gav.ga == ga
}

/// The paths of the declared roots among the first `n` winners.
pub open spec fn roots_of(
    winners: Seq<Node>,
    declared: Seq<Declared>,
    lists: Seq<Seq<(Ga, Seq<char>)>>,
    n: int,
) -> Seq<(Ga, Seq<char>)>
    decreases n,
{
    if n <= 0 {
        Seq::empty()
    } else {
        let before = roots_of(winners, declared, lists, n - 1);
        let ga = winners[n - 1].gav.ga;
        match first_path(lists, ga, 0) {
            Some(path) => if is_declared(declared, ga) {
                before.push((ga, path))
            } else {
                before
            },
            None => before,
        }
    }
}

/// The paths of a list without what they belong to.
pub open spec fn just_paths(list: Seq<(Ga, Seq<char>)>) -> Seq<Seq<char>> {
    Seq::new(list.len(), |i: int| list[i].1)
}

/// The classpath that the paths of the buckets, in their order, make up.
pub open spec fn classpath_of(lists: Seq<Seq<(Ga, Seq<char>)>>) -> Paths {
    Paths {
        compile: just_paths(lists[0]),
        runtime: just_paths(lists[1]),
        processor: just_paths(lists[2]),
        api: just_paths(lists[3]),
        compose_runtimes: Seq::empty(),
        test_compile: just_paths(lists[4]),
        test_runtime: just_paths(lists[5]),
        android_test_compile: just_paths(lists[6]),
        android_test_runtime: just_paths(lists[7]),
    }
}

/// What a resolution of `declared` needs next, or how it ended, given the
/// POMs that are known and the outcomes for the first buckets.
pub open spec fn resolution(
    poms: Seq<(Gav, Pom)>,
    declared: Seq<Declared>,
    fetched: Seq<Seq<Settled>>,
) -> Step {
    let walk = graph::expanded(poms, declared);
    match walk.missing {
        Some(gav) => Step::Pom(gav),
        None => {
            let winners = graph::winners_of(walk.nodes);
            let n = shorter(fetched.len(), buckets::bucket_order().len());
            match gathered(winners, declared, fetched, n) {
                Err(failure) => Step::Failed(failure),
                Ok(lists) => if n < buckets::bucket_order().len() {
                    Step::Artifacts(bucket_wanted(buckets::bucket_order()[n], winners, declared))
                } else {
                    Step::Done(
                        Resolved {
                            classpath: classpath_of(lists),
                            root_paths: roots_of(
                                winners,
                                declared,
                                lists,
                                winners.len() as int,
                            ),
                            notes: walk.notes + graph::superseded(
                                walk.nodes,
                                winners,
                                winners.len() as int,
                            ) + all_unsupported(winners, declared, n),
                        },
                    )
                },
            }
        },
    }
}

/// The positions of the winning nodes that belong in a bucket.
fn bucket_positions(
    which: Bucket,
    nodes: &Vec<GraphNode>,
    at: &Vec<usize>,
    declared: &Vec<DeclaredDep>,
) -> (chosen: Vec<usize>)
    requires
        graph::are_positions(nodes@, at@),
    ensures
        graph::are_positions(nodes@, chosen@),
        graph::picked(nodes@, chosen@) == buckets::bucket_nodes(
            which,
            graph::picked(nodes@, at@),
            maven::declared_deps(declared@),
        ),
{
    let marked = buckets::bucket(which, nodes, at, declared);
    let ghost winners = graph::picked(nodes@, at@);
    let ghost roots = maven::declared_deps(declared@);
    let mut chosen: Vec<usize> = Vec::new();
    let mut i: usize = 0;
    assert(graph::picked(nodes@, chosen@) == Seq::<Node>::empty());
    while i < at.len()
        invariant
            graph::are_positions(nodes@, at@),
            graph::are_positions(nodes@, chosen@),
            winners == graph::picked(nodes@, at@),
            roots == maven::declared_deps(declared@),
            marked@.len() == at@.len(),
            forall|j: int|
                0 <= j < at@.len() ==> #[trigger] marked@[j] == buckets::in_bucket(
                    which,
                    winners,
                    roots,
                    winners[j].gav.ga,
                ),
            i <= at.len(),
            graph::picked(nodes@, chosen@) == buckets::members(which, winners, roots, i as int),
        decreases at.len() - i,
    {
        if marked[i] {
            let ghost was = chosen@;
            chosen.push(at[i]);
            assert(graph::picked(nodes@, chosen@) == graph::picked(nodes@, was).push(
                winners[i as int],
            ));
        }
        i += 1;
    }
    chosen
}

fn fetches(packaging: &str) -> (yes: bool)
    ensures
        yes == is_fetched(packaging@),
{
    text::str_eq(packaging, "jar") || text::str_eq(packaging, "aar")
}

/// The artifacts to fetch for the nodes at the given positions.
fn wanted(nodes: &Vec<GraphNode>, chosen: &Vec<usize>) -> (artifacts: Vec<Artifact>)
    requires
        graph::are_positions(nodes@, chosen@),
    ensures
        wanted_list(artifacts@) == wanted_of(graph::picked(nodes@, chosen@)),
{
    let ghost all = graph::picked(nodes@, chosen@);
    let mut artifacts: Vec<Artifact> = Vec::new();
    let mut i: usize = 0;
    assert(wanted_list(artifacts@) == wanted_of(all.take(0)));
    while i < chosen.len()
        invariant
            graph::are_positions(nodes@, chosen@),
            all == graph::picked(nodes@, chosen@),
            i <= chosen.len(),
            wanted_list(artifacts@) == wanted_of(all.take(i as int)),
        decreases chosen.len() - i,
    {
        assert(all.take(i + 1).drop_last() == all.take(i as int));
        let node = &nodes[chosen[i]];
        assert(all[i as int] == node@);
        if fetches(&node.packaging) {
            let ghost was = artifacts@;
            let artifact = Artifact {
                coordinate: node.coordinate.clone(),
                packaging: node.packaging.clone(),
            };
            artifacts.push(artifact);
            assert(wanted_list(artifacts@) == wanted_list(was).push(artifact@));
        }
        i += 1;
    }
    assert(all.take(i as int) == all);
    artifacts
}

/// Appends the notes on the nodes at the given positions whose packaging
/// contributes nothing.
fn note_unsupported(notes: &mut Vec<String>, nodes: &Vec<GraphNode>, chosen: &Vec<usize>)
    requires
        graph::are_positions(nodes@, chosen@),
    ensures
        text::texts(final(notes)@) == text::texts(old(notes)@) + unsupported_notes(
            graph::picked(nodes@, chosen@),
        ),
{
    let ghost all = graph::picked(nodes@, chosen@);
    let ghost before = text::texts(notes@);
    let mut i: usize = 0;
    assert(before == before + unsupported_notes(all.take(0)));
    while i < chosen.len()
        invariant
            graph::are_positions(nodes@, chosen@),
            all == graph::picked(nodes@, chosen@),
            i <= chosen.len(),
            text::texts(notes@) == before + unsupported_notes(all.take(i as int)),
        decreases chosen.len() - i,
    {
        assert(all.take(i + 1).drop_last() == all.take(i as int));
        let node = &nodes[chosen[i]];
        assert(all[i as int] == node@);
        let ghost inner = unsupported_notes(all.take(i as int));
        if !text::str_eq(&node.packaging, "pom") && !fetches(&node.packaging) {
            let ghost was = notes@;
            let note = graph::gav_string(&node.coordinate).concat(" uses packaging '").concat(
                &node.packaging,
            ).concat("'; only jar and aar artifacts are materialized");
            notes.push(note);
            assert(text::texts(notes@) == text::texts(was).push(note@));
            assert((before + inner).push(note@) == before + inner.push(note@));
        }
        i += 1;
    }
    assert(all.take(i as int) == all);
}

proof fn lemma_settle_err(wanted: Seq<Wanted>, outcomes: Seq<Settled>, m: int, n: int)
    requires
        0 <= m <= n,
        settle(wanted, outcomes, m) is Err,
    ensures
        settle(wanted, outcomes, n) == settle(wanted, outcomes, m),
    decreases n,
{
    if m < n {
        lemma_settle_err(wanted, outcomes, m, n - 1);
    }
}

/// Pairs artifacts with the paths they were fetched to, leaving out those
/// that were skipped.
///
/// # Errors
///
/// Returns the first failure.
pub fn collect_paths(artifacts: &Vec<Artifact>, outcomes: &Vec<Outcome>) -> (result: Result<
    Vec<RootPath>,
    ResolveError,
>)
    ensures
        match settle(
            wanted_list(artifacts@),
            settled_list(outcomes@),
            shorter(artifacts@.len(), outcomes@.len()),
        ) {
            Ok(list) => result matches Ok(paths) && located(paths@) == list,
            Err(failure) => result matches Err(error) && error@ == failure,
        },
{
    let ghost list = wanted_list(artifacts@);
    let ghost ends = settled_list(outcomes@);
    let ghost n = shorter(artifacts@.len(), outcomes@.len());
    let mut paths: Vec<RootPath> = Vec::new();
    let mut i: usize = 0;
    assert(located(paths@) == Seq::<(Ga, Seq<char>)>::empty());
    while i < artifacts.len() && i < outcomes.len()
        invariant
            list == wanted_list(artifacts@),
            ends == settled_list(outcomes@),
            n == shorter(artifacts@.len(), outcomes@.len()),
            i <= n,
            settle(list, ends, i as int) == Ok::<Seq<(Ga, Seq<char>)>, Failure>(located(paths@)),
        decreases artifacts.len() - i,
    {
        assert(ends[i as int] == outcomes@[i as int]@);
        assert(list[i as int] == artifacts@[i as int]@);
        match &outcomes[i] {
            Outcome::Path(path) => {
                let ghost was = paths@;
                let entry = RootPath {
                    group: artifacts[i].coordinate.group.clone(),
                    artifact: artifacts[i].coordinate.artifact.clone(),
                    path: path.clone(),
                };
                paths.push(entry);
                assert(located(paths@) == located(was).push((list[i as int].gav.ga, path@)));
            },
            Outcome::Failed(error) => {
                proof {
                    lemma_settle_err(list, ends, i + 1, n);
                }
                return Err(error.clone());
            },
            Outcome::Skipped => {},
        }
        i += 1;
    }
    Ok(paths)
}

fn paths_only(list: &Vec<RootPath>) -> (paths: Vec<String>)
    ensures
        text::texts(paths@) == just_paths(located(list@)),
{
    let mut paths: Vec<String> = Vec::new();
    let mut i: usize = 0;
    while i < list.len()
        invariant
            i <= list.len(),
            paths@.len() == i,
            forall|j: int| 0 <= j < i ==> (#[trigger] paths@[j])@ == list@[j].path@,
        decreases list.len() - i,
    {
        paths.push(list[i].path.clone());
        i += 1;
    }
    assert(text::texts(paths@) == just_paths(located(list@)));
    paths
}

/// What lists of root paths hold.
spec fn located_lists(lists: Seq<Vec<RootPath>>) -> Seq<Seq<(Ga, Seq<char>)>> {
    Seq::new(lists.len(), |k: int| located(lists[k]@))
}

fn declares_any(declared: &Vec<DeclaredDep>, group: &str, artifact: &str) -> (yes: bool)
    ensures
        yes == is_declared(
            maven::declared_deps(declared@),
            Ga { group: group@, artifact: artifact@ },
        ),
{
    let ghost roots = maven::declared_deps(declared@);
    let ghost ga = Ga { group: group@, artifact: artifact@ };
    let mut i: usize = 0;
    while i < declared.len()
        invariant
            roots == maven::declared_deps(declared@),
            ga == (Ga { group: group@, artifact: artifact@ }),
            i <= declared.len(),
            forall|j: int| 0 <= j < i ==> (#[trigger] roots[j]).gav.ga != ga,
        decreases declared.len() - i,
    {
        assert(roots[i as int].gav == declared@[i as int].dependency@);
        if text::str_eq(&declared[i].dependency.group, group) && text::str_eq(
            &declared[i].dependency.artifact,
            artifact,
        ) {
            return true;
        }
        i += 1;
    }
    false
}

fn find_first<'a>(lists: &'a Vec<Vec<RootPath>>, group: &str, artifact: &str) -> (path: Option<
    &'a String,
>)
    ensures
        match path {
            Some(p) => first_path(
                located_lists(lists@),
                Ga { group: group@, artifact: artifact@ },
                0,
            ) == Some(p@),
            None => first_path(
                located_lists(lists@),
                Ga { group: group@, artifact: artifact@ },
                0,
            ) is None,
        },
{
    let ghost all = located_lists(lists@);
    let ghost ga = Ga { group: group@, artifact: artifact@ };
    let mut k: usize = 0;
    while k < lists.len()
        invariant
            all == located_lists(lists@),
            ga == (Ga { group: group@, artifact: artifact@ }),
            k <= lists.len(),
            first_path(all, ga, 0) == first_path(all, ga, k as int),
        decreases lists.len() - k,
    {
        assert(all[k as int] == located(lists@[k as int]@));
        if let Some(path) = find_path(&lists[k], group, artifact) {
            return Some(path);
        }
        k += 1;
    }
    None
}

/// The paths of the declared roots.
fn root_paths(
    nodes: &Vec<GraphNode>,
    at: &Vec<usize>,
    declared: &Vec<DeclaredDep>,
    lists: &Vec<Vec<RootPath>>,
) -> (roots: RootPaths)
    requires
        graph::are_positions(nodes@, at@),
    ensures
        located(roots.entries@) == roots_of(
            graph::picked(nodes@, at@),
            maven::declared_deps(declared@),
            located_lists(lists@),
            at@.len() as int,
        ),
{
    let ghost winners = graph::picked(nodes@, at@);
    let ghost wanted_roots = maven::declared_deps(declared@);
    let ghost all = located_lists(lists@);
    let mut entries: Vec<RootPath> = Vec::new();
    let mut i: usize = 0;
    assert(located(entries@) == Seq::<(Ga, Seq<char>)>::empty());
    while i < at.len()
        invariant
            graph::are_positions(nodes@, at@),
            winners == graph::picked(nodes@, at@),
            wanted_roots == maven::declared_deps(declared@),
            all == located_lists(lists@),
            i <= at.len(),
            located(entries@) == roots_of(winners, wanted_roots, all, i as int),
        decreases at.len() - i,
    {
        let coordinate = &nodes[at[i]].coordinate;
        assert(winners[i as int].gav == coordinate@);
        if let Some(path) = find_first(lists, &coordinate.group, &coordinate.artifact) {
            if declares_any(declared, &coordinate.group, &coordinate.artifact) {
                let ghost was = entries@;
                entries.push(
                    RootPath {
                        group: coordinate.group.clone(),
                        artifact: coordinate.artifact.clone(),
                        path: path.clone(),
                    },
                );
                assert(located(entries@) == located(was).push((coordinate@.ga, path@)));
            }
        }
        i += 1;
    }
    RootPaths { entries }
}

proof fn lemma_gathered_err(
    winners: Seq<Node>,
    declared: Seq<Declared>,
    fetched: Seq<Seq<Settled>>,
    m: int,
    n: int,
)
    requires
        0 <= m <= n,
        gathered(winners, declared, fetched, m) is Err,
    ensures
        gathered(winners, declared, fetched, n) == gathered(winners, declared, fetched, m),
    decreases n,
{
    if m < n {
        lemma_gathered_err(winners, declared, fetched, m, n - 1);
    }
}

/// Resolves `deps {}` declarations into a classpath. Repositories are
/// consulted in order; artifacts are cached under `cache_dir` (default
/// `~/.cache/uliab/modules`) and reused only when their recorded SHA-256
/// still matches.
#[derive(Debug, PartialEq, Eq)]
pub struct Resolver {
    /// The repositories, in the order in which they are tried.
    pub repos: Vec<MavenRepo>,
    /// The cache directory.
    pub cache_dir: String,
}

impl Resolver {
    /// Creates a resolver that consults `repos` in order and caches under
    /// `cache_dir`, or below the home directory `home` when `None`.
    pub fn new(repos: Vec<MavenRepo>, cache_dir: Option<String>, home: Option<&str>) -> (resolver:
        Resolver)
        ensures
            resolver.repos == repos,
            resolver.cache_dir@ == match cache_dir {
                Some(dir) => dir@,
                None => fetch::default_cache_text(text::opt_str(home)),
            },
    {
        let cache_dir = match cache_dir {
            Some(dir) => dir,
            None => fetch::default_cache_dir(home),
        };
        Resolver { repos, cache_dir }
    }

    /// The default repositories: Google Maven, then Maven Central.
    pub fn default_repos() -> (repos: Vec<MavenRepo>)
        ensures
            repos@ == seq![MavenRepo::Google, MavenRepo::Central],
    {
        vec![MavenRepo::Google, MavenRepo::Central]
    }

    /// Where the file of a coordinate lies in the cache.
    pub fn cache_file(&self, coordinate: &Dependency, extension: &str) -> (path: String)
        ensures
            path@ == text::path_text(
                self.cache_dir@,
                fetch::artifact_text(coordinate@, extension@),
            ),
    {
        text::join_path(&self.cache_dir, &fetch::artifact_path(coordinate, extension))
    }

    /// Where the jar extracted from the AAR of a coordinate lies in the cache.
    pub fn classes_file(&self, coordinate: &Dependency) -> (path: String)
        ensures
            path@ == text::path_text(self.cache_dir@, fetch::classes_text(coordinate@)),
    {
        text::join_path(&self.cache_dir, &fetch::classes_path(coordinate))
    }

    /// Decides what to do next to fetch the file of a coordinate that the
    /// cache does not have intact, after `attempts` on the first repositories.
    pub fn fetch_step(
        &self,
        coordinate: &Dependency,
        extension: &str,
        attempts: &Vec<Attempt>,
    ) -> (step: FetchStep)
        ensures
            step@ == fetch::next_fetch(
                self.repos@,
                coordinate@,
                extension@,
                attempts@,
            ),
    {
        fetch::fetch_from_repos(&self.repos, coordinate, extension, attempts)
    }

    /// Reads the POM of a coordinate from its bytes.
    ///
    /// # Errors
    ///
    /// Returns [`ResolveError::Parser`] when the POM is malformed.
    pub fn read_pom(coordinate: &Dependency, bytes: &[u8]) -> (result: Result<
        PomProject,
        ResolveError,
    >)
        ensures
            match pom::pom_of(pom::xml_items(bytes@)) {
                Ok(document) => result matches Ok(project) && project@ == document,
                Err(message) => result matches Err(error) && error@ == (Failure::Parser {
                    artifact: maven::gav_text(coordinate@),
                    message,
                }),
            },
    {
        match pom::parse_pom(bytes) {
            Ok(project) => Ok(project),
            Err(message) => Err(
                ResolveError::Parser { artifact: graph::gav_string(coordinate), message },
            ),
        }
    }

    /// The error of a cached POM that cannot be read because of `cause`.
    pub fn unreadable_pom(coordinate: &Dependency, cause: &str) -> (error: ResolveError)
        ensures
            error@ == (Failure::Fetch {
                artifact: maven::gav_text(coordinate@),
                message: "reading cached POM: "@ + cause@,
            }),
    {
        ResolveError::Fetch {
            artifact: graph::gav_string(coordinate),
            message: "reading cached POM: ".to_owned().concat(cause),
        }
    }

    /// Resolves `declared` into a classpath as far as what has been fetched
    /// allows: `poms` are the POMs that are known, `fetched` the outcomes for
    /// the artifacts of the first buckets.
    ///
    /// The graph of all reachable versions is expanded first and then
    /// collapsed by the highest-version rule, so a transitive dependency of a
    /// dependency participates in conflict resolution like any other
    /// occurrence of its `group:artifact`.
    ///
    /// `resolve` is a pure function of its arguments, so a single resolver may
    /// be reused across independent declarations.
    pub fn resolve(
        &self,
        declared: &Vec<DeclaredDep>,
        poms: &Vec<KnownPom>,
        fetched: &Vec<Vec<Outcome>>,
    ) -> (progress: Progress)
        ensures
            progress@ == resolution(
                graph::known(poms@),
                maven::declared_deps(declared@),
                settled_lists(fetched@),
            ),
    {
        let session = Session::run(poms, declared);
        let ghost walk = session@;
        if let Some(coordinate) = session.missing {
            return Progress::Pom(coordinate);
        }
        let at = graph::winners(&session.nodes);
        let ghost winners = graph::picked(session.nodes@, at@);
        let ghost roots = maven::declared_deps(declared@);
        let ghost ends = settled_lists(fetched@);
        let ghost n = shorter(ends.len(), buckets::bucket_order().len());
        let mut notes = session.notes;
        let losers = graph::superseded_notes(&session.nodes, &at);
        text::extend_texts(&mut notes, &losers);
        let ghost first_notes = text::texts(notes@);
        let mut lists: Vec<Vec<RootPath>> = Vec::new();
        let mut k: usize = 0;
        assert(located_lists(lists@) == Seq::<Seq<(Ga, Seq<char>)>>::empty());
        assert(first_notes == first_notes + all_unsupported(winners, roots, 0));
        while k < 8 && k < fetched.len()
            invariant
                graph::are_positions(session.nodes@, at@),
                winners == graph::picked(session.nodes@, at@),
                roots == maven::declared_deps(declared@),
                ends == settled_lists(fetched@),
                n == shorter(ends.len(), 8),
                k <= n,
                lists@.len() == k,
                gathered(winners, roots, ends, k as int) == Ok::<
                    Seq<Seq<(Ga, Seq<char>)>>,
                    Failure,
                >(located_lists(lists@)),
                text::texts(notes@) == first_notes + all_unsupported(winners, roots, k as int),
                resolution(graph::known(poms@), roots, ends) == (match gathered(
                    winners,
                    roots,
                    ends,
                    n,
                ) {
                    Err(failure) => Step::Failed(failure),
                    Ok(_) => resolution(graph::known(poms@), roots, ends),
                }),
            decreases 8 - k,
        {
            let chosen = bucket_positions(
                buckets::nth_bucket(k),
                &session.nodes,
                &at,
                declared,
            );
            note_unsupported(&mut notes, &session.nodes, &chosen);
            let artifacts = wanted(&session.nodes, &chosen);
            assert(ends[k as int] == settled_list(fetched@[k as int]@));
            assert(wanted_list(artifacts@) == bucket_wanted(
                buckets::bucket_order()[k as int],
                winners,
                roots,
            ));
            assert(wanted_list(artifacts@).len() == artifacts@.len());
            assert(ends[k as int].len() == fetched@[k as int]@.len());
            match collect_paths(&artifacts, &fetched[k]) {
                Ok(paths) => {
                    let ghost was = lists@;
                    lists.push(paths);
                    assert(located_lists(lists@) == located_lists(was).push(located(paths@)));
                },
                Err(error) => {
                    proof {
                        lemma_gathered_err(winners, roots, ends, k + 1, n);
                    }
                    return Progress::Failed(error);
                },
            }
            assert(first_notes + all_unsupported(winners, roots, k as int) + unsupported_notes(
                buckets::bucket_nodes(buckets::bucket_order()[k as int], winners, roots),
            ) == first_notes + all_unsupported(winners, roots, k + 1));
            k += 1;
        }
        assert(k == n);
        if k < 8 {
            let chosen = bucket_positions(
                buckets::nth_bucket(k),
                &session.nodes,
                &at,
                declared,
            );
            return Progress::Artifacts(wanted(&session.nodes, &chosen));
        }
        let ghost all = located_lists(lists@);
        assert(all[0] == located(lists@[0]@) && all[1] == located(lists@[1]@) && all[2] == located(
            lists@[2]@,
        ) && all[3] == located(lists@[3]@) && all[4] == located(lists@[4]@) && all[5] == located(
            lists@[5]@,
        ) && all[6] == located(lists@[6]@) && all[7] == located(lists@[7]@));
        let classpath = Classpath {
            compile: paths_only(&lists[0]),
            runtime: paths_only(&lists[1]),
            processor: paths_only(&lists[2]),
            api: paths_only(&lists[3]),
            compose_runtimes: Vec::new(),
            test_compile: paths_only(&lists[4]),
            test_runtime: paths_only(&lists[5]),
            android_test_compile: paths_only(&lists[6]),
            android_test_runtime: paths_only(&lists[7]),
        };
        assert(classpath@.compose_runtimes == Seq::<Seq<char>>::empty());
        let roots_found = root_paths(&session.nodes, &at, declared, &lists);
        Progress::Done(Resolution { classpath, root_paths: roots_found, notes })
    }
}

} // verus!
