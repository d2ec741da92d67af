//! The Maven dependency resolver: turns a project's `deps {}` block into a
//! concrete classpath. Plain jars contribute their own file; Android AARs
//! contribute the `classes.jar` extracted from the archive.
//!
//! The submodules follow the course of a resolution: [`pom`] reads the
//! documents that describe artifacts, [`graph`] expands the declared
//! dependencies transitively and picks one version per `group:artifact` by
//! the ordering of [`version`], [`buckets`] partitions the surviving nodes
//! into classpaths, [`fetch`] decides where artifacts come from and when a
//! cached one may be reused, and [`transfer`] and [`extraction`] bring them
//! into the cache.

use vstd::prelude::*;
use crate::json;
use crate::json::Json;
use crate::text_map::TextMap;
use crate::text;
use crate::value::Value;

pub mod arrival_laws;
pub mod bucket_laws;
pub mod buckets;
pub mod choice_laws;
pub mod declared_laws;
pub mod expansion_laws;
pub mod extraction;
pub mod fetch;
pub mod fetch_laws;
pub mod graph;
pub mod graph_laws;
pub mod pom;
pub mod pom_laws;
pub mod resolver;
pub mod resolver_laws;
pub mod root_laws;
pub mod transfer;
pub mod version;
pub mod version_laws;

pub use crate::maven::resolver::{Resolution, Resolver, RootPaths};
pub use crate::maven::version::compare_maven_versions;

verus! {

/// The default Google Maven repository.
pub const GOOGLE_MAVEN: &'static str = "https://dl.google.com/dl/android/maven2";

/// The default Maven Central repository.
pub const MAVEN_CENTRAL: &'static str = "https://repo1.maven.org/maven2";

/// A repository a resolver can fetch POMs and jars from.
#[derive(Debug, PartialEq, Eq)]
pub enum MavenRepo {
    /// The Google Maven repository (`https://dl.google.com/dl/android/maven2`).
    Google,
    /// Maven Central (`https://repo1.maven.org/maven2`).
    Central,
    /// An explicit repository: an `https://`/`http://` URL, a `file://`
    /// URL, or a plain filesystem path. Repositories are tried in order,
    /// so a local repository placed first keeps resolution offline.
    Custom(String),
}

impl Clone for MavenRepo {
    fn clone(&self) -> (copy: MavenRepo)
        ensures
            copy == *self,
    {
        match self {
            MavenRepo::Google => MavenRepo::Google,
            MavenRepo::Central => MavenRepo::Central,
            MavenRepo::Custom(url) => MavenRepo::Custom(url.clone()),
        }
    }
}

/// A dependency scope in `deps {}`.
#[derive(Debug, Clone, Copy, PartialEq, Eq, Structural)]
pub enum MavenScope {
    /// Visible to this module's compile classpath and to consumers.
    Api,
    /// Visible to this module's compile and runtime classpaths only.
    Implementation,
    /// Runtime classpath only.
    RuntimeOnly,
    /// Compile classpath only, no transitive children.
    CompileOnly,
    /// Annotation-processing (KSP) classpath.
    Ksp,
    /// Unit-test classpaths.
    TestImplementation,
    /// Instrumented-test classpaths.
    AndroidTestImplementation,
}

/// The scope a `deps {}` key names.
pub open spec fn scope_of(name: Seq<char>) -> Option<MavenScope> {
    if name == "api"@ {
        Some(MavenScope::Api)
    } else if name == "implementation"@ {
        Some(MavenScope::Implementation)
    } else if name == "runtimeOnly"@ {
        Some(MavenScope::RuntimeOnly)
    } else if name == "compileOnly"@ {
        Some(MavenScope::CompileOnly)
    } else if name == "ksp"@ {
        Some(MavenScope::Ksp)
    } else if name == "testImplementation"@ {
        Some(MavenScope::TestImplementation)
    } else if name == "androidTestImplementation"@ {
        Some(MavenScope::AndroidTestImplementation)
    } else {
        None
    }
}

impl MavenScope {
    /// Parses a `deps {}` key into a scope.
    pub fn from_name(name: &str) -> (scope: Option<MavenScope>)
        ensures
            scope == scope_of(name@),
    {
        if text::str_eq(name, "api") {
            Some(MavenScope::Api)
        } else if text::str_eq(name, "implementation") {
            Some(MavenScope::Implementation)
        } else if text::str_eq(name, "runtimeOnly") {
            Some(MavenScope::RuntimeOnly)
        } else if text::str_eq(name, "compileOnly") {
            Some(MavenScope::CompileOnly)
        } else if text::str_eq(name, "ksp") {
            Some(MavenScope::Ksp)
        } else if text::str_eq(name, "testImplementation") {
            Some(MavenScope::TestImplementation)
        } else if text::str_eq(name, "androidTestImplementation") {
            Some(MavenScope::AndroidTestImplementation)
        } else {
            None
        }
    }
}

/// A resolved Maven coordinate. The version may be empty when the
/// coordinate was declared without one (e.g. `"group:artifact"`) and is
/// expected to be filled in from a BOM's `dependencyManagement` during
/// resolution.
#[derive(Debug, PartialEq, Eq)]
pub struct Dependency {
    /// The Maven group.
    pub group: String,
    /// The Maven artifact.
    pub artifact: String,
    /// The version. Empty when the coordinate was declared without one
    /// and should be resolved from a BOM during dependency resolution.
    pub version: String,
}

/// A group and an artifact.
pub struct Ga {
    /// The Maven group.
    pub group: Seq<char>,
    /// The Maven artifact.
    pub artifact: Seq<char>,
}

/// A group, an artifact and a version: what a [`Dependency`] holds.
pub struct Gav {
    /// The group and the artifact.
    pub ga: Ga,
    /// The version.
    pub version: Seq<char>,
}

impl View for Dependency {
    type V = Gav;

    open spec fn view(&self) -> Gav {
        Gav { ga: Ga { group: self.group@, artifact: self.artifact@ }, version: self.version@ }
    }
}

/// `group:artifact`.
pub open spec fn ga_text(ga: Ga) -> Seq<char> {
    ga.group + ":"@ + ga.artifact
}

/// `group:artifact:version`.
pub open spec fn gav_text(gav: Gav) -> Seq<char> {
    ga_text(gav.ga) + ":"@ + gav.version
}

/// The coordinate that a text writes: two or three non-empty parts between
/// colons, the third of which is the version.
pub open spec fn coordinate_of(coordinate: Seq<char>) -> Option<Gav> {
    let parts = text::split_text(coordinate, ':');
    if 2 <= parts.len() <= 3 && (forall|i: int|
        0 <= i < parts.len() ==> (#[trigger] parts[i]).len() > 0) {
        Some(
            Gav {
                ga: Ga { group: parts[0], artifact: parts[1] },
                version: if parts.len() == 3 {
                    parts[2]
                } else {
                    Seq::empty()
                },
            },
        )
    } else {
        None
    }
}

/// What is said of a text that writes no coordinate.
pub open spec fn bad_coordinate(coordinate: Seq<char>) -> Seq<char> {
    "invalid coordinate '"@ + coordinate
        + "': expected 'group:artifact' or 'group:artifact:version'"@
}

/// A parse result as a specification value.
pub open spec fn gav_result(result: Result<Dependency, String>) -> Result<Gav, Seq<char>> {
    match result {
        Ok(dependency) => Ok(dependency@),
        Err(message) => Err(message@),
    }
}

/// What parsing a text as a coordinate gives.
pub open spec fn parsed_coordinate(coordinate: Seq<char>) -> Result<Gav, Seq<char>> {
    match coordinate_of(coordinate) {
        Some(gav) => Ok(gav),
        None => Err(bad_coordinate(coordinate)),
    }
}

impl Clone for Dependency {
    fn clone(&self) -> (copy: Dependency)
        ensures
            copy == *self,
    {
        Dependency {
            group: self.group.clone(),
            artifact: self.artifact.clone(),
            version: self.version.clone(),
        }
    }
}

impl Dependency {
    /// Parses a `"group:artifact:version"` or `"group:artifact"` coordinate
    /// string.
    ///
    /// Two-part coordinates (`"group:artifact"`) produce a [`Dependency`]
    /// with an empty version, intended to be resolved from a BOM's
    /// `dependencyManagement` during expansion.
    ///
    /// # Errors
    ///
    /// Returns a description when the string is not two or three
    /// `:`-separated non-empty parts, or when it has more than three parts.
    pub fn parse(coordinate: &str) -> (result: Result<Dependency, String>)
        ensures
            gav_result(result) == parsed_coordinate(coordinate@),
    {
        let parts = text::split(coordinate, ':');
        let ghost pieces = text::texts(parts@);
        let n: usize = parts.len();
        let complete = (n == 2 || n == 3) && !parts[0].as_str().is_empty()
            && !parts[1].as_str().is_empty() && (n == 2 || !parts[2].as_str().is_empty());
        proof {
            assert(n > 0 ==> pieces[0] == parts@[0]@);
            assert(n > 1 ==> pieces[1] == parts@[1]@);
            assert(n > 2 ==> pieces[2] == parts@[2]@);
        }
        if !complete {
            return Err(
                "invalid coordinate '".to_owned().concat(coordinate).concat(
                    "': expected 'group:artifact' or 'group:artifact:version'",
                ),
            );
        }
        Ok(
            Dependency {
                group: parts[0].clone(),
                artifact: parts[1].clone(),
                version: if n == 3 {
                    parts[2].clone()
                } else {
                    String::new()
                },
            },
        )
    }

    /// Returns `true` when the coordinate was declared without a version
    /// and needs resolution from a BOM during dependency expansion.
    #[must_use]
    pub fn is_version_managed(&self) -> (managed: bool)
        ensures
            managed == (self@.version.len() == 0),
    {
        self.version.as_str().is_empty()
    }
}

/// A declared dependency and the scope it was declared under.
#[derive(Debug, PartialEq, Eq)]
pub struct DeclaredDep {
    /// The scope this dependency belongs to.
    pub scope: MavenScope,
    /// The resolved coordinate.
    pub dependency: Dependency,
}

/// What a [`DeclaredDep`] holds.
pub struct Declared {
    /// The scope.
    pub scope: MavenScope,
    /// The coordinate.
    pub gav: Gav,
}

impl View for DeclaredDep {
    type V = Declared;

    open spec fn view(&self) -> Declared {
        Declared { scope: self.scope, gav: self.dependency@ }
    }
}

/// What a list of declared dependencies holds.
pub open spec fn declared_deps(list: Seq<DeclaredDep>) -> Seq<Declared> {
    Seq::new(list.len(), |i: int| list[i]@)
}

impl Clone for DeclaredDep {
    fn clone(&self) -> (copy: DeclaredDep)
        ensures
            copy == *self,
    {
        DeclaredDep { scope: self.scope, dependency: self.dependency.clone() }
    }
}

/// What a value is called in messages about dependencies.
pub open spec fn kind_text(value: Value) -> Seq<char> {
    match value {
        Value::Str(_) => "string"@,
        Value::Number(_) => "number"@,
        Value::Bool(_) => "boolean"@,
        Value::List(_) => "list"@,
        Value::Version(_) => "version"@,
        Value::Properties(_) => "properties"@,
        Value::Coordinate(_) => "coordinate"@,
        Value::Block(_) => "block"@,
        Value::Invalid(_) => "an unresolved value"@,
        Value::ProjectRef(_) => "project reference"@,
    }
}

fn kind(value: &Value) -> (name: &'static str)
    ensures
        name@ == kind_text(*value),
{
    match value {
        Value::Str(_) => "string",
        Value::Number(_) => "number",
        Value::Bool(_) => "boolean",
        Value::List(_) => "list",
        Value::Version(_) => "version",
        Value::Properties(_) => "properties",
        Value::Coordinate(_) => "coordinate",
        Value::Block(_) => "block",
        Value::Invalid(_) => "an unresolved value",
        Value::ProjectRef(_) => "project reference",
    }
}

/// What a value under the scope `scope` declares: the coordinate that a
/// string or coordinate value writes; no other value declares one.
pub open spec fn coordinate_value(value: Value, scope: Seq<char>) -> Result<Gav, Seq<char>> {
    match value {
        Value::Str(coordinate) => parsed_coordinate(coordinate@),
        Value::Coordinate(coordinate) => parsed_coordinate(coordinate@),
        _ => Err(
            "dependency in '"@ + scope + "' must be a coordinate string, found "@ + kind_text(
                value,
            ),
        ),
    }
}

fn parse_coordinate_value(value: &Value, scope: &str) -> (result: Result<Dependency, String>)
    ensures
        gav_result(result) == coordinate_value(*value, scope@),
{
    match value {
        Value::Str(coordinate) => Dependency::parse(coordinate),
        Value::Coordinate(coordinate) => Dependency::parse(coordinate),
        _ => Err(
            "dependency in '".to_owned().concat(scope).concat(
                "' must be a coordinate string, found ",
            ).concat(kind(value)),
        ),
    }
}

/// What the first `n` items of a list declare under a scope: one dependency
/// for each item that is no project reference, or what is wrong with the
/// first item that declares none.
pub open spec fn item_deps(
    items: Seq<Value>,
    name: Seq<char>,
    scope: MavenScope,
    n: int,
) -> Result<Seq<Declared>, Seq<char>>
    decreases n,
{
    if n <= 0 {
        Ok(Seq::empty())
    } else {
        match item_deps(items, name, scope, n - 1) {
            Err(message) => Err(message),
            Ok(before) => if items[n - 1] is ProjectRef {
                Ok(before)
            } else {
                match coordinate_value(items[n - 1], name) {
                    Err(message) => Err(message),
                    Ok(gav) => Ok(before.push(Declared { scope, gav })),
                }
            },
        }
    }
}

/// What an entry of a `deps {}` block declares.
pub open spec fn entry_deps(name: Seq<char>, value: Value) -> Result<Seq<Declared>, Seq<char>> {
    match scope_of(name) {
        None => Err(
            "unknown dependency scope '"@ + name
                + "' (expected api, implementation, runtimeOnly, compileOnly, ksp, testImplementation, or androidTestImplementation)"@,
        ),
        Some(scope) => match value {
            Value::List(items) => item_deps(items@, name, scope, items@.len() as int),
            Value::ProjectRef(_) => Ok(Seq::empty()),
            _ => match coordinate_value(value, name) {
                Err(message) => Err(message),
                Ok(gav) => Ok(seq![Declared { scope, gav }]),
            },
        },
    }
}

/// What the first `n` entries of a `deps {}` block declare, or what is wrong
/// with the first of them that is malformed.
pub open spec fn block_deps(
    entries: Seq<(String, Value)>,
    n: int,
) -> Result<Seq<Declared>, Seq<char>>
    decreases n,
{
    if n <= 0 {
        Ok(Seq::empty())
    } else {
        match block_deps(entries, n - 1) {
            Err(message) => Err(message),
            Ok(before) => match entry_deps(entries[n - 1].0@, entries[n - 1].1) {
                Err(message) => Err(message),
                Ok(more) => Ok(before + more),
            },
        }
    }
}

/// What a `deps {}` block declares.
pub open spec fn deps_of(block: Value) -> Result<Seq<Declared>, Seq<char>> {
    match block {
        Value::Block(map) => block_deps(map.entries@, map.entries@.len() as int),
        _ => Err("deps must be a block"@),
    }
}

/// A list of declared dependencies, or an error, as a specification value.
pub open spec fn declared_result(result: Result<Vec<DeclaredDep>, String>) -> Result<
    Seq<Declared>,
    Seq<char>,
> {
    match result {
        Ok(list) => Ok(declared_deps(list@)),
        Err(message) => Err(message@),
    }
}

proof fn lemma_items_err(items: Seq<Value>, name: Seq<char>, scope: MavenScope, m: int, n: int)
    requires
        0 <= m <= n,
        item_deps(items, name, scope, m) is Err,
    ensures
        item_deps(items, name, scope, n) == item_deps(items, name, scope, m),
    decreases n,
{
    if m < n {
        lemma_items_err(items, name, scope, m, n - 1);
    }
}

proof fn lemma_block_err(entries: Seq<(String, Value)>, m: int, n: int)
    requires
        0 <= m <= n,
        block_deps(entries, m) is Err,
    ensures
        block_deps(entries, n) == block_deps(entries, m),
    decreases n,
{
    if m < n {
        lemma_block_err(entries, m, n - 1);
    }
}

fn parse_items(
    items: &Vec<Value>,
    name: &str,
    scope: MavenScope,
    deps: &mut Vec<DeclaredDep>,
) -> (result: Result<(), String>)
    ensures
        match item_deps(items@, name@, scope, items@.len() as int) {
            Ok(more) => result is Ok && declared_deps(final(deps)@) == declared_deps(old(deps)@)
                + more,
            Err(message) => result matches Err(e) && e@ == message,
        },
{
    let ghost before = declared_deps(deps@);
    let mut i: usize = 0;
    assert(before == before + Seq::<Declared>::empty());
    while i < items.len()
        invariant
            i <= items.len(),
            item_deps(items@, name@, scope, i as int) matches Ok(more) && declared_deps(deps@)
                == before + more,
        decreases items.len() - i,
    {
        let ghost so_far = item_deps(items@, name@, scope, i as int)->Ok_0;
        let ghost list = deps@;
        let skip = match &items[i] {
            Value::ProjectRef(_) => true,
            _ => false,
        };
        if !skip {
            match parse_coordinate_value(&items[i], name) {
                Ok(dependency) => {
                    let dep = DeclaredDep { scope, dependency };
                    deps.push(dep);
                    assert(declared_deps(deps@) == declared_deps(list).push(dep@));
                    assert(before + so_far.push(dep@) == (before + so_far).push(dep@));
                },
                Err(message) => {
                    proof {
                        lemma_items_err(items@, name@, scope, i + 1, items@.len() as int);
                    }
                    return Err(message);
                },
            }
        }
        i += 1;
    }
    Ok(())
}

/// Parses the evaluated `deps {}` block of a module model.
///
/// The block is keyed by scope; each value is a coordinate string
/// (`"group:artifact:version"` or `"group:artifact"` for BOM-managed deps), a
/// resolved [`Value::Coordinate`], or a list of them (repeated keys accumulate
/// into lists upstream).
///
/// # Errors
///
/// Returns a description when a scope is unknown, a value is not a
/// coordinate, or a coordinate is malformed.
pub fn parse_deps_block(block: &Value) -> (result: Result<Vec<DeclaredDep>, String>)
    ensures
        declared_result(result) == deps_of(*block),
{
    let map = match block {
        Value::Block(map) => map,
        _ => return Err("deps must be a block".to_owned()),
    };
    let entries = &map.entries;
    let mut deps: Vec<DeclaredDep> = Vec::new();
    let mut i: usize = 0;
    assert(declared_deps(deps@) == Seq::<Declared>::empty());
    while i < entries.len()
        invariant
            block == (Value::Block(*map)),
            *entries == map.entries,
            i <= entries.len(),
            block_deps(entries@, i as int) == Ok::<Seq<Declared>, Seq<char>>(
                declared_deps(deps@),
            ),
        decreases entries.len() - i,
    {
        let name = &entries[i].0;
        let value = &entries[i].1;
        let ghost list = deps@;
        proof {
            if entry_deps(name@, *value) is Err {
                lemma_block_err(entries@, i + 1, entries@.len() as int);
            }
        }
        let scope = match MavenScope::from_name(name) {
            Some(scope) => scope,
            None => {
                return Err(
                    "unknown dependency scope '".to_owned().concat(name).concat(
                        "' (expected api, implementation, runtimeOnly, compileOnly, ksp, testImplementation, or androidTestImplementation)",
                    ),
                );
            },
        };
        match value {
            Value::List(items) => {
                if let Err(message) = parse_items(items, name, scope, &mut deps) {
                    return Err(message);
                }
            },
            Value::ProjectRef(_) => {
                assert(declared_deps(deps@) == declared_deps(list) + Seq::<Declared>::empty());
            },
            _ => match parse_coordinate_value(value, name) {
                Ok(dependency) => {
                    let dep = DeclaredDep { scope, dependency };
                    deps.push(dep);
                    assert(declared_deps(deps@) == declared_deps(list) + seq![dep@]);
                },
                Err(message) => {
                    return Err(message);
                },
            },
        }
        i += 1;
    }
    Ok(deps)
}

/// The module paths that the first `n` items of a list refer to.
pub open spec fn item_refs(items: Seq<Value>, scope: MavenScope, n: int) -> Seq<
    (MavenScope, Seq<char>),
>
    decreases n,
{
    if n <= 0 {
        Seq::empty()
    } else {
        let before = item_refs(items, scope, n - 1);
        match items[n - 1] {
            Value::ProjectRef(path) => before.push((scope, path@)),
            _ => before,
        }
    }
}

/// The module paths that an entry of a `deps {}` block refers to.
pub open spec fn entry_refs(name: Seq<char>, value: Value) -> Seq<(MavenScope, Seq<char>)> {
    match scope_of(name) {
        None => Seq::empty(),
        Some(scope) => match value {
            Value::ProjectRef(path) => seq![(scope, path@)],
            Value::List(items) => item_refs(items@, scope, items@.len() as int),
            _ => Seq::empty(),
        },
    }
}

/// The module paths that the first `n` entries of a `deps {}` block refer to.
pub open spec fn block_refs(entries: Seq<(String, Value)>, n: int) -> Seq<(MavenScope, Seq<char>)>
    decreases n,
{
    if n <= 0 {
        Seq::empty()
    } else {
        block_refs(entries, n - 1) + entry_refs(entries[n - 1].0@, entries[n - 1].1)
    }
}

/// The module paths that a `deps {}` block refers to.
pub open spec fn project_refs(block: Value) -> Seq<(MavenScope, Seq<char>)> {
    match block {
        Value::Block(map) => block_refs(map.entries@, map.entries@.len() as int),
        _ => Seq::empty(),
    }
}

/// A list of module references as a specification value.
pub open spec fn scoped_refs(refs: Seq<(MavenScope, String)>) -> Seq<(MavenScope, Seq<char>)> {
    Seq::new(refs.len(), |i: int| (refs[i].0, refs[i].1@))
}

fn push_ref(refs: &mut Vec<(MavenScope, String)>, scope: MavenScope, path: &String)
    ensures
        scoped_refs(final(refs)@) == scoped_refs(old(refs)@).push((scope, path@)),
{
    let ghost list = refs@;
    refs.push((scope, path.clone()));
    assert(scoped_refs(refs@) == scoped_refs(list).push((scope, path@)));
}

/// Extracts project-module dependencies from a `deps {}` block.
///
/// Walks every scope entry and collects `(scope, path)` pairs for
/// each [`Value::ProjectRef`] found, as single values or inside a
/// [`Value::List`]. Non-project-ref entries are ignored; the caller
/// resolves those via [`parse_deps_block`] and the Maven resolver.
///
/// The module path retains its leading `:` (e.g. `":shared"`).
pub fn extract_project_deps(block: &Value) -> (refs: Vec<(MavenScope, String)>)
    ensures
        scoped_refs(refs@) == project_refs(*block),
{
    let mut refs: Vec<(MavenScope, String)> = Vec::new();
    assert(scoped_refs(refs@) == Seq::<(MavenScope, Seq<char>)>::empty());
    let map = match block {
        Value::Block(map) => map,
        _ => return refs,
    };
    let entries = &map.entries;
    let mut i: usize = 0;
    while i < entries.len()
        invariant
            i <= entries.len(),
            scoped_refs(refs@) == block_refs(entries@, i as int),
        decreases entries.len() - i,
    {
        let ghost so_far = block_refs(entries@, i as int);
        let ghost more = entry_refs(entries@[i as int].0@, entries@[i as int].1);
        if let Some(scope) = MavenScope::from_name(&entries[i].0) {
            match &entries[i].1 {
                Value::ProjectRef(path) => {
                    push_ref(&mut refs, scope, path);
                    assert(so_far.push((scope, path@)) == so_far + more);
                },
                Value::List(items) => {
                    let mut j: usize = 0;
                    assert(so_far == so_far + item_refs(items@, scope, 0));
                    while j < items.len()
                        invariant
                            j <= items.len(),
                            scoped_refs(refs@) == so_far + item_refs(items@, scope, j as int),
                        decreases items.len() - j,
                    {
                        let ghost inner = item_refs(items@, scope, j as int);
                        if let Value::ProjectRef(path) = &items[j] {
                            push_ref(&mut refs, scope, path);
                            assert((so_far + inner).push((scope, path@)) == so_far + inner.push(
                                (scope, path@),
                            ));
                        }
                        j += 1;
                    }
                },
                _ => {
                    assert(so_far == so_far + more);
                },
            }
        } else {
            assert(so_far == so_far + more);
        }
        i += 1;
    }
    refs
}

/// The classpath a project's dependencies resolve to.
#[derive(Debug, PartialEq, Eq)]
pub struct Classpath {
    /// Jars needed to compile the module.
    pub compile: Vec<String>,
    /// Jars needed to run the module.
    pub runtime: Vec<String>,
    /// Jars needed to run annotation processing.
    pub processor: Vec<String>,
    /// Direct `api`-scoped jars: needed for compilation and visible to
    /// consumers of this module.  Unlike [`compile`](Self::compile), this
    /// contains **only** the direct `api` roots (not their transitive
    /// dependencies), so consumers can build a compile classpath without
    /// pulling in `implementation`-only deps.
    pub api: Vec<String>,
    /// The Android Compose runtime artifacts the driver bundles with a
    /// compiled Android module that uses `@Composable`: the `classes.jar`
    /// of the `androidx.compose.runtime`, `androidx.compose.ui`, and
    /// `androidx.compose.material3` artifacts, exactly as resolved from
    /// the BOM.  The resolver itself leaves this bucket empty, since it
    /// cannot know which resolved coordinates a caller treats as "Compose".
    pub compose_runtimes: Vec<String>,
    /// Jars needed to compile unit tests.
    pub test_compile: Vec<String>,
    /// Jars needed to run unit tests.
    pub test_runtime: Vec<String>,
    /// Jars needed to compile instrumented tests.
    pub android_test_compile: Vec<String>,
    /// Jars needed to run instrumented tests.
    pub android_test_runtime: Vec<String>,
}

/// What a [`Classpath`] holds.
pub struct Paths {
    /// Jars needed to compile the module.
    pub compile: Seq<Seq<char>>,
    /// Jars needed to run the module.
    pub runtime: Seq<Seq<char>>,
    /// Jars needed to run annotation processing.
    pub processor: Seq<Seq<char>>,
    /// Direct `api`-scoped jars.
    pub api: Seq<Seq<char>>,
    /// The Android Compose runtime artifacts.
    pub compose_runtimes: Seq<Seq<char>>,
    /// Jars needed to compile unit tests.
    pub test_compile: Seq<Seq<char>>,
    /// Jars needed to run unit tests.
    pub test_runtime: Seq<Seq<char>>,
    /// Jars needed to compile instrumented tests.
    pub android_test_compile: Seq<Seq<char>>,
    /// Jars needed to run instrumented tests.
    pub android_test_runtime: Seq<Seq<char>>,
}

impl View for Classpath {
    type V = Paths;

    open spec fn view(&self) -> Paths {
        Paths {
            compile: text::texts(self.compile@),
            runtime: text::texts(self.runtime@),
            processor: text::texts(self.processor@),
            api: text::texts(self.api@),
            compose_runtimes: text::texts(self.compose_runtimes@),
            test_compile: text::texts(self.test_compile@),
            test_runtime: text::texts(self.test_runtime@),
            android_test_compile: text::texts(self.android_test_compile@),
            android_test_runtime: text::texts(self.android_test_runtime@),
        }
    }
}

/// A classpath without a jar.
pub open spec fn no_paths() -> Paths {
    Paths {
        compile: Seq::empty(),
        runtime: Seq::empty(),
        processor: Seq::empty(),
        api: Seq::empty(),
        compose_runtimes: Seq::empty(),
        test_compile: Seq::empty(),
        test_runtime: Seq::empty(),
        android_test_compile: Seq::empty(),
        android_test_runtime: Seq::empty(),
    }
}

/// The names under which a classpath's buckets appear in JSON.
pub open spec fn bucket_names() -> Set<Seq<char>> {
    set![
        "compile"@,
        "runtime"@,
        "processor"@,
        "api"@,
        "composeRuntimes"@,
        "testCompile"@,
        "testRuntime"@,
        "androidTestCompile"@,
        "androidTestRuntime"@,
    ]
}

/// Whether a document is the JSON object of a classpath: one array of jar
/// paths per bucket and nothing else.
pub open spec fn is_classpath_json(document: Json, paths: Paths) -> bool {
    &&& document matches Json::Object(object)
    &&& object.wf()
    &&& object@.dom() == bucket_names()
    &&& json::is_str_list(object@["compile"@], paths.compile)
    &&& json::is_str_list(object@["runtime"@], paths.runtime)
    &&& json::is_str_list(object@["processor"@], paths.processor)
    &&& json::is_str_list(object@["api"@], paths.api)
    &&& json::is_str_list(object@["composeRuntimes"@], paths.compose_runtimes)
    &&& json::is_str_list(object@["testCompile"@], paths.test_compile)
    &&& json::is_str_list(object@["testRuntime"@], paths.test_runtime)
    &&& json::is_str_list(object@["androidTestCompile"@], paths.android_test_compile)
    &&& json::is_str_list(object@["androidTestRuntime"@], paths.android_test_runtime)
}

impl Default for Classpath {
    fn default() -> (classpath: Classpath)
        ensures
            classpath@ == no_paths(),
    {
        let classpath = Classpath {
            compile: Vec::new(),
            runtime: Vec::new(),
            processor: Vec::new(),
            api: Vec::new(),
            compose_runtimes: Vec::new(),
            test_compile: Vec::new(),
            test_runtime: Vec::new(),
            android_test_compile: Vec::new(),
            android_test_runtime: Vec::new(),
        };
        assert(text::texts(Seq::<String>::empty()) == Seq::<Seq<char>>::empty());
        classpath
    }
}

impl Clone for Classpath {
    fn clone(&self) -> (copy: Classpath)
        ensures
            copy@ == self@,
    {
        Classpath {
            compile: text::copy_texts(&self.compile),
            runtime: text::copy_texts(&self.runtime),
            processor: text::copy_texts(&self.processor),
            api: text::copy_texts(&self.api),
            compose_runtimes: text::copy_texts(&self.compose_runtimes),
            test_compile: text::copy_texts(&self.test_compile),
            test_runtime: text::copy_texts(&self.test_runtime),
            android_test_compile: text::copy_texts(&self.android_test_compile),
            android_test_runtime: text::copy_texts(&self.android_test_runtime),
        }
    }
}

/// The bucket names are nine different texts.
proof fn lemma_bucket_names()
    ensures
        seq![
            "compile"@,
            "runtime"@,
            "processor"@,
            "api"@,
            "composeRuntimes"@,
            "testCompile"@,
            "testRuntime"@,
            "androidTestCompile"@,
            "androidTestRuntime"@,
        ].no_duplicates(),
{
    reveal_strlit("compile");
    reveal_strlit("runtime");
    reveal_strlit("processor");
    reveal_strlit("api");
    reveal_strlit("composeRuntimes");
    reveal_strlit("testCompile");
    reveal_strlit("testRuntime");
    reveal_strlit("androidTestCompile");
    reveal_strlit("androidTestRuntime");
    assert("compile"@[0] == 'c' && "compile"@[3] == 'p');
    assert("composeRuntimes"@.len() == 15);
    assert("runtime"@[0] == 'r');
    assert("processor"@[0] == 'p');
    assert("api"@.len() == 3);
    assert("testCompile"@[4] == 'C' && "testCompile"@.len() == 11);
    assert("testRuntime"@[4] == 'R' && "testRuntime"@.len() == 11);
    assert("androidTestCompile"@[11] == 'C' && "androidTestCompile"@.len() == 18);
    assert("androidTestRuntime"@[11] == 'R' && "androidTestRuntime"@.len() == 18);
}

impl Classpath {
    /// Serializes the classpath to the JSON object handed to plugins as the
    /// `classpath` key of their configuration: one array of jar paths per
    /// bucket, named as they appear here (`compile`, `runtime`,
    /// `processor`, `api`, `composeRuntimes`, `testCompile`,
    /// `testRuntime`, `androidTestCompile`, `androidTestRuntime`). The
    /// output is deterministic: each bucket is already sorted by
    /// (`group`, `artifact`) when built by a resolver.
    #[must_use]
    pub fn to_json(&self) -> (document: Json)
        ensures
            is_classpath_json(document, self@),
    {
        let mut object: TextMap<Json> = TextMap::new();
        object.insert("compile".to_owned(), json::str_list(&self.compile));
        object.insert("runtime".to_owned(), json::str_list(&self.runtime));
        object.insert("processor".to_owned(), json::str_list(&self.processor));
        object.insert("api".to_owned(), json::str_list(&self.api));
        object.insert("composeRuntimes".to_owned(), json::str_list(&self.compose_runtimes));
        object.insert("testCompile".to_owned(), json::str_list(&self.test_compile));
        object.insert("testRuntime".to_owned(), json::str_list(&self.test_runtime));
        object.insert("androidTestCompile".to_owned(), json::str_list(&self.android_test_compile));
        object.insert("androidTestRuntime".to_owned(), json::str_list(&self.android_test_runtime));
        proof {
            lemma_bucket_names();
            let names = seq![
                "compile"@,
                "runtime"@,
                "processor"@,
                "api"@,
                "composeRuntimes"@,
                "testCompile"@,
                "testRuntime"@,
                "androidTestCompile"@,
                "androidTestRuntime"@,
            ];
            assert(forall|i: int, j: int|
                0 <= i < names.len() && 0 <= j < names.len() && i != j ==> names[i] != names[j]);
            assert(names[0] == "compile"@ && names[1] == "runtime"@ && names[2] == "processor"@
                && names[3] == "api"@ && names[4] == "composeRuntimes"@ && names[5]
                == "testCompile"@ && names[6] == "testRuntime"@ && names[7]
                == "androidTestCompile"@ && names[8] == "androidTestRuntime"@);
            assert(object@.dom() =~= bucket_names());
        }
        Json::Object(object)
    }
}

/// Errors produced while resolving dependencies.
#[derive(Debug, PartialEq, Eq)]
pub enum ResolveError {
    /// An artifact could not be found in any configured repository.
    NotFound {
        /// The `group:artifact:version` coordinate that was not found.
        artifact: String,
    },
    /// Fetching or reading an artifact failed for a non-404 reason.
    Fetch {
        /// The coordinate being fetched when the failure occurred.
        artifact: String,
        /// What went wrong.
        message: String,
    },
    /// A POM could not be parsed.
    Parser {
        /// The coordinate whose POM was malformed.
        artifact: String,
        /// What about the POM could not be parsed.
        message: String,
    },
    /// An archive (e.g. an Android AAR) could not be read or unpacked.
    Archive {
        /// The coordinate whose archive is malformed.
        artifact: String,
        /// What about the archive could not be read.
        message: String,
    },
}

/// What a [`ResolveError`] holds.
pub enum Failure {
    /// The artifact was not found.
    NotFound {
        /// The artifact.
        artifact: Seq<char>,
    },
    /// Fetching failed.
    Fetch {
        /// The artifact.
        artifact: Seq<char>,
        /// What went wrong.
        message: Seq<char>,
    },
    /// The POM is malformed.
    Parser {
        /// The artifact.
        artifact: Seq<char>,
        /// What went wrong.
        message: Seq<char>,
    },
    /// The archive is malformed.
    Archive {
        /// The artifact.
        artifact: Seq<char>,
        /// What went wrong.
        message: Seq<char>,
    },
}

impl View for ResolveError {
    type V = Failure;

    open spec fn view(&self) -> Failure {
        match *self {
            ResolveError::NotFound { artifact } => Failure::NotFound { artifact: artifact@ },
            ResolveError::Fetch { artifact, message } => Failure::Fetch {
                artifact: artifact@,
                message: message@,
            },
            ResolveError::Parser { artifact, message } => Failure::Parser {
                artifact: artifact@,
                message: message@,
            },
            ResolveError::Archive { artifact, message } => Failure::Archive {
                artifact: artifact@,
                message: message@,
            },
        }
    }
}

/// What is said of a failure.
pub open spec fn failure_text(failure: Failure) -> Seq<char> {
    match failure {
        Failure::NotFound { artifact } => "could not find "@ + artifact + " in any repository"@,
        Failure::Fetch { artifact, message } => "fetching "@ + artifact + ": "@ + message,
        Failure::Parser { artifact, message } => "parsing POM for "@ + artifact + ": "@ + message,
        Failure::Archive { artifact, message } => "unpacking archive for "@ + artifact + ": "@
            + message,
    }
}

impl Clone for ResolveError {
    fn clone(&self) -> (copy: ResolveError)
        ensures
            copy == *self,
    {
        match self {
            ResolveError::NotFound { artifact } => ResolveError::NotFound {
                artifact: artifact.clone(),
            },
            ResolveError::Fetch { artifact, message } => ResolveError::Fetch {
                artifact: artifact.clone(),
                message: message.clone(),
            },
            ResolveError::Parser { artifact, message } => ResolveError::Parser {
                artifact: artifact.clone(),
                message: message.clone(),
            },
            ResolveError::Archive { artifact, message } => ResolveError::Archive {
                artifact: artifact.clone(),
                message: message.clone(),
            },
        }
    }
}

impl ResolveError {
    /// A description for the user.
    pub fn message(&self) -> (s: String)
        ensures
            s@ == failure_text(self@),
    {
        match self {
            ResolveError::NotFound { artifact } => "could not find ".to_owned().concat(
                artifact,
            ).concat(" in any repository"),
            ResolveError::Fetch { artifact, message } => "fetching ".to_owned().concat(
                artifact,
            ).concat(": ").concat(message),
            ResolveError::Parser { artifact, message } => "parsing POM for ".to_owned().concat(
                artifact,
            ).concat(": ").concat(message),
            ResolveError::Archive { artifact, message } => "unpacking archive for ".to_owned().concat(
                artifact,
            ).concat(": ").concat(message),
        }
    }
}

} // verus!
