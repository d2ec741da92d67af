//! The dependencies a module model declares.

use vstd::prelude::*;
use crate::maven;
use crate::maven::{
    Classpath, Declared, DeclaredDep, Dependency, Ga, Gav, MavenScope, Paths,
};
use crate::text;
use crate::value::Value;

verus! {

/// Default Compose BOM version injected when `compose = true` but no
/// `composeVersion` is specified in the `android {}` block.
pub const DEFAULT_COMPOSE_BOM_VERSION: &'static str = "2026.08.00";

/// What a value is called in messages about the module model.
pub open spec fn kind_text(value: Value) -> Seq<char> {
    match value {
        Value::Str(_) => "a string"@,
        Value::Number(_) => "a number"@,
        Value::Bool(_) => "a boolean"@,
        Value::List(_) => "a list"@,
        Value::Version(_) => "a version"@,
        Value::Properties(_) => "properties"@,
        Value::Coordinate(_) => "a coordinate"@,
        Value::Block(_) => "a block"@,
        Value::Invalid(_) => "an unresolved value"@,
        Value::ProjectRef(_) => "a project reference"@,
    }
}

/// What a value is called in messages about the module model.
pub fn value_kind(value: &Value) -> (name: &'static str)
    ensures
        name@ == kind_text(*value),
{
    match value {
        Value::Str(_) => "a string",
        Value::Number(_) => "a number",
        Value::Bool(_) => "a boolean",
        Value::List(_) => "a list",
        Value::Version(_) => "a version",
        Value::Properties(_) => "properties",
        Value::Coordinate(_) => "a coordinate",
        Value::Block(_) => "a block",
        Value::Invalid(_) => "an unresolved value",
        Value::ProjectRef(_) => "a project reference",
    }
}

/// The value of a key of a block.
pub open spec fn member(value: Value, key: Seq<char>) -> Option<Value> {
    match value {
        Value::Block(map) => if map@.contains_key(key) {
            Some(map@[key])
        } else {
            None
        },
        _ => None,
    }
}

/// The value of a key of a block.
pub fn get_member<'a>(value: &'a Value, key: &str) -> (found: Option<&'a Value>)
    ensures
        match found {
            Some(v) => member(*value, key@) == Some(*v),
            None => member(*value, key@) is None,
        },
{
    match value {
        Value::Block(map) => map.get(key),
        _ => None,
    }
}

/// Whether `android.compose` is on.
pub open spec fn uses_compose(model: Value) -> bool {
    member(model, "android"@) matches Some(android) && member(android, "compose"@) == Some(
        Value::Bool(true),
    )
}

/// The version of the Compose BOM: `android.composeVersion` as it is written
/// or shown, or the default. A value that cannot be shown is refused.
pub open spec fn bom_version(android: Value, shown: Option<Seq<char>>) -> Result<
    Seq<char>,
    Seq<char>,
> {
    match member(android, "composeVersion"@) {
        None => Ok(DEFAULT_COMPOSE_BOM_VERSION@),
        Some(Value::Str(version)) => Ok(version@),
        Some(_) => match shown {
            Some(version) => Ok(version),
            None => Err("android.composeVersion must be a string or version value"@),
        },
    }
}

/// An implementation dependency.
pub open spec fn implementation(
    group: Seq<char>,
    artifact: Seq<char>,
    version: Seq<char>,
) -> Declared {
    Declared {
        scope: MavenScope::Implementation,
        gav: Gav { ga: Ga { group, artifact }, version },
    }
}

/// The dependencies that Compose brings: the BOM, and the runtime, UI and
/// Material 3 artifacts without a version.
pub open spec fn with_managed(bom: Gav) -> Seq<Declared> {
    seq![
        Declared { scope: MavenScope::Implementation, gav: bom },
        implementation("androidx.compose.runtime"@, "runtime"@, Seq::empty()),
        implementation("androidx.compose.ui"@, "ui"@, Seq::empty()),
        implementation("androidx.compose.material3"@, "material3"@, Seq::empty()),
    ]
}

/// The dependencies that are injected because `android.compose` is on.
pub open spec fn compose_of(model: Value, shown: Option<Seq<char>>) -> Result<
    Option<Seq<Declared>>,
    Seq<char>,
> {
    if !uses_compose(model) {
        Ok(None)
    } else {
        match bom_version(member(model, "android"@)->0, shown) {
            Err(message) => Err(message),
            Ok(version) => match maven::parsed_coordinate(
                "androidx.compose:compose-bom:"@ + version,
            ) {
                Ok(bom) => Ok(Some(with_managed(bom))),
                Err(message) => Err(
                    "invalid android.composeVersion '"@ + version + "': "@ + message,
                ),
            },
        }
    }
}

/// A list of dependencies that may be absent, or an error, as a specification
/// value.
pub open spec fn compose_result(result: Result<Option<Vec<DeclaredDep>>, String>) -> Result<
    Option<Seq<Declared>>,
    Seq<char>,
> {
    match result {
        Ok(Some(list)) => Ok(Some(maven::declared_deps(list@))),
        Ok(None) => Ok(None),
        Err(message) => Err(message@),
    }
}

fn managed_dep(group: &str, artifact: &str) -> (dep: DeclaredDep)
    ensures
        dep@ == implementation(group@, artifact@, Seq::empty()),
{
    let dep = DeclaredDep {
        scope: MavenScope::Implementation,
        dependency: Dependency {
            group: group.to_owned(),
            artifact: artifact.to_owned(),
            version: String::new(),
        },
    };
    assert(dep.dependency.version@ == Seq::<char>::empty());
    dep
}

/// When `android.compose = true` in the module model, returns the
/// Compose BOM and standard runtime/UI deps that should be injected
/// into the resolution. The BOM is declared with an explicit version;
/// the standard artifacts are version-less (resolved from the BOM's
/// `dependencyManagement`).
///
/// The `composeVersion` key in the `android {}` block specifies the
/// Compose BOM version (e.g. `"2026.08.00"` or `ver("2026.08.00")`);
/// when omitted the default above is injected. A value that is no string
/// counts as the text `shown` it is displayed as, where it has one.
///
/// # Errors
///
/// Returns an error when `composeVersion` is present but not displayable
/// as a coordinate version segment.
pub fn compose_deps(model: &Value, shown: &Option<String>) -> (result: Result<
    Option<Vec<DeclaredDep>>,
    String,
>)
    ensures
        compose_result(result) == compose_of(*model, text::opt_text(*shown)),
{
    let android = match get_member(model, "android") {
        Some(android) => android,
        None => return Ok(None),
    };
    let on = match get_member(android, "compose") {
        Some(Value::Bool(on)) => *on,
        _ => false,
    };
    if !on {
        return Ok(None);
    }
    let version = match get_member(android, "composeVersion") {
        None => DEFAULT_COMPOSE_BOM_VERSION.to_owned(),
        Some(Value::Str(version)) => version.clone(),
        Some(_) => match shown {
            Some(version) => version.clone(),
            None => {
                return Err("android.composeVersion must be a string or version value".to_owned());
            },
        },
    };
    let bom = match Dependency::parse(
        &"androidx.compose:compose-bom:".to_owned().concat(&version),
    ) {
        Ok(bom) => bom,
        Err(message) => {
            return Err(
                "invalid android.composeVersion '".to_owned().concat(&version).concat(
                    "': ",
                ).concat(&message),
            );
        },
    };
    let mut deps: Vec<DeclaredDep> = Vec::new();
    deps.push(DeclaredDep { scope: MavenScope::Implementation, dependency: bom });
    deps.push(managed_dep("androidx.compose.runtime", "runtime"));
    deps.push(managed_dep("androidx.compose.ui", "ui"));
    deps.push(managed_dep("androidx.compose.material3", "material3"));
    assert(maven::declared_deps(deps@) == with_managed(bom@));
    Ok(Some(deps))
}

/// What a `deps {}` block declares together with what Compose brings.
pub open spec fn with_compose(declared: Seq<Declared>, compose: Option<Seq<Declared>>) -> Seq<
    Declared,
> {
    match compose {
        Some(more) => declared + more,
        None => declared,
    }
}

fn extend_declared(list: &mut Vec<DeclaredDep>, more: &Vec<DeclaredDep>)
    ensures
        maven::declared_deps(final(list)@) == maven::declared_deps(old(list)@)
            + maven::declared_deps(more@),
{
    let ghost before = maven::declared_deps(list@);
    let ghost all = maven::declared_deps(more@);
    let mut i: usize = 0;
    assert(before == before + all.take(0));
    while i < more.len()
        invariant
            all == maven::declared_deps(more@),
            i <= more@.len(),
            maven::declared_deps(list@) == before + all.take(i as int),
        decreases more.len() - i,
    {
        let ghost was = list@;
        let dep = more[i].clone();
        list.push(dep);
        assert(maven::declared_deps(list@) == maven::declared_deps(was).push(dep@));
        assert(all.take(i + 1) == all.take(i as int).push(all[i as int]));
        assert(before + all.take(i + 1) == (before + all.take(i as int)).push(all[i as int]));
        i += 1;
    }
    assert(all.take(i as int) == all);
}

/// The dependencies to resolve for a module: those of its `deps {}` block and
/// those Compose brings. A block that only refers to other modules has none.
pub open spec fn model_deps_of(model: Value, shown: Option<Seq<char>>) -> Result<
    Seq<Declared>,
    Seq<char>,
> {
    match match member(model, "deps"@) {
        Some(block) => maven::deps_of(block),
        None => Ok(Seq::empty()),
    } {
        Err(message) => Err(message),
        Ok(own) => match compose_of(model, shown) {
            Err(message) => Err(message),
            Ok(compose) => if member(model, "deps"@) is None && compose is None {
                Err("the model does not declare a deps {} block"@)
            } else {
                Ok(with_compose(own, compose))
            },
        },
    }
}

/// The dependencies to resolve for the `deps {}` block of an evaluated module
/// model, erroring when the model declares no such block. A block that only
/// refers to other modules leaves nothing to resolve.
///
/// # Errors
///
/// Returns a description when the block is malformed, or when there is none
/// and Compose brings no dependencies either.
pub fn model_deps(model: &Value, shown: &Option<String>) -> (result: Result<
    Vec<DeclaredDep>,
    String,
>)
    ensures
        maven::declared_result(result) == model_deps_of(*model, text::opt_text(*shown)),
{
    let mut declared = match get_member(model, "deps") {
        Some(block) => match maven::parse_deps_block(block) {
            Ok(declared) => declared,
            Err(message) => return Err(message),
        },
        None => Vec::new(),
    };
    let ghost own = maven::declared_deps(declared@);
    assert(member(*model, "deps"@) is None ==> own == Seq::<Declared>::empty());
    match compose_deps(model, shown) {
        Err(message) => return Err(message),
        Ok(Some(compose)) => extend_declared(&mut declared, &compose),
        Ok(None) => {
            if get_member(model, "deps").is_none() {
                return Err("the model does not declare a deps {} block".to_owned());
            }
        },
    }
    Ok(declared)
}

/// Whether the top level of a model has dependencies to resolve.
pub open spec fn wants_deps(model: Value, shown: Option<Seq<char>>) -> Result<bool, Seq<char>> {
    if member(model, "deps"@) is Some {
        Ok(true)
    } else {
        match compose_of(model, shown) {
            Ok(compose) => Ok(compose is Some),
            Err(message) => Err(message),
        }
    }
}

/// Whether the top level of a model has dependencies to resolve: a `deps {}`
/// block, or Compose.
///
/// # Errors
///
/// Returns a description when the Compose version is malformed.
pub fn has_deps(model: &Value, shown: &Option<String>) -> (result: Result<bool, String>)
    ensures
        match wants_deps(*model, text::opt_text(*shown)) {
            Ok(yes) => result == Ok::<bool, String>(yes),
            Err(message) => result matches Err(error) && error@ == message,
        },
{
    if get_member(model, "deps").is_some() {
        return Ok(true);
    }
    match compose_deps(model, shown) {
        Ok(compose) => Ok(compose.is_some()),
        Err(message) => Err(message),
    }
}

/// The `deps {}` blocks at and below a value, each with its path. A block's own
/// `deps` comes first and is not descended into.
pub open spec fn nested_deps(path: Seq<char>, value: Value) -> Result<
    Seq<(Seq<char>, Value)>,
    Seq<char>,
>
    decreases value, 0int,
{
    match value {
        Value::Block(map) => match own_deps(path, value) {
            Err(message) => Err(message),
            Ok(own) => match child_deps(path, map.entries@, map.entries@.len() as int) {
                Err(message) => Err(message),
                Ok(more) => Ok(own + more),
            },
        },
        _ => Ok(Seq::empty()),
    }
}

/// A block's own `deps {}` block.
pub open spec fn own_deps(path: Seq<char>, value: Value) -> Result<
    Seq<(Seq<char>, Value)>,
    Seq<char>,
> {
    match member(value, "deps"@) {
        None => Ok(Seq::empty()),
        Some(deps) => if deps is Block {
            Ok(seq![(path, deps)])
        } else {
            Err("deps at '"@ + path + "' must be a block (found "@ + kind_text(deps) + ")"@)
        },
    }
}

/// The `deps {}` blocks below the first `n` members of a block.
pub open spec fn child_deps(path: Seq<char>, entries: Seq<(String, Value)>, n: int) -> Result<
    Seq<(Seq<char>, Value)>,
    Seq<char>,
>
    decreases entries, n,
{
    if n <= 0 || n > entries.len() {
        Ok(Seq::empty())
    } else {
        match child_deps(path, entries, n - 1) {
            Err(message) => Err(message),
            Ok(before) => if entries[n - 1].0@ == "deps"@ || !(entries[n - 1].1 is Block) {
                Ok(before)
            } else {
                match nested_deps(path + "."@ + entries[n - 1].0@, entries[n - 1].1) {
                    Err(message) => Err(message),
                    Ok(more) => Ok(before + more),
                }
            },
        }
    }
}

/// A list of blocks with their paths as a specification value.
pub open spec fn placed(list: Seq<(String, &Value)>) -> Seq<(Seq<char>, Value)> {
    Seq::new(list.len(), |i: int| (list[i].0@, *list[i].1))
}

/// A list of blocks with their paths, or an error, as a specification value.
pub open spec fn placed_result(result: Result<Vec<(String, &Value)>, String>) -> Result<
    Seq<(Seq<char>, Value)>,
    Seq<char>,
> {
    match result {
        Ok(list) => Ok(placed(list@)),
        Err(message) => Err(message@),
    }
}

fn extend_placed<'a>(list: &mut Vec<(String, &'a Value)>, more: Vec<(String, &'a Value)>)
    ensures
        placed(final(list)@) == placed(old(list)@) + placed(more@),
{
    let ghost before = list@;
    let ghost all = more@;
    let mut more = more;
    list.append(&mut more);
    assert(list@ == before + all);
    assert(placed(list@) == placed(before) + placed(all));
}

proof fn lemma_child_err(path: Seq<char>, entries: Seq<(String, Value)>, m: int, n: int)
    requires
        0 <= m <= n <= entries.len(),
        child_deps(path, entries, m) is Err,
    ensures
        child_deps(path, entries, n) == child_deps(path, entries, m),
    decreases n,
{
    if m < n {
        lemma_child_err(path, entries, m, n - 1);
    }
}

/// Collects every `deps` block nested at or below `value`, recording each
/// under its key path joined with `.` (`commonMain`, `kmp.commonMain`). A
/// block's own `deps` key is recorded but never descended into, so nested
/// declarations cannot shadow each other, and non-block values are reported
/// with their path so the error points at the offending source set.
///
/// # Errors
///
/// Returns a description when a `deps` is not a block.
pub fn collect_source_set_deps<'a>(path: &str, value: &'a Value) -> (result: Result<
    Vec<(String, &'a Value)>,
    String,
>)
    ensures
        placed_result(result) == nested_deps(path@, *value),
    decreases value,
{
    let mut out: Vec<(String, &'a Value)> = Vec::new();
    assert(placed(out@) == Seq::<(Seq<char>, Value)>::empty());
    let map = match value {
        Value::Block(map) => map,
        _ => return Ok(out),
    };
    if let Some(deps) = map.get("deps") {
        match deps {
            Value::Block(_) => {
                out.push((path.to_owned(), deps));
            },
            _ => {
                return Err(
                    "deps at '".to_owned().concat(path).concat("' must be a block (found ").concat(
                        value_kind(deps),
                    ).concat(")"),
                );
            },
        }
    }
    let ghost own = own_deps(path@, *value)->Ok_0;
    assert(placed(out@) == own);
    let mut i: usize = 0;
    assert(own == own + Seq::<(Seq<char>, Value)>::empty());
    while i < map.entries.len()
        invariant
            *value == (Value::Block(*map)),
            own_deps(path@, *value) == Ok::<Seq<(Seq<char>, Value)>, Seq<char>>(own),
            i <= map.entries@.len(),
            child_deps(path@, map.entries@, i as int) matches Ok(more) && placed(out@) == own
                + more,
        decreases map.entries.len() - i,
    {
        let ghost more = child_deps(path@, map.entries@, i as int)->Ok_0;
        let key = &map.entries[i].0;
        let child = &map.entries[i].1;
        let is_block = match child {
            Value::Block(_) => true,
            _ => false,
        };
        if is_block && !text::str_eq(key, "deps") {
            match collect_source_set_deps(&path.to_owned().concat(".").concat(key), child) {
                Ok(found) => {
                    let ghost list = placed(found@);
                    extend_placed(&mut out, found);
                    assert((own + more) + list == own + (more + list));
                },
                Err(message) => {
                    proof {
                        lemma_child_err(path@, map.entries@, i + 1, map.entries@.len() as int);
                    }
                    return Err(message);
                },
            }
        }
        i += 1;
    }
    Ok(out)
}

/// The `deps {}` blocks below the first `n` members of the top level, the path
/// of each starting at its member.
pub open spec fn top_deps(entries: Seq<(String, Value)>, n: int) -> Result<
    Seq<(Seq<char>, Value)>,
    Seq<char>,
>
    decreases n,
{
    if n <= 0 {
        Ok(Seq::empty())
    } else {
        match top_deps(entries, n - 1) {
            Err(message) => Err(message),
            Ok(before) => match nested_deps(entries[n - 1].0@, entries[n - 1].1) {
                Err(message) => Err(message),
                Ok(more) => Ok(before + more),
            },
        }
    }
}

/// The source sets of a model: every block below the top level with a `deps {}`
/// block.
pub open spec fn source_sets_of(model: Value) -> Result<Seq<(Seq<char>, Value)>, Seq<char>> {
    match model {
        Value::Block(map) => top_deps(map.entries@, map.entries@.len() as int),
        _ => Err("the module model is not a block (found "@ + kind_text(model) + ")"@),
    }
}

proof fn lemma_top_err(entries: Seq<(String, Value)>, m: int, n: int)
    requires
        0 <= m <= n,
        top_deps(entries, m) is Err,
    ensures
        top_deps(entries, n) == top_deps(entries, m),
    decreases n,
{
    if m < n {
        lemma_top_err(entries, m, n - 1);
    }
}

/// The source sets of a module: every block below the module level that
/// carries a `deps` key — `commonMain`, `jvmMain`, `androidMain`, or deeper
/// nesting such as `kmp.commonMain` — by its path. The module's own top-level
/// `deps {}` block is *not* included.
///
/// # Errors
///
/// Returns a description when the model is not a block, or a `deps` below it
/// is not one.
pub fn source_sets(model: &Value) -> (result: Result<Vec<(String, &Value)>, String>)
    ensures
        placed_result(result) == source_sets_of(*model),
{
    let map = match model {
        Value::Block(map) => map,
        _ => {
            return Err(
                "the module model is not a block (found ".to_owned().concat(
                    value_kind(model),
                ).concat(")"),
            );
        },
    };
    let mut blocks: Vec<(String, &Value)> = Vec::new();
    let mut i: usize = 0;
    assert(placed(blocks@) == Seq::<(Seq<char>, Value)>::empty());
    while i < map.entries.len()
        invariant
            *model == (Value::Block(*map)),
            i <= map.entries@.len(),
            top_deps(map.entries@, i as int) == Ok::<Seq<(Seq<char>, Value)>, Seq<char>>(
                placed(blocks@),
            ),
        decreases map.entries.len() - i,
    {
        match collect_source_set_deps(&map.entries[i].0, &map.entries[i].1) {
            Ok(found) => extend_placed(&mut blocks, found),
            Err(message) => {
                proof {
                    lemma_top_err(map.entries@, i + 1, map.entries@.len() as int);
                }
                return Err(message);
            },
        }
        i += 1;
    }
    Ok(blocks)
}

/// A scope paired with the module path it references (`":shared"`), as
/// extracted from a `deps {}` block.
pub type ProjectRefs = Vec<(MavenScope, String)>;

/// The blocks among the first `n` that refer to other modules, with what they
/// refer to.
pub open spec fn refs_in(blocks: Seq<(Seq<char>, Value)>, n: int) -> Seq<
    (Seq<char>, Seq<(MavenScope, Seq<char>)>),
>
    decreases n,
{
    if n <= 0 {
        Seq::empty()
    } else {
        let before = refs_in(blocks, n - 1);
        let refs = maven::project_refs(blocks[n - 1].1);
        if refs.len() == 0 {
            before
        } else {
            before.push((blocks[n - 1].0, refs))
        }
    }
}

/// The references of source sets as a specification value.
pub open spec fn set_refs(list: Seq<(String, ProjectRefs)>) -> Seq<
    (Seq<char>, Seq<(MavenScope, Seq<char>)>),
> {
    Seq::new(list.len(), |i: int| (list[i].0@, maven::scoped_refs(list[i].1@)))
}

/// The references of a model's source sets.
pub open spec fn source_set_refs(model: Value) -> Result<
    Seq<(Seq<char>, Seq<(MavenScope, Seq<char>)>)>,
    Seq<char>,
> {
    match source_sets_of(model) {
        Ok(blocks) => Ok(refs_in(blocks, blocks.len() as int)),
        Err(message) => Err(message),
    }
}

/// Collects the `project(":module")` references declared inside every
/// source-set `deps {}` block of the module model, keyed by the same dotted
/// paths [`source_sets`] uses. Extraction is separated
/// from resolution so a multi-module build can gather every module's
/// references first and resolve them only once each module's api classpath
/// is known — declaration order in settings.ulb then plays no role.
///
/// # Errors
///
/// Returns a description when the source sets are malformed.
pub fn collect_source_set_project_refs(model: &Value) -> (result: Result<
    Vec<(String, ProjectRefs)>,
    String,
>)
    ensures
        match source_set_refs(*model) {
            Ok(refs) => result matches Ok(list) && set_refs(list@) == refs,
            Err(message) => result matches Err(error) && error@ == message,
        },
{
    let blocks = match source_sets(model) {
        Ok(blocks) => blocks,
        Err(message) => return Err(message),
    };
    let ghost all = placed(blocks@);
    let mut refs: Vec<(String, ProjectRefs)> = Vec::new();
    let mut i: usize = 0;
    assert(set_refs(refs@) == refs_in(all, 0));
    while i < blocks.len()
        invariant
            all == placed(blocks@),
            i <= blocks@.len(),
            set_refs(refs@) == refs_in(all, i as int),
        decreases blocks.len() - i,
    {
        let found = maven::extract_project_deps(blocks[i].1);
        if found.len() > 0 {
            let ghost was = refs@;
            let entry = (blocks[i].0.clone(), found);
            let ghost shown = (entry.0@, maven::scoped_refs(entry.1@));
            refs.push(entry);
            assert(set_refs(refs@) == set_refs(was).push(shown));
        }
        i += 1;
    }
    Ok(refs)
}

/// Where a model refers to other modules: `deps`, and the `deps` of its source
/// sets.
pub open spec fn ref_places(model: Value, refs: Seq<(Seq<char>, Seq<(MavenScope, Seq<char>)>)>) -> Seq<
    Seq<char>,
> {
    let top = if member(model, "deps"@) matches Some(deps) && maven::project_refs(deps).len() > 0 {
        seq!["deps"@]
    } else {
        Seq::empty()
    };
    top + Seq::new(refs.len(), |i: int| refs[i].0 + ".deps"@)
}

/// Why a model cannot be built on its own, where it cannot: it is malformed,
/// or refers to other modules.
pub open spec fn ref_fault(model: Value) -> Option<Seq<char>> {
    match source_set_refs(model) {
        Err(message) => Some(message),
        Ok(refs) => {
            let places = ref_places(model, refs);
            if places.len() == 0 {
                None
            } else {
                Some(
                    "project() dependencies are only valid in a multi-module build with a settings.ulb declaring more than one module (found at "@
                        + text::join_text(places, ", "@) + ")"@,
                )
            }
        },
    }
}

/// Errors when the module model declares any `project(":…")` dependency,
/// at the top level or inside a nested source set. Only a multi-module
/// build can satisfy such references; a single-module build has no other
/// modules to resolve them against.
///
/// # Errors
///
/// Returns a description that names every place with such a dependency.
pub fn reject_project_refs(model: &Value) -> (result: Result<(), String>)
    ensures
        match ref_fault(*model) {
            None => result is Ok,
            Some(message) => result matches Err(error) && error@ == message,
        },
{
    let mut places: Vec<String> = Vec::new();
    let mut at_top = false;
    if let Some(deps) = get_member(model, "deps") {
        if maven::extract_project_deps(deps).len() > 0 {
            at_top = true;
        }
    }
    if at_top {
        places.push("deps".to_owned());
    }
    let ghost top = text::texts(places@);
    let refs = match collect_source_set_project_refs(model) {
        Ok(refs) => refs,
        Err(message) => return Err(message),
    };
    let ghost all = set_refs(refs@);
    let ghost rest = Seq::new(all.len(), |i: int| all[i].0 + ".deps"@);
    proof {
        assert(top + rest == ref_places(*model, all));
        assert(top == top + rest.take(0));
    }
    let mut i: usize = 0;
    while i < refs.len()
        invariant
            all == set_refs(refs@),
            rest == Seq::new(all.len(), |i: int| all[i].0 + ".deps"@),
            i <= refs@.len(),
            text::texts(places@) == top + rest.take(i as int),
        decreases refs.len() - i,
    {
        let ghost was = places@;
        let place = refs[i].0.clone().concat(".deps");
        places.push(place);
        proof {
            assert(all[i as int].0 == refs@[i as int].0@);
            assert(text::texts(places@) == text::texts(was).push(place@));
            assert(rest.take(i + 1) == rest.take(i as int).push(rest[i as int]));
            assert(top + rest.take(i + 1) == (top + rest.take(i as int)).push(rest[i as int]));
        }
        i += 1;
    }
    assert(rest.take(i as int) == rest);
    if places.len() == 0 {
        return Ok(());
    }
    Err(
        "project() dependencies are only valid in a multi-module build with a settings.ulb declaring more than one module (found at ".to_owned().concat(
            &text::join(&places, ", "),
        ).concat(")"),
    )
}

/// How the source sets of a model are resolved.
pub enum SetsState {
    /// The dependencies of the next source set have to be resolved.
    Resolve(Seq<Declared>),
    /// The classpath of each source set.
    Done(Seq<(Seq<char>, Paths)>),
    /// A source set is malformed or cannot be resolved.
    Failed(Seq<char>),
}

/// Classpaths, or why there are none, as a specification value.
pub open spec fn paths_results(list: Seq<Result<Classpath, String>>) -> Seq<
    Result<Paths, Seq<char>>,
> {
    Seq::new(
        list.len(),
        |i: int|
            match list[i] {
                Ok(classpath) => Ok(classpath@),
                Err(message) => Err(message@),
            },
    )
}

/// The classpaths of source sets as a specification value.
pub open spec fn set_paths(list: Seq<(String, Classpath)>) -> Seq<(Seq<char>, Paths)> {
    Seq::new(list.len(), |i: int| (list[i].0@, list[i].1@))
}

/// Resolves the first `n` source sets: each declares what its block does and
/// what Compose brings, and takes the next result. The first one that is
/// malformed, has no result yet or failed ends the walk.
pub open spec fn sets_after(
    blocks: Seq<(Seq<char>, Value)>,
    compose: Option<Seq<Declared>>,
    resolved: Seq<Result<Paths, Seq<char>>>,
    n: int,
) -> SetsState
    decreases n,
{
    if n <= 0 {
        SetsState::Done(Seq::empty())
    } else {
        match sets_after(blocks, compose, resolved, n - 1) {
            SetsState::Done(before) => match maven::deps_of(blocks[n - 1].1) {
                Err(message) => SetsState::Failed(message),
                Ok(declared) => if n > resolved.len() {
                    SetsState::Resolve(with_compose(declared, compose))
                } else {
                    match resolved[n - 1] {
                        Err(message) => SetsState::Failed(blocks[n - 1].0 + ": "@ + message),
                        Ok(paths) => SetsState::Done(before.push((blocks[n - 1].0, paths))),
                    }
                },
            },
            other => other,
        }
    }
}

/// Resolves the source sets of a model, given the results for the first of
/// them.
pub open spec fn sets_state(
    model: Value,
    shown: Option<Seq<char>>,
    resolved: Seq<Result<Paths, Seq<char>>>,
) -> SetsState {
    match model {
        Value::Block(_) => match compose_of(model, shown) {
            Err(message) => SetsState::Failed(message),
            Ok(compose) => match source_sets_of(model) {
                Err(message) => SetsState::Failed(message),
                Ok(blocks) => sets_after(blocks, compose, resolved, blocks.len() as int),
            },
        },
        _ => SetsState::Failed(
            "the module model is not a block (found "@ + kind_text(model) + ")"@,
        ),
    }
}

/// How the source sets of a model are resolved.
#[derive(Debug, PartialEq, Eq)]
pub enum SourceSetStep {
    /// The dependencies of the next source set have to be resolved.
    Resolve(Vec<DeclaredDep>),
    /// The classpath of each source set.
    Done(Vec<(String, Classpath)>),
    /// A source set is malformed or cannot be resolved.
    Failed(String),
}

impl View for SourceSetStep {
    type V = SetsState;

    open spec fn view(&self) -> SetsState {
        match *self {
            SourceSetStep::Resolve(declared) => SetsState::Resolve(
                maven::declared_deps(declared@),
            ),
            SourceSetStep::Done(list) => SetsState::Done(set_paths(list@)),
            SourceSetStep::Failed(message) => SetsState::Failed(message@),
        }
    }
}

proof fn lemma_sets_stay(
    blocks: Seq<(Seq<char>, Value)>,
    compose: Option<Seq<Declared>>,
    resolved: Seq<Result<Paths, Seq<char>>>,
    m: int,
    n: int,
)
    requires
        0 <= m <= n,
        !(sets_after(blocks, compose, resolved, m) is Done),
    ensures
        sets_after(blocks, compose, resolved, n) == sets_after(blocks, compose, resolved, m),
    decreases n,
{
    if m < n {
        lemma_sets_stay(blocks, compose, resolved, m, n - 1);
    }
}

/// Resolves every source-set `deps {}` block in the module model into its
/// own classpath (see [`source_sets`]), given the results `resolved` for the
/// first of them; what is missing is asked for. When
/// `android.compose = true`, compose BOM and runtime/UI/Material 3 deps
/// are injected into every source-set classpath so the compose-managed
/// libraries are available to all targets without repeating the BOM
/// declaration in each source set.
pub fn resolve_source_set_classpaths(
    model: &Value,
    shown: &Option<String>,
    resolved: &Vec<Result<Classpath, String>>,
) -> (step: SourceSetStep)
    ensures
        step@ == sets_state(*model, text::opt_text(*shown), paths_results(resolved@)),
{
    let is_block = match model {
        Value::Block(_) => true,
        _ => false,
    };
    if !is_block {
        return SourceSetStep::Failed(
            "the module model is not a block (found ".to_owned().concat(
                value_kind(model),
            ).concat(")"),
        );
    }
    let compose = match compose_deps(model, shown) {
        Ok(compose) => compose,
        Err(message) => return SourceSetStep::Failed(message),
    };
    let blocks = match source_sets(model) {
        Ok(blocks) => blocks,
        Err(message) => return SourceSetStep::Failed(message),
    };
    let ghost all = placed(blocks@);
    let ghost extra = compose_result(Ok(compose))->Ok_0;
    let ghost results = paths_results(resolved@);
    let ghost end = all.len() as int;
    let mut done: Vec<(String, Classpath)> = Vec::new();
    let mut i: usize = 0;
    assert(set_paths(done@) == Seq::<(Seq<char>, Paths)>::empty());
    while i < blocks.len()
        invariant
            all == placed(blocks@),
            end == all.len(),
            extra == compose_result(Ok(compose))->Ok_0,
            results == paths_results(resolved@),
            sets_state(*model, text::opt_text(*shown), results) == sets_after(
                all,
                extra,
                results,
                end,
            ),
            i <= blocks@.len(),
            sets_after(all, extra, results, i as int) == SetsState::Done(set_paths(done@)),
        decreases blocks.len() - i,
    {
        proof {
            if !(sets_after(all, extra, results, i + 1) is Done) {
                lemma_sets_stay(all, extra, results, i + 1, end);
            }
            assert(all[i as int] == (blocks@[i as int].0@, *blocks@[i as int].1));
        }
        let mut declared = match maven::parse_deps_block(blocks[i].1) {
            Ok(declared) => declared,
            Err(message) => return SourceSetStep::Failed(message),
        };
        if i >= resolved.len() {
            if let Some(compose) = &compose {
                extend_declared(&mut declared, compose);
            }
            return SourceSetStep::Resolve(declared);
        }
        match &resolved[i] {
            Ok(classpath) => {
                let ghost was = done@;
                let entry = (blocks[i].0.clone(), classpath.clone());
                let ghost shown_entry = (entry.0@, entry.1@);
                done.push(entry);
                assert(results[i as int] == Ok::<Paths, Seq<char>>(classpath@));
                assert(set_paths(done@) == set_paths(was).push(shown_entry));
            },
            Err(message) => {
                assert(results[i as int] == Err::<Paths, Seq<char>>(message@));
                return SourceSetStep::Failed(
                    blocks[i].0.clone().concat(": ").concat(message),
                );
            },
        }
        i += 1;
    }
    SourceSetStep::Done(done)
}

proof fn lemma_nested_blocks(path: Seq<char>, value: Value)
    ensures
        nested_deps(path, value) matches Ok(list) ==> forall|i: int|
            0 <= i < list.len() ==> (#[trigger] list[i]).1 is Block,
    decreases value, 0int,
{
    if let Value::Block(map) = value {
        lemma_child_blocks(path, map.entries@, map.entries@.len() as int);
    }
}

proof fn lemma_child_blocks(path: Seq<char>, entries: Seq<(String, Value)>, n: int)
    ensures
        child_deps(path, entries, n) matches Ok(list) ==> forall|i: int|
            0 <= i < list.len() ==> (#[trigger] list[i]).1 is Block,
    decreases entries, n,
{
    if 0 < n <= entries.len() {
        lemma_child_blocks(path, entries, n - 1);
        if !(entries[n - 1].0@ == "deps"@) && entries[n - 1].1 is Block {
            lemma_nested_blocks(path + "."@ + entries[n - 1].0@, entries[n - 1].1);
        }
    }
}

proof fn lemma_top_blocks(entries: Seq<(String, Value)>, n: int)
    ensures
        top_deps(entries, n) matches Ok(list) ==> forall|i: int|
            0 <= i < list.len() ==> (#[trigger] list[i]).1 is Block,
    decreases n,
{
    if n > 0 {
        lemma_top_blocks(entries, n - 1);
        lemma_nested_blocks(entries[n - 1].0@, entries[n - 1].1);
    }
}

/// What is collected as the dependencies of a source set is always a block.
pub proof fn law_source_sets_have_blocks(model: Value)
    ensures
        source_sets_of(model) matches Ok(list) ==> forall|i: int|
            0 <= i < list.len() ==> (#[trigger] list[i]).1 is Block,
{
    if let Value::Block(map) = model {
        lemma_top_blocks(map.entries@, map.entries@.len() as int);
    }
}

proof fn lemma_refs_empty(blocks: Seq<(Seq<char>, Value)>, n: int)
    requires
        0 <= n <= blocks.len(),
    ensures
        refs_in(blocks, n).len() == 0 <==> forall|i: int|
            0 <= i < n ==> maven::project_refs((#[trigger] blocks[i]).1).len() == 0,
    decreases n,
{
    if n > 0 {
        lemma_refs_empty(blocks, n - 1);
        assert(blocks[n - 1].1 == blocks[n - 1].1);
    }
}

/// A model passes as a module of its own exactly when neither its `deps {}`
/// block nor one of a source set refers to another module.
pub proof fn law_only_own_modules_pass(model: Value, blocks: Seq<(Seq<char>, Value)>)
    requires
        source_sets_of(model) == Ok::<Seq<(Seq<char>, Value)>, Seq<char>>(blocks),
    ensures
        ref_fault(model) is None <==> {
            &&& member(model, "deps"@) matches Some(deps) ==> maven::project_refs(deps).len() == 0
            &&& forall|i: int|
                0 <= i < blocks.len() ==> maven::project_refs((#[trigger] blocks[i]).1).len() == 0
        },
{
    lemma_refs_empty(blocks, blocks.len() as int);
}

proof fn lemma_asked_with_compose(
    blocks: Seq<(Seq<char>, Value)>,
    compose: Seq<Declared>,
    resolved: Seq<Result<Paths, Seq<char>>>,
    n: int,
)
    ensures
        sets_after(blocks, Some(compose), resolved, n) matches SetsState::Resolve(declared)
            ==> compose.is_suffix_of(declared),
    decreases n,
{
    if n > 0 {
        lemma_asked_with_compose(blocks, compose, resolved, n - 1);
        if let SetsState::Resolve(declared) = sets_after(blocks, Some(compose), resolved, n) {
            if sets_after(blocks, Some(compose), resolved, n - 1) is Done {
                let own = maven::deps_of(blocks[n - 1].1)->Ok_0;
                assert(declared == own + compose);
                assert(compose == declared.subrange(
                    declared.len() - compose.len(),
                    declared.len() as int,
                ));
            }
        }
    }
}

/// With Compose on, the BOM and its artifacts are resolved for every source
/// set.
pub proof fn law_compose_reaches_source_sets(
    model: Value,
    shown: Option<Seq<char>>,
    resolved: Seq<Result<Paths, Seq<char>>>,
    compose: Seq<Declared>,
)
    requires
        compose_of(model, shown) == Ok::<Option<Seq<Declared>>, Seq<char>>(Some(compose)),
    ensures
        sets_state(model, shown, resolved) matches SetsState::Resolve(declared)
            ==> compose.is_suffix_of(declared),
{
    if let Ok(blocks) = source_sets_of(model) {
        lemma_asked_with_compose(blocks, compose, resolved, blocks.len() as int);
    }
}

} // verus!
