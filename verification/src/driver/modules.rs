//! Preparing the modules of a build: resolving what each declares, and linking
//! them with each other.

use vstd::prelude::*;
use crate::driver::classpath;
use crate::driver::classpath::Offers;
use crate::driver::config;
use crate::driver::config::Additions;
use crate::driver::deps;
use crate::driver::deps::{ProjectRefs, SetsState, SourceSetStep};
use crate::driver::model;
use crate::json::Json;
use crate::maven;
use crate::maven::{Classpath, Declared, DeclaredDep, MavenScope, Paths};
use crate::text;
use crate::text_map::TextMap;
use crate::value::Value;

verus! {

/// A module whose dependencies are resolved.
#[derive(Debug, PartialEq, Eq)]
pub struct PreparedModule {
    /// The members of its model, as JSON.
    pub members: TextMap<Json>,
    /// Its classpath.
    pub classpath: Classpath,
    /// The classpaths of its source sets, by path.
    pub source_sets: Vec<(String, Classpath)>,
    /// The modules its `deps {}` block refers to.
    pub top_level_refs: ProjectRefs,
    /// The modules its source sets refer to, by path.
    pub source_set_refs: Vec<(String, ProjectRefs)>,
}

/// What a [`PreparedModule`] holds besides its model.
pub struct Prepared {
    /// Its classpath.
    pub classpath: Paths,
    /// The classpaths of its source sets.
    pub sets: Seq<(Seq<char>, Paths)>,
    /// The modules its `deps {}` block refers to.
    pub refs: Seq<(MavenScope, Seq<char>)>,
    /// The modules its source sets refer to.
    pub set_refs: Seq<(Seq<char>, Seq<(MavenScope, Seq<char>)>)>,
}

impl View for PreparedModule {
    type V = Prepared;

    open spec fn view(&self) -> Prepared {
        Prepared {
            classpath: self.classpath@,
            sets: deps::set_paths(self.source_sets@),
            refs: maven::scoped_refs(self.top_level_refs@),
            set_refs: deps::set_refs(self.source_set_refs@),
        }
    }
}

/// What preparing a module needs next, or how it ended.
#[derive(Debug, PartialEq, Eq)]
pub enum Preparation {
    /// The dependencies of its `deps {}` block have to be resolved.
    ResolveOwn(Vec<DeclaredDep>),
    /// The dependencies of its next source set have to be resolved.
    ResolveSet(Vec<DeclaredDep>),
    /// The module is prepared.
    Ready(PreparedModule),
    /// The module is malformed or cannot be resolved.
    Failed(String),
}

/// How the `deps {}` block of a module is resolved.
pub enum OwnState {
    /// These dependencies have to be resolved.
    Resolve(Seq<Declared>),
    /// The classpath is known.
    Known(Paths),
    /// The block is malformed or cannot be resolved.
    Failed(Seq<char>),
}

/// A classpath that may not be known yet, as a specification value.
pub open spec fn own_result(own: Option<Result<Classpath, String>>) -> Option<
    Result<Paths, Seq<char>>,
> {
    match own {
        Some(Ok(classpath)) => Some(Ok(classpath@)),
        Some(Err(message)) => Some(Err(message@)),
        None => None,
    }
}

/// Resolves the `deps {}` block of a model; a model without one has an empty
/// classpath.
pub open spec fn own_state(
    model: Value,
    shown: Option<Seq<char>>,
    own: Option<Result<Paths, Seq<char>>>,
) -> OwnState {
    match deps::wants_deps(model, shown) {
        Err(message) => OwnState::Failed(message),
        Ok(false) => OwnState::Known(maven::no_paths()),
        Ok(true) => match deps::model_deps_of(model, shown) {
            Err(message) => OwnState::Failed(message),
            Ok(declared) => match own {
                None => OwnState::Resolve(declared),
                Some(Ok(paths)) => OwnState::Known(paths),
                Some(Err(message)) => OwnState::Failed(message),
            },
        },
    }
}

/// Why a module is refused before anything is resolved: it stands alone and
/// refers to other modules, or its model is not a block.
pub open spec fn refusal(dir: Seq<char>, model: Value, alone: bool) -> Option<Seq<char>> {
    if alone {
        deps::ref_fault(model)
    } else if model is Block {
        None
    } else {
        Some(
            "the module model of "@ + dir + "/build.ulb is not a block (found "@
                + deps::kind_text(model) + ")"@,
        )
    }
}

/// The modules that the `deps {}` block of a model refers to.
pub open spec fn top_refs(model: Value) -> Seq<(MavenScope, Seq<char>)> {
    match deps::member(model, "deps"@) {
        Some(block) => maven::project_refs(block),
        None => Seq::empty(),
    }
}

/// What a module amounts to once its classpaths are known.
pub open spec fn prepared_of(model: Value, own: Paths, sets: Seq<(Seq<char>, Paths)>) -> Prepared {
    Prepared {
        classpath: Paths {
            api: classpath::api_of(own.api, sets, sets.len() as int),
            ..own
        },
        sets,
        refs: top_refs(model),
        set_refs: deps::source_set_refs(model)->Ok_0,
    }
}

/// What preparing a module needs next, or how it ended.
pub enum PrepState {
    /// These dependencies of its `deps {}` block have to be resolved.
    ResolveOwn(Seq<Declared>),
    /// These dependencies of its next source set have to be resolved.
    ResolveSet(Seq<Declared>),
    /// The module is prepared.
    Ready(Prepared),
    /// The module is malformed or cannot be resolved.
    Failed(Seq<char>),
}

impl View for Preparation {
    type V = PrepState;

    open spec fn view(&self) -> PrepState {
        match *self {
            Preparation::ResolveOwn(list) => PrepState::ResolveOwn(maven::declared_deps(list@)),
            Preparation::ResolveSet(list) => PrepState::ResolveSet(maven::declared_deps(list@)),
            Preparation::Ready(module) => PrepState::Ready(module@),
            Preparation::Failed(message) => PrepState::Failed(message@),
        }
    }
}

/// What preparing a module needs next: its model has to be fit for JSON and
/// not refused, then its `deps {}` block is resolved, then its source sets.
pub open spec fn prep_state(
    dir: Seq<char>,
    model: Value,
    shown: Option<Seq<char>>,
    alone: bool,
    own: Option<Result<Paths, Seq<char>>>,
    sets: Seq<Result<Paths, Seq<char>>>,
) -> PrepState {
    match model::fault_of(model) {
        Some(message) => PrepState::Failed(message),
        None => match refusal(dir, model, alone) {
            Some(message) => PrepState::Failed(message),
            None => match own_state(model, shown, own) {
                OwnState::Failed(message) => PrepState::Failed(message),
                OwnState::Resolve(declared) => PrepState::ResolveOwn(declared),
                OwnState::Known(paths) => match deps::sets_state(model, shown, sets) {
                    SetsState::Failed(message) => PrepState::Failed(message),
                    SetsState::Resolve(declared) => PrepState::ResolveSet(declared),
                    SetsState::Done(resolved) => PrepState::Ready(
                        prepared_of(model, paths, resolved),
                    ),
                },
            },
        },
    }
}

/// Prepares a module as far as what is known allows: serializes its model,
/// refuses it where it cannot be built, and resolves its dependencies —
/// top-level and per source set. `own` is the result for its `deps {}` block,
/// `sets` are those for its first source sets. A module that stands `alone`
/// must not refer to others.
pub fn prepare_module(
    dir: &str,
    model: &Value,
    shown: &Option<String>,
    alone: bool,
    own: &Option<Result<Classpath, String>>,
    sets: &Vec<Result<Classpath, String>>,
) -> (preparation: Preparation)
    ensures
        preparation@ == prep_state(
            dir@,
            *model,
            text::opt_text(*shown),
            alone,
            own_result(*own),
            deps::paths_results(sets@),
        ),
        preparation matches Preparation::Ready(module) ==> model::is_json(
            Json::Object(module.members),
            *model,
        ),
{
    let document = match model::module_model_to_json(model) {
        Ok(document) => document,
        Err(message) => return Preparation::Failed(message),
    };
    if alone {
        if let Err(message) = deps::reject_project_refs(model) {
            return Preparation::Failed(message);
        }
    }
    let members = match document {
        Json::Object(members) => members,
        _ => {
            return Preparation::Failed(
                "the module model of ".to_owned().concat(dir).concat(
                    "/build.ulb is not a block (found ",
                ).concat(deps::value_kind(model)).concat(")"),
            );
        },
    };
    let is_block = match model {
        Value::Block(_) => true,
        _ => false,
    };
    if !is_block {
        return Preparation::Failed(
            "the module model of ".to_owned().concat(dir).concat(
                "/build.ulb is not a block (found ",
            ).concat(deps::value_kind(model)).concat(")"),
        );
    }
    let wanted = match deps::has_deps(model, shown) {
        Ok(wanted) => wanted,
        Err(message) => return Preparation::Failed(message),
    };
    let mut classpath = Classpath::default();
    if wanted {
        let declared = match deps::model_deps(model, shown) {
            Ok(declared) => declared,
            Err(message) => return Preparation::Failed(message),
        };
        match own {
            None => return Preparation::ResolveOwn(declared),
            Some(Ok(known)) => {
                classpath = known.clone();
            },
            Some(Err(message)) => return Preparation::Failed(message.clone()),
        }
    }
    let ghost paths = classpath@;
    let source_sets = match deps::resolve_source_set_classpaths(model, shown, sets) {
        SourceSetStep::Resolve(declared) => return Preparation::ResolveSet(declared),
        SourceSetStep::Failed(message) => return Preparation::Failed(message),
        SourceSetStep::Done(source_sets) => source_sets,
    };
    classpath::merge_api(&mut classpath, &source_sets);
    let top_level_refs = match deps::get_member(model, "deps") {
        Some(block) => maven::extract_project_deps(block),
        None => {
            let none: ProjectRefs = Vec::new();
            assert(maven::scoped_refs(none@) == Seq::<(MavenScope, Seq<char>)>::empty());
            none
        },
    };
    let source_set_refs = match deps::collect_source_set_project_refs(model) {
        Ok(refs) => refs,
        Err(message) => return Preparation::Failed(message),
    };
    let module = PreparedModule {
        members,
        classpath,
        source_sets,
        top_level_refs,
        source_set_refs,
    };
    assert(module@ == prepared_of(*model, paths, deps::set_paths(source_sets@)));
    Preparation::Ready(module)
}

/// The warnings about the references of the first `n` source sets.
pub open spec fn set_warnings(
    refs: Seq<(Seq<char>, Seq<(MavenScope, Seq<char>)>)>,
    modules: Seq<Seq<char>>,
    outputs: Map<Seq<char>, Seq<char>>,
    n: int,
) -> Seq<Seq<char>>
    decreases n,
{
    if n <= 0 {
        Seq::empty()
    } else {
        set_warnings(refs, modules, outputs, n - 1) + classpath::skip_warnings(
            refs[n - 1].1,
            modules,
            outputs,
            0,
        )
    }
}

/// The warnings about the references of a module: those of its `deps {}`
/// block, then those of its source sets.
pub open spec fn warnings_of(
    module: Prepared,
    modules: Seq<Seq<char>>,
    outputs: Map<Seq<char>, Seq<char>>,
) -> Seq<Seq<char>> {
    classpath::skip_warnings(module.refs, modules, outputs, 0) + set_warnings(
        module.set_refs,
        modules,
        outputs,
        module.set_refs.len() as int,
    )
}

/// The warnings to give when a module is linked with those it refers to.
pub fn link_warnings(
    module: &PreparedModule,
    module_outputs: &TextMap<String>,
    settings_modules: &Vec<String>,
) -> (warnings: Vec<String>)
    ensures
        text::texts(warnings@) == warnings_of(
            module@,
            text::texts(settings_modules@),
            classpath::output_map(module_outputs@),
        ),
{
    let ghost refs = deps::set_refs(module.source_set_refs@);
    let ghost modules = text::texts(settings_modules@);
    let ghost outputs = classpath::output_map(module_outputs@);
    let mut warnings = classpath::skipped_refs(
        &module.top_level_refs,
        module_outputs,
        settings_modules,
    );
    let ghost own = text::texts(warnings@);
    let mut i: usize = 0;
    assert(own + set_warnings(refs, modules, outputs, 0) == own);
    while i < module.source_set_refs.len()
        invariant
            refs == deps::set_refs(module.source_set_refs@),
            modules == text::texts(settings_modules@),
            outputs == classpath::output_map(module_outputs@),
            i <= module.source_set_refs@.len(),
            text::texts(warnings@) == own + set_warnings(refs, modules, outputs, i as int),
        decreases module.source_set_refs.len() - i,
    {
        let more = classpath::skipped_refs(
            &module.source_set_refs[i].1,
            module_outputs,
            settings_modules,
        );
        let ghost so_far = set_warnings(refs, modules, outputs, i as int);
        text::extend_texts(&mut warnings, &more);
        assert(own + so_far + text::texts(more@) == own + (so_far + text::texts(more@)));
        i += 1;
    }
    warnings
}

/// The position of the first source set with a path, from `from` on.
pub open spec fn set_at(sets: Seq<(Seq<char>, Paths)>, path: Seq<char>, from: int) -> int
    decreases sets.len() - from,
{
    if from >= sets.len() || sets[from].0 == path {
        from
    } else {
        set_at(sets, path, from + 1)
    }
}

/// The source sets with the modules added that the first `n` of them refer to.
pub open spec fn linked_sets(
    sets: Seq<(Seq<char>, Paths)>,
    refs: Seq<(Seq<char>, Seq<(MavenScope, Seq<char>)>)>,
    offers: Offers,
    n: int,
) -> Result<Seq<(Seq<char>, Paths)>, Seq<char>>
    decreases n,
{
    if n <= 0 {
        Ok(sets)
    } else {
        match linked_sets(sets, refs, offers, n - 1) {
            Err(message) => Err(message),
            Ok(before) => match classpath::refs_paths(
                refs[n - 1].1,
                offers,
                refs[n - 1].1.len() as int,
            ) {
                Err(message) => Err(refs[n - 1].0 + ": "@ + message),
                Ok(fragment) => {
                    let at = set_at(before, refs[n - 1].0, 0);
                    if at < before.len() {
                        Ok(
                            before.update(
                                at,
                                (before[at].0, classpath::joined(before[at].1, fragment)),
                            ),
                        )
                    } else {
                        Ok(before)
                    }
                },
            },
        }
    }
}

/// A module with what it refers to in other modules added.
pub open spec fn linked(module: Prepared, offers: Offers) -> Result<Prepared, Seq<char>> {
    match classpath::refs_paths(module.refs, offers, module.refs.len() as int) {
        Err(message) => Err(message),
        Ok(fragment) => match linked_sets(
            module.sets,
            module.set_refs,
            offers,
            module.set_refs.len() as int,
        ) {
            Err(message) => Err(message),
            Ok(sets) => Ok(
                Prepared {
                    classpath: classpath::joined(module.classpath, fragment),
                    sets,
                    ..module
                },
            ),
        },
    }
}

proof fn lemma_linked_err(
    sets: Seq<(Seq<char>, Paths)>,
    refs: Seq<(Seq<char>, Seq<(MavenScope, Seq<char>)>)>,
    offers: Offers,
    m: int,
    n: int,
)
    requires
        0 <= m <= n,
        linked_sets(sets, refs, offers, m) is Err,
    ensures
        linked_sets(sets, refs, offers, n) == linked_sets(sets, refs, offers, m),
    decreases n,
{
    if m < n {
        lemma_linked_err(sets, refs, offers, m, n - 1);
    }
}

fn find_set(sets: &Vec<(String, Classpath)>, path: &str) -> (at: usize)
    ensures
        at == set_at(deps::set_paths(sets@), path@, 0),
        at <= sets@.len(),
{
    let ghost all = deps::set_paths(sets@);
    let mut i: usize = 0;
    while i < sets.len()
        invariant
            all == deps::set_paths(sets@),
            i <= sets@.len(),
            set_at(all, path@, 0) == set_at(all, path@, i as int),
        decreases sets.len() - i,
    {
        assert(all[i as int].0 == sets@[i as int].0@);
        if text::str_eq(&sets[i].0, path) {
            return i;
        }
        i += 1;
    }
    i
}

/// Resolves the references of a module to others: adds what they offer to its
/// classpath and to those of its source sets. References are only resolved
/// when every module's api classpath is known, so declaration order in
/// settings.ulb never matters: a consumer listed before its dependency still
/// sees the dependency's api jars.
///
/// # Errors
///
/// Returns a description when a module that is referred to is not declared or
/// has no discoverable output.
pub fn link_module(
    module: PreparedModule,
    module_outputs: &TextMap<String>,
    module_api_classpaths: &TextMap<Vec<String>>,
    settings_modules: &Vec<String>,
) -> (result: Result<PreparedModule, String>)
    ensures
        match linked(
            module@,
            (Offers {
                modules: text::texts(settings_modules@),
                outputs: classpath::output_map(module_outputs@),
                apis: classpath::api_map(module_api_classpaths@),
            }),
        ) {
            Ok(after) => result matches Ok(changed) && changed@ == after && changed.members
                == module.members,
            Err(message) => result matches Err(error) && error@ == message,
        },
{
    let ghost offers = Offers {
        modules: text::texts(settings_modules@),
        outputs: classpath::output_map(module_outputs@),
        apis: classpath::api_map(module_api_classpaths@),
    };
    let ghost before = module@;
    let mut linking = module;
    let fragment = match classpath::resolve_project_classpath(
        &linking.top_level_refs,
        module_outputs,
        module_api_classpaths,
        settings_modules,
    ) {
        Ok(fragment) => fragment,
        Err(message) => return Err(message),
    };
    classpath::join_classpath(&mut linking.classpath, &fragment);
    let ghost middle = linking@;
    let ghost members = module.members;
    let ghost end = before.set_refs.len() as int;
    let mut i: usize = 0;
    while i < linking.source_set_refs.len()
        invariant
            offers == (Offers {
                modules: text::texts(settings_modules@),
                outputs: classpath::output_map(module_outputs@),
                apis: classpath::api_map(module_api_classpaths@),
            }),
            before == module@,
            members == module.members,
            classpath::refs_paths(before.refs, offers, before.refs.len() as int) is Ok,
            middle.set_refs == before.set_refs,
            end == before.set_refs.len(),
            linking.source_set_refs@.len() == end,
            i <= end,
            linking.members == members,
            linking@ == (Prepared { sets: linking@.sets, ..middle }),
            linked_sets(before.sets, before.set_refs, offers, i as int) == Ok::<
                Seq<(Seq<char>, Paths)>,
                Seq<char>,
            >(linking@.sets),
        decreases linking.source_set_refs.len() - i,
    {
        let ghost was = linking@.sets;
        assert(linking@.set_refs[i as int] == (
            linking.source_set_refs@[i as int].0@,
            maven::scoped_refs(linking.source_set_refs@[i as int].1@),
        ));
        let fragment = match classpath::resolve_project_classpath(
            &linking.source_set_refs[i].1,
            module_outputs,
            module_api_classpaths,
            settings_modules,
        ) {
            Ok(fragment) => fragment,
            Err(message) => {
                proof {
                    lemma_linked_err(before.sets, before.set_refs, offers, i + 1, end);
                }
                return Err(linking.source_set_refs[i].0.clone().concat(": ").concat(&message));
            },
        };
        let at = find_set(&linking.source_sets, &linking.source_set_refs[i].0);
        if at < linking.source_sets.len() {
            let ghost list = linking.source_sets@;
            classpath::join_classpath(&mut linking.source_sets[at].1, &fragment);
            assert(deps::set_paths(linking.source_sets@) == was.update(
                at as int,
                (was[at as int].0, classpath::joined(was[at as int].1, fragment@)),
            ));
        }
        i += 1;
    }
    Ok(linking)
}

proof fn lemma_model_members(members: TextMap<Json>, model: Value)
    requires
        model::is_json(Json::Object(members), model),
        model matches Value::Block(map) && map.wf(),
    ensures
        members.wf(),
{
    if let Value::Block(map) = model {
        assert forall|i: int, j: int|
            0 <= i < j < members.entries@.len() implies text::compare_text(
            (#[trigger] members.entries@[i]).0@,
            (#[trigger] members.entries@[j]).0@,
        ) == text::Relation::Less by {
            assert(map.entries@[i].0@ == members.entries@[i].0@);
            assert(map.entries@[j].0@ == members.entries@[j].0@);
        }
    }
}

/// The members that a module's model has as JSON are ordered as the model's
/// own, so that a configuration can be made of them.
pub proof fn law_prepared_members_are_ordered(module: PreparedModule, model: Value)
    requires
        model::is_json(Json::Object(module.members), model),
        model matches Value::Block(map) && map.wf(),
    ensures
        module.members.wf(),
{
    lemma_model_members(module.members, model);
}

/// The configuration of a prepared module, from what the module holds and what
/// the host knows.
pub fn module_config(
    prepared: PreparedModule,
    dir: &str,
    module: Option<&str>,
    sdk_root: Option<&str>,
) -> (config: TextMap<Json>)
    requires
        prepared.members.wf(),
    ensures
        config::is_config(
            config,
            prepared.members@,
            (Additions {
                classpath: prepared@.classpath,
                sets: prepared@.sets,
                dir: dir@,
                module: text::opt_str(module),
                sdk: text::opt_str(sdk_root),
            }),
        ),
{
    config::plugin_config(
        prepared.members,
        &prepared.classpath,
        &prepared.source_sets,
        dir,
        module,
        sdk_root,
    )
}

proof fn lemma_joined_nothing(paths: Paths)
    ensures
        classpath::joined(paths, maven::no_paths()) == paths,
{
    let same = classpath::joined(paths, maven::no_paths());
    assert(same.compile == paths.compile);
    assert(same.runtime == paths.runtime);
    assert(same.test_compile == paths.test_compile);
    assert(same.test_runtime == paths.test_runtime);
}

/// Linking leaves a module as it is that refers to no other.
pub proof fn law_independent_module_is_unchanged(module: Prepared, offers: Offers)
    requires
        module.refs.len() == 0,
        module.set_refs.len() == 0,
    ensures
        linked(module, offers) == Ok::<Prepared, Seq<char>>(module),
{
    lemma_joined_nothing(module.classpath);
}

/// A module that is prepared to stand alone refers to no other.
pub proof fn law_standing_alone_is_independent(model: Value, own: Paths, sets: Seq<(Seq<char>, Paths)>)
    requires
        deps::ref_fault(model) is None,
    ensures
        prepared_of(model, own, sets).refs.len() == 0,
        prepared_of(model, own, sets).set_refs.len() == 0,
{
}

proof fn lemma_same_set(
    a: Seq<(Seq<char>, Paths)>,
    b: Seq<(Seq<char>, Paths)>,
    name: Seq<char>,
    from: int,
)
    requires
        a.len() == b.len(),
        0 <= from,
        forall|k: int| 0 <= k < a.len() ==> (#[trigger] a[k]).0 == b[k].0,
    ensures
        set_at(a, name, from) == set_at(b, name, from),
    decreases a.len() - from,
{
    if from < a.len() {
        assert(a[from].0 == b[from].0);
        lemma_same_set(a, b, name, from + 1);
    }
}

proof fn lemma_set_in_range(sets: Seq<(Seq<char>, Paths)>, name: Seq<char>, from: int)
    requires
        0 <= from,
    ensures
        from <= set_at(sets, name, from) || sets.len() <= set_at(sets, name, from),
    decreases sets.len() - from,
{
    if from < sets.len() {
        lemma_set_in_range(sets, name, from + 1);
    }
}

proof fn lemma_sets_keep(
    sets: Seq<(Seq<char>, Paths)>,
    refs: Seq<(Seq<char>, Seq<(MavenScope, Seq<char>)>)>,
    offers: Offers,
    n: int,
)
    requires
        linked_sets(sets, refs, offers, n) is Ok,
    ensures
        ({
            let after = linked_sets(sets, refs, offers, n)->Ok_0;
            &&& after.len() == sets.len()
            &&& forall|k: int| 0 <= k < sets.len() ==> (#[trigger] sets[k]).0 == after[k].0
        }),
    decreases n,
{
    if n > 0 {
        lemma_sets_keep(sets, refs, offers, n - 1);
        let before = linked_sets(sets, refs, offers, n - 1)->Ok_0;
        lemma_set_in_range(before, refs[n - 1].0, 0);
    }
}

/// What the references of a source set bring is among its jars once the module
/// is linked.
pub proof fn law_source_set_references_bring_jars(
    sets: Seq<(Seq<char>, Paths)>,
    refs: Seq<(Seq<char>, Seq<(MavenScope, Seq<char>)>)>,
    offers: Offers,
    n: int,
    s: int,
    r: int,
    jar: Seq<char>,
)
    requires
        0 <= s < n <= refs.len(),
        linked_sets(sets, refs, offers, n) is Ok,
        classpath::is_brought(refs[s].1, offers, r, jar),
        set_at(sets, refs[s].0, 0) < sets.len(),
    ensures
        classpath::reaches(
            linked_sets(sets, refs, offers, n)->Ok_0[set_at(sets, refs[s].0, 0)].1,
            jar,
        ),
    decreases n,
{
    let own = set_at(sets, refs[s].0, 0);
    let before = linked_sets(sets, refs, offers, n - 1)->Ok_0;
    let name = refs[n - 1].0;
    let at = set_at(before, name, 0);
    let list = refs[n - 1].1;
    let fragment = classpath::refs_paths(list, offers, list.len() as int)->Ok_0;
    lemma_sets_keep(sets, refs, offers, n - 1);
    lemma_same_set(sets, before, name, 0);
    lemma_set_in_range(sets, name, 0);
    lemma_set_in_range(sets, refs[s].0, 0);
    if s == n - 1 {
        classpath::law_references_bring_jars(list, offers, list.len() as int, r, jar);
        classpath::law_joining_keeps_jars(before[at].1, fragment, jar);
    } else {
        law_source_set_references_bring_jars(sets, refs, offers, n - 1, s, r, jar);
        if at == own {
            classpath::law_joining_keeps_jars(before[at].1, fragment, jar);
        }
    }
}

} // verus!
