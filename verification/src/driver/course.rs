//! The course of a build.

use vstd::prelude::*;
use crate::digest;
use crate::driver::classpath;
use crate::driver::classpath::Offers;
use crate::driver::config;
use crate::driver::config::Additions;
use crate::driver::deps;
use crate::driver::deps::SourceSetStep;
use crate::driver::model;
use crate::driver::modules;
use crate::driver::modules::{PrepState, Preparation, Prepared, PreparedModule};
use crate::driver::plugins;
use crate::driver::plugins::{BuildPlan, Configured, Plan};
use crate::json;
use crate::json::Json;
use crate::maven;
use crate::maven::{Classpath, Declared, DeclaredDep, Paths};
use crate::project;
use crate::registry::PluginSpec;
use crate::task::fingerprint;
use crate::task::{FingerprintContext, TaskGraph};
use crate::text;
use crate::text_map::TextMap;
use crate::value::Value;

verus! {

/// What evaluating the sources of a module gave.
#[derive(Debug, PartialEq, Eq)]
pub enum Evaluation {
    /// The directory of the module does not exist.
    NoDirectory,
    /// A source file cannot be read.
    Unreadable(String),
    /// Evaluating reported problems.
    Faulty(Vec<String>),
    /// The module model, and how `android.composeVersion` is shown where it
    /// has a value that can be.
    Model {
        /// The model.
        model: Value,
        /// The Compose version as it is shown.
        shown: Option<String>,
    },
}

/// A module to build.
#[derive(Debug, PartialEq, Eq)]
pub struct ModuleRequest {
    /// Its path in the project.
    pub rel: String,
    /// Its directory.
    pub dir: String,
}

/// A build that was asked for.
#[derive(Debug, PartialEq, Eq)]
pub struct BuildRequest {
    /// Whether `settings.ulb` declares the modules. A project without one is
    /// a single module.
    pub several: bool,
    /// The modules.
    pub modules: Vec<ModuleRequest>,
    /// The plugins of the project.
    pub plugins: Vec<PluginSpec>,
    /// The file that declares the plugins.
    pub libs_path: String,
    /// Why the plugins cannot be read, where they cannot.
    pub libs_fault: Option<String>,
    /// The Android SDK root, or why there is none to use.
    pub sdk: Result<Option<String>, String>,
}

/// The results for the dependencies of a module.
#[derive(Debug, PartialEq, Eq)]
pub struct Resolutions {
    /// The result for its `deps {}` block.
    pub own: Option<Result<Classpath, String>>,
    /// The results for its first source sets.
    pub sets: Vec<Result<Classpath, String>>,
}

/// How far a build has come.
#[derive(Debug, PartialEq, Eq)]
pub struct BuildState {
    /// What evaluating the first modules gave.
    pub evaluations: Vec<Evaluation>,
    /// The results for the dependencies of the first modules.
    pub resolutions: Vec<Resolutions>,
    /// How many plugins were configured: all of the first module, then all of
    /// the second, and so on.
    pub configured: usize,
    /// The tasks of those plugins.
    pub plan: BuildPlan,
    /// The digests of the configurations of the first modules.
    pub hashes: Vec<String>,
}

/// A plugin to configure.
#[derive(Debug, PartialEq, Eq)]
pub struct Configuration {
    /// The module, by its position.
    pub module: usize,
    /// The plugin, by its position.
    pub plugin: usize,
    /// How the plugin is called in messages.
    pub label: String,
    /// The module label of the plugin's tasks.
    pub owner: String,
    /// The members of the configuration.
    pub config: TextMap<Json>,
    /// The text of the configuration.
    pub text: String,
    /// The directories to open for the plugin.
    pub sdk_roots: Vec<String>,
    /// The warnings to give about the module's references to others.
    pub warnings: Vec<String>,
}

/// What a build needs next, or how it ended.
#[derive(Debug, PartialEq, Eq)]
pub enum BuildStep {
    /// A module has to be evaluated.
    Evaluate(usize),
    /// The dependencies of the `deps {}` block of a module have to be
    /// resolved.
    ResolveOwn(usize, Vec<DeclaredDep>),
    /// The dependencies of the next source set of a module have to be
    /// resolved.
    ResolveSet(usize, Vec<DeclaredDep>),
    /// A plugin has to be configured.
    Configure(Configuration),
    /// Every plugin is configured.
    Finish,
    /// The build failed.
    Failed(String),
}

/// What a build needs next, or how it ended.
pub enum Turn {
    /// A module has to be evaluated.
    Evaluate(int),
    /// The dependencies of the `deps {}` block of a module have to be
    /// resolved.
    ResolveOwn(int, Seq<Declared>),
    /// The dependencies of the next source set of a module have to be
    /// resolved.
    ResolveSet(int, Seq<Declared>),
    /// A plugin has to be configured for a module.
    Configure(int, int),
    /// Every plugin is configured.
    Finish,
    /// The build failed.
    Failed(Seq<char>),
}

impl View for BuildStep {
    type V = Turn;

    open spec fn view(&self) -> Turn {
        match *self {
            BuildStep::Evaluate(i) => Turn::Evaluate(i as int),
            BuildStep::ResolveOwn(i, list) => Turn::ResolveOwn(
                i as int,
                maven::declared_deps(list@),
            ),
            BuildStep::ResolveSet(i, list) => Turn::ResolveSet(
                i as int,
                maven::declared_deps(list@),
            ),
            BuildStep::Configure(configuration) => Turn::Configure(
                configuration.module as int,
                configuration.plugin as int,
            ),
            BuildStep::Finish => Turn::Finish,
            BuildStep::Failed(message) => Turn::Failed(message@),
        }
    }
}

/// Where the build file of a module is said to be.
pub open spec fn build_file(dir: Seq<char>, several: bool) -> Seq<char> {
    if several {
        dir + "/build.ulb"@
    } else {
        text::path_text(dir, "build.ulb"@)
    }
}

/// Why a module has no model, where it has none.
pub open spec fn evaluation_fault(
    evaluation: Evaluation,
    dir: Seq<char>,
    rel: Seq<char>,
    several: bool,
) -> Option<Seq<char>> {
    match evaluation {
        Evaluation::NoDirectory => Some(
            "module directory '"@ + dir + "' does not exist (declared in settings.ulb as '"@ + rel
                + "')"@,
        ),
        Evaluation::Unreadable(message) => Some(message@),
        Evaluation::Faulty(diagnostics) => Some(
            "evaluating "@ + build_file(dir, several) + ": "@ + text::join_text(
                text::texts(diagnostics@),
                "; "@,
            ),
        ),
        Evaluation::Model { .. } => None,
    }
}

fn evaluation_error(evaluation: &Evaluation, dir: &str, rel: &str, several: bool) -> (fault: Option<
    String,
>)
    ensures
        text::opt_text(fault) == evaluation_fault(*evaluation, dir@, rel@, several),
{
    match evaluation {
        Evaluation::NoDirectory => Some(
            "module directory '".to_owned().concat(dir).concat(
                "' does not exist (declared in settings.ulb as '",
            ).concat(rel).concat("')"),
        ),
        Evaluation::Unreadable(message) => Some(message.clone()),
        Evaluation::Faulty(diagnostics) => {
            let file = if several {
                dir.to_owned().concat("/build.ulb")
            } else {
                text::join_path(dir, "build.ulb")
            };
            Some(
                "evaluating ".to_owned().concat(&file).concat(": ").concat(
                    &text::join(diagnostics, "; "),
                ),
            )
        },
        Evaluation::Model { .. } => None,
    }
}

/// The dependencies to resolve for the project at `dir`.
pub open spec fn project_deps(dir: Seq<char>, evaluation: Evaluation) -> Result<
    Seq<Declared>,
    Seq<char>,
> {
    match evaluation_fault(evaluation, dir, Seq::empty(), false) {
        Some(message) => Err(message),
        None => deps::model_deps_of(evaluation->model, text::opt_text(evaluation->shown)),
    }
}

/// The dependencies that have to be resolved, in repository order, for the
/// `deps {}` block of the project at `dir`, whose sources were evaluated.
///
/// # Errors
///
/// Returns a description when a project file cannot be read or fails to
/// parse or evaluate, or when the model declares no `deps {}` block or the
/// block is malformed.
pub fn resolve_project_deps(dir: &str, evaluation: &Evaluation) -> (result: Result<
    Vec<DeclaredDep>,
    String,
>)
    ensures
        maven::declared_result(result) == project_deps(dir@, *evaluation),
{
    assert(""@ == Seq::<char>::empty()) by {
        reveal_strlit("");
    }
    if let Some(message) = evaluation_error(evaluation, dir, "", false) {
        return Err(message);
    }
    match evaluation {
        Evaluation::Model { model, shown } => deps::model_deps(model, shown),
        _ => Err(String::new()),
    }
}

/// Resolves every source-set `deps {}` block declared in the project at
/// `dir`, whose sources were evaluated, into its own classpath.
///
/// A source set is any block below the module level that carries a `deps`
/// key — `commonMain`, `jvmMain`, `androidMain`, or deeper nesting such as
/// `kmp.commonMain` — and each resolves independently, so a module can keep
/// one set of dependencies visible to its shared sources and another to a
/// single target. The module's own top-level `deps {}` block is *not*
/// included; use [`resolve_project_deps`] for that. The result is ordered by
/// source-set path.
pub fn resolve_project_source_sets(
    dir: &str,
    evaluation: &Evaluation,
    resolved: &Vec<Result<Classpath, String>>,
) -> (step: SourceSetStep)
    ensures
        match evaluation_fault(*evaluation, dir@, Seq::empty(), false) {
            Some(message) => step matches SourceSetStep::Failed(error) && error@ == message,
            None => step@ == deps::sets_state(
                evaluation->model,
                text::opt_text(evaluation->shown),
                deps::paths_results(resolved@),
            ),
        },
{
    assert(""@ == Seq::<char>::empty()) by {
        reveal_strlit("");
    }
    if let Some(message) = evaluation_error(evaluation, dir, "", false) {
        return SourceSetStep::Failed(message);
    }
    match evaluation {
        Evaluation::Model { model, shown } => deps::resolve_source_set_classpaths(
            model,
            shown,
            resolved,
        ),
        _ => SourceSetStep::Failed(String::new()),
    }
}

/// Why a project without plugins is refused.
pub open spec fn plugins_fault(request: BuildRequest) -> Option<Seq<char>> {
    match request.libs_fault {
        Some(message) => Some(message@),
        None => if request.plugins@.len() == 0 {
            Some(request.libs_path@ + " declares no plugins"@)
        } else {
            None
        },
    }
}

fn plugins_error(request: &BuildRequest) -> (fault: Option<String>)
    ensures
        text::opt_text(fault) == plugins_fault(*request),
{
    match &request.libs_fault {
        Some(message) => Some(message.clone()),
        None => if request.plugins.len() == 0 {
            Some(request.libs_path.clone().concat(" declares no plugins"))
        } else {
            None
        },
    }
}

/// Why a build without a usable SDK root is refused.
pub open spec fn sdk_fault(request: BuildRequest) -> Option<Seq<char>> {
    match request.sdk {
        Ok(_) => None,
        Err(message) => Some(message@),
    }
}

/// The first of two faults.
pub open spec fn first_fault(a: Option<Seq<char>>, b: Option<Seq<char>>) -> Option<Seq<char>> {
    match a {
        Some(message) => Some(message),
        None => b,
    }
}

/// The first module, from `from` on, that is not evaluated or has no model.
pub open spec fn evaluating(
    request: BuildRequest,
    evaluations: Seq<Evaluation>,
    from: int,
) -> Option<Turn>
    decreases request.modules@.len() - from,
{
    if from >= request.modules@.len() {
        None
    } else if from >= evaluations.len() {
        Some(Turn::Evaluate(from))
    } else {
        let module = request.modules@[from];
        match evaluation_fault(evaluations[from], module.dir@, module.rel@, request.several) {
            Some(message) => Some(Turn::Failed(message)),
            None => evaluating(request, evaluations, from + 1),
        }
    }
}

/// The result for the `deps {}` block of the module at a position.
pub open spec fn own_at(resolutions: Seq<Resolutions>, i: int) -> Option<
    Result<Paths, Seq<char>>,
> {
    if i < resolutions.len() {
        modules::own_result(resolutions[i].own)
    } else {
        None
    }
}

/// The results for the first source sets of the module at a position.
pub open spec fn sets_at(resolutions: Seq<Resolutions>, i: int) -> Seq<Result<Paths, Seq<char>>> {
    if i < resolutions.len() {
        deps::paths_results(resolutions[i].sets@)
    } else {
        Seq::empty()
    }
}

/// What preparing the module at a position needs next.
pub open spec fn prep_at(
    request: BuildRequest,
    evaluations: Seq<Evaluation>,
    resolutions: Seq<Resolutions>,
    i: int,
) -> PrepState {
    modules::prep_state(
        request.modules@[i].dir@,
        evaluations[i]->model,
        text::opt_text(evaluations[i]->shown),
        !request.several,
        own_at(resolutions, i),
        sets_at(resolutions, i),
    )
}

/// The first module, from `from` on, that is not prepared.
pub open spec fn preparing(
    request: BuildRequest,
    evaluations: Seq<Evaluation>,
    resolutions: Seq<Resolutions>,
    from: int,
) -> Option<Turn>
    decreases request.modules@.len() - from,
{
    if from >= request.modules@.len() {
        None
    } else {
        match prep_at(request, evaluations, resolutions, from) {
            PrepState::ResolveOwn(declared) => Some(Turn::ResolveOwn(from, declared)),
            PrepState::ResolveSet(declared) => Some(Turn::ResolveSet(from, declared)),
            PrepState::Failed(message) => Some(Turn::Failed(message)),
            PrepState::Ready(_) => preparing(request, evaluations, resolutions, from + 1),
        }
    }
}

/// The paths of the modules.
pub open spec fn rels_of(list: Seq<ModuleRequest>) -> Seq<Seq<char>> {
    Seq::new(list.len(), |i: int| list[i].rel@)
}

/// The artifacts of the first `n` modules.
pub open spec fn outputs_of(
    request: BuildRequest,
    evaluations: Seq<Evaluation>,
    n: int,
) -> Map<Seq<char>, Seq<char>>
    decreases n,
{
    if n <= 0 {
        Map::empty()
    } else {
        let before = outputs_of(request, evaluations, n - 1);
        let module = request.modules@[n - 1];
        match config::output_of(evaluations[n - 1]->model, module.dir@) {
            Some(output) => before.insert(module.rel@, output),
            None => before,
        }
    }
}

/// What the first `n` modules show to their consumers.
pub open spec fn apis_of(
    request: BuildRequest,
    prepared: Seq<Prepared>,
    n: int,
) -> Map<Seq<char>, Seq<Seq<char>>>
    decreases n,
{
    if n <= 0 {
        Map::empty()
    } else {
        apis_of(request, prepared, n - 1).insert(
            request.modules@[n - 1].rel@,
            prepared[n - 1].classpath.api,
        )
    }
}

/// The modules, all prepared.
pub open spec fn all_prepared(
    request: BuildRequest,
    evaluations: Seq<Evaluation>,
    resolutions: Seq<Resolutions>,
) -> Seq<Prepared> {
    Seq::new(
        request.modules@.len(),
        |i: int| prep_at(request, evaluations, resolutions, i)->Ready_0,
    )
}

/// What the modules of a build have to offer each other.
pub open spec fn offers_of(
    request: BuildRequest,
    evaluations: Seq<Evaluation>,
    resolutions: Seq<Resolutions>,
) -> Offers {
    let n = request.modules@.len() as int;
    Offers {
        modules: rels_of(request.modules@),
        outputs: outputs_of(request, evaluations, n),
        apis: apis_of(request, all_prepared(request, evaluations, resolutions), n),
    }
}

/// The module at a position, linked with the others.
pub open spec fn linked_at(request: BuildRequest, state: BuildState, m: int) -> Result<
    Prepared,
    Seq<char>,
> {
    modules::linked(
        prep_at(request, state.evaluations@, state.resolutions@, m)->Ready_0,
        offers_of(request, state.evaluations@, state.resolutions@),
    )
}

/// What configuring the plugins needs next.
pub open spec fn configuring(request: BuildRequest, state: BuildState) -> Turn {
    let count = request.plugins@.len() as int;
    let m = state.configured as int / count;
    if m >= request.modules@.len() {
        Turn::Finish
    } else {
        match linked_at(request, state, m) {
            Err(message) => Turn::Failed(message),
            Ok(_) => Turn::Configure(m, state.configured as int % count),
        }
    }
}

/// What a build needs next. Every module is evaluated, then every module is
/// prepared, and then the plugins are configured, module by module, each module
/// linked with the others first. A project of several modules is refused for
/// want of plugins or of an SDK root at the start, a single module when its
/// plugins would be configured.
pub open spec fn next_turn(request: BuildRequest, state: BuildState) -> Turn {
    let early = if request.several {
        first_fault(plugins_fault(request), sdk_fault(request))
    } else {
        None
    };
    let late = first_fault(sdk_fault(request), plugins_fault(request));
    match early {
        Some(message) => Turn::Failed(message),
        None => match evaluating(request, state.evaluations@, 0) {
            Some(turn) => turn,
            None => match preparing(request, state.evaluations@, state.resolutions@, 0) {
                Some(turn) => turn,
                None => match late {
                    Some(message) => Turn::Failed(message),
                    None => configuring(request, state),
                },
            },
        },
    }
}

/// How a plugin of a module is called in messages.
pub open spec fn plugin_label(request: BuildRequest, m: int, p: int) -> Seq<char> {
    let label = project::label_text(request.plugins@[p]@);
    if request.several {
        request.modules@[m].rel@ + "/"@ + label
    } else {
        label
    }
}

/// The module label of a plugin's tasks.
pub open spec fn owner_label(request: BuildRequest, m: int, p: int) -> Seq<char> {
    let name = request.plugins@[p].name@;
    if request.several {
        request.modules@[m].rel@ + "/"@ + name
    } else {
        name
    }
}

/// Whether an object is the configuration of a module with a model and what
/// the host adds.
pub open spec fn configures(config: TextMap<Json>, model: Value, more: Additions) -> bool {
    exists|members: TextMap<Json>| #[trigger]
        model::is_json(Json::Object(members), model) && config::is_config(
            config,
            members@,
            more,
        )
}

/// What the host adds to the model of a module.
pub open spec fn additions_at(request: BuildRequest, state: BuildState, m: int) -> Additions {
    let module = linked_at(request, state, m)->Ok_0;
    Additions {
        classpath: module.classpath,
        sets: module.sets,
        dir: request.modules@[m].dir@,
        module: if request.several {
            Some(request.modules@[m].rel@)
        } else {
            None
        },
        sdk: text::opt_text(request.sdk->Ok_0),
    }
}

/// Whether a configuration is that of its plugin for its module.
pub open spec fn is_configuration(
    configuration: Configuration,
    request: BuildRequest,
    state: BuildState,
) -> bool {
    let m = configuration.module as int;
    let p = configuration.plugin as int;
    let more = additions_at(request, state, m);
    &&& m < request.modules@.len()
    &&& p < request.plugins@.len()
    &&& configuration.label@ == plugin_label(request, m, p)
    &&& configuration.owner@ == owner_label(request, m, p)
    &&& configures(configuration.config, state.evaluations@[m]->model, more)
    &&& configuration.text@ == json::object_text(configuration.config)
    &&& text::texts(configuration.sdk_roots@) == config::sdk_dirs(
        more.sdk,
        config::module_sdk(Json::Object(configuration.config), more.dir),
    )
    &&& text::texts(configuration.warnings@) == modules::warnings_of(
        all_prepared(request, state.evaluations@, state.resolutions@)[m],
        rels_of(request.modules@),
        outputs_of(request, state.evaluations@, request.modules@.len() as int),
    )
}

/// The digest that is recorded of a configuration with the given text.
pub open spec fn digest_text(config_text: Seq<char>) -> Seq<char> {
    text::hex_text(digest::sha256(fingerprint::utf8(config_text)))
}

/// Whether a text is the digest of the configuration of a module.
pub open spec fn is_config_hash(
    hash: Seq<char>,
    request: BuildRequest,
    state: BuildState,
    m: int,
) -> bool {
    exists|config: TextMap<Json>| #[trigger]
        configures(config, state.evaluations@[m]->model, additions_at(request, state, m)) && hash
            == digest_text(json::object_text(config))
}

/// How many modules have had their first plugin configured.
pub open spec fn reached(configured: int, count: int) -> int {
    if configured % count == 0 {
        configured / count
    } else {
        configured / count + 1
    }
}

/// Whether the digests of a state are those of the configurations of the modules
/// that have been reached, one for each, in order.
pub open spec fn are_hashed(request: BuildRequest, state: BuildState) -> bool {
    &&& state.hashes@.len() <= request.modules@.len()
    &&& state.hashes@.len() == reached(state.configured as int, request.plugins@.len() as int)
    &&& forall|m: int|
        0 <= m < state.hashes@.len() ==> is_config_hash(
            (#[trigger] state.hashes@[m])@,
            request,
            state,
            m,
        )
}

/// Whether a text is made of the digests of the configurations of all modules,
/// in order.
pub open spec fn is_joined_hash(joined: Seq<char>, request: BuildRequest, state: BuildState) -> bool {
    exists|hashes: Seq<Seq<char>>|
        joined == #[trigger] text::join_text(hashes, ","@) && hashes.len()
            == request.modules@.len() && forall|m: int|
            0 <= m < hashes.len() ==> is_config_hash(#[trigger] hashes[m], request, state, m)
}

/// Whether the models of a build are ordered, as those are that were built by
/// adding their members one by one.
pub open spec fn are_ordered(evaluations: Seq<Evaluation>) -> bool {
    forall|i: int|
        0 <= i < evaluations.len() ==> ((#[trigger] evaluations[i]) matches Evaluation::Model {
            model: Value::Block(map),
            ..
        } ==> map.wf())
}

fn label_of(request: &BuildRequest, m: usize, p: usize) -> (label: String)
    requires
        m < request.modules@.len(),
        p < request.plugins@.len(),
    ensures
        label@ == plugin_label(*request, m as int, p as int),
{
    let label = project::spec_label(&request.plugins[p]);
    if request.several {
        request.modules[m].rel.clone().concat("/").concat(&label)
    } else {
        label
    }
}

fn prepare_at(request: &BuildRequest, state: &BuildState, i: usize) -> (preparation: Preparation)
    requires
        i < request.modules@.len(),
        i < state.evaluations@.len(),
        state.evaluations@[i as int] is Model,
    ensures
        preparation@ == prep_at(
            *request,
            state.evaluations@,
            state.resolutions@,
            i as int,
        ),
        preparation matches Preparation::Ready(module) ==> model::is_json(
            Json::Object(module.members),
            state.evaluations@[i as int]->model,
        ),
{
    match &state.evaluations[i] {
        Evaluation::Model { model, shown } => {
            if i < state.resolutions.len() {
                modules::prepare_module(
                    &request.modules[i].dir,
                    model,
                    shown,
                    !request.several,
                    &state.resolutions[i].own,
                    &state.resolutions[i].sets,
                )
            } else {
                let none: Vec<Result<Classpath, String>> = Vec::new();
                assert(deps::paths_results(none@) == Seq::<Result<Paths, Seq<char>>>::empty());
                modules::prepare_module(
                    &request.modules[i].dir,
                    model,
                    shown,
                    !request.several,
                    &None,
                    &none,
                )
            }
        },
        _ => Preparation::Failed(String::new()),
    }
}

proof fn lemma_models(request: BuildRequest, evaluations: Seq<Evaluation>, from: int, i: int)
    requires
        0 <= from <= i < request.modules@.len(),
        evaluating(request, evaluations, from) is None,
    ensures
        i < evaluations.len(),
        evaluations[i] is Model,
    decreases i - from,
{
    if from < i {
        lemma_models(request, evaluations, from + 1, i);
    }
}

fn collect_outputs(request: &BuildRequest, state: &BuildState) -> (outputs: TextMap<String>)
    requires
        evaluating(*request, state.evaluations@, 0) is None,
    ensures
        classpath::output_map(outputs@) == outputs_of(
            *request,
            state.evaluations@,
            request.modules@.len() as int,
        ),
{
    let mut outputs: TextMap<String> = TextMap::new();
    let mut i: usize = 0;
    assert(classpath::output_map(outputs@) =~= Map::<Seq<char>, Seq<char>>::empty());
    while i < request.modules.len()
        invariant
            evaluating(*request, state.evaluations@, 0) is None,
            i <= request.modules@.len(),
            outputs.wf(),
            classpath::output_map(outputs@) == outputs_of(
                *request,
                state.evaluations@,
                i as int,
            ),
        decreases request.modules.len() - i,
    {
        proof {
            lemma_models(*request, state.evaluations@, 0, i as int);
        }
        let module = &request.modules[i];
        if let Evaluation::Model { model, .. } = &state.evaluations[i] {
            if let Some(output) = config::discover_module_output(model, &module.dir) {
                let ghost before = outputs@;
                outputs.insert(module.rel.clone(), output);
                assert(classpath::output_map(outputs@) =~= classpath::output_map(before).insert(
                    module.rel@,
                    output@,
                ));
            }
        }
        i += 1;
    }
    outputs
}

/// The modules of a list as specification values.
pub open spec fn prepared_list(list: Seq<PreparedModule>) -> Seq<Prepared> {
    Seq::new(list.len(), |i: int| list[i]@)
}

fn collect_apis(request: &BuildRequest, prepared: &Vec<PreparedModule>) -> (apis: TextMap<
    Vec<String>,
>)
    requires
        prepared@.len() == request.modules@.len(),
    ensures
        classpath::api_map(apis@) == apis_of(
            *request,
            prepared_list(prepared@),
            request.modules@.len() as int,
        ),
{
    let ghost all = prepared_list(prepared@);
    let mut apis: TextMap<Vec<String>> = TextMap::new();
    let mut i: usize = 0;
    assert(classpath::api_map(apis@) =~= Map::<Seq<char>, Seq<Seq<char>>>::empty());
    while i < request.modules.len()
        invariant
            all == prepared_list(prepared@),
            prepared@.len() == request.modules@.len(),
            i <= request.modules@.len(),
            apis.wf(),
            classpath::api_map(apis@) == apis_of(*request, all, i as int),
        decreases request.modules.len() - i,
    {
        let ghost before = apis@;
        let jars = text::copy_texts(&prepared[i].classpath.api);
        assert(all[i as int].classpath.api == text::texts(jars@));
        apis.insert(request.modules[i].rel.clone(), jars);
        assert(classpath::api_map(apis@) =~= classpath::api_map(before).insert(
            request.modules@[i as int].rel@,
            text::texts(jars@),
        ));
        i += 1;
    }
    apis
}

fn collect_rels(request: &BuildRequest) -> (rels: Vec<String>)
    ensures
        text::texts(rels@) == rels_of(request.modules@),
{
    let ghost all = rels_of(request.modules@);
    let mut rels: Vec<String> = Vec::new();
    let mut i: usize = 0;
    assert(text::texts(rels@) == all.take(0));
    while i < request.modules.len()
        invariant
            all == rels_of(request.modules@),
            i <= request.modules@.len(),
            text::texts(rels@) == all.take(i as int),
        decreases request.modules.len() - i,
    {
        let ghost was = rels@;
        let rel = request.modules[i].rel.clone();
        rels.push(rel);
        assert(text::texts(rels@) == text::texts(was).push(rel@));
        assert(all.take(i + 1) == all.take(i as int).push(all[i as int]));
        i += 1;
    }
    assert(all.take(i as int) == all);
    rels
}

proof fn lemma_prepared(
    request: BuildRequest,
    evaluations: Seq<Evaluation>,
    resolutions: Seq<Resolutions>,
    from: int,
    i: int,
)
    requires
        0 <= from <= i < request.modules@.len(),
        preparing(request, evaluations, resolutions, from) is None,
    ensures
        prep_at(request, evaluations, resolutions, i) is Ready,
    decreases i - from,
{
    if from < i {
        lemma_prepared(request, evaluations, resolutions, from + 1, i);
    }
}

fn configure_step(request: &BuildRequest, state: &BuildState, prepared: Vec<PreparedModule>) -> (step:
    BuildStep)
    requires
        request.plugins@.len() > 0,
        request.sdk is Ok,
        are_ordered(state.evaluations@),
        evaluating(*request, state.evaluations@, 0) is None,
        preparing(*request, state.evaluations@, state.resolutions@, 0) is None,
        prepared_list(prepared@) == all_prepared(
            *request,
            state.evaluations@,
            state.resolutions@,
        ),
        forall|i: int|
            0 <= i < prepared@.len() ==> model::is_json(
                Json::Object((#[trigger] prepared@[i]).members),
                state.evaluations@[i]->model,
            ),
    ensures
        step@ == configuring(*request, *state),
        step matches BuildStep::Configure(configuration) ==> is_configuration(
            configuration,
            *request,
            *state,
        ),
{
    let count: usize = request.plugins.len();
    let m: usize = state.configured / count;
    let p: usize = state.configured % count;
    if m >= request.modules.len() {
        return BuildStep::Finish;
    }
    let ghost offers = offers_of(*request, state.evaluations@, state.resolutions@);
    assert(prepared@.len() == prepared_list(prepared@).len() == request.modules@.len());
    let outputs = collect_outputs(request, state);
    let apis = collect_apis(request, &prepared);
    let rels = collect_rels(request);
    let mut prepared = prepared;
    let ghost list = prepared@;
    let module = prepared.swap_remove(m);
    let ghost model = state.evaluations@[m as int]->model;
    proof {
        lemma_models(*request, state.evaluations@, 0, m as int);
        lemma_prepared(*request, state.evaluations@, state.resolutions@, 0, m as int);
        assert(module == list[m as int]);
        assert(prepared_list(list)[m as int] == module@);
        assert(module@ == prep_at(
            *request,
            state.evaluations@,
            state.resolutions@,
            m as int,
        )->Ready_0);
        lemma_ready_is_block(*request, state.evaluations@, state.resolutions@, m as int);
        modules::law_prepared_members_are_ordered(module, model);
    }
    let warnings = modules::link_warnings(&module, &outputs, &rels);
    let linked = match modules::link_module(module, &outputs, &apis, &rels) {
        Ok(linked) => linked,
        Err(message) => return BuildStep::Failed(message),
    };
    let dir = &request.modules[m].dir;
    let rel = if request.several {
        Some(request.modules[m].rel.as_str())
    } else {
        None
    };
    let sdk = match &request.sdk {
        Ok(Some(root)) => Some(root.as_str()),
        _ => None,
    };
    let config = modules::module_config(linked, dir, rel, sdk);
    let document = Json::Object(config);
    let own_sdk = config::module_android_sdk_dir(&document, dir);
    let sdk_roots = config::sdk_roots(
        sdk,
        match &own_sdk {
            Some(root) => Some(root.as_str()),
            None => None,
        },
    );
    let config = match document {
        Json::Object(config) => config,
        _ => TextMap::new(),
    };
    let name = &request.plugins[p].name;
    let owner = if request.several {
        request.modules[m].rel.clone().concat("/").concat(name)
    } else {
        name.clone()
    };
    let text = json::object_to_text(&config);
    let configuration = Configuration {
        module: m,
        plugin: p,
        label: label_of(request, m, p),
        owner,
        config,
        text,
        sdk_roots,
        warnings,
    };
    proof {
        assert(model::is_json(Json::Object(module.members), model));
        assert(configures(config, model, additions_at(*request, *state, m as int)));
    }
    BuildStep::Configure(configuration)
}

proof fn lemma_ready_is_block(
    request: BuildRequest,
    evaluations: Seq<Evaluation>,
    resolutions: Seq<Resolutions>,
    i: int,
)
    requires
        prep_at(request, evaluations, resolutions, i) is Ready,
    ensures
        evaluations[i]->model is Block,
{
}

/// Tells what a build needs next, given how far it has come.
///
/// Each module's `build.ulb` is evaluated against the project-root conventions
/// and libs, its `deps {}` is resolved, and every plugin declared in the
/// project's `libs.ulb` is configured with that module's model, into which the
/// resolved classpath is folded, so a plugin can embed the jar paths into its
/// task actions without resolving them itself. In a project of several modules
/// task identities are prefixed with the module path
/// (`<module>/<plugin>::<task>`) so two modules using the same plugin
/// produce distinct tasks. Cross-module `project(":…")` references are only
/// resolved when every module is prepared, so declaration order in
/// `settings.ulb` never matters.
pub fn build_project(request: &BuildRequest, state: &BuildState) -> (step: BuildStep)
    requires
        are_ordered(state.evaluations@),
    ensures
        step@ == next_turn(*request, *state),
        step matches BuildStep::Configure(configuration) ==> is_configuration(
            configuration,
            *request,
            *state,
        ),
{
    if request.several {
        if let Some(message) = plugins_error(request) {
            return BuildStep::Failed(message);
        }
        if let Err(message) = &request.sdk {
            return BuildStep::Failed(message.clone());
        }
    }
    let ghost evaluations = state.evaluations@;
    let mut i: usize = 0;
    while i < request.modules.len()
        invariant
            evaluations == state.evaluations@,
            request.several ==> plugins_fault(*request) is None && request.sdk is Ok,
            i <= request.modules@.len(),
            evaluating(*request, evaluations, 0) == evaluating(*request, evaluations, i as int),
        decreases request.modules.len() - i,
    {
        if i >= state.evaluations.len() {
            return BuildStep::Evaluate(i);
        }
        let module = &request.modules[i];
        if let Some(message) = evaluation_error(
            &state.evaluations[i],
            &module.dir,
            &module.rel,
            request.several,
        ) {
            return BuildStep::Failed(message);
        }
        i += 1;
    }
    let ghost resolutions = state.resolutions@;
    let mut prepared: Vec<PreparedModule> = Vec::new();
    let mut k: usize = 0;
    while k < request.modules.len()
        invariant
            evaluations == state.evaluations@,
            resolutions == state.resolutions@,
            request.several ==> plugins_fault(*request) is None && request.sdk is Ok,
            evaluating(*request, evaluations, 0) is None,
            k <= request.modules@.len(),
            preparing(*request, evaluations, resolutions, 0) == preparing(
                *request,
                evaluations,
                resolutions,
                k as int,
            ),
            prepared@.len() == k,
            forall|j: int|
                0 <= j < k ==> PrepState::Ready((#[trigger] prepared@[j])@) == prep_at(
                    *request,
                    evaluations,
                    resolutions,
                    j,
                ),
            forall|j: int|
                0 <= j < k ==> model::is_json(
                    Json::Object((#[trigger] prepared@[j]).members),
                    evaluations[j]->model,
                ),
        decreases request.modules.len() - k,
    {
        proof {
            lemma_models(*request, evaluations, 0, k as int);
        }
        match prepare_at(request, state, k) {
            Preparation::ResolveOwn(declared) => return BuildStep::ResolveOwn(k, declared),
            Preparation::ResolveSet(declared) => return BuildStep::ResolveSet(k, declared),
            Preparation::Failed(message) => return BuildStep::Failed(message),
            Preparation::Ready(module) => prepared.push(module),
        }
        k += 1;
    }
    if let Err(message) = &request.sdk {
        return BuildStep::Failed(message.clone());
    }
    if let Some(message) = plugins_error(request) {
        return BuildStep::Failed(message);
    }
    proof {
        let all = all_prepared(*request, evaluations, resolutions);
        assert(prepared_list(prepared@) =~= all) by {
            assert forall|j: int| 0 <= j < all.len() implies prepared_list(prepared@)[j]
                == #[trigger] all[j] by {
                assert(PrepState::Ready(prepared@[j]@) == prep_at(
                    *request,
                    evaluations,
                    resolutions,
                    j,
                ));
            }
        }
    }
    configure_step(request, state, prepared)
}

/// What configuring a plugin gave.
#[derive(Debug, PartialEq, Eq)]
pub enum PluginOutcome {
    /// The plugin cannot be resolved.
    Unresolved(String),
    /// The plugin refused the configuration.
    Refused(String),
    /// What the plugin registered.
    Configured(Configured),
}

/// What a plan becomes with what configuring the plugin behind the first
/// `configured` ones gave.
pub open spec fn plan_with(
    request: BuildRequest,
    plan: Plan,
    configured: int,
    outcome: PluginOutcome,
) -> Result<Plan, Seq<char>> {
    let count = request.plugins@.len() as int;
    let m = configured / count;
    let p = configured % count;
    let label = plugin_label(request, m, p);
    match outcome {
        PluginOutcome::Unresolved(message) => Err(label + ": "@ + message@),
        PluginOutcome::Refused(message) => Err("configuring "@ + label + ": "@ + message@),
        PluginOutcome::Configured(configured) => plugins::with_plugin(
            plan,
            if request.several {
                Some(request.modules@[m].rel@)
            } else {
                None
            },
            label,
            configured,
        ),
    }
}

/// The plan with what configuring the next plugin gave.
pub open spec fn plan_after(
    request: BuildRequest,
    state: BuildState,
    outcome: PluginOutcome,
) -> Result<Plan, Seq<char>> {
    plan_with(request, state.plan@, state.configured as int, outcome)
}

impl BuildState {
    /// Whether the tasks so far have different keys.
    pub open spec fn wf(&self) -> bool {
        self.plan.wf()
    }

    /// A build that has not started.
    pub fn new() -> (state: BuildState)
        ensures
            state.wf(),
            state.evaluations@.len() == 0,
            state.resolutions@.len() == 0,
            state.configured == 0,
            state.plan@ == plugins::empty_plan(),
            state.hashes@.len() == 0,
    {
        BuildState {
            evaluations: Vec::new(),
            resolutions: Vec::new(),
            configured: 0,
            plan: BuildPlan::new(),
            hashes: Vec::new(),
        }
    }

    /// Takes in what evaluating the next module gave.
    pub fn record_evaluation(&mut self, evaluation: Evaluation)
        ensures
            final(self).evaluations@ == old(self).evaluations@.push(evaluation),
            final(self).resolutions == old(self).resolutions,
            final(self).configured == old(self).configured,
            final(self).plan == old(self).plan,
            final(self).hashes == old(self).hashes,
    {
        self.evaluations.push(evaluation);
    }

    fn make_room(&mut self, i: usize)
        ensures
            i < final(self).resolutions@.len(),
            forall|j: int|
                0 <= j ==> #[trigger] own_at(final(self).resolutions@, j) == own_at(
                    old(self).resolutions@,
                    j,
                ),
            forall|j: int|
                0 <= j ==> #[trigger] sets_at(final(self).resolutions@, j) == sets_at(
                    old(self).resolutions@,
                    j,
                ),
            final(self).evaluations == old(self).evaluations,
            final(self).configured == old(self).configured,
            final(self).plan == old(self).plan,
            final(self).hashes == old(self).hashes,
    {
        let ghost before = self.resolutions@;
        while self.resolutions.len() <= i
            invariant
                forall|j: int|
                    0 <= j ==> #[trigger] own_at(self.resolutions@, j) == own_at(before, j),
                forall|j: int|
                    0 <= j ==> #[trigger] sets_at(self.resolutions@, j) == sets_at(before, j),
                self.evaluations == old(self).evaluations,
                self.configured == old(self).configured,
                self.plan == old(self).plan,
                self.hashes == old(self).hashes,
            decreases i + 1 - self.resolutions.len(),
        {
            let ghost was = self.resolutions@;
            let empty = Resolutions { own: None, sets: Vec::new() };
            assert(deps::paths_results(empty.sets@) == Seq::<Result<Paths, Seq<char>>>::empty());
            self.resolutions.push(empty);
            proof {
                let now = self.resolutions@;
                assert forall|j: int| 0 <= j implies #[trigger] own_at(now, j) == own_at(
                    before,
                    j,
                ) by {
                    assert(own_at(was, j) == own_at(before, j));
                }
                assert forall|j: int| 0 <= j implies #[trigger] sets_at(now, j) == sets_at(
                    before,
                    j,
                ) by {
                    assert(sets_at(was, j) == sets_at(before, j));
                }
            }
        }
    }

    /// Takes in the result for the `deps {}` block of a module.
    pub fn record_own(&mut self, i: usize, result: Result<Classpath, String>)
        ensures
            forall|j: int|
                0 <= j ==> #[trigger] own_at(final(self).resolutions@, j) == if j == i {
                    Some(classpath::paths_result(result))
                } else {
                    own_at(old(self).resolutions@, j)
                },
            forall|j: int|
                0 <= j ==> #[trigger] sets_at(final(self).resolutions@, j) == sets_at(
                    old(self).resolutions@,
                    j,
                ),
            final(self).evaluations == old(self).evaluations,
            final(self).configured == old(self).configured,
            final(self).plan == old(self).plan,
            final(self).hashes == old(self).hashes,
    {
        self.make_room(i);
        let ghost was = self.resolutions@;
        self.resolutions[i].own = Some(result);
        proof {
            let now = self.resolutions@;
            assert forall|j: int| 0 <= j implies #[trigger] own_at(now, j) == if j == i {
                Some(classpath::paths_result(result))
            } else {
                own_at(old(self).resolutions@, j)
            } by {
                assert(own_at(was, j) == own_at(old(self).resolutions@, j));
            }
            assert forall|j: int| 0 <= j implies #[trigger] sets_at(now, j) == sets_at(
                old(self).resolutions@,
                j,
            ) by {
                assert(sets_at(was, j) == sets_at(old(self).resolutions@, j));
            }
        }
    }

    /// Takes in the result for the next source set of a module.
    pub fn record_set(&mut self, i: usize, result: Result<Classpath, String>)
        ensures
            forall|j: int|
                0 <= j ==> #[trigger] own_at(final(self).resolutions@, j) == own_at(
                    old(self).resolutions@,
                    j,
                ),
            forall|j: int|
                0 <= j ==> #[trigger] sets_at(final(self).resolutions@, j) == if j == i {
                    sets_at(old(self).resolutions@, j).push(classpath::paths_result(result))
                } else {
                    sets_at(old(self).resolutions@, j)
                },
            final(self).evaluations == old(self).evaluations,
            final(self).configured == old(self).configured,
            final(self).plan == old(self).plan,
            final(self).hashes == old(self).hashes,
    {
        self.make_room(i);
        let ghost was = self.resolutions@;
        self.resolutions[i].sets.push(result);
        proof {
            let now = self.resolutions@;
            assert(deps::paths_results(now[i as int].sets@) == deps::paths_results(
                was[i as int].sets@,
            ).push(classpath::paths_result(result)));
            assert forall|j: int| 0 <= j implies #[trigger] own_at(now, j) == own_at(
                old(self).resolutions@,
                j,
            ) by {
                assert(own_at(was, j) == own_at(old(self).resolutions@, j));
            }
            assert forall|j: int| 0 <= j implies #[trigger] sets_at(now, j) == if j == i {
                sets_at(old(self).resolutions@, j).push(classpath::paths_result(result))
            } else {
                sets_at(old(self).resolutions@, j)
            } by {
                assert(sets_at(was, j) == sets_at(old(self).resolutions@, j));
            }
        }
    }

    /// Takes in what configuring the next plugin gave. The configuration of a
    /// module has a digest that belongs to what the tasks depend on, and that is
    /// taken in with the module's first plugin: a jar that changes without its
    /// version changing (a SNAPSHOT, say) still reruns affected tasks.
    ///
    /// # Errors
    ///
    /// Returns a description when the plugin was not configured or its tasks
    /// cannot be merged.
    pub fn record_plugin(
        self,
        request: &BuildRequest,
        configuration: &Configuration,
        outcome: PluginOutcome,
    ) -> (result: Result<BuildState, String>)
        requires
            self.wf(),
            are_hashed(*request, self),
            next_turn(*request, self) == Turn::Configure(
                configuration.module as int,
                configuration.plugin as int,
            ),
            is_configuration(*configuration, *request, self),
            fingerprint::utf8(configuration.text@).len() <= digest::MAX_MESSAGE,
            self.configured < usize::MAX,
        ensures
            match plan_after(*request, self, outcome) {
                Ok(plan) => result matches Ok(state) && state.wf() && are_hashed(*request, state)
                    && state.plan@ == plan && state.configured == self.configured + 1
                    && state.evaluations == self.evaluations && state.resolutions
                    == self.resolutions && text::texts(state.hashes@) == if configuration.plugin
                    == 0 {
                    text::texts(self.hashes@).push(digest_text(configuration.text@))
                } else {
                    text::texts(self.hashes@)
                },
                Err(message) => result matches Err(error) && error@ == message,
            },
    {
        proof {
            lemma_configure_turn(*request, self);
        }
        let count: usize = request.plugins.len();
        let m: usize = self.configured / count;
        let p: usize = self.configured % count;
        let label = label_of(request, m, p);
        let configured = match outcome {
            PluginOutcome::Unresolved(message) => return Err(label.concat(": ").concat(&message)),
            PluginOutcome::Refused(message) => {
                return Err("configuring ".to_owned().concat(&label).concat(": ").concat(&message));
            },
            PluginOutcome::Configured(configured) => configured,
        };
        let rel = if request.several {
            Some(request.modules[m].rel.as_str())
        } else {
            None
        };
        let mut state = self;
        let plan = match state.plan.add(rel, &label, configured) {
            Ok(plan) => plan,
            Err(message) => return Err(message),
        };
        state.plan = plan;
        state.configured = state.configured + 1;
        let ghost before = self.hashes@;
        if p == 0 {
            let hash = digest::hex_digest(configuration.text.as_str().as_bytes());
            state.hashes.push(hash);
            assert(text::texts(state.hashes@) == text::texts(before).push(hash@));
        }
        proof {
            lemma_reached(self.configured as int, count as int);
            assert forall|k: int| 0 <= k < state.hashes@.len() implies is_config_hash(
                (#[trigger] state.hashes@[k])@,
                *request,
                state,
                k,
            ) by {
                if k < before.len() {
                    assert(state.hashes@[k] == before[k]);
                    assert(is_config_hash(before[k]@, *request, self, k));
                    let config = choose|config: TextMap<Json>| #[trigger]
                        configures(
                            config,
                            self.evaluations@[k]->model,
                            additions_at(*request, self, k),
                        ) && before[k]@ == digest_text(json::object_text(config));
                    assert(configures(
                        config,
                        state.evaluations@[k]->model,
                        additions_at(*request, state, k),
                    ));
                } else {
                    assert(configures(
                        configuration.config,
                        state.evaluations@[k]->model,
                        additions_at(*request, state, k),
                    ));
                }
            }
        }
        Ok(state)
    }

    /// The graph of a build whose plugins are all configured, and what its
    /// tasks depend on besides their inputs: every resolved plugin's version
    /// and the digests of the configurations, so upgrading a plugin, editing
    /// the project sources, or changing the resolved dependencies reruns
    /// affected tasks.
    ///
    /// # Errors
    ///
    /// Returns a description when a plugin depends on one that is not present
    /// or a reference to another plugin's task cannot be resolved.
    pub fn finish(self, request: &BuildRequest) -> (result: Result<
        (TaskGraph, FingerprintContext),
        String,
    >)
        requires
            self.wf(),
            are_hashed(*request, self),
            next_turn(*request, self) is Finish,
        ensures
            match plugins::plan_fault(self.plan@, request.several) {
                Some(message) => result matches Err(error) && error@ == message,
                None => result matches Ok((graph, ctx)) && graph.wf() && plugins::are_linked(
                    self.plan@.names,
                    request.several,
                    self.plan@.tasks,
                    graph.entries@,
                ) && ctx.plugin_version@ == text::join_text(self.plan@.versions, ","@)
                    && ctx.config_hash@ == text::join_text(text::texts(self.hashes@), ","@)
                    && is_joined_hash(ctx.config_hash@, *request, self),
            },
    {
        proof {
            lemma_finish_turn(*request, self);
            let hashes = text::texts(self.hashes@);
            assert forall|m: int| 0 <= m < hashes.len() implies is_config_hash(
                #[trigger] hashes[m],
                *request,
                self,
                m,
            ) by {
                assert(hashes[m] == self.hashes@[m]@);
            }
            assert(is_joined_hash(text::join_text(hashes, ","@), *request, self));
        }
        let ctx = FingerprintContext {
            plugin_version: text::join(&self.plan.versions, ","),
            config_hash: text::join(&self.hashes, ","),
        };
        let state = self;
        match state.plan.finish(request.several) {
            Ok(graph) => Ok((graph, ctx)),
            Err(message) => Err(message),
        }
    }
}

proof fn lemma_reached(configured: int, count: int)
    requires
        0 <= configured,
        0 < count,
    ensures
        reached(configured + 1, count) == configured / count + 1,
        configured % count == 0 ==> reached(configured, count) == configured / count,
        configured % count != 0 ==> reached(configured, count) == configured / count + 1,
{
    let m = configured / count;
    let p = configured % count;
    vstd::arithmetic::div_mod::lemma_fundamental_div_mod(configured, count);
    assert(0 <= p < count) by (nonlinear_arith)
        requires
            count > 0,
            p == configured % count,
    ;
    if p + 1 < count {
        vstd::arithmetic::div_mod::lemma_fundamental_div_mod_converse(
            configured + 1,
            count,
            m,
            p + 1,
        );
    } else {
        assert(configured + 1 == count * (m + 1)) by (nonlinear_arith)
            requires
                configured == count * m + p,
                p + 1 == count,
        ;
        vstd::arithmetic::div_mod::lemma_fundamental_div_mod_converse(
            configured + 1,
            count,
            m + 1,
            0,
        );
    }
}

proof fn lemma_configure_turn(request: BuildRequest, state: BuildState)
    requires
        next_turn(request, state) is Configure,
    ensures
        request.plugins@.len() > 0,
        next_turn(request, state) == Turn::Configure(
            state.configured as int / request.plugins@.len() as int,
            state.configured as int % request.plugins@.len() as int,
        ),
        state.configured as int / request.plugins@.len() as int >= 0,
        (state.configured as int / request.plugins@.len() as int) < request.modules@.len(),
{
    lemma_evaluating_turns(request, state.evaluations@, 0);
    lemma_preparing_turns(request, state.evaluations@, state.resolutions@, 0);
    let count = request.plugins@.len() as int;
    vstd::arithmetic::div_mod::lemma_div_pos_is_pos(state.configured as int, count);
}

proof fn lemma_finish_turn(request: BuildRequest, state: BuildState)
    requires
        next_turn(request, state) is Finish,
        are_hashed(request, state),
    ensures
        state.hashes@.len() == request.modules@.len(),
{
    lemma_evaluating_turns(request, state.evaluations@, 0);
    lemma_preparing_turns(request, state.evaluations@, state.resolutions@, 0);
}

proof fn lemma_evaluating_turns(request: BuildRequest, evaluations: Seq<Evaluation>, from: int)
    ensures
        evaluating(request, evaluations, from) matches Some(turn) ==> turn is Evaluate
            || turn is Failed,
    decreases request.modules@.len() - from,
{
    if from < request.modules@.len() {
        lemma_evaluating_turns(request, evaluations, from + 1);
    }
}

proof fn lemma_preparing_turns(
    request: BuildRequest,
    evaluations: Seq<Evaluation>,
    resolutions: Seq<Resolutions>,
    from: int,
)
    ensures
        preparing(request, evaluations, resolutions, from) matches Some(turn) ==> turn is ResolveOwn
            || turn is ResolveSet || turn is Failed,
    decreases request.modules@.len() - from,
{
    if from < request.modules@.len() {
        lemma_preparing_turns(request, evaluations, resolutions, from + 1);
    }
}

/// Nothing is resolved before every module is evaluated, and no plugin is
/// configured before every module is prepared.
pub proof fn law_modules_come_before_plugins(request: BuildRequest, state: BuildState)
    ensures
        next_turn(request, state) is Configure || next_turn(request, state) is Finish
            ==> evaluating(request, state.evaluations@, 0) is None && preparing(
            request,
            state.evaluations@,
            state.resolutions@,
            0,
        ) is None,
        next_turn(request, state) is ResolveOwn || next_turn(request, state) is ResolveSet
            ==> evaluating(request, state.evaluations@, 0) is None,
{
    lemma_evaluating_turns(request, state.evaluations@, 0);
    lemma_preparing_turns(request, state.evaluations@, state.resolutions@, 0);
}

/// The plugins are configured in order: after plugin `p` of module `m` comes
/// the next plugin of the module, or else the first of the next module.
pub proof fn law_plugins_in_order(request: BuildRequest, before: BuildState, after: BuildState)
    requires
        request.plugins@.len() > 0,
        after.configured == before.configured + 1,
    ensures
        ({
            let count = request.plugins@.len() as int;
            let m = before.configured as int / count;
            let p = before.configured as int % count;
            if p + 1 < count {
                after.configured as int / count == m && after.configured as int % count == p + 1
            } else {
                after.configured as int / count == m + 1 && after.configured as int % count == 0
            }
        }),
{
    let count = request.plugins@.len() as int;
    let k = before.configured as int;
    let m = k / count;
    let p = k % count;
    assert(k == count * m + p) by (nonlinear_arith)
        requires
            count > 0,
            m == k / count,
            p == k % count,
    ;
    assert(0 <= p < count) by (nonlinear_arith)
        requires
            count > 0,
            p == k % count,
    ;
    if p + 1 < count {
        vstd::arithmetic::div_mod::lemma_fundamental_div_mod_converse(k + 1, count, m, p + 1);
    } else {
        assert(k + 1 == count * (m + 1)) by (nonlinear_arith)
            requires
                k == count * m + p,
                p + 1 == count,
        ;
        vstd::arithmetic::div_mod::lemma_fundamental_div_mod_converse(k + 1, count, m + 1, 0);
    }
}

/// As long as no plugin is configured, no digest is recorded.
pub proof fn law_nothing_is_hashed_at_first(request: BuildRequest, state: BuildState)
    requires
        request.plugins@.len() > 0,
        state.configured == 0,
        state.hashes@.len() == 0,
    ensures
        are_hashed(request, state),
{
    let count = request.plugins@.len() as int;
    vstd::arithmetic::div_mod::lemma_small_mod(0, count as nat);
    vstd::arithmetic::div_mod::lemma_basic_div(0, count);
}

} // verus!
