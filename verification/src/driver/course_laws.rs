//! The course of a build: what is done in which order, what modules offer each
//! other, and what their plugins are told.

use vstd::prelude::*;
use crate::driver::config;
use crate::driver::course;
use crate::driver::course::{
    BuildRequest, BuildState, Configuration, Evaluation, PluginOutcome, Resolutions, Turn,
};
use crate::driver::deps;
use crate::driver::model;
use crate::driver::modules::{PrepState, Prepared};
use crate::driver::plugin_laws;
use crate::driver::plugins::Plan;
use crate::driver::setting_laws;
use crate::json::Json;
use crate::maven;
use crate::task::graph;
use crate::text;
use crate::text_map::TextMap;

verus! {

/// Whether no two modules have the same path.
pub open spec fn are_distinct(request: BuildRequest) -> bool {
    forall|i: int, j: int|
        0 <= i < j < request.modules@.len() ==> (#[trigger] request.modules@[i]).rel@ != (
        #[trigger] request.modules@[j]).rel@
}

proof fn lemma_outputs(request: BuildRequest, evaluations: Seq<Evaluation>, n: int, m: int)
    requires
        are_distinct(request),
        0 <= n <= request.modules@.len(),
        0 <= m < request.modules@.len(),
    ensures
        ({
            let outputs = course::outputs_of(request, evaluations, n);
            let rel = request.modules@[m].rel@;
            match config::output_of(evaluations[m]->model, request.modules@[m].dir@) {
                Some(output) => (outputs.contains_key(rel) <==> m < n) && (m < n ==> outputs[rel]
                    == output),
                None => !outputs.contains_key(rel),
            }
        }),
    decreases n,
{
    if n > 0 {
        lemma_outputs(request, evaluations, n - 1, m);
        if m < n - 1 {
            assert(request.modules@[m].rel@ != request.modules@[n - 1].rel@);
        } else if m > n - 1 {
            assert(request.modules@[n - 1].rel@ != request.modules@[m].rel@);
        }
    }
}

proof fn lemma_only_outputs(request: BuildRequest, evaluations: Seq<Evaluation>, n: int)
    requires
        0 <= n <= request.modules@.len(),
    ensures
        forall|name: Seq<char>| #[trigger]
            course::outputs_of(request, evaluations, n).contains_key(name) ==> exists|m: int|
                0 <= m < n && name == (#[trigger] request.modules@[m]).rel@,
    decreases n,
{
    if n > 0 {
        lemma_only_outputs(request, evaluations, n - 1);
        let before = course::outputs_of(request, evaluations, n - 1);
        assert forall|name: Seq<char>| #[trigger]
            course::outputs_of(request, evaluations, n).contains_key(name) implies exists|m: int|
            0 <= m < n && name == (#[trigger] request.modules@[m]).rel@ by {
            if before.contains_key(name) {
                let m = choose|m: int| 0 <= m < n - 1 && name == (#[trigger] request.modules@[m]).rel@;
                assert(name == request.modules@[m].rel@);
            } else {
                assert(name == request.modules@[n - 1].rel@);
            }
        }
    }
}

proof fn lemma_apis(
    request: BuildRequest,
    prepared: Seq<Prepared>,
    n: int,
    m: int,
)
    requires
        are_distinct(request),
        0 <= m < n <= request.modules@.len(),
    ensures
        course::apis_of(request, prepared, n).contains_key(request.modules@[m].rel@),
        course::apis_of(request, prepared, n)[request.modules@[m].rel@]
            == prepared[m].classpath.api,
    decreases n,
{
    if m < n - 1 {
        lemma_apis(request, prepared, n - 1, m);
        assert(request.modules@[m].rel@ != request.modules@[n - 1].rel@);
    }
}

/// Every module of a project can be referred to by its path: it offers its output
/// where it has one, and the jars it shows. No other names are known.
pub proof fn law_modules_are_offered_by_their_paths(
    request: BuildRequest,
    evaluations: Seq<Evaluation>,
    resolutions: Seq<Resolutions>,
    m: int,
    name: Seq<char>,
)
    requires
        are_distinct(request),
        0 <= m < request.modules@.len(),
    ensures
        ({
            let offers = course::offers_of(request, evaluations, resolutions);
            let module = request.modules@[m];
            &&& offers.modules.contains(module.rel@)
            &&& match config::output_of(evaluations[m]->model, module.dir@) {
                Some(output) => offers.outputs.contains_key(module.rel@)
                    && offers.outputs[module.rel@] == output,
                None => !offers.outputs.contains_key(module.rel@),
            }
            &&& offers.apis.contains_key(module.rel@)
            &&& offers.apis[module.rel@] == course::prep_at(
                request,
                evaluations,
                resolutions,
                m,
            )->Ready_0.classpath.api
            &&& offers.modules.contains(name) || offers.outputs.contains_key(name)
                ==> exists|i: int|
                0 <= i < request.modules@.len() && name == (#[trigger] request.modules@[i]).rel@
        }),
{
    let n = request.modules@.len() as int;
    let offers = course::offers_of(request, evaluations, resolutions);
    assert(offers.modules[m] == request.modules@[m].rel@);
    lemma_outputs(request, evaluations, n, m);
    lemma_apis(request, course::all_prepared(request, evaluations, resolutions), n, m);
    lemma_only_outputs(request, evaluations, n);
    if offers.modules.contains(name) {
        let i = choose|i: int| 0 <= i < offers.modules.len() && offers.modules[i] == name;
        assert(name == request.modules@[i].rel@);
    }
}

/// Whether a request can be followed: its plugins are known, there are some, and
/// the SDK that was asked for exists.
pub open spec fn can_be_followed(request: BuildRequest) -> bool {
    request.libs_fault is None && request.plugins@.len() > 0 && request.sdk is Ok
}

proof fn lemma_evaluating(request: BuildRequest, evaluations: Seq<Evaluation>, from: int, k: int)
    requires
        0 <= from <= k <= request.modules@.len(),
        k <= evaluations.len(),
        forall|i: int| from <= i < k ==> #[trigger] evaluations[i] is Model,
    ensures
        course::evaluating(request, evaluations, from) == course::evaluating(
            request,
            evaluations,
            k,
        ),
    decreases k - from,
{
    if from < k {
        assert(evaluations[from] is Model);
        lemma_evaluating(request, evaluations, from + 1, k);
    }
}

/// The modules are evaluated in order before anything else is done, and the first
/// that cannot be evaluated ends the build.
pub proof fn law_modules_are_evaluated_in_order(request: BuildRequest, state: BuildState, k: int)
    requires
        can_be_followed(request),
        0 <= k < request.modules@.len(),
        k <= state.evaluations@.len(),
        forall|i: int| 0 <= i < k ==> #[trigger] state.evaluations@[i] is Model,
    ensures
        k == state.evaluations@.len() ==> course::next_turn(request, state) == Turn::Evaluate(k),
        k < state.evaluations@.len() && !(state.evaluations@[k] is Model) ==> course::next_turn(
            request,
            state,
        ) is Failed,
{
    lemma_evaluating(request, state.evaluations@, 0, k);
}

/// A build without plugins, or whose SDK does not exist, never gets to the
/// plugins; of several modules none is even evaluated.
pub proof fn law_faulty_requests_are_refused(request: BuildRequest, state: BuildState)
    requires
        !can_be_followed(request),
    ensures
        !(course::next_turn(request, state) is Configure),
        !(course::next_turn(request, state) is Finish),
        request.several ==> course::next_turn(request, state) is Failed,
{
    course::law_modules_come_before_plugins(request, state);
}

/// Once all modules are prepared, every plugin is configured for every module,
/// module by module; when all are, the build is finished.
pub proof fn law_every_plugin_is_configured_for_every_module(
    request: BuildRequest,
    state: BuildState,
    m: int,
    p: int,
)
    requires
        can_be_followed(request),
        course::evaluating(request, state.evaluations@, 0) is None,
        course::preparing(request, state.evaluations@, state.resolutions@, 0) is None,
        0 <= m,
        0 <= p < request.plugins@.len(),
        state.configured == m * request.plugins@.len() + p,
    ensures
        m >= request.modules@.len() ==> course::next_turn(request, state) == Turn::Finish,
        m < request.modules@.len() && course::linked_at(request, state, m) is Ok
            ==> course::next_turn(request, state) == Turn::Configure(m, p),
        m < request.modules@.len() && course::linked_at(request, state, m) is Err
            ==> course::next_turn(request, state) is Failed,
{
    let count = request.plugins@.len() as int;
    vstd::arithmetic::div_mod::lemma_fundamental_div_mod_converse(
        state.configured as int,
        count,
        m,
        p,
    );
}

/// A plugin is told the directory of the module it works on, its path where there
/// are several modules, and the SDK where there is one. Its tasks belong to it in
/// that module.
pub proof fn law_plugins_are_told_where_they_work(
    configuration: Configuration,
    request: BuildRequest,
    state: BuildState,
)
    requires
        course::is_configuration(configuration, request, state),
        request.sdk is Ok,
    ensures
        ({
            let module = request.modules@[configuration.module as int];
            let plugin = request.plugins@[configuration.plugin as int];
            &&& setting_laws::has_string(configuration.config, "projectDir"@, module.dir@)
            &&& request.several ==> setting_laws::has_string(
                configuration.config,
                "modulePath"@,
                module.rel@,
            )
            &&& text::opt_text(request.sdk->Ok_0) matches Some(root) ==> setting_laws::has_string(
                configuration.config,
                "androidSdkDir"@,
                root,
            )
            &&& configuration.owner@ == if request.several {
                module.rel@ + seq!['/'] + plugin.name@
            } else {
                plugin.name@
            }
        }),
{
    reveal_strlit("/");
    assert("/"@ =~= seq!['/']);
    let m = configuration.module as int;
    let more = course::additions_at(request, state, m);
    let members = choose|members: TextMap<Json>| #[trigger]
        model::is_json(
            Json::Object(members),
            state.evaluations@[m]->model,
        ) && config::is_config(configuration.config, members@, more);
    setting_laws::law_plugins_get_the_model_and_more(
        configuration.config,
        members@,
        more,
        Seq::empty(),
    );
}

/// The classpath that a plugin is told is that of its module with what it refers
/// to in other modules.
pub proof fn law_plugins_are_told_the_linked_classpath(
    configuration: Configuration,
    request: BuildRequest,
    state: BuildState,
)
    requires
        course::is_configuration(configuration, request, state),
        course::linked_at(request, state, configuration.module as int) is Ok,
    ensures
        configuration.config@.contains_key("classpath"@),
        maven::is_classpath_json(
            configuration.config@["classpath"@],
            course::linked_at(request, state, configuration.module as int)->Ok_0.classpath,
        ),
{
    let m = configuration.module as int;
    let more = course::additions_at(request, state, m);
    let members = choose|members: TextMap<Json>| #[trigger]
        model::is_json(
            Json::Object(members),
            state.evaluations@[m]->model,
        ) && config::is_config(configuration.config, members@, more);
    setting_laws::law_plugins_get_the_model_and_more(
        configuration.config,
        members@,
        more,
        Seq::empty(),
    );
}

/// References to other modules are for projects of several modules: a module that
/// stands alone is refused for them, one of several is not.
pub proof fn law_references_are_for_several_modules(
    request: BuildRequest,
    evaluations: Seq<Evaluation>,
    resolutions: Seq<Resolutions>,
    m: int,
)
    ensures
        ({
            let value = evaluations[m]->model;
            let shown = text::opt_text(evaluations[m]->shown);
            let ready = course::prep_at(request, evaluations, resolutions, m);
            &&& !request.several && deps::ref_fault(value) is Some ==> ready is Failed
            &&& request.several && value is Block && model::fault_of(value) is None
                && deps::compose_of(value, shown) is Ok && deps::model_deps_of(value, shown) is Ok
                && deps::member(value, "deps"@) is Some && course::own_at(resolutions, m) is None
                ==> ready == PrepState::ResolveOwn(deps::model_deps_of(value, shown)->Ok_0)
        }),
{
}

/// A plugin that was configured joins the plan under its name and its version,
/// with the path of the module before them where there are several; one that could
/// not be resolved or configured ends the build.
pub proof fn law_configured_plugins_join_the_plan(
    request: BuildRequest,
    plan: Plan,
    m: int,
    p: int,
    outcome: PluginOutcome,
)
    requires
        0 <= m,
        0 <= p < request.plugins@.len(),
        outcome matches PluginOutcome::Configured(configured) ==> graph::distinct_keys(
            plan.tasks + configured.graph.entries@,
        ),
    ensures
        ({
            let result = course::plan_with(
                request,
                plan,
                m * request.plugins@.len() + p,
                outcome,
            );
            match outcome {
                PluginOutcome::Configured(configured) => match result {
                    Ok(after) => {
                        let label = configured.name@ + seq!['@'] + configured.version@;
                        &&& after.tasks == plan.tasks + configured.graph.entries@
                        &&& after.names == plan.names.push(configured.name@)
                        &&& after.versions == plan.versions.push(
                            if request.several {
                                request.modules@[m].rel@ + seq!['/'] + label
                            } else {
                                label
                            },
                        )
                    },
                    Err(_) => !plugin_laws::declares_all(
                        text::texts(configured.dependencies@),
                        configured.graph.entries@,
                    ),
                },
                _ => result is Err,
            }
        }),
{
    let count = request.plugins@.len() as int;
    vstd::arithmetic::div_mod::lemma_fundamental_div_mod_converse(m * count + p, count, m, p);
    if let PluginOutcome::Configured(configured) = outcome {
        let module = if request.several {
            Some(request.modules@[m].rel@)
        } else {
            None
        };
        plugin_laws::law_plugins_join_a_build(
            plan,
            module,
            course::plugin_label(request, m, p),
            configured,
            Seq::empty(),
        );
        let rel = request.modules@[m].rel@;
        assert(rel + seq!['/'] + configured.name@ + seq!['@'] + configured.version@ =~= rel
            + seq!['/'] + (configured.name@ + seq!['@'] + configured.version@));
    }
}

/// The tools of a plugin may come from the SDK of the build, which is looked at
/// first, and from the one its module names.
pub proof fn law_sdk_of_the_build_comes_first(
    configuration: Configuration,
    request: BuildRequest,
    state: BuildState,
)
    requires
        course::is_configuration(configuration, request, state),
        request.sdk is Ok,
    ensures
        ({
            let roots = text::texts(configuration.sdk_roots@);
            let own = config::module_sdk(
                Json::Object(configuration.config),
                request.modules@[configuration.module as int].dir@,
            );
            &&& text::opt_text(request.sdk->Ok_0) matches Some(root) ==> roots.len() > 0 && roots[0]
                == root
            &&& own matches Some(dir) ==> text::has_path(roots, dir)
        }),
{
    let more = course::additions_at(request, state, configuration.module as int);
    setting_laws::law_both_sdks_are_allowed(
        more.sdk,
        config::module_sdk(Json::Object(configuration.config), more.dir),
    );
}

proof fn lemma_preparing(
    request: BuildRequest,
    evaluations: Seq<Evaluation>,
    resolutions: Seq<Resolutions>,
    from: int,
    k: int,
)
    requires
        0 <= from <= k <= request.modules@.len(),
        forall|i: int|
            from <= i < k ==> #[trigger] course::prep_at(request, evaluations, resolutions, i)
                is Ready,
    ensures
        course::preparing(request, evaluations, resolutions, from) == course::preparing(
            request,
            evaluations,
            resolutions,
            k,
        ),
    decreases k - from,
{
    if from < k {
        assert(course::prep_at(request, evaluations, resolutions, from) is Ready);
        lemma_preparing(request, evaluations, resolutions, from + 1, k);
    }
}

/// The modules are prepared in order: what the first that is not ready needs is
/// done next, and the first that cannot be prepared ends the build.
pub proof fn law_modules_are_prepared_in_order(request: BuildRequest, state: BuildState, k: int)
    requires
        can_be_followed(request),
        course::evaluating(request, state.evaluations@, 0) is None,
        0 <= k < request.modules@.len(),
        forall|i: int|
            0 <= i < k ==> #[trigger] course::prep_at(
                request,
                state.evaluations@,
                state.resolutions@,
                i,
            ) is Ready,
    ensures
        match course::prep_at(request, state.evaluations@, state.resolutions@, k) {
            PrepState::ResolveOwn(declared) => course::next_turn(request, state)
                == Turn::ResolveOwn(k, declared),
            PrepState::ResolveSet(declared) => course::next_turn(request, state)
                == Turn::ResolveSet(k, declared),
            PrepState::Failed(message) => course::next_turn(request, state) == Turn::Failed(message),
            PrepState::Ready(_) => true,
        },
{
    lemma_preparing(request, state.evaluations@, state.resolutions@, 0, k);
}

/// Of the faults of a request the first is reported: in a project of several
/// modules that of its plugins, at once; in one of a single module that of the
/// SDK, once the module is prepared.
pub proof fn law_first_fault_is_reported(request: BuildRequest, state: BuildState)
    ensures
        request.several ==> (request.libs_fault matches Some(message) ==> course::next_turn(
            request,
            state,
        ) == Turn::Failed(message@)),
        request.several && request.libs_fault is None && request.plugins@.len() > 0 ==> (
        request.sdk matches Err(message) ==> course::next_turn(request, state) == Turn::Failed(
            message@,
        )),
        !request.several && course::evaluating(request, state.evaluations@, 0) is None
            && course::preparing(request, state.evaluations@, state.resolutions@, 0) is None ==> (
        request.sdk matches Err(message) ==> course::next_turn(request, state) == Turn::Failed(
            message@,
        )),
        !request.several && course::evaluating(request, state.evaluations@, 0) is None
            && course::preparing(request, state.evaluations@, state.resolutions@, 0) is None
            && request.sdk is Ok ==> (request.libs_fault matches Some(message) ==> course::next_turn(
            request,
            state,
        ) == Turn::Failed(message@)),
{
}

} // verus!
