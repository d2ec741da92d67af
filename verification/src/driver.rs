//! The build driver: from a project's evaluated modules to the task graph that
//! is executed.
//!
//! [`build_project`] is the boundary between the module models and the
//! task engine: it tells, step by step, which module to evaluate, which
//! dependencies to resolve and which plugin to configure with what, until the
//! task graphs that the plugins registered are merged into one build.
//!
//! The module model is handed to each plugin whole rather than sliced per
//! plugin, because a plugin owns only the keys it recognizes and must be
//! free to read the configuration it is declared for. Paths inside those keys
//! are interpreted by the plugin, which is the only party that knows which
//! keys are paths.

use vstd::prelude::*;
use crate::maven::{MavenRepo, Resolver};
use crate::registry::RegistrySource;
use crate::task::{AllowlistedTool, Executor, GraphError};
use crate::task::graph;
use crate::text;

pub mod build_laws;
pub mod classpath;
pub mod config;
pub mod config_laws;
pub mod course;
pub mod course_laws;
pub mod dependency_laws;
pub mod deps;
pub mod linking_laws;
pub mod model;
pub mod model_laws;
pub mod modules;
pub mod order_laws;
pub mod plugin_laws;
pub mod plugins;
pub mod preparation_laws;
pub mod reference_laws;
pub mod setting_laws;

pub use crate::driver::course::{
    build_project, resolve_project_deps, resolve_project_source_sets, BuildRequest, BuildState,
    BuildStep,
};
pub use crate::driver::config::{android_sdk_root, checked_sdk_root};

verus! {

/// The registry index consulted when [`BuildOptions`] does not name one.
pub const DEFAULT_REGISTRY: &'static str =
    "https://raw.githubusercontent.com/Ulite-Team/ulb-plugins/main/registry/index.json";

/// Options for a build.
#[derive(Debug, PartialEq, Eq)]
pub struct BuildOptions {
    /// Registry source for resolving the project's plugins. `None` uses
    /// [`DEFAULT_REGISTRY`].
    pub registry: Option<RegistrySource>,
    /// Cache directory for resolved plugin artifacts. `None` uses the
    /// registry's default cache location.
    pub cache_dir: Option<String>,
    /// Repositories for resolving the project's `deps {}` block. `None`
    /// uses Google Maven then Maven Central.
    pub repos: Option<Vec<MavenRepo>>,
    /// An explicit Android SDK root, injected into each plugin's
    /// configuration as `androidSdkDir`. `None` probes the environment
    /// (`ANDROID_HOME`, then `ANDROID_SDK_ROOT`, then `~/Android/Sdk`);
    /// when none of those resolves to an existing directory the key is
    /// omitted and a plugin that needs it must be given the root another
    /// way (e.g. its own module block).
    pub android_sdk: Option<String>,
}

/// The registry source a build uses.
pub open spec fn is_registry(source: RegistrySource, chosen: Option<RegistrySource>) -> bool {
    match chosen {
        Some(given) => source == given,
        None => source matches RegistrySource::Url(url) && url@ == DEFAULT_REGISTRY@,
    }
}

/// The registry source to use: the one that was chosen, or the default index.
pub fn registry_source(chosen: Option<RegistrySource>) -> (source: RegistrySource)
    ensures
        is_registry(source, chosen),
{
    match chosen {
        Some(source) => source,
        None => RegistrySource::Url(DEFAULT_REGISTRY.to_owned()),
    }
}

/// Whether a list of repositories is those that `settings.ulb` adds, in their
/// order, and then the others.
pub open spec fn are_repos(
    repos: Seq<MavenRepo>,
    extra: Seq<Seq<char>>,
    others: Seq<MavenRepo>,
) -> bool {
    &&& repos.len() == extra.len() + others.len()
    &&& forall|i: int|
        0 <= i < extra.len() ==> (#[trigger] repos[i] matches MavenRepo::Custom(url) && url@
            == extra[i])
    &&& repos.skip(extra.len() as int) == others
}

/// The repositories of a build: those that `settings.ulb` adds come first, in
/// their order, then the chosen ones, or else Google Maven and Maven Central.
pub fn build_repos(chosen: Option<Vec<MavenRepo>>, extra: &Vec<String>) -> (repos: Vec<MavenRepo>)
    ensures
        are_repos(
            repos@,
            text::texts(extra@),
            match chosen {
                Some(list) => list@,
                None => seq![MavenRepo::Google, MavenRepo::Central],
            },
        ),
{
    let mut others = match chosen {
        Some(list) => list,
        None => Resolver::default_repos(),
    };
    let ghost last = others@;
    let mut repos: Vec<MavenRepo> = Vec::new();
    let mut i: usize = 0;
    while i < extra.len()
        invariant
            i <= extra@.len(),
            repos@.len() == i,
            forall|j: int|
                0 <= j < i ==> (#[trigger] repos@[j] matches MavenRepo::Custom(url) && url@
                    == extra@[j]@),
        decreases extra.len() - i,
    {
        repos.push(MavenRepo::Custom(extra[i].clone()));
        i += 1;
    }
    let ghost first = repos@;
    repos.append(&mut others);
    assert(repos@.skip(first.len() as int) == last);
    repos
}

/// The executor of a build, with every tool of the core allowlisted.
pub fn build_executor() -> (executor: Executor)
    ensures
        forall|tool: AllowlistedTool| #[trigger] executor.tools@.contains(tool),
{
    let mut tools: Vec<AllowlistedTool> = Vec::new();
    tools.push(AllowlistedTool::Copy);
    tools.push(AllowlistedTool::Cat);
    tools.push(AllowlistedTool::Mkdir);
    tools.push(AllowlistedTool::Echo);
    tools.push(AllowlistedTool::Javac);
    tools.push(AllowlistedTool::Kotlinc);
    tools.push(AllowlistedTool::Jar);
    tools.push(AllowlistedTool::Java);
    tools.push(AllowlistedTool::Aapt2);
    tools.push(AllowlistedTool::Apksigner);
    let ghost all = tools@;
    proof {
        assert(all[0] == AllowlistedTool::Copy && all[1] == AllowlistedTool::Cat && all[2]
            == AllowlistedTool::Mkdir && all[3] == AllowlistedTool::Echo && all[4]
            == AllowlistedTool::Javac && all[5] == AllowlistedTool::Kotlinc && all[6]
            == AllowlistedTool::Jar && all[7] == AllowlistedTool::Java && all[8]
            == AllowlistedTool::Aapt2 && all[9] == AllowlistedTool::Apksigner);
    }
    Executor::new(tools)
}

/// Where a build keeps its fingerprints: `.uliab/state.json` in the project.
pub fn state_path(dir: &str) -> (path: String)
    ensures
        path@ == text::path_text(text::path_text(dir@, ".uliab"@), "state.json"@),
{
    text::join_path(&text::join_path(dir, ".uliab"), "state.json")
}

/// The error of a build whose graph cannot be scheduled.
pub fn scheduling_error(error: &GraphError) -> (message: String)
    ensures
        message@ == "scheduling the build: "@ + graph::fault_text(error@),
{
    "scheduling the build: ".to_owned().concat(&error.message())
}

} // verus!
