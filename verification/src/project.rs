//! What the tool layer takes from a project's files.
//!
//! The registry client needs the plugin table of a project's `libs.ulb`: the
//! `plugins { NAME = "vendor/name" @ refOrString }` declarations. The driver
//! needs the modules that `settings.ulb` declares. Reading and evaluating the
//! files is up to the caller; this module decides what they amount to.

use vstd::prelude::*;
use crate::registry;
use crate::registry::{PluginSpec, Wish};
use crate::text;
use crate::text_map::TextMap;
use crate::value::Value;

verus! {

/// What was found of a `libs.ulb`.
#[derive(Debug, PartialEq, Eq)]
pub enum LibsSource {
    /// The file cannot be read.
    Unreadable(String),
    /// The file was parsed.
    Parsed {
        /// What parsing reported.
        parse_errors: Vec<String>,
        /// What collecting its definitions reported.
        evaluation_errors: Vec<String>,
        /// The entries of `plugins {}`, by alias.
        plugins: TextMap<Value>,
    },
}

/// The `plugins {}` table lifted from a project's `libs.ulb`.
#[derive(Debug, PartialEq, Eq)]
pub struct ProjectPlugins {
    /// Path of the `libs.ulb` the entries came from.
    pub libs_path: String,
    /// One spec per `plugins {}` entry, sorted by alias name.
    pub plugins: Vec<PluginSpec>,
}

/// Plugin references as specification values.
pub open spec fn wishes(list: Seq<PluginSpec>) -> Seq<Wish> {
    Seq::new(list.len(), |i: int| list[i]@)
}

/// The plugins that the first `n` entries of a table refer to, or what is
/// wrong with the first of them that refers to none.
pub open spec fn table_wishes(
    libs_path: Seq<char>,
    entries: Seq<(String, Value)>,
    n: int,
) -> Result<Seq<Wish>, Seq<char>>
    decreases n,
{
    if n <= 0 {
        Ok(Seq::empty())
    } else {
        match table_wishes(libs_path, entries, n - 1) {
            Err(message) => Err(message),
            Ok(before) => match registry::wish_of(entries[n - 1].1) {
                Ok(wish) => Ok(before.push(wish)),
                Err(message) => Err(
                    libs_path + ": plugin '"@ + entries[n - 1].0@ + "': "@ + message,
                ),
            },
        }
    }
}

/// The plugins a project declares.
pub open spec fn declared_plugins(dir: Seq<char>, source: LibsSource) -> Result<
    Seq<Wish>,
    Seq<char>,
> {
    let path = text::path_text(dir, "libs.ulb"@);
    match source {
        LibsSource::Unreadable(cause) => Err("no libs.ulb in "@ + dir + ": "@ + cause@),
        LibsSource::Parsed { parse_errors, evaluation_errors, plugins } => if parse_errors@.len()
            > 0 {
            Err(
                path + " has parse errors: "@ + text::join_text(
                    text::texts(parse_errors@),
                    "; "@,
                ),
            )
        } else if evaluation_errors@.len() > 0 {
            Err(
                path + " has evaluation errors: "@ + text::join_text(
                    text::texts(evaluation_errors@),
                    "; "@,
                ),
            )
        } else {
            table_wishes(path, plugins.entries@, plugins.entries@.len() as int)
        },
    }
}

proof fn lemma_table_err(libs_path: Seq<char>, entries: Seq<(String, Value)>, m: int, n: int)
    requires
        0 <= m <= n,
        table_wishes(libs_path, entries, m) is Err,
    ensures
        table_wishes(libs_path, entries, n) == table_wishes(libs_path, entries, m),
    decreases n,
{
    if m < n {
        lemma_table_err(libs_path, entries, m, n - 1);
    }
}

/// Extracts the `plugins {}` declarations of `<dir>/libs.ulb`.
///
/// # Errors
///
/// Returns an error when `dir` has no `libs.ulb`, when the file has parse
/// errors (the entries would be untrustworthy), or when an entry is not a
/// plugin reference.
pub fn read_libs_plugins(dir: &str, source: &LibsSource) -> (result: Result<ProjectPlugins, String>)
    ensures
        match declared_plugins(dir@, *source) {
            Ok(plugins) => result matches Ok(project) && project.libs_path@ == text::path_text(
                dir@,
                "libs.ulb"@,
            ) && wishes(project.plugins@) == plugins,
            Err(message) => result matches Err(error) && error@ == message,
        },
{
    let libs_path = text::join_path(dir, "libs.ulb");
    let entries = match source {
        LibsSource::Unreadable(cause) => {
            return Err("no libs.ulb in ".to_owned().concat(dir).concat(": ").concat(cause));
        },
        LibsSource::Parsed { parse_errors, evaluation_errors, plugins } => {
            if parse_errors.len() > 0 {
                return Err(
                    libs_path.concat(" has parse errors: ").concat(&text::join(parse_errors, "; ")),
                );
            }
            if evaluation_errors.len() > 0 {
                return Err(
                    libs_path.concat(" has evaluation errors: ").concat(
                        &text::join(evaluation_errors, "; "),
                    ),
                );
            }
            &plugins.entries
        },
    };
    let mut plugins: Vec<PluginSpec> = Vec::new();
    let mut i: usize = 0;
    assert(wishes(plugins@) == Seq::<Wish>::empty());
    while i < entries.len()
        invariant
            libs_path@ == text::path_text(dir@, "libs.ulb"@),
            declared_plugins(dir@, *source) == table_wishes(
                libs_path@,
                entries@,
                entries@.len() as int,
            ),
            i <= entries@.len(),
            table_wishes(libs_path@, entries@, i as int) == Ok::<Seq<Wish>, Seq<char>>(
                wishes(plugins@),
            ),
        decreases entries.len() - i,
    {
        let ghost was = plugins@;
        match PluginSpec::from_value(&entries[i].1) {
            Ok(spec) => {
                plugins.push(spec);
                assert(wishes(plugins@) == wishes(was).push(spec@));
            },
            Err(message) => {
                proof {
                    lemma_table_err(libs_path@, entries@, i + 1, entries@.len() as int);
                }
                return Err(
                    libs_path.concat(": plugin '").concat(&entries[i].0).concat("': ").concat(
                        &message,
                    ),
                );
            },
        }
        i += 1;
    }
    Ok(ProjectPlugins { libs_path, plugins })
}

/// A plugin reference as it is labelled: `name@version`, or the name and that
/// it has no version.
pub open spec fn label_text(wish: Wish) -> Seq<char> {
    match wish.version {
        Some(version) => wish.name + "@"@ + version,
        None => wish.name + " (unversioned)"@,
    }
}

/// Renders a spec for CLI output, e.g. `ulite/hello (unversioned)`.
#[must_use]
pub fn spec_label(spec: &PluginSpec) -> (label: String)
    ensures
        label@ == label_text(spec@),
{
    match &spec.version {
        Some(version) => spec.name.clone().concat("@").concat(version),
        None => spec.name.clone().concat(" (unversioned)"),
    }
}

/// What a `settings.ulb` declares.
#[derive(Debug, PartialEq, Eq)]
pub struct SettingsModel {
    /// The name of the project.
    pub project_name: Option<String>,
    /// The paths of the modules.
    pub modules: Vec<String>,
    /// Repositories that are tried before the others.
    pub extra_repos: Vec<String>,
    /// Whether editors are to be served in compatibility mode.
    pub lsp_compat: bool,
}

/// What was found of a `settings.ulb`.
#[derive(Debug, PartialEq, Eq)]
pub enum SettingsSource {
    /// There is no such file.
    Missing,
    /// The file cannot be read.
    Unreadable(String),
    /// The file was evaluated.
    Evaluated {
        /// What evaluating reported.
        diagnostics: Vec<String>,
        /// What it declares.
        model: SettingsModel,
    },
}

/// Resolved project settings from `settings.ulb`: what the file declares and
/// the absolute module directories, so the driver can iterate modules without
/// re-resolving paths.
#[derive(Debug, PartialEq, Eq)]
pub struct ProjectSettings {
    /// What the file declares (project name, module paths, extra repos,
    /// lspCompat flag).
    pub model: SettingsModel,
    /// Absolute paths to each module's root directory, derived by joining
    /// the project root with each `module "path"` declaration.
    pub module_dirs: Vec<String>,
    /// The project root directory these settings were read from.
    pub project_dir: String,
}

/// What is wrong with the path of a module, where anything is.
pub open spec fn module_fault(path: Seq<char>) -> Option<Seq<char>> {
    if text::is_absolute_text(path) {
        Some("module '"@ + path + "' must be a relative path (no leading '/')"@)
    } else if text::has_text(path, ".."@) {
        Some("module '"@ + path + "' must not contain '..' segments"@)
    } else {
        None
    }
}

/// What is wrong with the first faulty module from `from` on.
pub open spec fn modules_fault(modules: Seq<Seq<char>>, from: int) -> Option<Seq<char>>
    decreases modules.len() - from,
{
    if from >= modules.len() {
        None
    } else {
        match module_fault(modules[from]) {
            Some(message) => Some(message),
            None => modules_fault(modules, from + 1),
        }
    }
}

/// What is wrong with a `settings.ulb`, where anything is.
pub open spec fn settings_fault(dir: Seq<char>, source: SettingsSource) -> Option<Seq<char>> {
    let path = text::path_text(dir, "settings.ulb"@);
    match source {
        SettingsSource::Missing => None,
        SettingsSource::Unreadable(cause) => Some("reading "@ + path + ": "@ + cause@),
        SettingsSource::Evaluated { diagnostics, model } => if diagnostics@.len() > 0 {
            Some(path + ": "@ + text::join_text(text::texts(diagnostics@), "; "@))
        } else if model.modules@.len() == 0 {
            Some(
                path
                    + " declares no modules; add at least one 'module \"path\"' declaration"@,
            )
        } else {
            modules_fault(text::texts(model.modules@), 0)
        },
    }
}

/// The directories of modules.
pub open spec fn dirs_of(dir: Seq<char>, modules: Seq<Seq<char>>) -> Seq<Seq<char>> {
    Seq::new(modules.len(), |i: int| text::path_text(dir, modules[i]))
}

/// Takes the settings of the project at `dir` from its `settings.ulb`. `here` is
/// the current directory, which a relative `dir` is seen from.
///
/// Returns `Ok(None)` when the file does not exist — a project without
/// `settings.ulb` is a single-module project, not an error. Returns errors
/// for parse failures, evaluation diagnostics, or missing `module`
/// declarations in a file that exists.
///
/// # Errors
///
/// Returns an error when `settings.ulb` exists but cannot be read, has parse
/// or evaluation errors, declares no modules, or declares one outside the
/// project.
pub fn read_settings(dir: &str, here: &str, source: SettingsSource) -> (result: Result<
    Option<ProjectSettings>,
    String,
>)
    ensures
        match settings_fault(dir@, source) {
            Some(message) => result matches Err(error) && error@ == message,
            None => match source {
                SettingsSource::Evaluated { diagnostics, model } => result matches Ok(
                    Some(settings),
                ) && settings.model == model && settings.project_dir@ == dir@ && text::texts(
                    settings.module_dirs@,
                ) == dirs_of(text::path_text(here@, dir@), text::texts(model.modules@)),
                _ => result == Ok::<Option<ProjectSettings>, String>(None),
            },
        },
{
    let settings_path = text::join_path(dir, "settings.ulb");
    let model = match source {
        SettingsSource::Missing => return Ok(None),
        SettingsSource::Unreadable(cause) => {
            return Err("reading ".to_owned().concat(&settings_path).concat(": ").concat(&cause));
        },
        SettingsSource::Evaluated { diagnostics, model } => {
            if diagnostics.len() > 0 {
                return Err(settings_path.concat(": ").concat(&text::join(&diagnostics, "; ")));
            }
            model
        },
    };
    if model.modules.len() == 0 {
        return Err(
            settings_path.concat(
                " declares no modules; add at least one 'module \"path\"' declaration",
            ),
        );
    }
    let root = text::join_path(here, dir);
    let ghost modules = text::texts(model.modules@);
    let ghost all = dirs_of(root@, modules);
    let mut module_dirs: Vec<String> = Vec::new();
    let mut i: usize = 0;
    assert(text::texts(module_dirs@) == all.take(0));
    while i < model.modules.len()
        invariant
            modules == text::texts(model.modules@),
            all == dirs_of(root@, modules),
            settings_fault(dir@, source) == modules_fault(modules, 0),
            i <= model.modules@.len(),
            modules_fault(modules, 0) == modules_fault(modules, i as int),
            text::texts(module_dirs@) == all.take(i as int),
        decreases model.modules.len() - i,
    {
        let path = &model.modules[i];
        assert(modules[i as int] == path@);
        if text::is_absolute(path) {
            return Err(
                "module '".to_owned().concat(path).concat(
                    "' must be a relative path (no leading '/')",
                ),
            );
        }
        if text::contains(path, "..") {
            return Err(
                "module '".to_owned().concat(path).concat("' must not contain '..' segments"),
            );
        }
        let ghost was = module_dirs@;
        let module_dir = text::join_path(&root, path);
        module_dirs.push(module_dir);
        assert(text::texts(module_dirs@) == text::texts(was).push(module_dir@));
        assert(all.take(i + 1) == all.take(i as int).push(all[i as int]));
        i += 1;
    }
    assert(all.take(i as int) == all);
    Ok(Some(ProjectSettings { model, module_dirs, project_dir: dir.to_owned() }))
}

proof fn lemma_modules_fine(modules: Seq<Seq<char>>, from: int, i: int)
    requires
        0 <= from <= i < modules.len(),
        modules_fault(modules, from) is None,
    ensures
        module_fault(modules[i]) is None,
    decreases i - from,
{
    if from < i {
        lemma_modules_fine(modules, from + 1, i);
    }
}

/// The modules of a project lie below its root: where settings are accepted,
/// the directory of each module is absolute, starts with the project directory
/// as it is seen from the current one and goes on with the declared path, which
/// has no `..` in it.
pub proof fn law_modules_stay_in_the_project(
    dir: Seq<char>,
    here: Seq<char>,
    modules: Seq<Seq<char>>,
    i: int,
)
    requires
        text::is_absolute_text(here),
        modules_fault(modules, 0) is None,
        0 <= i < modules.len(),
    ensures
        text::is_absolute_text(dirs_of(text::path_text(here, dir), modules)[i]),
        text::path_text(here, dir).is_prefix_of(dirs_of(text::path_text(here, dir), modules)[i]),
        modules[i].is_suffix_of(dirs_of(text::path_text(here, dir), modules)[i]),
        !text::has_text(modules[i], ".."@),
{
    lemma_modules_fine(modules, 0, i);
    let root = text::path_text(here, dir);
    let path = dirs_of(root, modules)[i];
    assert(text::is_absolute_text(root));
    assert(path.subrange(0, root.len() as int) == root);
    assert(path.subrange(path.len() - modules[i].len(), path.len() as int) == modules[i]);
}

} // verus!
