//! The command line: what was asked for, and what is reported.

use vstd::prelude::*;
use crate::maven::{Classpath, MavenRepo, Paths};
use crate::project;
use crate::registry::{PluginSpec, RegistryError, RegistrySource, ResolvedPlugin};
use crate::registry;
use crate::task::graph;
use crate::task::{BuildResult, TaskGraph};
use crate::text;

verus! {

/// What the user asks for.
#[derive(Debug, Clone, Copy, PartialEq, Eq, Structural)]
pub enum Command {
    /// Load a component and print the result of its `run` entry point.
    Run,
    /// Print the plugins that a project declares.
    ListPlugins,
    /// Resolve every plugin that a project declares.
    ResolvePlugins,
    /// Build a project.
    Build,
    /// Resolve the dependencies of a project.
    ResolveDeps,
    /// Scaffold a project.
    Init,
    /// Nothing that is known; how `plugins` is used has to be shown.
    PluginsUsage,
    /// Nothing that is known; how `deps` is used has to be shown.
    DepsUsage,
    /// Nothing that is known.
    Usage,
}

/// The command that arguments start with, and how many of them name it.
pub open spec fn command_of(args: Seq<Seq<char>>) -> (Command, int) {
    if args.len() == 0 {
        (Command::Usage, 0)
    } else if args[0] == "run"@ {
        (Command::Run, 1)
    } else if args[0] == "build"@ {
        (Command::Build, 1)
    } else if args[0] == "init"@ {
        (Command::Init, 1)
    } else if args[0] == "plugins"@ {
        if args.len() > 1 && args[1] == "list"@ {
            (Command::ListPlugins, 2)
        } else if args.len() > 1 && args[1] == "resolve"@ {
            (Command::ResolvePlugins, 2)
        } else {
            (Command::PluginsUsage, 1)
        }
    } else if args[0] == "deps"@ {
        if args.len() > 1 && args[1] == "resolve"@ {
            (Command::ResolveDeps, 2)
        } else {
            (Command::DepsUsage, 1)
        }
    } else {
        (Command::Usage, 0)
    }
}

/// The command that the arguments start with, and how many of them name it.
pub fn parse_command(args: &Vec<String>) -> (found: (Command, usize))
    ensures
        (found.0, found.1 as int) == command_of(text::texts(args@)),
        found.1 <= args@.len(),
{
    let ghost all = text::texts(args@);
    if args.len() == 0 {
        return (Command::Usage, 0);
    }
    assert(all[0] == args@[0]@);
    let first = args[0].as_str();
    if text::str_eq(first, "run") {
        return (Command::Run, 1);
    }
    if text::str_eq(first, "build") {
        return (Command::Build, 1);
    }
    if text::str_eq(first, "init") {
        return (Command::Init, 1);
    }
    if text::str_eq(first, "plugins") {
        if args.len() > 1 {
            assert(all[1] == args@[1]@);
            if text::str_eq(args[1].as_str(), "list") {
                return (Command::ListPlugins, 2);
            }
            if text::str_eq(args[1].as_str(), "resolve") {
                return (Command::ResolvePlugins, 2);
            }
        }
        return (Command::PluginsUsage, 1);
    }
    if text::str_eq(first, "deps") {
        if args.len() > 1 {
            assert(all[1] == args@[1]@);
            if text::str_eq(args[1].as_str(), "resolve") {
                return (Command::ResolveDeps, 2);
            }
        }
        return (Command::DepsUsage, 1);
    }
    (Command::Usage, 0)
}

/// The options of a command.
#[derive(Debug, PartialEq, Eq)]
pub struct Options {
    /// `--project`: the project directory. The current directory when it is
    /// not given.
    pub project_dir: Option<String>,
    /// `--registry`: the registry index.
    pub registry: Option<String>,
    /// `--cache-dir`: the cache directory.
    pub cache_dir: Option<String>,
    /// `--repo`, as often as it is given: the Maven repositories.
    pub repos: Vec<String>,
    /// `--android-sdk`: the Android SDK root.
    pub android_sdk: Option<String>,
    /// `--type`: the type of a project to scaffold.
    pub project_type: Option<String>,
    /// Arguments that are no option, nor the value of one.
    pub unknown: Vec<String>,
}

/// What [`Options`] hold.
pub struct Choices {
    /// `--project`.
    pub project_dir: Option<Seq<char>>,
    /// `--registry`.
    pub registry: Option<Seq<char>>,
    /// `--cache-dir`.
    pub cache_dir: Option<Seq<char>>,
    /// `--repo`.
    pub repos: Seq<Seq<char>>,
    /// `--android-sdk`.
    pub android_sdk: Option<Seq<char>>,
    /// `--type`.
    pub project_type: Option<Seq<char>>,
    /// Arguments that are no option, nor the value of one.
    pub unknown: Seq<Seq<char>>,
}

impl View for Options {
    type V = Choices;

    open spec fn view(&self) -> Choices {
        Choices {
            project_dir: text::opt_text(self.project_dir),
            registry: text::opt_text(self.registry),
            cache_dir: text::opt_text(self.cache_dir),
            repos: text::texts(self.repos@),
            android_sdk: text::opt_text(self.android_sdk),
            project_type: text::opt_text(self.project_type),
            unknown: text::texts(self.unknown@),
        }
    }
}

/// Whether an argument is an option that takes a value.
pub open spec fn is_option(flag: Seq<char>) -> bool {
    ||| flag == "--project"@
    ||| flag == "--registry"@
    ||| flag == "--cache-dir"@
    ||| flag == "--repo"@
    ||| flag == "--android-sdk"@
    ||| flag == "--type"@
}

/// The choices with an option set to a value.
pub open spec fn with_option(choices: Choices, flag: Seq<char>, value: Seq<char>) -> Choices {
    if flag == "--project"@ {
        Choices { project_dir: Some(value), ..choices }
    } else if flag == "--registry"@ {
        Choices { registry: Some(value), ..choices }
    } else if flag == "--cache-dir"@ {
        Choices { cache_dir: Some(value), ..choices }
    } else if flag == "--repo"@ {
        Choices { repos: choices.repos.push(value), ..choices }
    } else if flag == "--android-sdk"@ {
        Choices { android_sdk: Some(value), ..choices }
    } else {
        Choices { project_type: Some(value), ..choices }
    }
}

/// The choices that the arguments from `from` on make: an option takes the
/// argument behind it as its value, and counts for nothing without one. The
/// last value counts, but for `--repo`, which adds one.
pub open spec fn choices_from(args: Seq<Seq<char>>, choices: Choices, from: int) -> Choices
    decreases args.len() - from,
{
    if from >= args.len() {
        choices
    } else if !is_option(args[from]) {
        choices_from(
            args,
            Choices { unknown: choices.unknown.push(args[from]), ..choices },
            from + 1,
        )
    } else if from + 1 < args.len() {
        choices_from(args, with_option(choices, args[from], args[from + 1]), from + 2)
    } else {
        choices
    }
}

/// The choices of a command without options; the registry may come from the
/// environment.
pub open spec fn no_choices(registry: Option<Seq<char>>) -> Choices {
    Choices {
        project_dir: None,
        registry,
        cache_dir: None,
        repos: Seq::empty(),
        android_sdk: None,
        project_type: None,
        unknown: Seq::empty(),
    }
}

fn takes_value(flag: &str) -> (yes: bool)
    ensures
        yes == is_option(flag@),
{
    text::str_eq(flag, "--project") || text::str_eq(flag, "--registry") || text::str_eq(
        flag,
        "--cache-dir",
    ) || text::str_eq(flag, "--repo") || text::str_eq(flag, "--android-sdk") || text::str_eq(
        flag,
        "--type",
    )
}

fn set_option(options: &mut Options, flag: &str, value: &String)
    requires
        is_option(flag@),
    ensures
        final(options)@ == with_option(old(options)@, flag@, value@),
{
    let ghost repos = options.repos@;
    if text::str_eq(flag, "--project") {
        options.project_dir = Some(value.clone());
    } else if text::str_eq(flag, "--registry") {
        options.registry = Some(value.clone());
    } else if text::str_eq(flag, "--cache-dir") {
        options.cache_dir = Some(value.clone());
    } else if text::str_eq(flag, "--repo") {
        options.repos.push(value.clone());
        assert(text::texts(options.repos@) == text::texts(repos).push(value@));
    } else if text::str_eq(flag, "--android-sdk") {
        options.android_sdk = Some(value.clone());
    } else {
        options.project_type = Some(value.clone());
    }
}

/// Reads the options among the arguments from `start` on. `registry` is the
/// registry of the environment, which an option replaces.
pub fn parse_options(args: &Vec<String>, start: usize, registry: Option<String>) -> (options:
    Options)
    requires
        start <= args@.len(),
    ensures
        options@ == choices_from(
            text::texts(args@),
            no_choices(text::opt_text(registry)),
            start as int,
        ),
{
    let ghost all = text::texts(args@);
    let mut options = Options {
        project_dir: None,
        registry,
        cache_dir: None,
        repos: Vec::new(),
        android_sdk: None,
        project_type: None,
        unknown: Vec::new(),
    };
    assert(text::texts(options.repos@) == Seq::<Seq<char>>::empty());
    assert(text::texts(options.unknown@) == Seq::<Seq<char>>::empty());
    let ghost end = choices_from(all, options@, start as int);
    let mut i: usize = start;
    while i < args.len()
        invariant
            all == text::texts(args@),
            i <= args@.len(),
            end == choices_from(all, no_choices(text::opt_text(registry)), start as int),
            end == choices_from(all, options@, i as int),
        decreases args.len() - i,
    {
        let flag = &args[i];
        assert(all[i as int] == flag@);
        if !takes_value(flag) {
            let ghost was = options.unknown@;
            options.unknown.push(flag.clone());
            assert(text::texts(options.unknown@) == text::texts(was).push(flag@));
            i += 1;
        } else if i + 1 < args.len() {
            assert(all[i + 1] == args@[i + 1]@);
            set_option(&mut options, flag, &args[i + 1]);
            i += 2;
        } else {
            return options;
        }
    }
    options
}

/// Whether a source is what a text names: an index at an address, or one on
/// disk.
pub open spec fn is_source(source: RegistrySource, named: Seq<char>) -> bool {
    if "http://"@.is_prefix_of(named) || "https://"@.is_prefix_of(named) {
        source matches RegistrySource::Url(url) && url@ == named
    } else {
        source matches RegistrySource::File(path) && path@ == named
    }
}

/// The registry source that an option names: a registry index URL
/// (`https://…`) or a local `index.json` path.
pub fn parse_registry_source(source: &str) -> (parsed: RegistrySource)
    ensures
        is_source(parsed, source@),
{
    if text::starts_with(source, "http://") || text::starts_with(source, "https://") {
        RegistrySource::Url(source.to_owned())
    } else {
        RegistrySource::File(source.to_owned())
    }
}

/// Whether repositories are those that options name, in order; without any the
/// defaults are meant.
pub open spec fn are_chosen(repos: Option<Vec<MavenRepo>>, named: Seq<Seq<char>>) -> bool {
    if named.len() == 0 {
        repos is None
    } else {
        repos matches Some(list) && list@.len() == named.len() && forall|i: int|
            0 <= i < named.len() ==> (#[trigger] list@[i] matches MavenRepo::Custom(url) && url@
                == named[i])
    }
}

/// The Maven repositories that options name.
pub fn chosen_repos(named: &Vec<String>) -> (repos: Option<Vec<MavenRepo>>)
    ensures
        are_chosen(repos, text::texts(named@)),
{
    if named.len() == 0 {
        return None;
    }
    let mut list: Vec<MavenRepo> = Vec::new();
    let mut i: usize = 0;
    while i < named.len()
        invariant
            i <= named@.len(),
            list@.len() == i,
            forall|j: int|
                0 <= j < i ==> (#[trigger] list@[j] matches MavenRepo::Custom(url) && url@
                    == named@[j]@),
        decreases named.len() - i,
    {
        list.push(MavenRepo::Custom(named[i].clone()));
        i += 1;
    }
    Some(list)
}

/// The first `n` jars of a bucket as they are listed.
pub open spec fn jar_lines(jars: Seq<Seq<char>>, n: int) -> Seq<Seq<char>>
    decreases n,
{
    if n <= 0 {
        Seq::empty()
    } else {
        jar_lines(jars, n - 1).push("  "@ + jars[n - 1])
    }
}

/// The listing of a bucket: its name and its jars, or nothing where it is
/// empty.
pub open spec fn bucket_lines(name: Seq<char>, jars: Seq<Seq<char>>) -> Seq<Seq<char>> {
    if jars.len() == 0 {
        Seq::empty()
    } else {
        seq![name + ":"@] + jar_lines(jars, jars.len() as int)
    }
}

/// The listing of a classpath.
pub open spec fn classpath_lines(paths: Paths) -> Seq<Seq<char>> {
    bucket_lines("compile"@, paths.compile) + bucket_lines("runtime"@, paths.runtime)
        + bucket_lines("processor"@, paths.processor) + bucket_lines(
        "testCompile"@,
        paths.test_compile,
    ) + bucket_lines("testRuntime"@, paths.test_runtime) + bucket_lines(
        "androidTestCompile"@,
        paths.android_test_compile,
    ) + bucket_lines("androidTestRuntime"@, paths.android_test_runtime)
}

fn push_line(lines: &mut Vec<String>, line: String)
    ensures
        text::texts(final(lines)@) == text::texts(old(lines)@).push(line@),
{
    let ghost before = lines@;
    lines.push(line);
    assert(text::texts(lines@) == text::texts(before).push(line@));
}

fn list_bucket(lines: &mut Vec<String>, name: &str, jars: &Vec<String>)
    ensures
        text::texts(final(lines)@) == text::texts(old(lines)@) + bucket_lines(
            name@,
            text::texts(jars@),
        ),
{
    let ghost before = text::texts(lines@);
    let ghost all = text::texts(jars@);
    if jars.len() == 0 {
        assert(before == before + bucket_lines(name@, all));
        return;
    }
    let head = name.to_owned().concat(":");
    let ghost top = before.push(head@);
    push_line(lines, head);
    let mut i: usize = 0;
    assert(top == top + jar_lines(all, 0));
    while i < jars.len()
        invariant
            all == text::texts(jars@),
            i <= jars@.len(),
            text::texts(lines@) == top + jar_lines(all, i as int),
        decreases jars.len() - i,
    {
        let ghost so_far = jar_lines(all, i as int);
        assert(all[i as int] == jars@[i as int]@);
        let line = "  ".to_owned().concat(&jars[i]);
        let ghost shown = line@;
        push_line(lines, line);
        assert((top + so_far).push(shown) == top + so_far.push(shown));
        i += 1;
    }
    assert(top + jar_lines(all, all.len() as int) == before + (seq![head@] + jar_lines(
        all,
        all.len() as int,
    )));
}

/// Lists the jars of each classpath bucket that has any.
pub fn list_classpath(classpath: &Classpath) -> (lines: Vec<String>)
    ensures
        text::texts(lines@) == classpath_lines(classpath@),
{
    let mut lines: Vec<String> = Vec::new();
    assert(text::texts(lines@) + bucket_lines("compile"@, classpath@.compile) == bucket_lines(
        "compile"@,
        classpath@.compile,
    ));
    list_bucket(&mut lines, "compile", &classpath.compile);
    list_bucket(&mut lines, "runtime", &classpath.runtime);
    list_bucket(&mut lines, "processor", &classpath.processor);
    list_bucket(&mut lines, "testCompile", &classpath.test_compile);
    list_bucket(&mut lines, "testRuntime", &classpath.test_runtime);
    list_bucket(&mut lines, "androidTestCompile", &classpath.android_test_compile);
    list_bucket(&mut lines, "androidTestRuntime", &classpath.android_test_runtime);
    lines
}

/// The line about a plugin that was resolved.
pub open spec fn resolved_text(spec: PluginSpec, resolved: ResolvedPlugin) -> Seq<char> {
    project::label_text(spec@) + " -> "@ + resolved.path@ + " ("@ + (if resolved.from_cache {
        "cache"@
    } else {
        "registry"@
    }) + ")"@
}

/// The line about a plugin that was resolved: its local path, and whether it
/// was in the cache already.
pub fn resolved_line(spec: &PluginSpec, resolved: &ResolvedPlugin) -> (line: String)
    ensures
        line@ == resolved_text(*spec, *resolved),
{
    let source = if resolved.from_cache {
        "cache"
    } else {
        "registry"
    };
    project::spec_label(spec).concat(" -> ").concat(&resolved.path).concat(" (").concat(
        source,
    ).concat(")")
}

/// The line about a plugin that could not be resolved.
pub fn unresolved_line(spec: &PluginSpec, error: &RegistryError) -> (line: String)
    ensures
        line@ == project::label_text(spec@) + ": "@ + registry::trouble_text(error@),
{
    project::spec_label(spec).concat(": ").concat(&error.message())
}

/// What is said of a build that finished.
pub open spec fn summary_text(ran: nat, up_to_date: nat, skipped: nat) -> Seq<char> {
    "build finished: "@ + text::decimal_text(ran) + " ran, "@ + text::decimal_text(up_to_date)
        + " up-to-date"@ + if skipped > 0 {
        ", "@ + text::decimal_text(skipped) + " skipped"@
    } else {
        Seq::empty()
    }
}

/// Says how a build went.
///
/// # Errors
///
/// Returns what is said of the task that failed, where one did.
pub fn build_summary(result: &BuildResult) -> (said: Result<String, String>)
    ensures
        match result.failure {
            Some(failure) => said matches Err(error) && error@ == "task '"@ + failure.task@
                + "' failed: "@ + failure.error@,
            None => said matches Ok(summary) && summary@ == summary_text(
                result.ran as nat,
                result.up_to_date as nat,
                result.skipped as nat,
            ),
        },
{
    if let Some(failure) = &result.failure {
        return Err(
            "task '".to_owned().concat(&failure.task).concat("' failed: ").concat(&failure.error),
        );
    }
    let line = "build finished: ".to_owned().concat(&text::decimal(result.ran as u64)).concat(
        " ran, ",
    ).concat(&text::decimal(result.up_to_date as u64)).concat(" up-to-date");
    if result.skipped > 0 {
        let more = ", ".to_owned().concat(&text::decimal(result.skipped as u64)).concat(
            " skipped",
        );
        let said = line.concat(&more);
        assert(said@ == summary_text(
            result.ran as nat,
            result.up_to_date as nat,
            result.skipped as nat,
        ));
        Ok(said)
    } else {
        assert(line@ + Seq::<char>::empty() == line@);
        Ok(line)
    }
}

/// The lines about the first `n` tasks of a wave: whether each ran or was up
/// to date.
pub open spec fn task_lines(
    graph: TaskGraph,
    wave: Seq<usize>,
    ran: Seq<usize>,
    n: int,
) -> Seq<Seq<char>>
    decreases n,
{
    if n <= 0 {
        Seq::empty()
    } else {
        let key = graph::key_of(graph.entries@[wave[n - 1] as int]);
        task_lines(graph, wave, ran, n - 1).push(
            key + if ran.contains(wave[n - 1]) {
                ": ran"@
            } else {
                ": up-to-date"@
            },
        )
    }
}

fn has_position(list: &Vec<usize>, wanted: usize) -> (yes: bool)
    ensures
        yes == list@.contains(wanted),
{
    let mut i: usize = 0;
    while i < list.len()
        invariant
            i <= list@.len(),
            forall|j: int| 0 <= j < i ==> list@[j] != wanted,
        decreases list.len() - i,
    {
        if list[i] == wanted {
            assert(list@[i as int] == wanted);
            return true;
        }
        i += 1;
    }
    false
}

/// The lines about the tasks of a wave: whether each ran or was up to date.
pub fn report_wave(graph: &TaskGraph, wave: &Vec<usize>, ran: &Vec<usize>) -> (lines: Vec<String>)
    requires
        forall|i: int| 0 <= i < wave@.len() ==> #[trigger] wave@[i] < graph.entries@.len(),
    ensures
        text::texts(lines@) == task_lines(*graph, wave@, ran@, wave@.len() as int),
{
    let mut lines: Vec<String> = Vec::new();
    let mut i: usize = 0;
    assert(text::texts(lines@) == Seq::<Seq<char>>::empty());
    while i < wave.len()
        invariant
            forall|j: int| 0 <= j < wave@.len() ==> #[trigger] wave@[j] < graph.entries@.len(),
            i <= wave@.len(),
            text::texts(lines@) == task_lines(*graph, wave@, ran@, i as int),
        decreases wave.len() - i,
    {
        let task = &graph.entries[wave[i]];
        let key = graph::task_key(&task.module, &task.name);
        let line = if has_position(ran, wave[i]) {
            key.concat(": ran")
        } else {
            key.concat(": up-to-date")
        };
        push_line(&mut lines, line);
        i += 1;
    }
    lines
}

/// An option on the command line replaces the registry of the environment; the
/// environment counts only where no option names one.
pub proof fn law_option_replaces_environment(
    args: Seq<Seq<char>>,
    a: Choices,
    b: Choices,
    from: int,
)
    requires
        a == (Choices { registry: a.registry, ..b }),
    ensures
        ({
            let x = choices_from(args, a, from);
            let y = choices_from(args, b, from);
            x.registry == y.registry || (x.registry == a.registry && y.registry == b.registry)
        }),
    decreases args.len() - from,
{
    if from < args.len() {
        if !is_option(args[from]) {
            law_option_replaces_environment(
                args,
                Choices { unknown: a.unknown.push(args[from]), ..a },
                Choices { unknown: b.unknown.push(args[from]), ..b },
                from + 1,
            );
        } else if from + 1 < args.len() {
            law_option_replaces_environment(
                args,
                with_option(a, args[from], args[from + 1]),
                with_option(b, args[from], args[from + 1]),
                from + 2,
            );
        }
    }
}

} // verus!
