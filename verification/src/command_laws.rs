//! What the command line asks for, which projects are accepted, and what a new
//! one is made of.

use vstd::prelude::*;
use crate::cli;
use crate::cli::{Choices, Command};
use crate::driver;
use crate::init;
use crate::init::{Doing, ProjectType};
use crate::maven::{MavenRepo, Paths};
use crate::project;
use crate::project::{LibsSource, SettingsSource};
use crate::registry;
use crate::registry::{RegistrySource, Wish};
use crate::task::graph::TaskGraph;
use crate::text;

verus! {

/// The first word says what to do, for `plugins` and `deps` together with the
/// second; everything else gets the usage.
pub proof fn law_words_say_what_to_do(rest: Seq<Seq<char>>, word: Seq<char>)
    ensures
        cli::command_of(seq!["run"@] + rest) == (Command::Run, 1int),
        cli::command_of(seq!["build"@] + rest) == (Command::Build, 1int),
        cli::command_of(seq!["init"@] + rest) == (Command::Init, 1int),
        cli::command_of(seq!["plugins"@, "list"@] + rest) == (Command::ListPlugins, 2int),
        cli::command_of(seq!["plugins"@, "resolve"@] + rest) == (Command::ResolvePlugins, 2int),
        cli::command_of(seq!["deps"@, "resolve"@] + rest) == (Command::ResolveDeps, 2int),
        word != "list"@ && word != "resolve"@ ==> cli::command_of(seq!["plugins"@, word] + rest)
            == (Command::PluginsUsage, 1int),
        word != "resolve"@ ==> cli::command_of(seq!["deps"@, word] + rest) == (
            Command::DepsUsage,
            1int,
        ),
        word != "run"@ && word != "build"@ && word != "init"@ && word != "plugins"@ && word
            != "deps"@ ==> cli::command_of(seq![word] + rest) == (Command::Usage, 0int),
        cli::command_of(Seq::empty()) == (Command::Usage, 0int),
{
    reveal_strlit("run");
    reveal_strlit("build");
    reveal_strlit("init");
    reveal_strlit("plugins");
    reveal_strlit("deps");
    reveal_strlit("list");
    reveal_strlit("resolve");
    assert("run"@.len() == 3 && "build"@.len() == 5 && "init"@.len() == 4 && "plugins"@.len() == 7
        && "deps"@.len() == 4 && "list"@.len() == 4 && "resolve"@.len() == 7);
    assert("init"@[0] == 'i' && "deps"@[0] == 'd');
}

/// Whether the arguments from a place on are options, each with its value behind
/// it.
pub open spec fn are_pairs(args: Seq<Seq<char>>, from: int) -> bool {
    &&& 0 <= from <= args.len()
    &&& (args.len() - from) % 2 == 0
    &&& forall|p: int| is_flag_place(args, from, p) ==> cli::is_option(#[trigger] args[p])
}

/// Whether an option stands at a place of arguments that are pairs.
pub open spec fn is_flag_place(args: Seq<Seq<char>>, from: int, p: int) -> bool {
    from <= p < args.len() && (p - from) % 2 == 0
}

/// The value of an option that takes one.
pub open spec fn value_of(choices: Choices, flag: Seq<char>) -> Option<Seq<char>> {
    if flag == "--project"@ {
        choices.project_dir
    } else if flag == "--registry"@ {
        choices.registry
    } else if flag == "--cache-dir"@ {
        choices.cache_dir
    } else if flag == "--android-sdk"@ {
        choices.android_sdk
    } else {
        choices.project_type
    }
}

/// Whether an option takes one value, the last that is given.
pub open spec fn takes_one(flag: Seq<char>) -> bool {
    ||| flag == "--project"@
    ||| flag == "--registry"@
    ||| flag == "--cache-dir"@
    ||| flag == "--android-sdk"@
    ||| flag == "--type"@
}

proof fn lemma_flags_differ()
    ensures
        "--project"@.len() == 9,
        "--registry"@.len() == 10,
        "--cache-dir"@.len() == 11,
        "--repo"@.len() == 6,
        "--android-sdk"@.len() == 13,
        "--type"@.len() == 6,
        "--repo"@[2] == 'r',
        "--type"@[2] == 't',
{
    reveal_strlit("--project");
    reveal_strlit("--registry");
    reveal_strlit("--cache-dir");
    reveal_strlit("--repo");
    reveal_strlit("--android-sdk");
    reveal_strlit("--type");
}

/// An option takes the value behind it, and the last value that is given counts;
/// an option that is not given stays as it was.
pub proof fn law_last_value_counts(
    args: Seq<Seq<char>>,
    choices: Choices,
    from: int,
    flag: Seq<char>,
    p: int,
)
    requires
        are_pairs(args, from),
        takes_one(flag),
    ensures
        is_flag_place(args, from, p) && args[p] == flag && (forall|q: int|
            is_flag_place(args, from, q) && q > p ==> #[trigger] args[q] != flag) ==> value_of(
            cli::choices_from(args, choices, from),
            flag,
        ) == Some(args[p + 1]),
        (forall|q: int| is_flag_place(args, from, q) ==> #[trigger] args[q] != flag) ==> value_of(
            cli::choices_from(args, choices, from),
            flag,
        ) == value_of(choices, flag),
    decreases args.len() - from,
{
    lemma_flags_differ();
    if from < args.len() {
        assert(is_flag_place(args, from, from));
        assert(cli::is_option(args[from]));
        assert(from + 1 < args.len());
        assert(are_pairs(args, from + 2)) by {
            assert forall|q: int| is_flag_place(args, from + 2, q) implies cli::is_option(
                #[trigger] args[q],
            ) by {
                assert(is_flag_place(args, from, q));
            }
        }
        let next = cli::with_option(choices, args[from], args[from + 1]);
        assert(cli::choices_from(args, choices, from) == cli::choices_from(args, next, from + 2));
        law_last_value_counts(args, next, from + 2, flag, p);
        assert(args[from] != flag ==> value_of(next, flag) == value_of(choices, flag));
        assert(args[from] == flag ==> value_of(next, flag) == Some(args[from + 1]));
        if forall|q: int| is_flag_place(args, from, q) ==> #[trigger] args[q] != flag {
            assert forall|q: int| is_flag_place(args, from + 2, q) implies #[trigger] args[q]
                != flag by {
                assert(is_flag_place(args, from, q));
            }
            assert(args[from] != flag);
        }
        if is_flag_place(args, from, p) && args[p] == flag && (forall|q: int|
            is_flag_place(args, from, q) && q > p ==> #[trigger] args[q] != flag) {
            if p == from {
                assert forall|q: int| is_flag_place(args, from + 2, q) implies #[trigger] args[q]
                    != flag by {
                    assert(is_flag_place(args, from, q));
                }
            } else {
                assert(is_flag_place(args, from + 2, p));
                assert forall|q: int| is_flag_place(args, from + 2, q) && q > p implies
                    #[trigger] args[q] != flag by {
                    assert(is_flag_place(args, from, q));
                }
            }
        }
    }
}

/// Every repository that is given counts.
pub proof fn law_every_repository_counts(
    args: Seq<Seq<char>>,
    choices: Choices,
    from: int,
    repo: Seq<char>,
)
    requires
        are_pairs(args, from),
    ensures
        cli::choices_from(args, choices, from).repos.contains(repo) <==> choices.repos.contains(
            repo,
        ) || exists|p: int|
            is_flag_place(args, from, p) && #[trigger] args[p] == "--repo"@ && args[p + 1] == repo,
        cli::choices_from(args, choices, from).unknown == choices.unknown,
    decreases args.len() - from,
{
    lemma_flags_differ();
    if from < args.len() {
        assert(is_flag_place(args, from, from));
        assert(cli::is_option(args[from]));
        assert(from + 1 < args.len());
        assert(are_pairs(args, from + 2)) by {
            assert forall|q: int| is_flag_place(args, from + 2, q) implies cli::is_option(
                #[trigger] args[q],
            ) by {
                assert(is_flag_place(args, from, q));
            }
        }
        let next = cli::with_option(choices, args[from], args[from + 1]);
        law_every_repository_counts(args, next, from + 2, repo);
        if args[from] == "--repo"@ {
            assert(next.repos.contains(repo) <==> choices.repos.contains(repo) || repo
                == args[from + 1]) by {
                if choices.repos.contains(repo) {
                    let i = choose|i: int| 0 <= i < choices.repos.len() && choices.repos[i] == repo;
                    assert(next.repos[i] == repo);
                }
                assert(next.repos[choices.repos.len() as int] == args[from + 1]);
            }
        } else {
            assert(next.repos == choices.repos);
        }
        if exists|p: int|
            is_flag_place(args, from, p) && #[trigger] args[p] == "--repo"@ && args[p + 1]
                == repo {
            let p = choose|p: int|
                is_flag_place(args, from, p) && #[trigger] args[p] == "--repo"@ && args[p + 1]
                    == repo;
            if p != from {
                assert(is_flag_place(args, from + 2, p));
            }
        }
        if exists|p: int|
            is_flag_place(args, from + 2, p) && #[trigger] args[p] == "--repo"@ && args[p + 1]
                == repo {
            let p = choose|p: int|
                is_flag_place(args, from + 2, p) && #[trigger] args[p] == "--repo"@ && args[p + 1]
                    == repo;
            assert(is_flag_place(args, from, p));
        }
    }
}

/// Arguments that are no options are kept as unknown, in order, and change
/// nothing else.
pub proof fn law_other_arguments_are_unknown(args: Seq<Seq<char>>, choices: Choices, from: int)
    requires
        0 <= from <= args.len(),
        forall|p: int| from <= p < args.len() ==> !cli::is_option(#[trigger] args[p]),
    ensures
        cli::choices_from(args, choices, from) == (Choices {
            unknown: choices.unknown + args.skip(from),
            ..choices
        }),
    decreases args.len() - from,
{
    if from < args.len() {
        assert(!cli::is_option(args[from]));
        let next = Choices { unknown: choices.unknown.push(args[from]), ..choices };
        law_other_arguments_are_unknown(args, next, from + 1);
        assert(next.unknown + args.skip(from + 1) =~= choices.unknown + args.skip(from));
    } else {
        assert(choices.unknown + args.skip(from) =~= choices.unknown);
    }
}

/// Whether a module can be declared: its path is relative and has no two dots in
/// a row.
pub open spec fn can_be_declared(path: Seq<char>) -> bool {
    &&& path.len() > 0 ==> path[0] != '/'
    &&& forall|i: int| 0 <= i < path.len() - 1 ==> !(#[trigger] path[i] == '.' && path[i + 1] == '.')
}

proof fn lemma_module(path: Seq<char>)
    ensures
        project::module_fault(path) is None <==> can_be_declared(path),
{
    reveal_strlit("..");
    if text::has_text(path, ".."@) {
        let i = choose|i: int| text::occurs_at(path, ".."@, i);
        assert(path.subrange(i, i + 2)[0] == path[i]);
        assert(path.subrange(i, i + 2)[1] == path[i + 1]);
        assert(path[i] == '.' && path[i + 1] == '.');
    } else {
        assert forall|i: int| 0 <= i < path.len() - 1 implies !(#[trigger] path[i] == '.' && path[i
            + 1] == '.') by {
            if path[i] == '.' && path[i + 1] == '.' {
                assert(path.subrange(i, i + 2) =~= ".."@);
                assert(text::occurs_at(path, ".."@, i));
            }
        }
    }
}

proof fn lemma_modules(modules: Seq<Seq<char>>, from: int)
    requires
        0 <= from <= modules.len(),
    ensures
        project::modules_fault(modules, from) is None <==> forall|i: int|
            from <= i < modules.len() ==> can_be_declared(#[trigger] modules[i]),
    decreases modules.len() - from,
{
    if from < modules.len() {
        lemma_module(modules[from]);
        lemma_modules(modules, from + 1);
    }
}

/// Settings are accepted where there are none, and where they evaluate without a
/// diagnostic to at least one module, each of them below the project.
pub proof fn law_settings_are_accepted(dir: Seq<char>, source: SettingsSource)
    ensures
        project::settings_fault(dir, source) is None <==> match source {
            SettingsSource::Missing => true,
            SettingsSource::Unreadable(_) => false,
            SettingsSource::Evaluated { diagnostics, model } => diagnostics@.len() == 0
                && model.modules@.len() > 0 && forall|i: int|
                0 <= i < model.modules@.len() ==> can_be_declared((#[trigger] model.modules@[i])@),
        },
{
    if let SettingsSource::Evaluated { diagnostics, model } = source {
        let modules = text::texts(model.modules@);
        lemma_modules(modules, 0);
        assert(forall|i: int|
            0 <= i < modules.len() ==> modules[i] == (#[trigger] model.modules@[i])@);
        if forall|i: int| 0 <= i < modules.len() ==> can_be_declared(#[trigger] modules[i]) {
            assert forall|i: int| 0 <= i < model.modules@.len() implies can_be_declared(
                (#[trigger] model.modules@[i])@,
            ) by {
                assert(can_be_declared(modules[i]));
            }
        }
    }
}

proof fn lemma_table(path: Seq<char>, entries: Seq<(String, crate::value::Value)>, n: int)
    requires
        0 <= n <= entries.len(),
    ensures
        match project::table_wishes(path, entries, n) {
            Ok(list) => list.len() == n && forall|i: int|
                0 <= i < n ==> registry::wish_of((#[trigger] entries[i]).1) == Ok::<
                    Wish,
                    Seq<char>,
                >(list[i]),
            Err(_) => exists|i: int|
                0 <= i < n && registry::wish_of((#[trigger] entries[i]).1) is Err,
        },
    decreases n,
{
    if n > 0 {
        lemma_table(path, entries, n - 1);
        assert(entries[n - 1].1 == entries[n - 1].1);
    }
}

/// The plugins of a project are those of its table, in order. They are read
/// exactly where the file has no errors and each entry is a reference.
pub proof fn law_plugins_are_those_of_the_table(dir: Seq<char>, source: LibsSource)
    ensures
        match project::declared_plugins(dir, source) {
            Ok(list) => source matches LibsSource::Parsed {
                parse_errors,
                evaluation_errors,
                plugins,
            } && parse_errors@.len() == 0 && evaluation_errors@.len() == 0 && list.len()
                == plugins.entries@.len() && forall|i: int|
                0 <= i < list.len() ==> registry::wish_of((#[trigger] plugins.entries@[i]).1)
                    == Ok::<Wish, Seq<char>>(list[i]),
            Err(_) => match source {
                LibsSource::Unreadable(_) => true,
                LibsSource::Parsed { parse_errors, evaluation_errors, plugins } =>
                    parse_errors@.len() > 0 || evaluation_errors@.len() > 0 || exists|i: int|
                    0 <= i < plugins.entries@.len() && registry::wish_of(
                        (#[trigger] plugins.entries@[i]).1,
                    ) is Err,
            },
        },
{
    if let LibsSource::Parsed { parse_errors, evaluation_errors, plugins } = source {
        let path = text::path_text(dir, "libs.ulb"@);
        lemma_table(path, plugins.entries@, plugins.entries@.len() as int);
    }
}

/// A line for each task of a wave, in order: its module and name, and whether it
/// ran.
pub proof fn law_every_task_gets_a_line(
    graph: TaskGraph,
    wave: Seq<usize>,
    ran: Seq<usize>,
    n: int,
    i: int,
)
    requires
        0 <= i < n <= wave.len(),
    ensures
        cli::task_lines(graph, wave, ran, n).len() == n,
        ({
            let task = graph.entries@[wave[i] as int];
            cli::task_lines(graph, wave, ran, n)[i] == task.module@ + seq![':', ':'] + task.name@
                + if ran.contains(wave[i]) {
                ": ran"@
            } else {
                ": up-to-date"@
            }
        }),
    decreases n,
{
    reveal_strlit("::");
    assert("::"@ =~= seq![':', ':']);
    lemma_line_count(graph, wave, ran, n);
    lemma_line_count(graph, wave, ran, n - 1);
    if i < n - 1 {
        law_every_task_gets_a_line(graph, wave, ran, n - 1, i);
    }
}

proof fn lemma_line_count(graph: TaskGraph, wave: Seq<usize>, ran: Seq<usize>, n: int)
    requires
        0 <= n,
    ensures
        cli::task_lines(graph, wave, ran, n).len() == n,
    decreases n,
{
    if n > 0 {
        lemma_line_count(graph, wave, ran, n - 1);
    }
}

proof fn lemma_jar_lines(jars: Seq<Seq<char>>, n: int)
    requires
        0 <= n <= jars.len(),
    ensures
        cli::jar_lines(jars, n).len() == n,
        forall|i: int| 0 <= i < n ==> #[trigger] cli::jar_lines(jars, n)[i] == "  "@ + jars[i],
    decreases n,
{
    if n > 0 {
        lemma_jar_lines(jars, n - 1);
    }
}

/// Whether a listing shows a bucket: a line with its name, and below it a line
/// for each of its jars, in order. An empty bucket is not shown.
#[verifier::opaque]
pub open spec fn shows(lines: Seq<Seq<char>>, at: int, name: Seq<char>, jars: Seq<Seq<char>>) -> bool {
    jars.len() > 0 ==> {
        &&& 0 <= at && at + jars.len() < lines.len()
        &&& lines[at] == name + seq![':']
        &&& forall|i: int|
            0 <= i < jars.len() ==> lines[at + 1 + i] == seq![' ', ' '] + #[trigger] jars[i]
    }
}

/// How many lines a bucket takes.
pub open spec fn height(jars: Seq<Seq<char>>) -> int {
    if jars.len() == 0 {
        0
    } else {
        jars.len() as int + 1
    }
}

proof fn lemma_regroup(a: Seq<Seq<char>>, b: Seq<Seq<char>>, c: Seq<Seq<char>>)
    ensures
        a + b + c == a + (b + c),
{
    assert(a + b + c =~= a + (b + c));
}

proof fn lemma_height(name: Seq<char>, jars: Seq<Seq<char>>)
    ensures
        cli::bucket_lines(name, jars).len() == height(jars),
{
    lemma_jar_lines(jars, jars.len() as int);
}

proof fn lemma_shown(before: Seq<Seq<char>>, name: Seq<char>, jars: Seq<Seq<char>>, behind: Seq<Seq<char>>)
    ensures
        shows(before + cli::bucket_lines(name, jars) + behind, before.len() as int, name, jars),
{
    reveal(shows);
    reveal_strlit(":");
    reveal_strlit("  ");
    assert(":"@ =~= seq![':']);
    assert("  "@ =~= seq![' ', ' ']);
    let n = jars.len() as int;
    lemma_jar_lines(jars, n);
    let own = cli::bucket_lines(name, jars);
    let lines = before + own + behind;
    if n > 0 {
        let at = before.len() as int;
        assert(lines[at] == own[0]);
        assert forall|i: int| 0 <= i < n implies lines[at + 1 + i] == seq![' ', ' ']
            + #[trigger] jars[i] by {
            assert(lines[at + 1 + i] == own[1 + i]);
            assert(own[1 + i] == cli::jar_lines(jars, n)[i]);
        }
    }
}

/// A classpath is listed bucket by bucket: compile, runtime, processor, then those
/// of the unit tests and those of the instrumented tests.
pub proof fn law_classpaths_are_listed(paths: Paths)
    ensures
        ({
            let lines = cli::classpath_lines(paths);
            let b = height(paths.compile);
            let c = b + height(paths.runtime);
            let d = c + height(paths.processor);
            let e = d + height(paths.test_compile);
            let f = e + height(paths.test_runtime);
            let g = f + height(paths.android_test_compile);
            &&& shows(lines, 0, "compile"@, paths.compile)
            &&& shows(lines, b, "runtime"@, paths.runtime)
            &&& shows(lines, c, "processor"@, paths.processor)
            &&& shows(lines, d, "testCompile"@, paths.test_compile)
            &&& shows(lines, e, "testRuntime"@, paths.test_runtime)
            &&& shows(lines, f, "androidTestCompile"@, paths.android_test_compile)
            &&& shows(lines, g, "androidTestRuntime"@, paths.android_test_runtime)
            &&& lines.len() == g + height(paths.android_test_runtime)
        }),
{
    let lines = cli::classpath_lines(paths);
    let l0 = cli::bucket_lines("compile"@, paths.compile);
    let l1 = cli::bucket_lines("runtime"@, paths.runtime);
    let l2 = cli::bucket_lines("processor"@, paths.processor);
    let l3 = cli::bucket_lines("testCompile"@, paths.test_compile);
    let l4 = cli::bucket_lines("testRuntime"@, paths.test_runtime);
    let l5 = cli::bucket_lines("androidTestCompile"@, paths.android_test_compile);
    let l6 = cli::bucket_lines("androidTestRuntime"@, paths.android_test_runtime);
    let r7 = Seq::<Seq<char>>::empty();
    let r6 = l6 + r7;
    let r5 = l5 + r6;
    let r4 = l4 + r5;
    let r3 = l3 + r4;
    let r2 = l2 + r3;
    let r1 = l1 + r2;
    let r0 = l0 + r1;
    let p0 = Seq::<Seq<char>>::empty();
    let p1 = p0 + l0;
    let p2 = p1 + l1;
    let p3 = p2 + l2;
    let p4 = p3 + l3;
    let p5 = p4 + l4;
    let p6 = p5 + l5;
    let p7 = p6 + l6;
    assert(p1 =~= l0);
    assert(p7 == lines);
    assert(p7 + r7 =~= lines);
    lemma_regroup(p6, l6, r7);
    lemma_regroup(p5, l5, r6);
    lemma_regroup(p4, l4, r5);
    lemma_regroup(p3, l3, r4);
    lemma_regroup(p2, l2, r3);
    lemma_regroup(p1, l1, r2);
    lemma_regroup(p0, l0, r1);
    lemma_shown(p0, "compile"@, paths.compile, r1);
    lemma_shown(p1, "runtime"@, paths.runtime, r2);
    lemma_shown(p2, "processor"@, paths.processor, r3);
    lemma_shown(p3, "testCompile"@, paths.test_compile, r4);
    lemma_shown(p4, "testRuntime"@, paths.test_runtime, r5);
    lemma_shown(p5, "androidTestCompile"@, paths.android_test_compile, r6);
    lemma_shown(p6, "androidTestRuntime"@, paths.android_test_runtime, r7);
    lemma_height("compile"@, paths.compile);
    lemma_height("runtime"@, paths.runtime);
    lemma_height("processor"@, paths.processor);
    lemma_height("testCompile"@, paths.test_compile);
    lemma_height("testRuntime"@, paths.test_runtime);
    lemma_height("androidTestCompile"@, paths.android_test_compile);
    lemma_height("androidTestRuntime"@, paths.android_test_runtime);
}

proof fn lemma_write_count(target: Seq<char>, files: Seq<(Seq<char>, Seq<char>)>, n: int)
    requires
        0 <= n,
    ensures
        init::writing_files(target, files, n).len() == 2 * n,
    decreases n,
{
    if n > 0 {
        lemma_write_count(target, files, n - 1);
    }
}

/// Each file of a new project is written where it belongs, right after its
/// directory was made.
pub proof fn law_files_are_written_into_their_directories(
    target: Seq<char>,
    files: Seq<(Seq<char>, Seq<char>)>,
    n: int,
    i: int,
)
    requires
        0 <= i < n <= files.len(),
        target.len() > 0 && target.last() != '/',
        files[i].0.len() > 0 && files[i].0[0] != '/',
    ensures
        init::writing_files(target, files, n).len() == 2 * n,
        init::writing_files(target, files, n)[2 * i] == Doing::MakeDir(
            text::dir_text(target + seq!['/'] + files[i].0),
        ),
        init::writing_files(target, files, n)[2 * i + 1] == Doing::Write(
            target + seq!['/'] + files[i].0,
            files[i].1,
        ),
    decreases n,
{
    lemma_write_count(target, files, n);
    lemma_write_count(target, files, n - 1);
    if i < n - 1 {
        law_files_are_written_into_their_directories(target, files, n - 1, i);
    } else {
        assert(target.push('/') + files[i].0 =~= target + seq!['/'] + files[i].0);
    }
}

/// Whether a character is a letter in lower or in upper case.
pub open spec fn is_letter(c: char, letter: char) -> bool {
    c == letter || 'A' <= c <= 'Z' && c as u32 + 32 == letter as u32
}

/// Whether a text is a word in letters of either case.
pub open spec fn is_word(s: Seq<char>, word: Seq<char>) -> bool {
    s.len() == word.len() && forall|i: int| 0 <= i < s.len() ==> is_letter(#[trigger] s[i], word[i])
}

proof fn lemma_lower(s: Seq<char>, word: Seq<char>)
    requires
        forall|i: int| 0 <= i < word.len() ==> 'a' <= #[trigger] word[i] <= 'z',
    ensures
        text::lower_text(s) == word <==> is_word(s, word),
{
    let low = text::lower_text(s);
    if low == word {
        assert forall|i: int| 0 <= i < s.len() implies is_letter(#[trigger] s[i], word[i]) by {
            assert(low[i] == text::lower_char(s[i]));
        }
    }
    if is_word(s, word) {
        assert forall|i: int| 0 <= i < s.len() implies low[i] == word[i] by {
            assert(is_letter(s[i], word[i]));
            assert('a' <= word[i] <= 'z');
        }
        assert(low =~= word);
    }
}

/// A type of project is named by its word, in letters of either case.
pub proof fn law_types_are_named_in_either_case(name: Seq<char>)
    ensures
        init::type_of(name) == Some(ProjectType::Jvm) <==> is_word(name, "jvm"@),
        init::type_of(name) == Some(ProjectType::Android) <==> is_word(name, "android"@),
        init::type_of(name) == Some(ProjectType::Kmp) <==> is_word(name, "kmp"@),
{
    reveal_strlit("jvm");
    reveal_strlit("android");
    reveal_strlit("kmp");
    assert("jvm"@.len() == 3 && "kmp"@.len() == 3 && "android"@.len() == 7);
    assert("jvm"@[0] == 'j' && "kmp"@[0] == 'k');
    lemma_lower(name, "jvm"@);
    lemma_lower(name, "android"@);
    lemma_lower(name, "kmp"@);
}

/// The module that a new project has is the one its settings declare.
pub proof fn law_settings_declare_the_module(
    project_type: ProjectType,
    module_dir: Seq<char>,
    namespace: Seq<char>,
)
    ensures
        text::has_text(
            init::files_of(project_type, module_dir, namespace).settings,
            "module \""@ + module_dir + "\"\n"@,
        ),
{
    reveal_strlit("project \"MyApp\"\nmodule \"");
    reveal_strlit("module \"");
    let settings = init::files_of(project_type, module_dir, namespace).settings;
    let start = "project \"MyApp\"\nmodule \""@;
    let line = "module \""@ + module_dir + "\"\n"@;
    let at = start.len() - 8;
    assert("module \""@.len() == 8);
    assert(start.skip(at) =~= "module \""@);
    assert(settings.subrange(at, at + line.len()) =~= line) by {
        assert forall|i: int| 0 <= i < line.len() implies settings[at + i] == line[i] by {
            if i < 8 {
                assert(start.skip(at)[i] == start[at + i]);
            }
        }
    }
    assert(text::occurs_at(settings, line, at));
}

/// The source that an Android project builds is the one it is made with: it lies
/// in the directory of its package and declares that package, which the manifest
/// and the build file name too.
pub proof fn law_android_sources_lie_in_their_package(
    module_dir: Seq<char>,
    namespace: Seq<char>,
)
    ensures
        ({
            let files = init::files_of(ProjectType::Android, module_dir, namespace);
            let package = text::replace_text(namespace, '.', '/');
            let source = "src/main/java/"@ + package + "/MainActivity.java"@;
            &&& text::has_text(files.build, source)
            &&& text::has_text(files.build, namespace)
            &&& exists|k: int|
                0 <= k < files.scaffold.len() && (#[trigger] files.scaffold[k]).0 == module_dir
                    + seq!['/'] + source && ("package "@ + namespace + ";"@).is_prefix_of(
                    files.scaffold[k].1,
                )
            &&& exists|k: int|
                0 <= k < files.scaffold.len() && (#[trigger] files.scaffold[k]).0 == module_dir
                    + "/src/main/AndroidManifest.xml"@ && text::has_text(
                    files.scaffold[k].1,
                    "package=\""@ + namespace + "\""@,
                )
        }),
{
    let files = init::files_of(ProjectType::Android, module_dir, namespace);
    let package = text::replace_text(namespace, '.', '/');
    let source = "src/main/java/"@ + package + "/MainActivity.java"@;
    let a = "plugin \"android\"\n\nandroid {\n  namespace \""@;
    let b = "\"\n  compileSdk 36\n  minSdk 24\n  sources [ \"src/main/java/"@;
    let c = "/MainActivity.java\" ]\n  resDir \"src/main/res\"\n  manifest \"src/main/AndroidManifest.xml\"\n}\n"@;
    reveal_strlit("\"\n  compileSdk 36\n  minSdk 24\n  sources [ \"src/main/java/");
    reveal_strlit(
        "/MainActivity.java\" ]\n  resDir \"src/main/res\"\n  manifest \"src/main/AndroidManifest.xml\"\n}\n",
    );
    reveal_strlit("src/main/java/");
    reveal_strlit("/MainActivity.java");
    reveal_strlit("/src/main/java/");
    let n = b.len() as int;
    assert(b.skip(n - 14) =~= "src/main/java/"@);
    assert(c.take(18) =~= "/MainActivity.java"@);
    let build = files.build;
    assert(build =~= a + namespace + b + package + c);
    let at = (a.len() + namespace.len()) as int + n - 14;
    assert(build.subrange(at, at + source.len()) =~= source) by {
        assert forall|i: int| 0 <= i < source.len() implies build[at + i] == source[i] by {
            if i < 14 {
                assert(b.skip(n - 14)[i] == b[n - 14 + i]);
            } else if i >= 14 + package.len() {
                let j = i - 14 - package.len();
                assert(c.take(18)[j] == c[j]);
            }
        }
    }
    assert(text::occurs_at(build, source, at));
    let here = a.len() as int;
    assert(build.subrange(here, here + namespace.len()) =~= namespace);
    assert(text::occurs_at(build, namespace, here));
    assert(files.scaffold[2].0 =~= module_dir + seq!['/'] + source);
    reveal_strlit(";");
    reveal_strlit(
        ";\n\nimport android.app.Activity;\nimport android.os.Bundle;\n\npublic class MainActivity extends Activity {\n    @Override\n    protected void onCreate(Bundle savedInstanceState) {\n        super.onCreate(savedInstanceState);\n        setContentView(R.layout.activity_main);\n    }\n}\n",
    );
    let start = "package "@ + namespace + ";"@;
    assert(start =~= files.scaffold[2].1.subrange(0, start.len() as int));
    lemma_manifest(module_dir, namespace);
}

proof fn lemma_manifest(module_dir: Seq<char>, namespace: Seq<char>)
    ensures
        ({
            let files = init::files_of(ProjectType::Android, module_dir, namespace);
            files.scaffold[0].0 == module_dir + "/src/main/AndroidManifest.xml"@ && text::has_text(
                files.scaffold[0].1,
                "package=\""@ + namespace + "\""@,
            )
        }),
{
    let files = init::files_of(ProjectType::Android, module_dir, namespace);
    let a = "<?xml version=\"1.0\" encoding=\"utf-8\"?>\n<manifest xmlns:android=\"http://schemas.android.com/apk/res/android\"\n    package=\""@;
    let b = "\">\n    <application android:label=\"@string/app_name\">\n        <activity android:name=\".MainActivity\"\n            android:exported=\"true\">\n            <intent-filter>\n                <action android:name=\"android.intent.action.MAIN\" />\n                <category android:name=\"android.intent.category.LAUNCHER\" />\n            </intent-filter>\n        </activity>\n    </application>\n</manifest>\n"@;
    reveal_strlit(
        "<?xml version=\"1.0\" encoding=\"utf-8\"?>\n<manifest xmlns:android=\"http://schemas.android.com/apk/res/android\"\n    package=\"",
    );
    reveal_strlit(
        "\">\n    <application android:label=\"@string/app_name\">\n        <activity android:name=\".MainActivity\"\n            android:exported=\"true\">\n            <intent-filter>\n                <action android:name=\"android.intent.action.MAIN\" />\n                <category android:name=\"android.intent.category.LAUNCHER\" />\n            </intent-filter>\n        </activity>\n    </application>\n</manifest>\n",
    );
    reveal_strlit("package=\"");
    reveal_strlit("\"");
    let manifest = files.scaffold[0].1;
    assert(manifest == a + namespace + b);
    let line = "package=\""@ + namespace + "\""@;
    let n = a.len() as int;
    assert(a.skip(n - 9) =~= "package=\""@);
    assert(manifest.subrange(n - 9, n - 9 + line.len()) =~= line) by {
        assert forall|i: int| 0 <= i < line.len() implies manifest[n - 9 + i] == line[i] by {
            if i < 9 {
                assert(a.skip(n - 9)[i] == a[n - 9 + i]);
            }
        }
    }
    assert(text::occurs_at(manifest, line, n - 9));
}

proof fn lemma_dirs_made(target: Seq<char>, dirs: Seq<Seq<char>>, n: int)
    requires
        0 <= n <= dirs.len(),
    ensures
        init::making_dirs(target, dirs, n).len() == n,
        forall|i: int|
            0 <= i < n ==> #[trigger] init::making_dirs(target, dirs, n)[i] == Doing::MakeDir(
                text::path_text(target, dirs[i]),
            ),
    decreases n,
{
    if n > 0 {
        lemma_dirs_made(target, dirs, n - 1);
    }
}

/// A new project gets its settings, its table of plugins and its conventions at
/// its root, and the directory of its module with the build file in it, in this
/// order, before its source directories and its sources.
pub proof fn law_new_projects_get_their_files(
    target: Seq<char>,
    project_type: ProjectType,
    module_dir: Seq<char>,
    namespace: Seq<char>,
)
    requires
        target.len() > 0 && target.last() != '/',
        module_dir.len() > 0 && module_dir[0] != '/' && module_dir.last() != '/',
    ensures
        ({
            let steps = init::scaffolding(target, project_type, module_dir, namespace);
            let files = init::files_of(project_type, module_dir, namespace);
            let dirs = init::dirs_for(project_type, module_dir);
            let root = target + seq!['/'];
            &&& steps.len() == 5 + dirs.len() + 2 * files.scaffold.len()
            &&& steps[0] == Doing::Write(root + "settings.ulb"@, files.settings)
            &&& steps[1] == Doing::Write(root + "libs.ulb"@, files.libs)
            &&& steps[2] == Doing::Write(root + "conventions.ulb"@, files.conventions)
            &&& steps[3] == Doing::MakeDir(root + module_dir)
            &&& steps[4] == Doing::Write(root + module_dir + "/build.ulb"@, files.build)
            &&& forall|i: int|
                0 <= i < dirs.len() ==> steps[5 + i] == Doing::MakeDir(
                    text::path_text(target, #[trigger] dirs[i]),
                )
            &&& forall|i: int|
                0 <= i < files.scaffold.len() ==> steps[5 + dirs.len() + 2 * i + 1]
                    == Doing::Write(
                    text::path_text(target, (#[trigger] files.scaffold[i]).0),
                    files.scaffold[i].1,
                )
        }),
{
    reveal_strlit("settings.ulb");
    reveal_strlit("libs.ulb");
    reveal_strlit("conventions.ulb");
    reveal_strlit("build.ulb");
    reveal_strlit("/build.ulb");
    let files = init::files_of(project_type, module_dir, namespace);
    let dirs = init::dirs_for(project_type, module_dir);
    let root = target + seq!['/'];
    let steps = init::scaffolding(target, project_type, module_dir, namespace);
    lemma_dirs_made(target, dirs, dirs.len() as int);
    lemma_write_count(target, files.scaffold, files.scaffold.len() as int);
    assert(target.push('/') =~= root);
    let module = root + module_dir;
    assert(module.last() == module_dir.last());
    assert(module.push('/') + "build.ulb"@ =~= module + "/build.ulb"@);
    let made = init::making_dirs(target, dirs, dirs.len() as int);
    let written = init::writing_files(target, files.scaffold, files.scaffold.len() as int);
    assert forall|i: int| 0 <= i < dirs.len() implies steps[5 + i] == Doing::MakeDir(
        text::path_text(target, #[trigger] dirs[i]),
    ) by {
        assert(steps[5 + i] == made[i]);
    }
    assert forall|i: int| 0 <= i < files.scaffold.len() implies steps[5 + dirs.len() + 2 * i + 1]
        == Doing::Write(
        text::path_text(target, (#[trigger] files.scaffold[i]).0),
        files.scaffold[i].1,
    ) by {
        assert(steps[5 + dirs.len() + 2 * i + 1] == written[2 * i + 1]);
        lemma_written(target, files.scaffold, files.scaffold.len() as int, i);
    }
}

proof fn lemma_written(target: Seq<char>, files: Seq<(Seq<char>, Seq<char>)>, n: int, i: int)
    requires
        0 <= i < n <= files.len(),
    ensures
        init::writing_files(target, files, n)[2 * i + 1] == Doing::Write(
            text::path_text(target, files[i].0),
            files[i].1,
        ),
    decreases n,
{
    lemma_write_count(target, files, n - 1);
    if i < n - 1 {
        lemma_written(target, files, n - 1, i);
    }
}

/// A registry with an address is asked over the network, any other is a file;
/// without one it is the registry of the project.
pub proof fn law_registries_are_named(
    source: RegistrySource,
    rest: Seq<char>,
    named: Seq<char>,
    chosen: Option<RegistrySource>,
)
    ensures
        cli::is_source(source, "https://"@ + rest) ==> (source matches RegistrySource::Url(url)
            && url@ == "https://"@ + rest),
        cli::is_source(source, "http://"@ + rest) ==> (source matches RegistrySource::Url(url)
            && url@ == "http://"@ + rest),
        cli::is_source(source, named) && named.len() > 0 && named[0] != 'h' ==> (
        source matches RegistrySource::File(path) && path@ == named),
        driver::is_registry(source, chosen) && chosen is Some ==> source == chosen->0,
        driver::is_registry(source, None) ==> (source matches RegistrySource::Url(url) && url@
            == "https://raw.githubusercontent.com/Ulite-Team/ulb-plugins/main/registry/index.json"@),
{
    reveal_strlit("https://");
    reveal_strlit("http://");
    assert("https://"@ =~= ("https://"@ + rest).subrange(0, 8));
    assert("http://"@ =~= ("http://"@ + rest).subrange(0, 7));
    assert("https://"@.is_prefix_of("https://"@ + rest));
    assert("http://"@.is_prefix_of("http://"@ + rest));
    if "https://"@.is_prefix_of(named) {
        assert("https://"@ =~= named.subrange(0, 8));
        assert(named.subrange(0, 8)[0] == named[0]);
    }
    if "http://"@.is_prefix_of(named) {
        assert("http://"@ =~= named.subrange(0, 7));
        assert(named.subrange(0, 7)[0] == named[0]);
    }
}

/// The repositories that a project adds are asked first, in order, and then the
/// others.
pub proof fn law_added_repositories_come_first(
    repos: Seq<MavenRepo>,
    extra: Seq<Seq<char>>,
    others: Seq<MavenRepo>,
    i: int,
)
    requires
        driver::are_repos(repos, extra, others),
        0 <= i < repos.len(),
    ensures
        i < extra.len() ==> (repos[i] matches MavenRepo::Custom(url) && url@ == extra[i]),
        i >= extra.len() ==> repos[i] == others[i - extra.len()],
        repos.len() == extra.len() + others.len(),
{
    if i >= extra.len() {
        assert(repos.skip(extra.len() as int)[i - extra.len()] == repos[i]);
    }
}

/// The repositories that are named on the command line are taken in order; where
/// none is named, none is chosen.
pub proof fn law_named_repositories_are_chosen(
    repos: Option<Vec<MavenRepo>>,
    named: Seq<Seq<char>>,
    i: int,
)
    requires
        cli::are_chosen(repos, named),
    ensures
        named.len() == 0 <==> repos is None,
        repos matches Some(list) ==> list@.len() == named.len() && (0 <= i < named.len() ==> (
        list@[i] matches MavenRepo::Custom(url) && url@ == named[i])),
{
}

/// Whether the option at a place of arguments that are pairs names a repository.
pub open spec fn names_repo(args: Seq<Seq<char>>, at: int, repo: Seq<char>) -> bool {
    args[at] == "--repo"@ && args[at + 1] == repo
}

/// The repositories are kept in the order in which they are given.
pub proof fn law_repositories_keep_their_order(
    args: Seq<Seq<char>>,
    choices: Choices,
    from: int,
    repos: Seq<Seq<char>>,
)
    requires
        0 <= from,
        args.len() == from + 2 * repos.len(),
        forall|i: int|
            0 <= i < repos.len() ==> names_repo(args, from + 2 * i, #[trigger] repos[i]),
    ensures
        cli::choices_from(args, choices, from).repos == choices.repos + repos,
    decreases repos.len(),
{
    lemma_flags_differ();
    if repos.len() > 0 {
        assert(names_repo(args, from, repos[0]));
        let next = cli::with_option(choices, args[from], args[from + 1]);
        let rest = repos.drop_first();
        assert forall|i: int| 0 <= i < rest.len() implies names_repo(
            args,
            from + 2 + 2 * i,
            #[trigger] rest[i],
        ) by {
            assert(rest[i] == repos[i + 1]);
            assert(names_repo(args, from + 2 * (i + 1), repos[i + 1]));
        }
        law_repositories_keep_their_order(args, next, from + 2, rest);
        assert(choices.repos.push(repos[0]) + rest =~= choices.repos + repos);
    } else {
        assert(choices.repos + repos =~= choices.repos);
    }
}

} // verus!
