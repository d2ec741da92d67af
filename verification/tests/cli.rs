use uliab::cli::{
    build_summary, chosen_repos, list_classpath, parse_command, parse_options,
    parse_registry_source, report_wave, resolved_line, unresolved_line, Command,
};
use uliab::maven::{Classpath, MavenRepo};
use uliab::registry::{AbiRange, PluginSpec, RegistryError, RegistrySource, ResolvedPlugin};
use uliab::task::{BuildResult, Task, TaskAction, TaskFailure, TaskGraph};

fn strings(list: &[&str]) -> Vec<String> {
    list.iter().map(|s| (*s).to_owned()).collect()
}

fn hello() -> PluginSpec {
    PluginSpec {
        name: "ulite/hello".to_owned(),
        version: Some("0.1.0".to_owned()),
    }
}

#[test]
fn commands_are_recognized() {
    for (args, expected) in [
        (vec!["run", "p.wasm", "f", "x"], (Command::Run, 1)),
        (vec!["build"], (Command::Build, 1)),
        (vec!["init", "demo"], (Command::Init, 1)),
        (vec!["plugins", "list"], (Command::ListPlugins, 2)),
        (vec!["plugins", "resolve"], (Command::ResolvePlugins, 2)),
        (vec!["plugins"], (Command::PluginsUsage, 1)),
        (vec!["deps", "resolve"], (Command::ResolveDeps, 2)),
        (vec!["deps", "list"], (Command::DepsUsage, 1)),
        (vec!["nope"], (Command::Usage, 0)),
        (vec![], (Command::Usage, 0)),
    ] {
        assert_eq!(parse_command(&strings(&args)), expected, "{args:?}");
    }
}

#[test]
fn options_are_read() {
    let args = strings(&[
        "build",
        "--project",
        "/p",
        "--repo",
        "https://a",
        "--repo",
        "/b",
        "stray",
        "--android-sdk",
        "/sdk",
        "--cache-dir",
        "/c",
        "--type",
        "jvm",
        "--registry",
    ]);
    let options = parse_options(&args, 1, Some("https://env".to_owned()));
    assert_eq!(options.project_dir.as_deref(), Some("/p"));
    assert_eq!(options.repos, strings(&["https://a", "/b"]));
    assert_eq!(options.android_sdk.as_deref(), Some("/sdk"));
    assert_eq!(options.cache_dir.as_deref(), Some("/c"));
    assert_eq!(options.project_type.as_deref(), Some("jvm"));
    assert_eq!(options.unknown, strings(&["stray"]));
    assert_eq!(
        options.registry.as_deref(),
        Some("https://env"),
        "an option without a value counts for nothing"
    );
}

#[test]
fn an_option_replaces_the_environment() {
    let args = strings(&["--registry", "/index.json"]);
    let options = parse_options(&args, 0, Some("https://env".to_owned()));
    assert_eq!(options.registry.as_deref(), Some("/index.json"));
}

#[test]
fn sources_and_repositories_are_named() {
    assert_eq!(
        parse_registry_source("https://host/index.json"),
        RegistrySource::Url("https://host/index.json".to_owned())
    );
    assert_eq!(
        parse_registry_source("index.json"),
        RegistrySource::File("index.json".to_owned())
    );
    assert_eq!(chosen_repos(&vec![]), None);
    assert_eq!(
        chosen_repos(&strings(&["/r"])),
        Some(vec![MavenRepo::Custom("/r".to_owned())])
    );
}

#[test]
fn buckets_with_jars_are_listed() {
    let classpath = Classpath {
        compile: strings(&["/a.jar", "/b.jar"]),
        test_runtime: strings(&["/t.jar"]),
        ..Classpath::default()
    };
    let lines = list_classpath(&classpath);
    assert_eq!(lines.len(), 5);
    assert!(lines[0].contains("compile"));
    assert_eq!(lines[1], "  /a.jar");
    assert_eq!(lines[2], "  /b.jar");
    assert!(lines[3].contains("testRuntime"));
    assert_eq!(lines[4], "  /t.jar");
    assert!(list_classpath(&Classpath::default()).is_empty());
}

#[test]
fn plugins_are_reported() {
    let resolved = |from_cache: bool| ResolvedPlugin {
        name: "ulite/hello".to_owned(),
        version: "0.1.0".to_owned(),
        abi: AbiRange {
            min: "0.4".to_owned(),
            max: "0.7".to_owned(),
        },
        path: "/cache/hello.wasm".to_owned(),
        from_cache,
        warning: None,
    };
    assert_eq!(
        resolved_line(&hello(), &resolved(true)),
        "ulite/hello@0.1.0 -> /cache/hello.wasm (cache)"
    );
    assert_eq!(
        resolved_line(&hello(), &resolved(false)),
        "ulite/hello@0.1.0 -> /cache/hello.wasm (registry)"
    );
    let error = RegistryError::Cache("denied".to_owned());
    assert_eq!(
        unresolved_line(&hello(), &error),
        format!("ulite/hello@0.1.0: {}", error.message())
    );
}

#[test]
fn builds_are_summed_up() {
    let result = |skipped: usize, failure: Option<TaskFailure>| BuildResult {
        ran: 2,
        up_to_date: 13,
        skipped,
        failure,
    };
    assert_eq!(
        build_summary(&result(0, None)).unwrap(),
        "build finished: 2 ran, 13 up-to-date"
    );
    assert_eq!(
        build_summary(&result(1, None)).unwrap(),
        "build finished: 2 ran, 13 up-to-date, 1 skipped"
    );
    let failure = TaskFailure {
        task: "app::a".to_owned(),
        error: "boom".to_owned(),
    };
    assert_eq!(
        build_summary(&result(1, Some(failure))).unwrap_err(),
        "task 'app::a' failed: boom"
    );
}

#[test]
fn tasks_are_reported_as_they_go() {
    let mut graph = TaskGraph::new();
    for name in ["a", "b"] {
        let action = TaskAction::Copy {
            from: "x".to_owned(),
            to: "y".to_owned(),
        };
        graph
            .register(Task::leaf(name, "app", vec![], vec![], action))
            .unwrap();
    }
    assert_eq!(
        report_wave(&graph, &vec![0, 1], &vec![1]),
        strings(&["app::a: up-to-date", "app::b: ran"])
    );
}
