use std::collections::BTreeMap;

use uliab::digest::hex_digest;
use uliab::driver::classpath::{
    add_missing, join_classpath, merge_api, resolve_project_classpath, skipped_refs,
};
use uliab::driver::config::{
    discover_module_output, first_existing_sdk_dir, module_android_sdk_dir, plugin_config,
    sdk_candidates, sdk_roots, SdkHints,
};
use uliab::driver::course::{Evaluation, ModuleRequest, PluginOutcome};
use uliab::driver::deps::{
    collect_source_set_deps, collect_source_set_project_refs, compose_deps, has_deps, model_deps,
    reject_project_refs, resolve_source_set_classpaths, SourceSetStep,
    DEFAULT_COMPOSE_BOM_VERSION,
};
use uliab::driver::model::module_model_to_json;
use uliab::driver::modules::{link_module, module_config, prepare_module, Preparation};
use uliab::driver::plugins::{provider_module_label, Configured};
use uliab::driver::{
    android_sdk_root, build_executor, build_project, build_repos, checked_sdk_root,
    registry_source, resolve_project_deps, resolve_project_source_sets, scheduling_error,
    state_path, BuildRequest, BuildState, BuildStep, DEFAULT_REGISTRY,
};
use uliab::json::{object_to_text, to_text, Json};
use uliab::maven::fetch::{Attempt, FetchStep, Source};
use uliab::maven::graph::KnownPom;
use uliab::maven::resolver::{Outcome, Progress};
use uliab::maven::{Classpath, DeclaredDep, Dependency, MavenRepo, MavenScope, Resolver};
use uliab::registry::{PluginSpec, RegistrySource};
use uliab::task::{
    AllowlistedTool, FingerprintContext, GraphError, Task, TaskAction, TaskGraph,
};
use uliab::text_map::TextMap;
use uliab::value::{Number, Value};

fn text(s: &str) -> Value {
    Value::Str(s.to_owned())
}

fn strings(list: &[&str]) -> Vec<String> {
    list.iter().map(|s| (*s).to_owned()).collect()
}

fn block(entries: Vec<(&str, Value)>) -> Value {
    let mut map = TextMap::new();
    for (key, value) in entries {
        map.insert(key.to_owned(), value);
    }
    Value::Block(map)
}

fn object(members: Vec<(&str, Json)>) -> Json {
    let mut map = TextMap::new();
    for (key, value) in members {
        map.insert(key.to_owned(), value);
    }
    Json::Object(map)
}

fn json_text(s: &str) -> Json {
    Json::Str(s.to_owned())
}

fn refs(list: Vec<(MavenScope, &str)>) -> Vec<(MavenScope, String)> {
    list.into_iter()
        .map(|(scope, path)| (scope, path.to_owned()))
        .collect()
}

fn outputs(list: &[(&str, &str)]) -> TextMap<String> {
    let mut map = TextMap::new();
    for (key, value) in list {
        map.insert((*key).to_owned(), (*value).to_owned());
    }
    map
}

fn apis(list: &[(&str, &[&str])]) -> TextMap<Vec<String>> {
    let mut map = TextMap::new();
    for (key, jars) in list {
        map.insert((*key).to_owned(), strings(jars));
    }
    map
}

fn no_hints() -> SdkHints {
    SdkHints {
        android_home: None,
        android_sdk_root: None,
        home: None,
    }
}

/// Resolves dependencies against files of a repository below `/repo`.
fn resolve_in(
    files: &BTreeMap<String, String>,
    declared: &Vec<DeclaredDep>,
) -> Result<Classpath, String> {
    let resolver = Resolver::new(
        vec![MavenRepo::Custom("/repo".to_owned())],
        Some("/cache".to_owned()),
        None,
    );
    let fetch = |coordinate: &Dependency, extension: &str| -> Result<String, String> {
        let mut attempts = Vec::new();
        let mut found = String::new();
        loop {
            match resolver.fetch_step(coordinate, extension, &attempts) {
                FetchStep::Done => return Ok(found),
                FetchStep::Try(Source::File(path)) => match files.get(&path) {
                    Some(content) => {
                        found = content.clone();
                        attempts.push(Attempt::Fetched);
                    }
                    None => attempts.push(Attempt::Miss),
                },
                FetchStep::Try(Source::Http(url)) => panic!("no network for {url}"),
                FetchStep::Failed(error) => return Err(error.message()),
            }
        }
    };
    let mut poms = Vec::new();
    let mut fetched = Vec::new();
    loop {
        match resolver.resolve(declared, &poms, &fetched) {
            Progress::Pom(coordinate) => {
                let bytes = fetch(&coordinate, "pom")?;
                let pom = Resolver::read_pom(&coordinate, bytes.as_bytes())
                    .map_err(|error| error.message())?;
                poms.push(KnownPom { coordinate, pom });
            }
            Progress::Artifacts(artifacts) => {
                let mut outcomes = Vec::new();
                for artifact in &artifacts {
                    fetch(&artifact.coordinate, &artifact.packaging)?;
                    outcomes.push(Outcome::Path(resolver.cache_file(&artifact.coordinate, "jar")));
                }
                fetched.push(outcomes);
            }
            Progress::Done(resolution) => return Ok(resolution.classpath),
            Progress::Failed(error) => return Err(error.message()),
        }
    }
}

fn resolve_sets(
    files: &BTreeMap<String, String>,
    model: &Value,
) -> Result<Vec<(String, Classpath)>, String> {
    let mut resolved = Vec::new();
    loop {
        match resolve_source_set_classpaths(model, &None, &resolved) {
            SourceSetStep::Resolve(declared) => resolved.push(resolve_in(files, &declared)),
            SourceSetStep::Done(sets) => return Ok(sets),
            SourceSetStep::Failed(message) => return Err(message),
        }
    }
}

fn plain_pom(group: &str, artifact: &str, version: &str) -> String {
    format!(
        "<?xml version=\"1.0\"?><project>\
         <modelVersion>4.0.0</modelVersion>\
         <groupId>{group}</groupId><artifactId>{artifact}</artifactId><version>{version}</version>\
         </project>"
    )
}

fn lib_repo() -> BTreeMap<String, String> {
    let mut files = BTreeMap::new();
    let dir = "/repo/com/example/lib/1.0";
    files.insert(
        format!("{dir}/lib-1.0.pom"),
        plain_pom("com.example", "lib", "1.0"),
    );
    files.insert(format!("{dir}/lib-1.0.jar"), "jar".to_owned());
    files
}

fn add(
    files: &mut BTreeMap<String, String>,
    group: &str,
    artifact: &str,
    version: &str,
    children: &[(&str, &str)],
) {
    let mut pom = plain_pom(group, artifact, version);
    if !children.is_empty() {
        let list: String = children
            .iter()
            .map(|(child, version)| {
                format!(
                    "<dependency><groupId>{group}</groupId>\
                     <artifactId>{child}</artifactId><version>{version}</version></dependency>"
                )
            })
            .collect();
        pom = pom.replace(
            "</project>",
            &format!("<dependencies>{list}</dependencies></project>"),
        );
    }
    let path = format!(
        "/repo/{}/{artifact}/{version}/{artifact}-{version}",
        group.replace('.', "/")
    );
    files.insert(format!("{path}.pom"), pom);
    files.insert(format!("{path}.jar"), format!("{artifact}-{version}"));
}

fn jar_names(paths: &[String]) -> Vec<&str> {
    paths
        .iter()
        .map(|path| path.rsplit('/').next().unwrap())
        .collect()
}

fn compose_model(compose: bool, deps: Value) -> Value {
    block(vec![
        ("android", block(vec![("compose", Value::Bool(compose))])),
        ("commonMain", block(vec![("deps", deps)])),
    ])
}

#[test]
fn block_serializes_to_an_object_with_scalar_entries() {
    let json = module_model_to_json(&block(vec![
        ("output", text("out.txt")),
        ("source", text("in.txt")),
        ("versionCode", Value::Number(Number::Int(7))),
    ]))
    .expect("serializes");
    assert_eq!(
        json,
        object(vec![
            ("output", json_text("out.txt")),
            ("source", json_text("in.txt")),
            ("versionCode", Json::Int(7)),
        ])
    );
}

#[test]
fn block_serialization_is_deterministic_regardless_of_key_order() {
    let first =
        module_model_to_json(&block(vec![("b", text("x")), ("a", text("y"))])).expect("serializes");
    let second =
        module_model_to_json(&block(vec![("a", text("y")), ("b", text("x"))])).expect("serializes");
    assert_eq!(first, second);
}

#[test]
fn an_invalid_value_cannot_be_serialized() {
    let error = module_model_to_json(&Value::Invalid("unknown reference".to_owned()))
        .expect_err("invalid");
    assert!(error.contains("unresolved value"));
}

#[test]
fn values_become_documents() {
    let float = |shown: &str, finite: bool| {
        Value::Number(Number::Float {
            shown: shown.to_owned(),
            finite,
        })
    };
    assert_eq!(
        module_model_to_json(&float("1.5", true)),
        Ok(Json::Float("1.5".to_owned()))
    );
    assert!(module_model_to_json(&float("inf", false)).is_err());
    assert_eq!(
        module_model_to_json(&Value::List(vec![
            Value::Bool(true),
            Value::Version("1.2".to_owned()),
            Value::Coordinate("a:b:1".to_owned()),
        ])),
        Ok(Json::Array(vec![
            Json::Bool(true),
            json_text("1.2"),
            json_text("a:b:1"),
        ]))
    );
}

#[test]
fn sdk_candidates_lead_with_the_override_and_end_with_the_home_fallback() {
    let hints = SdkHints {
        home: Some("/home/example".to_owned()),
        ..no_hints()
    };
    let candidates = sdk_candidates(Some("/opt/sdk"), &hints);
    assert_eq!(candidates.first().unwrap(), "/opt/sdk");
    assert_eq!(candidates.last().unwrap(), "/home/example/Android/Sdk");
    // The override always leads, so it wins over any environment or
    // home candidate no matter what the machine has set.
    let no_override = sdk_candidates(None, &hints);
    assert_eq!(no_override.last().unwrap(), "/home/example/Android/Sdk");
    let all = SdkHints {
        android_home: Some("/a".to_owned()),
        android_sdk_root: Some("/b".to_owned()),
        home: Some("/h".to_owned()),
    };
    assert_eq!(
        sdk_candidates(Some("/o"), &all),
        strings(&["/o", "/a", "/b", "/h/Android/Sdk"])
    );
}

#[test]
fn first_existing_sdk_dir_skips_missing_candidates() {
    let candidates = strings(&["/base/missing", "/base/real", "/base/also-missing"]);
    let existing = strings(&["/base/real"]);
    assert_eq!(
        first_existing_sdk_dir(&candidates, &existing),
        Some("/base/real".to_owned())
    );
    assert_eq!(
        first_existing_sdk_dir(&strings(&["/base/missing"]), &existing),
        None
    );
}

#[test]
fn android_sdk_root_accepts_an_existing_override() {
    assert_eq!(
        android_sdk_root(Some("/base/sdk"), &no_hints(), &strings(&["/base/sdk"])),
        Some("/base/sdk".to_owned())
    );
}

#[test]
fn an_explicit_override_that_does_not_exist_is_an_error() {
    let missing = "/base/does-not-exist";
    let error =
        checked_sdk_root(Some(missing), &no_hints(), &vec![]).expect_err("missing override");
    assert!(error.contains(missing), "{error}");
    assert!(error.contains("must name an existing directory"), "{error}");
}

#[test]
fn an_existing_override_wins_without_probing_the_environment() {
    // The override is returned as-is even though the home directory's
    // `Android/Sdk` would otherwise resolve; the explicit path must
    // not be silently replaced by an environment convention.
    let hints = SdkHints {
        home: Some("/home/me".to_owned()),
        ..no_hints()
    };
    let existing = strings(&["/home/me/Android/Sdk", "/base/custom"]);
    assert_eq!(
        checked_sdk_root(Some("/base/custom"), &hints, &existing).expect("existing override"),
        Some("/base/custom".to_owned())
    );
    assert_eq!(
        checked_sdk_root(None, &hints, &existing).expect("probed"),
        Some("/home/me/Android/Sdk".to_owned())
    );
    assert_eq!(checked_sdk_root(None, &no_hints(), &existing), Ok(None));
}

#[test]
fn a_module_sdk_dir_is_resolved_against_the_project_dir_when_relative() {
    let config = object(vec![
        ("source", json_text("in.txt")),
        ("android", object(vec![("sdkDir", json_text("local/sdk"))])),
    ]);
    assert_eq!(
        module_android_sdk_dir(&config, "/tmp/project"),
        Some("/tmp/project/local/sdk".to_owned())
    );
}

#[test]
fn an_absolute_module_sdk_dir_is_left_untouched() {
    let config = object(vec![(
        "android",
        object(vec![("sdkDir", json_text("/opt/android-sdk"))]),
    )]);
    assert_eq!(
        module_android_sdk_dir(&config, "/tmp/project"),
        Some("/opt/android-sdk".to_owned())
    );
}

#[test]
fn a_module_without_a_string_sdk_dir_declares_none() {
    assert_eq!(
        module_android_sdk_dir(&object(vec![("android", object(vec![]))]), "/p"),
        None
    );
    assert_eq!(
        module_android_sdk_dir(
            &object(vec![(
                "android",
                object(vec![("compileSdk", Json::Int(36))])
            )]),
            "/p"
        ),
        None
    );
    assert_eq!(module_android_sdk_dir(&object(vec![]), "/p"), None);
}

#[test]
fn sdk_roots_are_not_repeated() {
    assert_eq!(sdk_roots(Some("/a"), Some("/b")), strings(&["/a", "/b"]));
    assert_eq!(sdk_roots(Some("/a"), Some("/a")), strings(&["/a"]));
    assert_eq!(sdk_roots(None, Some("/b")), strings(&["/b"]));
    assert!(sdk_roots(None, None).is_empty());
}

#[test]
fn source_set_deps_are_collected_by_key_path() {
    let deps_block = || {
        block(vec![(
            "implementation",
            Value::List(vec![text("com.example:one:1.0")]),
        )])
    };
    let model = block(vec![
        ("deps", deps_block()),
        ("commonMain", block(vec![("deps", deps_block())])),
        (
            "android",
            block(vec![("compileSdk", Value::Number(Number::Int(35)))]),
        ),
        (
            "kmp",
            block(vec![("commonMain", block(vec![("deps", deps_block())]))]),
        ),
    ]);

    let Value::Block(top) = &model else {
        panic!("model is a block");
    };
    let mut found = Vec::new();
    for (key, value) in &top.entries {
        found.extend(collect_source_set_deps(key, value).expect("collects"));
    }
    let paths: Vec<&str> = found.iter().map(|(path, _)| path.as_str()).collect();
    assert_eq!(paths, ["commonMain", "kmp.commonMain"]);
}

#[test]
fn a_non_block_source_set_deps_names_its_path() {
    let model = block(vec![("commonMain", block(vec![("deps", text("x"))]))]);
    let step = resolve_source_set_classpaths(&model, &None, &vec![]);
    let SourceSetStep::Failed(error) = step else {
        panic!("malformed deps: {step:?}");
    };
    assert!(error.contains("deps at 'commonMain'"), "{error}");
}

#[test]
fn source_set_project_refs_are_collected_by_key_path_and_scope() {
    let model = block(vec![
        (
            "deps",
            block(vec![(
                "implementation",
                Value::ProjectRef(":top".to_owned()),
            )]),
        ),
        (
            "commonMain",
            block(vec![(
                "deps",
                block(vec![
                    ("api", Value::ProjectRef(":lib".to_owned())),
                    ("implementation", text("com.example:one:1.0")),
                ]),
            )]),
        ),
        (
            "jvmTest",
            block(vec![(
                "deps",
                block(vec![(
                    "testImplementation",
                    Value::List(vec![Value::ProjectRef(":testing".to_owned())]),
                )]),
            )]),
        ),
    ]);

    let refs = collect_source_set_project_refs(&model).expect("collects");
    assert_eq!(refs.len(), 2, "top-level deps are not source sets");
    assert_eq!(
        refs[0],
        (
            "commonMain".to_owned(),
            vec![(MavenScope::Api, ":lib".to_owned())]
        )
    );
    assert_eq!(
        refs[1],
        (
            "jvmTest".to_owned(),
            vec![(MavenScope::TestImplementation, ":testing".to_owned())]
        )
    );
}

#[test]
fn reject_project_refs_names_top_level_and_nested_locations() {
    let clean = block(vec![
        ("jvm", block(vec![("jarFile", text("build/app.jar"))])),
        (
            "commonMain",
            block(vec![(
                "deps",
                block(vec![("implementation", text("com.example:one:1.0"))]),
            )]),
        ),
    ]);
    assert!(reject_project_refs(&clean).is_ok());

    let lib = || block(vec![("api", Value::ProjectRef(":lib".to_owned()))]);
    let offending = block(vec![
        ("deps", lib()),
        (
            "kmp",
            block(vec![("commonMain", block(vec![("deps", lib())]))]),
        ),
    ]);
    let error = reject_project_refs(&offending).expect_err("project refs rejected");
    assert!(error.contains("settings.ulb"), "{error}");
    assert!(error.contains("deps"), "{error}");
    assert!(error.contains("kmp.commonMain.deps"), "{error}");
}

#[test]
fn discover_module_output_finds_jvm_jar() {
    let model = block(vec![(
        "jvm",
        block(vec![("jarFile", text("build/app.jar"))]),
    )]);
    let output = discover_module_output(&model, "/project/app");
    assert_eq!(output, Some("/project/app/build/app.jar".to_owned()));
}

#[test]
fn discover_module_output_finds_android_apk() {
    let model = block(vec![(
        "android",
        block(vec![("apk", text("build/app.apk"))]),
    )]);
    let output = discover_module_output(&model, "/project/app");
    assert_eq!(output, Some("/project/app/build/app.apk".to_owned()));
}

#[test]
fn discover_module_output_returns_none_for_unknown_plugin() {
    let model = block(vec![(
        "web",
        block(vec![("out", text("dist/index.html"))]),
    )]);
    assert_eq!(discover_module_output(&model, "/project"), None);
}

#[test]
fn discover_module_output_returns_none_for_non_block() {
    assert_eq!(discover_module_output(&text("not a block"), "/p"), None);
}

#[test]
fn resolve_project_classpath_implementation_injects_compile_and_runtime() {
    let cp = resolve_project_classpath(
        &refs(vec![(MavenScope::Implementation, ":shared")]),
        &outputs(&[("shared", "/project/shared/build/app.jar")]),
        &apis(&[]),
        &strings(&["shared"]),
    )
    .expect("resolves");
    assert_eq!(cp.compile.len(), 1);
    assert_eq!(cp.runtime.len(), 1);
    assert_eq!(cp.test_compile.len(), 0);
}

#[test]
fn resolve_project_classpath_runtime_only_injects_runtime_only() {
    let cp = resolve_project_classpath(
        &refs(vec![(MavenScope::RuntimeOnly, ":lib")]),
        &outputs(&[("lib", "/project/lib/build/app.jar")]),
        &apis(&[]),
        &strings(&["lib"]),
    )
    .expect("resolves");
    assert_eq!(cp.compile.len(), 0);
    assert_eq!(cp.runtime.len(), 1);
}

#[test]
fn resolve_project_classpath_unknown_module_is_error() {
    let error = resolve_project_classpath(
        &refs(vec![(MavenScope::Implementation, ":missing")]),
        &outputs(&[]),
        &apis(&[]),
        &strings(&["app"]),
    )
    .expect_err("missing");
    assert!(error.contains("not declared in settings"), "{error}");
}

#[test]
fn resolve_project_classpath_module_without_output_is_error() {
    let error = resolve_project_classpath(
        &refs(vec![(MavenScope::Implementation, ":shared")]),
        &outputs(&[]),
        &apis(&[]),
        &strings(&["shared"]),
    )
    .expect_err("no output");
    assert!(error.contains("no discoverable output"), "{error}");
}

#[test]
fn resolve_project_classpath_test_impl_injects_test_buckets() {
    let cp = resolve_project_classpath(
        &refs(vec![(MavenScope::TestImplementation, ":testlib")]),
        &outputs(&[("testlib", "/project/testlib/build/app.jar")]),
        &apis(&[]),
        &strings(&["testlib"]),
    )
    .expect("resolves");
    assert_eq!(cp.compile.len(), 0);
    assert_eq!(cp.runtime.len(), 0);
    assert_eq!(cp.test_compile.len(), 1);
    assert_eq!(cp.test_runtime.len(), 1);
}

#[test]
fn resolve_project_classpath_api_propagates_dep_api_classpath() {
    let cp = resolve_project_classpath(
        &refs(vec![(MavenScope::Api, ":shared")]),
        &outputs(&[("shared", "/project/shared/build/app.jar")]),
        &apis(&[(
            "shared",
            &[
                "/repo/com/example/one/1.0/one-1.0.jar",
                "/repo/com/example/two/2.0/two-2.0.jar",
            ],
        )]),
        &strings(&["shared"]),
    )
    .expect("resolves");
    assert_eq!(cp.compile.len(), 3, "output + 2 api jars");
    assert_eq!(cp.runtime.len(), 3, "output + 2 api jars");
    assert!(cp
        .compile
        .contains(&"/project/shared/build/app.jar".to_owned()));
    assert!(cp
        .compile
        .contains(&"/repo/com/example/one/1.0/one-1.0.jar".to_owned()));
    assert!(cp
        .compile
        .contains(&"/repo/com/example/two/2.0/two-2.0.jar".to_owned()));
}

#[test]
fn resolve_project_classpath_implementation_does_not_propagate_api_classpath() {
    let cp = resolve_project_classpath(
        &refs(vec![(MavenScope::Implementation, ":shared")]),
        &outputs(&[("shared", "/project/shared/build/app.jar")]),
        &apis(&[("shared", &["/repo/com/example/one/1.0/one-1.0.jar"])]),
        &strings(&["shared"]),
    )
    .expect("resolves");
    assert_eq!(cp.compile.len(), 1, "only output, no api jars");
    assert_eq!(cp.runtime.len(), 1, "only output, no api jars");
}

#[test]
fn the_order_of_modules_plays_no_role() {
    let with = |modules: &[&str]| {
        resolve_project_classpath(
            &refs(vec![(MavenScope::Api, ":b"), (MavenScope::Ksp, ":a")]),
            &outputs(&[("a", "/a.jar"), ("b", "/b.jar")]),
            &apis(&[("b", &["/x.jar"])]),
            &strings(modules),
        )
    };
    assert_eq!(with(&["a", "b"]), with(&["b", "a"]));
    let cp = with(&["a", "b"]).expect("resolves");
    assert_eq!(cp.compile, strings(&["/b.jar", "/x.jar"]));
}

#[test]
fn references_of_other_scopes_are_skipped_with_a_warning() {
    let list = refs(vec![
        (MavenScope::Api, ":a"),
        (MavenScope::AndroidTestImplementation, ":a"),
    ]);
    let known = outputs(&[("a", "/a.jar")]);
    let modules = strings(&["a"]);
    let warnings = skipped_refs(&list, &known, &modules);
    let cp = resolve_project_classpath(&list, &known, &apis(&[]), &modules).expect("resolves");
    assert_eq!(cp.compile, strings(&["/a.jar"]));
    assert_eq!(
        warnings,
        strings(&[
            "project(\":a\"): androidTestImplementation scope is not supported for project \
             dependencies; skipping"
        ])
    );
}

#[test]
fn classpaths_are_joined_without_repeats() {
    let mut list = strings(&["a", "b"]);
    add_missing(&mut list, &strings(&["b", "c", "c"]));
    assert_eq!(list, strings(&["a", "b", "c"]));

    let paths = |compile: &[&str], api: &[&str]| Classpath {
        compile: strings(compile),
        api: strings(api),
        ..Classpath::default()
    };
    let mut own = paths(&["a"], &["x"]);
    merge_api(&mut own, &vec![("commonMain".to_owned(), paths(&["q"], &["x", "y"]))]);
    assert_eq!(own, paths(&["a"], &["x", "y"]));
    join_classpath(&mut own, &paths(&["b"], &[]));
    assert_eq!(own.compile, strings(&["a", "b"]));
}

#[test]
fn compose_deps_returns_bom_and_standard_artifacts() {
    let value = block(vec![(
        "android",
        block(vec![
            ("compose", Value::Bool(true)),
            ("composeVersion", text("3.1.0")),
        ]),
    )]);
    let deps = compose_deps(&value, &Some("3.1.0".to_owned()))
        .expect("resolves")
        .expect("compose is true");
    assert_eq!(deps.len(), 4);
    assert_eq!(deps[0].dependency.group, "androidx.compose");
    assert_eq!(deps[0].dependency.artifact, "compose-bom");
    assert_eq!(deps[0].dependency.version, "3.1.0");
    assert_eq!(deps[1].dependency.group, "androidx.compose.runtime");
    assert_eq!(deps[1].dependency.artifact, "runtime");
    assert!(deps[1].dependency.is_version_managed());
    assert_eq!(deps[2].dependency.group, "androidx.compose.ui");
    assert_eq!(deps[2].dependency.artifact, "ui");
    assert!(deps[2].dependency.is_version_managed());
    assert_eq!(deps[3].dependency.group, "androidx.compose.material3");
    assert_eq!(deps[3].dependency.artifact, "material3");
    assert!(deps[3].dependency.is_version_managed());
}

#[test]
fn compose_deps_uses_default_version_when_no_compose_version() {
    let value = block(vec![("android", block(vec![("compose", Value::Bool(true))]))]);
    let deps = compose_deps(&value, &None)
        .expect("resolves")
        .expect("compose is true");
    assert_eq!(deps[0].dependency.version, DEFAULT_COMPOSE_BOM_VERSION);
}

#[test]
fn compose_deps_returns_none_when_compose_false() {
    let value = block(vec![(
        "android",
        block(vec![("compose", Value::Bool(false))]),
    )]);
    assert!(compose_deps(&value, &None).expect("resolves").is_none());
}

#[test]
fn compose_deps_returns_none_when_no_android_block() {
    let value = block(vec![("jvm", block(vec![]))]);
    assert!(compose_deps(&value, &None).expect("resolves").is_none());
}

#[test]
fn a_model_without_deps_has_nothing_to_resolve() {
    let model = block(vec![("jvm", block(vec![]))]);
    assert_eq!(has_deps(&model, &None), Ok(false));
    assert!(model_deps(&model, &None).is_err());
    let model = block(vec![("deps", block(vec![("api", text("a:b:1"))]))]);
    assert_eq!(has_deps(&model, &None), Ok(true));
    assert_eq!(model_deps(&model, &None).unwrap().len(), 1);
}

#[test]
fn source_set_classpath_injects_compose_deps_when_compose_true() {
    let model = compose_model(
        true,
        block(vec![("implementation", text("com.example:lib:1.0"))]),
    );
    let error =
        resolve_sets(&lib_repo(), &model).expect_err("BOM resolution fails with local-only repo");
    assert!(
        error.contains("compose-bom"),
        "error should mention the BOM: {error}"
    );
}

#[test]
fn source_set_classpath_no_compose_injection_when_compose_false() {
    let model = compose_model(
        false,
        block(vec![("implementation", text("com.example:lib:1.0"))]),
    );
    let resolved = resolve_sets(&lib_repo(), &model).expect("resolves without compose");
    assert_eq!(resolved.len(), 1);
    assert_eq!(resolved[0].0, "commonMain");
    assert_eq!(resolved[0].1.compile.len(), 1);
}

#[test]
fn source_set_classpath_compose_resolves_bom_and_managed_deps() {
    let mut files = BTreeMap::new();
    files.insert(
        "/repo/androidx/compose/compose-bom/2026.08.00/compose-bom-2026.08.00.pom".to_owned(),
        "<?xml version=\"1.0\"?><project>\
         <modelVersion>4.0.0</modelVersion>\
         <groupId>androidx.compose</groupId>\
         <artifactId>compose-bom</artifactId>\
         <version>2026.08.00</version>\
         <packaging>pom</packaging>\
         <dependencyManagement><dependencies>\
           <dependency><groupId>androidx.compose.runtime</groupId>\
             <artifactId>runtime</artifactId><version>1.0</version></dependency>\
           <dependency><groupId>androidx.compose.ui</groupId>\
             <artifactId>ui</artifactId><version>1.0</version></dependency>\
           <dependency><groupId>androidx.compose.material3</groupId>\
             <artifactId>material3</artifactId><version>1.0</version></dependency>\
         </dependencies></dependencyManagement>\
         </project>"
            .to_owned(),
    );
    for artifact in ["runtime", "ui", "material3"] {
        let dir = format!("/repo/androidx/compose/{artifact}/{artifact}/1.0");
        files.insert(
            format!("{dir}/{artifact}-1.0.pom"),
            plain_pom(&format!("androidx.compose.{artifact}"), artifact, "1.0"),
        );
        files.insert(format!("{dir}/{artifact}-1.0.jar"), "jar".to_owned());
    }

    let model = compose_model(true, block(vec![]));
    let resolved = resolve_sets(&files, &model).expect("resolves with full compose BOM repo");
    assert_eq!(resolved.len(), 1);
    assert_eq!(resolved[0].0, "commonMain");
    let compile_jars = &resolved[0].1.compile;
    assert!(
        compile_jars.iter().any(|j| j.contains("runtime-1.0")),
        "managed runtime should be on compile classpath: {compile_jars:?}"
    );
    assert!(
        compile_jars.iter().any(|j| j.contains("ui-1.0")),
        "managed ui should be on compile classpath: {compile_jars:?}"
    );
    assert!(
        compile_jars.iter().any(|j| j.contains("material3-1.0")),
        "managed material3 should be on compile classpath: {compile_jars:?}"
    );
}

#[test]
fn repositories_of_the_settings_come_first() {
    assert_eq!(
        build_repos(None, &strings(&["https://x"])),
        vec![
            MavenRepo::Custom("https://x".to_owned()),
            MavenRepo::Google,
            MavenRepo::Central,
        ]
    );
    assert_eq!(
        build_repos(Some(vec![MavenRepo::Central]), &vec![]),
        vec![MavenRepo::Central]
    );
    assert_eq!(
        registry_source(None),
        RegistrySource::Url(DEFAULT_REGISTRY.to_owned())
    );
    let file = || RegistrySource::File("/i".to_owned());
    assert_eq!(registry_source(Some(file())), file());
}

#[test]
fn builds_allow_every_tool_and_keep_their_state_in_the_project() {
    let executor = build_executor();
    assert_eq!(executor.allowlist().len(), 10);
    assert!(executor.allows(AllowlistedTool::Apksigner));
    assert_eq!(state_path("/p"), "/p/.uliab/state.json");
    assert_eq!(
        scheduling_error(&GraphError::Cycle(strings(&["a::x"]))),
        format!(
            "scheduling the build: {}",
            GraphError::Cycle(strings(&["a::x"])).message()
        )
    );
}

#[test]
fn the_host_adds_to_the_configuration() {
    let mut members = TextMap::new();
    members.insert("projectDir".to_owned(), json_text("overwritten"));
    members.insert("source".to_owned(), json_text("in.txt"));
    let config = plugin_config(
        members,
        &Classpath::default(),
        &vec![],
        "/p",
        Some("app"),
        Some("/sdk"),
    );
    assert_eq!(config.get("projectDir"), Some(&json_text("/p")));
    assert_eq!(config.get("source"), Some(&json_text("in.txt")));
    assert_eq!(config.get("modulePath"), Some(&json_text("app")));
    assert_eq!(config.get("androidSdkDir"), Some(&json_text("/sdk")));
    assert_eq!(
        config.get("classpath"),
        Some(&Classpath::default().to_json())
    );
    assert_eq!(config.get("classpathSourceSets"), None);
    let sets = vec![("commonMain".to_owned(), Classpath::default())];
    let config = plugin_config(
        TextMap::new(),
        &Classpath::default(),
        &sets,
        "/p",
        None,
        None,
    );
    assert_eq!(
        config.get("classpathSourceSets"),
        Some(&object(vec![(
            "commonMain",
            Classpath::default().to_json()
        )]))
    );
    assert_eq!(config.len(), 3);
}

#[test]
fn a_module_is_prepared_and_linked() {
    let model = block(vec![(
        "deps",
        block(vec![(
            "api",
            Value::List(vec![text("a:b:1"), Value::ProjectRef(":lib".to_owned())]),
        )]),
    )]);
    let prepare = |alone: bool, own: &Option<Result<Classpath, String>>| {
        prepare_module("/p", &model, &None, alone, own, &vec![])
    };
    assert!(matches!(prepare(true, &None), Preparation::Failed(_)));
    let Preparation::ResolveOwn(declared) = prepare(false, &None) else {
        panic!("the dependencies are asked for");
    };
    assert_eq!(declared.len(), 1);
    assert!(matches!(
        prepare(false, &Some(Err("offline".to_owned()))),
        Preparation::Failed(message) if message.contains("offline")
    ));
    let own = Classpath {
        compile: strings(&["/b.jar"]),
        ..Classpath::default()
    };
    let Preparation::Ready(module) = prepare(false, &Some(Ok(own))) else {
        panic!("the module is ready");
    };
    let linked = link_module(
        module,
        &outputs(&[("lib", "/lib.jar")]),
        &apis(&[("lib", &["/x.jar"])]),
        &strings(&["lib"]),
    )
    .expect("links");
    assert_eq!(
        linked.classpath.compile,
        strings(&["/b.jar", "/lib.jar", "/x.jar"])
    );
    let config = module_config(linked, "/p", Some("app"), None);
    assert_eq!(config.get("modulePath"), Some(&json_text("app")));
}

#[test]
fn a_module_without_references_is_linked_unchanged() {
    let model = block(vec![
        ("source", text("in.txt")),
        ("jvm", block(vec![("jarFile", text("a.jar"))])),
    ]);
    let prepare = || match prepare_module("/p", &model, &None, true, &None, &vec![]) {
        Preparation::Ready(module) => module,
        other => panic!("{other:?}"),
    };
    let linked = link_module(
        prepare(),
        &outputs(&[("lib", "/lib.jar")]),
        &apis(&[("lib", &["/x.jar"])]),
        &strings(&["lib"]),
    );
    assert_eq!(linked, Ok(prepare()));
}

#[test]
fn providers_are_found_in_the_same_module() {
    let names = strings(&["ulite/kmp", "ulite/android"]);
    assert_eq!(
        provider_module_label(&names, "app/ulite/kmp", "ulite/android"),
        Some("app/ulite/android".to_owned())
    );
    assert_eq!(
        provider_module_label(&names, "app", "ulite/android"),
        None
    );
}

fn plugin(name: &str) -> PluginSpec {
    PluginSpec {
        name: name.to_owned(),
        version: None,
    }
}

fn copy_task(name: &str, module: &str, deps: &[&str]) -> Task {
    Task {
        depends_on: strings(deps),
        ..Task::leaf(
            name,
            module,
            vec![],
            vec![],
            TaskAction::Copy {
                from: "a".to_owned(),
                to: "b".to_owned(),
            },
        )
    }
}

fn configured(name: &str, dependencies: &[&str], tasks: Vec<Task>) -> PluginOutcome {
    let mut graph = TaskGraph::new();
    for task in tasks {
        graph.register(task).unwrap();
    }
    PluginOutcome::Configured(Configured {
        name: name.to_owned(),
        version: "1.0".to_owned(),
        dependencies: strings(dependencies),
        graph,
    })
}

fn request(several: bool, modules: &[(&str, &str)], plugins: &[&str]) -> BuildRequest {
    BuildRequest {
        several,
        modules: modules
            .iter()
            .map(|(rel, dir)| ModuleRequest {
                rel: (*rel).to_owned(),
                dir: (*dir).to_owned(),
            })
            .collect(),
        plugins: plugins.iter().map(|name| plugin(name)).collect(),
        libs_path: "/p/libs.ulb".to_owned(),
        libs_fault: None,
        sdk: Ok(Some("/sdk".to_owned())),
    }
}

fn evaluated(model: Value) -> Evaluation {
    Evaluation::Model { model, shown: None }
}

/// Configures the plugin that comes next.
fn record_next(
    state: BuildState,
    request: &BuildRequest,
    outcome: PluginOutcome,
) -> Result<BuildState, String> {
    match build_project(request, &state) {
        BuildStep::Configure(step) => state.record_plugin(request, &step, outcome),
        other => panic!("{other:?}"),
    }
}

#[test]
fn a_project_without_plugins_is_refused() {
    // Of several modules the plugins are looked at first, of a single one
    // once it is evaluated.
    let several = request(true, &[("app", "/p/app")], &[]);
    let failed = BuildStep::Failed("/p/libs.ulb declares no plugins".to_owned());
    assert_eq!(build_project(&several, &BuildState::new()), failed);
    let single = request(false, &[("", "/p")], &[]);
    let mut state = BuildState::new();
    assert_eq!(build_project(&single, &state), BuildStep::Evaluate(0));
    state.record_evaluation(evaluated(block(vec![])));
    assert_eq!(build_project(&single, &state), failed);
    let unreadable = BuildRequest {
        libs_fault: Some("no libs".to_owned()),
        ..several
    };
    assert_eq!(
        build_project(&unreadable, &BuildState::new()),
        BuildStep::Failed("no libs".to_owned())
    );
}

#[test]
fn a_single_module_is_built() {
    let request = request(false, &[("", "/p")], &["ulite/fixture"]);
    let mut state = BuildState::new();
    assert_eq!(build_project(&request, &state), BuildStep::Evaluate(0));
    state.record_evaluation(evaluated(block(vec![(
        "deps",
        block(vec![("api", text("a:b:1"))]),
    )])));
    let BuildStep::ResolveOwn(0, declared) = build_project(&request, &state) else {
        panic!("the dependencies are asked for");
    };
    assert_eq!(declared[0].dependency.artifact, "b");
    state.record_own(0, Ok(Classpath::default()));
    let BuildStep::Configure(step) = build_project(&request, &state) else {
        panic!("the plugin is configured");
    };
    assert_eq!((step.module, step.plugin), (0, 0));
    assert_eq!(step.config.get("projectDir"), Some(&json_text("/p")));
    assert_eq!(step.config.get("androidSdkDir"), Some(&json_text("/sdk")));
    assert_eq!(step.sdk_roots, strings(&["/sdk"]));
    assert_eq!(step.text, object_to_text(&step.config));
    let config_hash = hex_digest(step.text.as_bytes());
    let state = state
        .record_plugin(
            &request,
            &step,
            configured(
                "ulite/fixture",
                &[],
                vec![copy_task("stage", &step.owner, &[])],
            ),
        )
        .expect("merges");
    assert_eq!(state.hashes, vec![config_hash.clone()]);
    assert_eq!(build_project(&request, &state), BuildStep::Finish);
    let (graph, ctx) = state.finish(&request).expect("links");
    assert_eq!(graph.len(), 1);
    assert_eq!(ctx.plugin_version, "ulite/fixture@1.0");
    assert_eq!(ctx.config_hash, config_hash);
}

/// Builds two modules with two plugins each, `app` with a reference to `lib`,
/// declared in the given order. Each plugin registers a task, and the second one
/// of each module refers to that of the first.
fn build_in_order(rels: [&str; 2]) -> (Vec<(String, String)>, TaskGraph, FingerprintContext) {
    let dirs = rels.map(|rel| format!("/p/{rel}"));
    let request = request(
        true,
        &[(rels[0], dirs[0].as_str()), (rels[1], dirs[1].as_str())],
        &["a/one", "a/two"],
    );
    let model = |at: usize| {
        if rels[at] == "app" {
            block(vec![(
                "deps",
                block(vec![("implementation", Value::ProjectRef(":lib".to_owned()))]),
            )])
        } else {
            block(vec![("jvm", block(vec![("jarFile", text("out/lib.jar"))]))])
        }
    };
    let mut state = BuildState::new();
    let mut configs = Vec::new();
    loop {
        match build_project(&request, &state) {
            BuildStep::Evaluate(at) => state.record_evaluation(evaluated(model(at))),
            BuildStep::ResolveOwn(at, _) => state.record_own(at, Ok(Classpath::default())),
            BuildStep::Configure(step) => {
                let outcome = if step.plugin == 0 {
                    configured("a/one", &[], vec![copy_task("stage", &step.owner, &[])])
                } else {
                    let task = copy_task("consume", &step.owner, &["a/one:stage"]);
                    configured("a/two", &["a/one"], vec![task])
                };
                state = state.record_plugin(&request, &step, outcome).expect("merges");
                configs.push((step.owner, step.text));
            }
            BuildStep::Finish => {
                let (graph, ctx) = state.finish(&request).expect("links");
                return (configs, graph, ctx);
            }
            other => panic!("{other:?}"),
        }
    }
}

#[test]
fn the_digests_of_the_configurations_are_recorded_once_for_each_module() {
    let (configs, _, ctx) = build_in_order(["app", "lib"]);
    let owners: Vec<&str> = configs.iter().map(|(owner, _)| owner.as_str()).collect();
    assert_eq!(owners, vec!["app/a/one", "app/a/two", "lib/a/one", "lib/a/two"]);
    assert_eq!(configs[0].1, configs[1].1);
    assert_eq!(configs[2].1, configs[3].1);
    assert_ne!(configs[0].1, configs[2].1);
    let digests = [&configs[0].1, &configs[2].1].map(|config| hex_digest(config.as_bytes()));
    assert_eq!(ctx.config_hash, digests.join(","));
}

#[test]
fn builds_in_another_order_are_alike() {
    let (mut configs, graph, _) = build_in_order(["app", "lib"]);
    let (mut turned, other, _) = build_in_order(["lib", "app"]);
    configs.sort();
    turned.sort();
    assert_eq!(configs, turned);
    let tasks = |graph: &TaskGraph| {
        let mut tasks: Vec<(String, String, Vec<String>)> = graph
            .entries
            .iter()
            .map(|task| (task.module.clone(), task.name.clone(), task.depends_on.clone()))
            .collect();
        tasks.sort();
        tasks
    };
    assert_eq!(tasks(&graph), tasks(&other));
    assert_eq!(
        tasks(&graph)[1],
        (
            "app/a/two".to_owned(),
            "consume".to_owned(),
            strings(&["app/a/one::stage"])
        )
    );
    assert_eq!(graph.waves().unwrap().len(), other.waves().unwrap().len());
}

#[test]
fn builds_in_another_order_fail_alike() {
    // `app` refers to a module that is not declared, or is faulty itself.
    let end = |rels: [&str; 2], faulty: bool| {
        let dirs = rels.map(|rel| format!("/p/{rel}"));
        let request = request(
            true,
            &[(rels[0], dirs[0].as_str()), (rels[1], dirs[1].as_str())],
            &["a/one"],
        );
        let evaluate = |at: usize| {
            if rels[at] != "app" {
                evaluated(block(vec![]))
            } else if faulty {
                Evaluation::Unreadable("denied".to_owned())
            } else {
                evaluated(block(vec![(
                    "deps",
                    block(vec![("api", Value::ProjectRef(":gone".to_owned()))]),
                )]))
            }
        };
        let mut state = BuildState::new();
        loop {
            match build_project(&request, &state) {
                BuildStep::Evaluate(at) => state.record_evaluation(evaluate(at)),
                BuildStep::ResolveOwn(at, _) => state.record_own(at, Ok(Classpath::default())),
                BuildStep::Configure(step) => {
                    let one = configured("a/one", &[], vec![copy_task("stage", &step.owner, &[])]);
                    state = state.record_plugin(&request, &step, one).expect("merges");
                }
                BuildStep::Failed(message) => return message,
                other => panic!("{other:?}"),
            }
        }
    };
    for faulty in [false, true] {
        let message = end(["app", "lib"], faulty);
        assert_eq!(message, end(["lib", "app"], faulty));
        assert!(message.contains(if faulty { "denied" } else { "'gone'" }), "{message}");
    }
}

#[test]
fn modules_are_linked_whatever_their_order() {
    let request = request(true, &[("app", "/p/app"), ("lib", "/p/lib")], &["ulite/fixture"]);
    let mut state = BuildState::new();
    assert_eq!(build_project(&request, &state), BuildStep::Evaluate(0));
    state.record_evaluation(evaluated(block(vec![(
        "deps",
        block(vec![("implementation", Value::ProjectRef(":lib".to_owned()))]),
    )])));
    assert_eq!(build_project(&request, &state), BuildStep::Evaluate(1));
    state.record_evaluation(evaluated(block(vec![(
        "jvm",
        block(vec![("jarFile", text("out/lib.jar"))]),
    )])));
    let first = loop {
        match build_project(&request, &state) {
            BuildStep::ResolveOwn(i, declared) => {
                assert!(declared.is_empty());
                state.record_own(i, Ok(Classpath::default()));
            }
            BuildStep::Configure(step) => {
                assert_eq!((step.module, step.plugin), (0, 0));
                assert_eq!(step.config.get("modulePath"), Some(&json_text("app")));
                let Some(Json::Object(buckets)) = step.config.get("classpath") else {
                    panic!("a classpath");
                };
                assert_eq!(
                    buckets.get("compile"),
                    Some(&Json::Array(vec![json_text("/p/lib/out/lib.jar")]))
                );
                break step;
            }
            other => panic!("{other:?}"),
        }
    };
    let state = state
        .record_plugin(
            &request,
            &first,
            configured("ulite/fixture", &[], vec![copy_task("stage", "x", &[])]),
        )
        .expect("merges");
    let BuildStep::Configure(step) = build_project(&request, &state) else {
        panic!("the second module");
    };
    assert_eq!((step.module, step.plugin), (1, 0));
}

#[test]
fn a_module_that_is_faulty_stops_the_build() {
    let request = request(true, &[("app", "/p/app")], &["ulite/fixture"]);
    for (evaluation, said) in [
        (Evaluation::NoDirectory, "/p/app"),
        (Evaluation::Unreadable("denied".to_owned()), "denied"),
        (Evaluation::Faulty(strings(&["bad", "worse"])), "bad; worse"),
    ] {
        let mut state = BuildState::new();
        state.record_evaluation(evaluation);
        let BuildStep::Failed(message) = build_project(&request, &state) else {
            panic!("the build stops");
        };
        assert!(message.contains(said), "{message}");
    }
    let refused = BuildRequest {
        sdk: Err("no sdk".to_owned()),
        ..request
    };
    let mut state = BuildState::new();
    loop {
        match build_project(&refused, &state) {
            BuildStep::Evaluate(_) => state.record_evaluation(evaluated(block(vec![]))),
            BuildStep::Failed(message) => {
                assert_eq!(message, "no sdk");
                break;
            }
            other => panic!("{other:?}"),
        }
    }
}

#[test]
fn a_plugin_that_is_not_configured_stops_the_build() {
    let request = request(false, &[("", "/p")], &["ulite/fixture"]);
    let label = "ulite/fixture (unversioned)";
    let record = |outcome: PluginOutcome| {
        let mut state = BuildState::new();
        state.record_evaluation(evaluated(block(vec![])));
        record_next(state, &request, outcome).unwrap_err()
    };
    let error = record(PluginOutcome::Unresolved("gone".to_owned()));
    assert_eq!(error, format!("{label}: gone"));
    let error = record(PluginOutcome::Refused("no".to_owned()));
    assert_eq!(error, format!("configuring {label}: no"));
}

#[test]
fn a_plugin_depends_on_one_that_is_there() {
    let request = request(false, &[("", "/p")], &["a/one", "a/two"]);
    let run = |dependencies: &[&str], deps: &[&str]| {
        let mut state = BuildState::new();
        state.record_evaluation(evaluated(block(vec![])));
        let one = configured("a/one", &[], vec![copy_task("stage", "a/one", &[])]);
        let state = record_next(state, &request, one)?;
        let two = configured(
            "a/two",
            dependencies,
            vec![copy_task("consume", "a/two", deps)],
        );
        record_next(state, &request, two)?.finish(&request)
    };
    let (graph, _) = run(&["a/one"], &["a/one:stage"]).expect("links");
    assert_eq!(graph.waves().unwrap().len(), 2);
    // A plugin may declare what not every configuration uses.
    assert!(run(&["a/three"], &[]).is_ok());
    assert_eq!(
        run(&["a/three"], &["a/three:stage"]).unwrap_err(),
        "plugin 'a/two' declares and references dependency 'a/three', which is not present \
         in the build"
    );
    assert_eq!(
        run(&[], &["a/one:stage"]).unwrap_err(),
        "plugin 'a/two' references 'a/one:stage' in task 'consume' but does not declare \
         'a/one' in its dependencies"
    );
    let (graph, _) = run(&["a/one"], &["a/one:ghost"]).expect("links");
    assert_eq!(
        graph.waves().unwrap_err(),
        GraphError::UnknownDependency {
            task: "a/two::consume".to_owned(),
            dep: "a/one::ghost".to_owned(),
        }
    );
}

#[test]
fn project_dependencies_are_taken_from_the_model() {
    let evaluation = evaluated(block(vec![(
        "deps",
        block(vec![("ksp", text("a:b:1"))]),
    )]));
    let declared = resolve_project_deps("/p", &evaluation).expect("declared");
    assert_eq!(declared[0].scope, MavenScope::Ksp);
    assert_eq!(
        resolve_project_source_sets("/p", &evaluation, &vec![]),
        SourceSetStep::Done(vec![])
    );
    let faulty = Evaluation::Faulty(strings(&["bad"]));
    let error = resolve_project_deps("/p", &faulty).unwrap_err();
    assert_eq!(error, "evaluating /p/build.ulb: bad");
    assert_eq!(
        resolve_project_source_sets("/p", &faulty, &vec![]),
        SourceSetStep::Failed(error)
    );
}

fn deps_model(entries: Vec<(&str, Value)>) -> Evaluation {
    evaluated(block(vec![("deps", block(entries))]))
}

fn resolve_deps(
    files: &BTreeMap<String, String>,
    evaluation: &Evaluation,
) -> Result<Classpath, String> {
    resolve_in(files, &resolve_project_deps("/p", evaluation)?)
}

fn resolve_source_sets(
    files: &BTreeMap<String, String>,
    evaluation: &Evaluation,
) -> Result<Vec<(String, Classpath)>, String> {
    let mut resolved = Vec::new();
    loop {
        match resolve_project_source_sets("/p", evaluation, &resolved) {
            SourceSetStep::Resolve(declared) => resolved.push(resolve_in(files, &declared)),
            SourceSetStep::Done(sets) => return Ok(sets),
            SourceSetStep::Failed(message) => return Err(message),
        }
    }
}

#[test]
fn a_deps_block_resolves_to_jars() {
    let mut files = BTreeMap::new();
    add(&mut files, "com.example", "one", "1.0", &[("two", "1.0")]);
    add(&mut files, "com.example", "two", "1.0", &[]);
    let classpath = resolve_deps(
        &files,
        &deps_model(vec![("implementation", text("com.example:one:1.0"))]),
    )
    .expect("resolves");
    assert_eq!(
        jar_names(&classpath.compile),
        vec!["one-1.0.jar", "two-1.0.jar"]
    );
    assert_eq!(
        jar_names(&classpath.runtime),
        vec!["one-1.0.jar", "two-1.0.jar"]
    );
    assert!(classpath.processor.is_empty());
}

#[test]
fn scopes_land_in_their_buckets() {
    let mut files = BTreeMap::new();
    for artifact in ["lib", "rt", "proc", "t", "at"] {
        add(&mut files, "com.example", artifact, "1.0", &[]);
    }
    let classpath = resolve_deps(
        &files,
        &deps_model(vec![
            ("api", text("com.example:lib:1.0")),
            ("runtimeOnly", text("com.example:rt:1.0")),
            ("ksp", text("com.example:proc:1.0")),
            ("testImplementation", text("com.example:t:1.0")),
            ("androidTestImplementation", text("com.example:at:1.0")),
        ]),
    )
    .expect("resolves");
    assert_eq!(jar_names(&classpath.compile), vec!["lib-1.0.jar"]);
    assert_eq!(
        jar_names(&classpath.runtime),
        vec!["lib-1.0.jar", "rt-1.0.jar"]
    );
    assert_eq!(jar_names(&classpath.processor), vec!["proc-1.0.jar"]);
    assert_eq!(
        jar_names(&classpath.test_compile),
        vec!["lib-1.0.jar", "t-1.0.jar"]
    );
    assert_eq!(
        jar_names(&classpath.test_runtime),
        vec!["lib-1.0.jar", "rt-1.0.jar", "t-1.0.jar"]
    );
    assert_eq!(
        jar_names(&classpath.android_test_compile),
        vec!["at-1.0.jar", "lib-1.0.jar"]
    );
}

#[test]
fn missing_deps_block_is_an_error() {
    let evaluation = evaluated(block(vec![(
        "android",
        block(vec![("compileSdk", Value::Number(Number::Int(35)))]),
    )]));
    let error = resolve_project_deps("/p", &evaluation).expect_err("no deps block");
    assert!(error.contains("does not declare a deps"), "{error}");
}

#[test]
fn missing_artifact_is_an_error() {
    let error = resolve_deps(
        &BTreeMap::new(),
        &deps_model(vec![("implementation", text("com.example:absent:1.0"))]),
    )
    .expect_err("missing artifact");
    assert!(error.contains("could not find"), "{error}");
}

#[test]
fn source_set_deps_resolve_independently() {
    let mut files = BTreeMap::new();
    add(&mut files, "com.example", "common", "1.0", &[]);
    add(&mut files, "com.example", "android", "1.0", &[]);
    let set = |coordinate: &str| {
        block(vec![(
            "deps",
            block(vec![("implementation", text(coordinate))]),
        )])
    };
    let resolved = resolve_source_sets(
        &files,
        &evaluated(block(vec![
            ("commonMain", set("com.example:common:1.0")),
            ("androidMain", set("com.example:android:1.0")),
        ])),
    )
    .expect("resolves");
    assert_eq!(resolved.len(), 2);
    assert_eq!(resolved[0].0, "androidMain");
    assert_eq!(jar_names(&resolved[0].1.compile), vec!["android-1.0.jar"]);
    assert!(resolved[0].1.runtime.contains(&resolved[0].1.compile[0]));
    assert_eq!(resolved[1].0, "commonMain");
    assert_eq!(jar_names(&resolved[1].1.compile), vec!["common-1.0.jar"]);
    assert!(resolved[1].1.runtime.contains(&resolved[1].1.compile[0]));
}

#[test]
fn nested_source_set_deps_resolve_by_full_path() {
    let mut files = BTreeMap::new();
    add(&mut files, "com.example", "shared", "1.0", &[]);
    let resolved = resolve_source_sets(
        &files,
        &evaluated(block(vec![(
            "kmp",
            block(vec![(
                "commonMain",
                block(vec![(
                    "deps",
                    block(vec![("implementation", text("com.example:shared:1.0"))]),
                )]),
            )]),
        )])),
    )
    .expect("resolves");
    assert_eq!(resolved.len(), 1);
    assert_eq!(resolved[0].0, "kmp.commonMain");
    assert_eq!(jar_names(&resolved[0].1.compile), vec!["shared-1.0.jar"]);
}

#[test]
fn a_model_without_source_set_deps_resolves_to_nothing() {
    let evaluation = evaluated(block(vec![(
        "commonMain",
        block(vec![("sources", Value::List(vec![text("src/commonMain")]))]),
    )]));
    let resolved = resolve_source_sets(&BTreeMap::new(), &evaluation).expect("no deps");
    assert!(resolved.is_empty());
}

/// The configuration of each module of a project of two, where `app` refers
/// to `lib` in the given scope of a source set.
fn linked_configs(scope: &str) -> Vec<TextMap<Json>> {
    let mut files = BTreeMap::new();
    add(&mut files, "com.example", "shared", "1.0", &[]);
    let request = request(
        true,
        &[("app", "/p/app"), ("lib", "/p/lib")],
        &["ulite/fixture"],
    );
    let models = |at: usize| {
        if at == 0 {
            block(vec![(
                "commonMain",
                block(vec![(
                    "deps",
                    block(vec![(scope, Value::ProjectRef(":lib".to_owned()))]),
                )]),
            )])
        } else {
            block(vec![
                ("jvm", block(vec![("jarFile", text("/out/bridge-1.0.jar"))])),
                (
                    "deps",
                    block(vec![("api", text("com.example:shared:1.0"))]),
                ),
            ])
        }
    };
    let mut state = BuildState::new();
    let mut configs = Vec::new();
    loop {
        match build_project(&request, &state) {
            BuildStep::Evaluate(at) => state.record_evaluation(evaluated(models(at))),
            BuildStep::ResolveOwn(at, declared) => {
                state.record_own(at, resolve_in(&files, &declared));
            }
            BuildStep::ResolveSet(at, declared) => {
                state.record_set(at, resolve_in(&files, &declared));
            }
            BuildStep::Configure(step) => {
                let outcome = configured(
                    "ulite/fixture",
                    &[],
                    vec![copy_task("stage", &step.owner, &[])],
                );
                state = state.record_plugin(&request, &step, outcome).expect("merges");
                configs.push(step.config);
            }
            BuildStep::Finish => return configs,
            BuildStep::Failed(message) => panic!("{message}"),
        }
    }
}

fn common_compile(config: &TextMap<Json>) -> Vec<Json> {
    let Some(Json::Object(sets)) = config.get("classpathSourceSets") else {
        panic!("source sets");
    };
    let Some(Json::Object(buckets)) = sets.get("commonMain") else {
        panic!("commonMain");
    };
    let Some(Json::Array(jars)) = buckets.get("compile") else {
        panic!("compile");
    };
    let copied = jars.iter().map(|jar| match jar {
        Json::Str(path) => Json::Str(path.clone()),
        other => panic!("{other:?}"),
    });
    copied.collect()
}

#[test]
fn source_set_project_refs_propagate_api_classpaths_regardless_of_declaration_order() {
    let configs = linked_configs("api");
    assert_eq!(configs.len(), 2);
    // Index 1 of app's commonMain compile bucket is lib's api-scoped
    // `shared` jar — index 0 is lib's own output.
    assert_eq!(
        common_compile(&configs[0]),
        vec![
            json_text("/out/bridge-1.0.jar"),
            json_text("/cache/com/example/shared/1.0/shared-1.0.jar"),
        ]
    );
}

#[test]
fn source_set_project_refs_implementation_does_not_propagate_api_jars() {
    let configs = linked_configs("implementation");
    assert_eq!(
        common_compile(&configs[0]),
        vec![json_text("/out/bridge-1.0.jar")]
    );
}

#[test]
fn documents_have_a_compact_text() {
    let mut map = TextMap::new();
    map.insert(
        "b".to_owned(),
        Json::Array(vec![
            Json::Int(-9_223_372_036_854_775_808),
            Json::Int(7),
            Json::Bool(true),
            Json::Array(vec![]),
        ]),
    );
    map.insert("a".to_owned(), Json::Float("1.0".to_owned()));
    map.insert("c\"".to_owned(), Json::Float("0.5".to_owned()));
    map.insert(
        "d".to_owned(),
        Json::Str("\\ \n\t\r\u{8}\u{c}\u{1f}\u{7f}é".to_owned()),
    );
    let expected = "{\"a\":1.0,\"b\":[-9223372036854775808,7,true,[]],\"c\\\"\":0.5,\
                    \"d\":\"\\\\ \\n\\t\\r\\b\\f\\u001f\u{7f}é\"}";
    assert_eq!(object_to_text(&map), expected);
    let parsed: serde_json::Value = serde_json::from_str(expected).unwrap();
    assert_eq!(parsed.to_string(), expected);
    assert_eq!(to_text(&Json::Object(map)), expected);
    for number in [1.0, -2.5, 1e16, 1e-7] {
        let shown = serde_json::Number::from_f64(number).unwrap().to_string();
        assert_eq!(to_text(&Json::Float(shown.clone())), shown);
        let parsed: serde_json::Value = serde_json::from_str(&shown).unwrap();
        assert_eq!(parsed.as_f64(), Some(number));
    }
    assert_eq!(to_text(&Json::Float("1e16".to_owned())), "1e16");
}
