use std::cmp::Ordering;
use std::collections::BTreeMap;

use uliab::digest::{hex_digest, Hasher};
use uliab::json::Json;
use uliab::maven::fetch::{
    archive_error, artifact_path, classes_path, default_cache_dir, extend_extraction,
    extraction_part_path, fetch_from_repos, is_intact, part_path, recorded_digest,
    reuses_extraction, seal, sha_path, source_of, status_attempt, ArchiveWork, Attempt, Download,
    FetchStep, Source, MAX_ARTIFACT_BYTES,
};
use uliab::maven::graph::KnownPom;
use uliab::maven::pom::{
    normalize_pom_version, parse_pom, parse_pom_events, PomScope, XmlEvent,
};
use uliab::maven::resolver::{Artifact, Outcome, Progress};
use uliab::maven::{
    compare_maven_versions, extract_project_deps, parse_deps_block, Classpath, DeclaredDep,
    Dependency, MavenRepo, MavenScope, Resolution, ResolveError, Resolver,
};
use uliab::text_map::TextMap;
use uliab::value::{Number, Value};

fn repo_pom(group: &str, artifact: &str, version: &str, children: &[(&str, &str, &str)]) -> String {
    let mut pom = format!(
        "<?xml version=\"1.0\"?><project><modelVersion>4.0.0</modelVersion>\
         <groupId>{group}</groupId><artifactId>{artifact}</artifactId><version>{version}</version>"
    );
    if !children.is_empty() {
        pom.push_str("<dependencies>");
        for (child, child_version, scope) in children {
            let child_group = child.split(':').next().unwrap();
            let child_artifact = child.split(':').nth(1).unwrap();
            let scope_tag = if scope.is_empty() {
                String::new()
            } else {
                format!("<scope>{scope}</scope>")
            };
            pom.push_str(&format!(
                "<dependency><groupId>{child_group}</groupId>\
                 <artifactId>{child_artifact}</artifactId><version>{child_version}</version>{scope_tag}</dependency>"
            ));
        }
        pom.push_str("</dependencies>");
    }
    pom.push_str("</project>");
    pom
}

/// A repository in memory, in the layout of one on disk below `/repo`.
struct LocalRepo {
    files: BTreeMap<String, Vec<u8>>,
}

impl LocalRepo {
    fn new() -> LocalRepo {
        LocalRepo {
            files: BTreeMap::new(),
        }
    }

    fn write_artifact(&mut self, group: &str, artifact: &str, version: &str, pom: &str) {
        let rel = format!(
            "/repo/{}/{}/{}/{}-{}",
            group.replace('.', "/"),
            artifact,
            version,
            artifact,
            version
        );
        self.files
            .insert(format!("{rel}.pom"), pom.as_bytes().to_vec());
        self.files.insert(
            format!("{rel}.jar"),
            format!("{artifact}-{version}").into_bytes(),
        );
    }

    fn add(&mut self, group: &str, artifact: &str, version: &str, children: &[(&str, &str, &str)]) {
        let pom = repo_pom(group, artifact, version, children);
        self.write_artifact(group, artifact, version, &pom);
    }

    fn resolver(&self) -> Resolver {
        Resolver::new(
            vec![MavenRepo::Custom("/repo".to_owned())],
            Some("/repo/cache".to_owned()),
            None,
        )
    }

    fn fetch(
        &self,
        resolver: &Resolver,
        coordinate: &Dependency,
        extension: &str,
    ) -> Result<Vec<u8>, ResolveError> {
        let mut attempts = Vec::new();
        let mut found = Vec::new();
        loop {
            match resolver.fetch_step(coordinate, extension, &attempts) {
                FetchStep::Done => return Ok(found),
                FetchStep::Try(Source::File(path)) => match self.files.get(&path) {
                    Some(bytes) => {
                        found = bytes.clone();
                        attempts.push(Attempt::Fetched);
                    }
                    None => attempts.push(Attempt::Miss),
                },
                FetchStep::Try(Source::Http(url)) => panic!("no network for {url}"),
                FetchStep::Failed(error) => return Err(error),
            }
        }
    }

    fn materialize(&self, resolver: &Resolver, artifact: &Artifact) -> Outcome {
        match self.fetch(resolver, &artifact.coordinate, &artifact.packaging) {
            Ok(_) => Outcome::Path(resolver.cache_file(&artifact.coordinate, "jar")),
            Err(error) => Outcome::Failed(error),
        }
    }

    fn resolve(&self, declared: &[DeclaredDep]) -> Result<Resolution, ResolveError> {
        let resolver = self.resolver();
        let declared = declared.to_vec();
        let mut poms = Vec::new();
        let mut fetched = Vec::new();
        loop {
            match resolver.resolve(&declared, &poms, &fetched) {
                Progress::Pom(coordinate) => {
                    let bytes = self.fetch(&resolver, &coordinate, "pom")?;
                    let pom = Resolver::read_pom(&coordinate, &bytes)?;
                    poms.push(KnownPom { coordinate, pom });
                }
                Progress::Artifacts(artifacts) => fetched.push(
                    artifacts
                        .iter()
                        .map(|artifact| self.materialize(&resolver, artifact))
                        .collect(),
                ),
                Progress::Done(resolution) => return Ok(resolution),
                Progress::Failed(error) => return Err(error),
            }
        }
    }
}

fn declared(scope: MavenScope, coordinate: &str) -> DeclaredDep {
    DeclaredDep {
        scope,
        dependency: Dependency::parse(coordinate).unwrap(),
    }
}

fn jar_names(paths: &[String]) -> Vec<String> {
    paths
        .iter()
        .map(|path| path.rsplit('/').next().unwrap().to_owned())
        .collect()
}

fn block(entries: Vec<(&str, Value)>) -> Value {
    let mut map = TextMap::new();
    for (key, value) in entries {
        map.insert(key.to_owned(), value);
    }
    Value::Block(map)
}

fn text(s: &str) -> Value {
    Value::Str(s.to_owned())
}

#[test]
fn parses_coordinates() {
    let dependency = Dependency::parse("com.example:app:1.2.3").expect("parses");
    assert_eq!(dependency.group, "com.example");
    assert_eq!(dependency.artifact, "app");
    assert_eq!(dependency.version, "1.2.3");

    let managed = Dependency::parse("com.example:app").expect("version-less parses");
    assert_eq!(managed.group, "com.example");
    assert_eq!(managed.artifact, "app");
    assert!(managed.is_version_managed());

    assert!(Dependency::parse("com.example:app:1:extra").is_err());
    assert!(Dependency::parse("::").is_err());
    assert!(
        Dependency::parse("com.example:app:").is_err(),
        "empty version in three-part coord must be rejected"
    );
}

#[test]
fn a_malformed_coordinate_is_named() {
    assert_eq!(
        Dependency::parse("nope").unwrap_err(),
        "invalid coordinate 'nope': expected 'group:artifact' or 'group:artifact:version'"
    );
}

#[test]
fn scopes_have_names() {
    assert_eq!(MavenScope::from_name("api"), Some(MavenScope::Api));
    assert_eq!(
        MavenScope::from_name("androidTestImplementation"),
        Some(MavenScope::AndroidTestImplementation)
    );
    assert_eq!(MavenScope::from_name("Api"), None);
}

#[test]
fn parses_a_deps_block() {
    let deps = parse_deps_block(&block(vec![
        ("implementation", text("com.example:app:1.0")),
        (
            "ksp",
            Value::List(vec![
                Value::Coordinate("com.example:proc:2.0".to_owned()),
                Value::Coordinate("com.example:proc2:2.0".to_owned()),
            ]),
        ),
        ("runtimeOnly", text("com.example:run:1.0")),
    ]))
    .expect("parses");
    assert_eq!(deps.len(), 4);
    assert_eq!(deps[0].scope, MavenScope::Implementation);
    assert_eq!(deps[0].dependency.artifact, "app");
    assert_eq!(deps[2].scope, MavenScope::Ksp);
    assert_eq!(deps[3].scope, MavenScope::RuntimeOnly);
    assert_eq!(deps[3].dependency.artifact, "run");
}

#[test]
fn rejects_unknown_scope_and_bad_values() {
    assert!(parse_deps_block(&block(vec![("notAScope", text("a:b:1"))])).is_err());

    assert!(parse_deps_block(&block(vec![(
        "implementation",
        Value::Number(Number::Int(1))
    )]))
    .is_err());

    let deps = parse_deps_block(&block(vec![("implementation", text("a:b"))]))
        .expect("version-less parses");
    assert_eq!(deps.len(), 1);
    assert!(deps[0].dependency.is_version_managed());
}

#[test]
fn deps_block_messages() {
    assert_eq!(
        parse_deps_block(&text("x")).unwrap_err(),
        "deps must be a block"
    );
    assert_eq!(
        parse_deps_block(&block(vec![("api", Value::Bool(true))])).unwrap_err(),
        "dependency in 'api' must be a coordinate string, found boolean"
    );
}

#[test]
fn project_references_are_extracted_and_not_parsed() {
    let deps = block(vec![
        (
            "api",
            Value::List(vec![
                Value::ProjectRef(":lib".to_owned()),
                text("a:b:1"),
                Value::ProjectRef(":more".to_owned()),
            ]),
        ),
        ("ksp", Value::ProjectRef(":proc".to_owned())),
        ("unknown", Value::ProjectRef(":lost".to_owned())),
    ]);
    assert_eq!(
        extract_project_deps(&deps),
        vec![
            (MavenScope::Api, ":lib".to_owned()),
            (MavenScope::Api, ":more".to_owned()),
            (MavenScope::Ksp, ":proc".to_owned()),
        ]
    );
    let known = block(vec![("api", Value::ProjectRef(":lib".to_owned()))]);
    assert_eq!(parse_deps_block(&known).unwrap(), vec![]);
}

#[test]
fn maven_version_ordering() {
    assert_eq!(compare_maven_versions("1.0", "1.0.0"), Ordering::Equal);
    assert_eq!(compare_maven_versions("1.0.1", "1.0"), Ordering::Greater);
    assert_eq!(compare_maven_versions("2.10.0", "2.1.0"), Ordering::Greater);
    assert_eq!(
        compare_maven_versions("1.0.0-rc1", "1.0.0-beta1"),
        Ordering::Greater
    );
    assert_eq!(
        compare_maven_versions("1.0.0-rc2", "1.0.0-rc1"),
        Ordering::Greater
    );
    assert_eq!(
        compare_maven_versions("1.0.0-snapshot", "1.0.0-rc1"),
        Ordering::Greater
    );
    assert_eq!(
        compare_maven_versions("1.0.0", "1.0.0-snapshot"),
        Ordering::Greater
    );
    assert_eq!(
        compare_maven_versions("1.0.0-sp1", "1.0.0"),
        Ordering::Greater
    );
    assert_eq!(
        compare_maven_versions("1.0.0-alpha1", "1.0.0"),
        Ordering::Less
    );
    assert_eq!(
        compare_maven_versions("2.0.0", "2.0.0-alpha"),
        Ordering::Greater
    );
    assert_eq!(
        compare_maven_versions("1.0.0-1", "1.0.0"),
        Ordering::Greater
    );
    assert_eq!(compare_maven_versions("1.0.0", "1.0.0-1"), Ordering::Less);
    // Unknown qualifiers sort above every known qualifier and then
    // lexicographically among themselves.
    assert_eq!(
        compare_maven_versions("1.0.0-android", "1.0.0-final"),
        Ordering::Greater
    );
    assert_eq!(
        compare_maven_versions("1.0.0-beta", "1.0.0-custom"),
        Ordering::Less
    );
    assert_eq!(
        compare_maven_versions("1.0.0-zeta", "1.0.0-alpha"),
        Ordering::Greater
    );
}

#[test]
fn numbers_of_any_size_compare_by_value() {
    let cases = [
        ("1.99999999999999999999", "1.99999999999999999998", Ordering::Greater),
        ("1.00000000000000000000001", "1.1", Ordering::Equal),
        ("9223372036854775808", "9223372036854775807", Ordering::Greater),
        ("100000000000000000000", "99999999999999999999", Ordering::Greater),
        ("1.000", "1", Ordering::Equal),
    ];
    for (a, b, expected) in cases {
        assert_eq!(compare_maven_versions(a, b), expected, "{a} {b}");
    }
}

#[test]
fn version_order_is_reflexive_and_flips() {
    let list = ["1.0", "1.0.0", "1-sp", "1.0-rc1", "2.0-x", "10", "1.0-SNAPSHOT"];
    for a in list {
        assert_eq!(compare_maven_versions(a, a), Ordering::Equal);
        for b in list {
            assert_eq!(
                compare_maven_versions(a, b),
                compare_maven_versions(b, a).reverse()
            );
        }
    }
}

#[test]
fn version_order_is_transitive_but_behind_service_packs() {
    let list = ["1.0-alpha", "1.0-rc1", "1.0-SNAPSHOT", "1", "1.0.1", "1.1-beta", "1.1"];
    for (at, a) in list.iter().enumerate() {
        for b in &list[at..] {
            assert_ne!(compare_maven_versions(a, b), Ordering::Greater, "{a} {b}");
        }
    }
    assert_eq!(compare_maven_versions("1-sp", "1.0"), Ordering::Less);
    assert_eq!(compare_maven_versions("1.0", "1"), Ordering::Equal);
    assert_eq!(compare_maven_versions("1-sp", "1"), Ordering::Greater);
}

#[test]
fn parses_pom_compile_and_runtime_deps() {
    let pom = r#"<?xml version="1.0"?>
        <project>
          <modelVersion>4.0.0</modelVersion>
          <groupId>com.example</groupId><artifactId>root</artifactId><version>1.0</version>
          <dependencies>
            <dependency>
              <groupId>com.example</groupId><artifactId>a</artifactId><version>1.0</version>
            </dependency>
            <dependency>
              <groupId>com.example</groupId><artifactId>b</artifactId><version>1.0</version>
              <scope>runtime</scope>
            </dependency>
            <dependency>
              <groupId>com.example</groupId><artifactId>c</artifactId><version>1.0</version>
              <scope>test</scope>
            </dependency>
            <dependency>
              <groupId>com.example</groupId><artifactId>d</artifactId><version>1.0</version>
              <optional>true</optional>
            </dependency>
          </dependencies>
        </project>"#;
    let parsed = parse_pom(pom.as_bytes()).expect("parses");
    assert_eq!(parsed.packaging, "jar");
    assert_eq!(parsed.deps.len(), 2);
    assert_eq!(parsed.deps[0].scope, PomScope::Compile);
    assert_eq!(parsed.deps[1].scope, PomScope::Runtime);
}

#[test]
fn parses_pom_extracts_dependency_management() {
    let pom = r#"<project>
          <groupId>com.example</groupId><artifactId>root</artifactId><version>1.0</version>
          <dependencyManagement>
            <dependencies>
              <dependency>
                <groupId>com.example</groupId><artifactId>managed</artifactId><version>2.0</version>
              </dependency>
            </dependencies>
          </dependencyManagement>
          <dependencies>
            <dependency>
              <groupId>com.example</groupId><artifactId>real</artifactId><version>1.0</version>
            </dependency>
          </dependencies>
        </project>"#;
    let parsed = parse_pom(pom.as_bytes()).expect("parses");
    assert_eq!(parsed.deps.len(), 1);
    assert_eq!(parsed.deps[0].artifact, "real");
    assert_eq!(parsed.managed_deps.len(), 1);
    assert_eq!(parsed.managed_deps[0].artifact, "managed");
    assert_eq!(parsed.managed_deps[0].version.as_deref(), Some("2.0"));
}

#[test]
fn normalizes_hard_pin_versions() {
    let pom = r#"<project>
          <groupId>com.example</groupId><artifactId>root</artifactId><version>1.0</version>
          <dependencies>
            <dependency>
              <groupId>com.example</groupId><artifactId>pinned</artifactId><version>[1.2.3]</version>
            </dependency>
            <dependency>
              <groupId>com.example</groupId><artifactId>ranged</artifactId><version>[1.0,2.0]</version>
            </dependency>
          </dependencies>
        </project>"#;
    let parsed = parse_pom(pom.as_bytes()).expect("parses");
    assert_eq!(parsed.deps.len(), 2);
    assert_eq!(
        parsed.deps[0].version.as_deref(),
        Some("1.2.3"),
        "a hard pin resolves to the pinned version"
    );
    assert_eq!(
        parsed.deps[1].version.as_deref(),
        Some("[1.0,2.0]"),
        "a range pin is not a single version and is left as-is"
    );
    assert_eq!(normalize_pom_version("[1.2.3]"), "1.2.3");
    assert_eq!(normalize_pom_version("1.2.3"), "1.2.3");
    assert_eq!(normalize_pom_version("${X}"), "${X}");
    assert_eq!(normalize_pom_version("[]"), "[]");
}

#[test]
fn unspecified_in_dependency_management_is_preserved() {
    let pom = r#"<project>
          <groupId>com.example</groupId><artifactId>root</artifactId><version>1.0</version>
          <dependencyManagement>
            <dependencies>
              <dependency>
                <groupId>com.example</groupId><artifactId>managed</artifactId><version>unspecified</version>
              </dependency>
            </dependencies>
          </dependencyManagement>
          <dependencies>
            <dependency>
              <groupId>com.example</groupId><artifactId>real</artifactId><version>unspecified</version>
            </dependency>
          </dependencies>
        </project>"#;
    let parsed = parse_pom(pom.as_bytes()).expect("parses");
    assert_eq!(
        parsed.managed_deps[0].version.as_deref(),
        Some("unspecified"),
        "a managed entry keeps `unspecified` so an explicit consumer pin can win"
    );
    assert_eq!(
        parsed.deps[0].version.as_deref(),
        None,
        "a regular dependency's `unspecified` is treated as version-less"
    );
}

#[test]
fn parses_pom_packaging() {
    let pom = "<project><packaging>aar</packaging></project>";
    assert_eq!(parse_pom(pom.as_bytes()).unwrap().packaging, "aar");
    assert_eq!(parse_pom(b"<project></project>").unwrap().packaging, "jar");
}

#[test]
fn pom_text_is_unescaped_and_trimmed() {
    let pom = "<project><dependencies><dependency><groupId> a&amp;b\n</groupId>\
               <artifactId>c</artifactId></dependency></dependencies></project>";
    let parsed = parse_pom(pom.as_bytes()).unwrap();
    assert_eq!(parsed.deps[0].group, "a&b");
    assert_eq!(parsed.deps[0].version, None);
}

#[test]
fn malformed_xml_is_a_pom_error() {
    assert!(parse_pom(b"<project><a></b></project>").is_err());
    assert!(parse_pom(b"<project><packaging>&nope;</packaging></project>").is_err());
    let coordinate = Dependency::parse("g:a:1").unwrap();
    let error = Resolver::read_pom(&coordinate, b"<a></b>").unwrap_err();
    assert!(
        matches!(&error, ResolveError::Parser { artifact, .. } if artifact == "g:a:1"),
        "{error:?}"
    );
    assert!(error.message().starts_with("parsing POM for g:a:1: "));
}

#[test]
fn poms_are_read_from_their_events() {
    let start = |name: &str| XmlEvent::Start(name.to_owned());
    let end = |name: &str| XmlEvent::End(name.to_owned());
    let words = |s: &str| XmlEvent::Text(s.to_owned());
    let pom = parse_pom_events(&vec![
        start("project"),
        start("dependencies"),
        start("dependency"),
        start("groupId"),
        words("g"),
        end("groupId"),
        start("artifactId"),
        words("a"),
        end("artifactId"),
        start("version"),
        words("[7]"),
        end("version"),
        start("scope"),
        words("compile"),
        end("scope"),
        end("dependency"),
        end("dependencies"),
        end("project"),
        XmlEvent::Eof,
    ])
    .unwrap();
    assert_eq!(pom.packaging, "jar");
    assert_eq!(pom.deps.len(), 1);
    assert_eq!(pom.deps[0].version.as_deref(), Some("7"));
    assert_eq!(pom.deps[0].scope, PomScope::Compile);
    let bad = parse_pom_events(&vec![
        start("project"),
        start("packaging"),
        XmlEvent::BadText("boom".to_owned()),
    ]);
    assert!(bad.unwrap_err().contains("boom"));
}

#[test]
fn resolves_unspecified_version_from_same_pom_management() {
    let mut repo = LocalRepo::new();
    let pom = r#"<?xml version="1.0"?><project>
          <groupId>com.example</groupId><artifactId>lib</artifactId><version>1.0</version>
          <dependencyManagement>
            <dependencies>
              <dependency>
                <groupId>org.jetbrains.kotlin</groupId><artifactId>kotlin-stdlib</artifactId><version>1.9.24</version>
              </dependency>
            </dependencies>
          </dependencyManagement>
          <dependencies>
            <dependency>
              <groupId>org.jetbrains.kotlin</groupId><artifactId>kotlin-stdlib</artifactId><version>unspecified</version><scope>runtime</scope>
            </dependency>
          </dependencies>
        </project>"#;
    repo.write_artifact("com.example", "lib", "1.0", pom);
    repo.add("org.jetbrains.kotlin", "kotlin-stdlib", "1.9.24", &[]);
    let resolution = repo
        .resolve(&[declared(MavenScope::Implementation, "com.example:lib:1.0")])
        .expect("resolves");
    assert_eq!(
        jar_names(&resolution.classpath.runtime),
        vec!["lib-1.0.jar", "kotlin-stdlib-1.9.24.jar"],
        "the `unspecified` dep resolves from the POM's own dependencyManagement"
    );
}

#[test]
fn versionless_dep_falls_back_to_bom_managed_versions() {
    let mut repo = LocalRepo::new();
    repo.write_artifact(
        "com.example",
        "bom",
        "1.0",
        r#"<?xml version="1.0"?><project>
              <groupId>com.example</groupId><artifactId>bom</artifactId><version>1.0</version>
              <packaging>pom</packaging>
              <dependencyManagement>
                <dependencies>
                  <dependency>
                    <groupId>com.example</groupId><artifactId>two</artifactId><version>2.0</version>
                  </dependency>
                </dependencies>
              </dependencyManagement>
            </project>"#,
    );
    repo.write_artifact(
        "com.example",
        "lib",
        "1.0",
        r#"<?xml version="1.0"?><project>
              <groupId>com.example</groupId><artifactId>lib</artifactId><version>1.0</version>
              <dependencies>
                <dependency>
                  <groupId>com.example</groupId><artifactId>two</artifactId><version>unspecified</version>
                </dependency>
              </dependencies>
            </project>"#,
    );
    repo.add("com.example", "two", "2.0", &[]);
    let resolution = repo
        .resolve(&[
            declared(MavenScope::Implementation, "com.example:bom:1.0"),
            declared(MavenScope::Implementation, "com.example:lib:1.0"),
        ])
        .expect("resolves");
    assert_eq!(
        jar_names(&resolution.classpath.runtime),
        vec!["lib-1.0.jar", "two-2.0.jar"],
        "when the POM has no own management, the version-less dep uses a BOM-managed version"
    );
}

#[test]
fn resolves_transitive_compile_classpath() {
    let mut repo = LocalRepo::new();
    repo.add(
        "com.example",
        "one",
        "1.0",
        &[("com.example:two", "1.0", "")],
    );
    repo.add("com.example", "two", "1.0", &[]);
    let resolution = repo
        .resolve(&[declared(MavenScope::Implementation, "com.example:one:1.0")])
        .expect("resolves");
    assert_eq!(
        jar_names(&resolution.classpath.compile),
        vec!["one-1.0.jar", "two-1.0.jar"]
    );
    assert_eq!(
        jar_names(&resolution.classpath.runtime),
        vec!["one-1.0.jar", "two-1.0.jar"]
    );
    assert_eq!(
        resolution.classpath.compile[0],
        "/repo/cache/com/example/one/1.0/one-1.0.jar"
    );
}

#[test]
fn runtime_only_and_compile_only_scopes() {
    let mut repo = LocalRepo::new();
    repo.add("com.example", "a", "1.0", &[]);
    repo.add("com.example", "b", "1.0", &[]);
    let resolution = repo
        .resolve(&[
            declared(MavenScope::RuntimeOnly, "com.example:a:1.0"),
            declared(MavenScope::CompileOnly, "com.example:b:1.0"),
        ])
        .expect("resolves");
    assert_eq!(jar_names(&resolution.classpath.compile), vec!["b-1.0.jar"]);
    assert_eq!(jar_names(&resolution.classpath.runtime), vec!["a-1.0.jar"]);
}

#[test]
fn compile_only_dep_does_not_leak_children() {
    let mut repo = LocalRepo::new();
    repo.add(
        "com.example",
        "tool",
        "1.0",
        &[("com.example:helper", "1.0", "")],
    );
    repo.add("com.example", "helper", "1.0", &[]);
    let resolution = repo
        .resolve(&[declared(MavenScope::CompileOnly, "com.example:tool:1.0")])
        .expect("resolves");
    assert_eq!(
        jar_names(&resolution.classpath.compile),
        vec!["tool-1.0.jar"]
    );
}

#[test]
fn api_bucket_contains_only_direct_api_roots() {
    let mut repo = LocalRepo::new();
    repo.add(
        "com.example",
        "api-lib",
        "1.0",
        &[("com.example:transitive", "1.0", "")],
    );
    repo.add("com.example", "transitive", "1.0", &[]);
    repo.add("com.example", "impl-lib", "2.0", &[]);
    let resolution = repo
        .resolve(&[
            declared(MavenScope::Api, "com.example:api-lib:1.0"),
            declared(MavenScope::Implementation, "com.example:impl-lib:2.0"),
        ])
        .expect("resolves");
    assert_eq!(
        jar_names(&resolution.classpath.compile),
        vec!["api-lib-1.0.jar", "impl-lib-2.0.jar", "transitive-1.0.jar"]
    );
    assert_eq!(
        jar_names(&resolution.classpath.api),
        vec!["api-lib-1.0.jar"]
    );
}

#[test]
fn api_bucket_empty_when_no_api_deps() {
    let mut repo = LocalRepo::new();
    repo.add("com.example", "lib", "1.0", &[]);
    let resolution = repo
        .resolve(&[declared(MavenScope::Implementation, "com.example:lib:1.0")])
        .expect("resolves");
    assert!(resolution.classpath.api.is_empty());
}

#[test]
fn runtime_closure_includes_runtime_scope_edges() {
    let mut repo = LocalRepo::new();
    repo.add(
        "com.example",
        "app",
        "1.0",
        &[("com.example:rt", "1.0", "runtime")],
    );
    repo.add("com.example", "rt", "1.0", &[]);
    let resolution = repo
        .resolve(&[declared(MavenScope::Implementation, "com.example:app:1.0")])
        .expect("resolves");
    assert_eq!(
        jar_names(&resolution.classpath.compile),
        vec!["app-1.0.jar"]
    );
    assert_eq!(
        jar_names(&resolution.classpath.runtime),
        vec!["app-1.0.jar", "rt-1.0.jar"]
    );
}

#[test]
fn conflict_resolves_to_highest_version() {
    let mut repo = LocalRepo::new();
    repo.add(
        "com.example",
        "app",
        "1.0",
        &[("com.example:lib", "1.0", "")],
    );
    repo.add("com.example", "lib", "1.0", &[]);
    repo.add("com.example", "lib", "2.0", &[]);
    let resolution = repo
        .resolve(&[
            declared(MavenScope::Implementation, "com.example:app:1.0"),
            declared(MavenScope::Implementation, "com.example:lib:2.0"),
        ])
        .expect("resolves");
    assert_eq!(
        jar_names(&resolution.classpath.runtime),
        vec!["app-1.0.jar", "lib-2.0.jar"]
    );
    let superseded = resolution
        .notes
        .iter()
        .find(|note| note.contains("superseded"));
    assert!(superseded.is_some(), "notes: {:?}", resolution.notes);
    assert!(superseded.unwrap().contains("lib:1.0"));
}

#[test]
fn test_scope_layers_on_main_classpath() {
    let mut repo = LocalRepo::new();
    repo.add("com.example", "main", "1.0", &[]);
    repo.add("com.example", "t", "1.0", &[]);
    let resolution = repo
        .resolve(&[
            declared(MavenScope::Implementation, "com.example:main:1.0"),
            declared(MavenScope::TestImplementation, "com.example:t:1.0"),
        ])
        .expect("resolves");
    assert_eq!(
        jar_names(&resolution.classpath.test_compile),
        vec!["main-1.0.jar", "t-1.0.jar"]
    );
    assert_eq!(
        jar_names(&resolution.classpath.test_runtime),
        vec!["main-1.0.jar", "t-1.0.jar"]
    );
}

#[test]
fn processor_scope_collects_ksp_deps() {
    let mut repo = LocalRepo::new();
    repo.add("com.example", "proc", "1.0", &[]);
    let resolution = repo
        .resolve(&[declared(MavenScope::Ksp, "com.example:proc:1.0")])
        .expect("resolves");
    assert_eq!(
        jar_names(&resolution.classpath.processor),
        vec!["proc-1.0.jar"]
    );
    assert!(resolution.classpath.compile.is_empty());
}

#[test]
fn pom_packaging_contributes_no_jar() {
    let mut repo = LocalRepo::new();
    repo.add("com.example", "real", "1.0", &[]);
    let bom_pom = repo_pom(
        "com.example",
        "bom",
        "1.0",
        &[("com.example:real", "1.0", "")],
    )
    .replace("<project>", "<project><packaging>pom</packaging>");
    repo.write_artifact("com.example", "bom", "1.0", &bom_pom);
    let resolution = repo
        .resolve(&[declared(MavenScope::Implementation, "com.example:bom:1.0")])
        .expect("resolves");
    assert_eq!(
        jar_names(&resolution.classpath.compile),
        vec!["real-1.0.jar"]
    );
}

#[test]
fn unsupported_packaging_is_noted() {
    let mut repo = LocalRepo::new();
    let pom = repo_pom("g", "a", "1", &[])
        .replace("<project>", "<project><packaging>war</packaging>");
    repo.write_artifact("g", "a", "1", &pom);
    let resolution = repo
        .resolve(&[declared(MavenScope::Implementation, "g:a:1")])
        .expect("resolves");
    assert!(resolution.classpath.compile.is_empty());
    assert!(
        resolution
            .notes
            .iter()
            .any(|note| note.contains("only jar and aar")),
        "{:?}",
        resolution.notes
    );
}

#[test]
fn skips_property_versions_with_a_note() {
    let mut repo = LocalRepo::new();
    repo.add(
        "com.example",
        "app",
        "1.0",
        &[("com.example:lib", "${lib.version}", "")],
    );
    repo.add("com.example", "lib", "1.0", &[]);
    let resolution = repo
        .resolve(&[declared(MavenScope::Implementation, "com.example:app:1.0")])
        .expect("resolves");
    assert_eq!(
        jar_names(&resolution.classpath.runtime),
        vec!["app-1.0.jar"]
    );
    assert!(
        resolution
            .notes
            .iter()
            .any(|note| note.contains("property version")),
        "notes: {:?}",
        resolution.notes
    );
}

#[test]
fn a_cycle_of_poms_comes_to_an_end() {
    let mut repo = LocalRepo::new();
    repo.add("g", "a", "1", &[("g:b", "1", "")]);
    repo.add("g", "b", "1", &[("g:a", "1", "")]);
    let resolution = repo
        .resolve(&[declared(MavenScope::Implementation, "g:a:1")])
        .expect("resolves");
    assert_eq!(
        jar_names(&resolution.classpath.compile),
        vec!["a-1.jar", "b-1.jar"]
    );
}

#[test]
fn classpath_serializes_to_a_bucketed_json_object() {
    let list = |paths: &[&str]| -> Vec<String> { paths.iter().map(|p| (*p).to_owned()).collect() };
    let classpath = Classpath {
        compile: list(&["/c/a.jar", "/c/b.jar"]),
        runtime: list(&["/c/a.jar"]),
        processor: vec![],
        api: list(&["/c/a.jar"]),
        compose_runtimes: list(&["/c/compose-ui.jar"]),
        test_compile: list(&["/c/t.jar"]),
        test_runtime: list(&["/c/t.jar"]),
        android_test_compile: vec![],
        android_test_runtime: vec![],
    };
    let json = classpath.to_json();
    let mut expected = TextMap::new();
    for (bucket, paths) in [
        ("compile", vec!["/c/a.jar", "/c/b.jar"]),
        ("runtime", vec!["/c/a.jar"]),
        ("processor", vec![]),
        ("api", vec!["/c/a.jar"]),
        ("composeRuntimes", vec!["/c/compose-ui.jar"]),
        ("testCompile", vec!["/c/t.jar"]),
        ("testRuntime", vec!["/c/t.jar"]),
        ("androidTestCompile", vec![]),
        ("androidTestRuntime", vec![]),
    ] {
        expected.insert(
            bucket.to_owned(),
            Json::Array(paths.into_iter().map(|p| Json::Str(p.to_owned())).collect()),
        );
    }
    assert_eq!(json, Json::Object(expected));
}

#[test]
fn empty_classpath_serializes_to_all_empty_buckets() {
    let Json::Object(json) = Classpath::default().to_json() else {
        panic!("an object");
    };
    for bucket in [
        "compile",
        "runtime",
        "processor",
        "api",
        "composeRuntimes",
        "testCompile",
        "testRuntime",
        "androidTestCompile",
        "androidTestRuntime",
    ] {
        assert_eq!(json.get(bucket), Some(&Json::Array(vec![])), "bucket {bucket}");
    }
}

#[test]
fn missing_artifact_errors() {
    let repo = LocalRepo::new();
    let error = repo
        .resolve(&[declared(
            MavenScope::Implementation,
            "com.example:absent:1.0",
        )])
        .expect_err("not found");
    assert!(
        matches!(error, ResolveError::NotFound { .. }),
        "{}",
        error.message()
    );
    assert_eq!(
        error.message(),
        "could not find com.example:absent:1.0 in any repository"
    );
}

#[test]
fn a_missing_jar_errors_though_the_pom_is_there() {
    let mut repo = LocalRepo::new();
    repo.add("g", "a", "1", &[]);
    repo.files.remove("/repo/g/a/1/a-1.jar");
    let error = repo
        .resolve(&[declared(MavenScope::Implementation, "g:a:1")])
        .expect_err("not found");
    assert!(matches!(error, ResolveError::NotFound { .. }));
}

const BOM_FOR_LIB: &str = r#"<?xml version="1.0"?><project>
              <groupId>com.example</groupId><artifactId>bom</artifactId><version>1.0</version>
              <packaging>pom</packaging>
              <dependencyManagement>
                <dependencies>
                  <dependency>
                    <groupId>com.example</groupId><artifactId>lib</artifactId><version>3.0</version>
                  </dependency>
                </dependencies>
              </dependencyManagement>
            </project>"#;

#[test]
fn bom_provides_version_for_versionless_dep() {
    let mut repo = LocalRepo::new();
    repo.write_artifact("com.example", "bom", "1.0", BOM_FOR_LIB);
    repo.add("com.example", "lib", "3.0", &[]);
    let resolution = repo
        .resolve(&[
            declared(MavenScope::Implementation, "com.example:bom:1.0"),
            declared(MavenScope::Implementation, "com.example:lib"),
        ])
        .expect("resolves");
    assert_eq!(
        jar_names(&resolution.classpath.compile),
        vec!["lib-3.0.jar"]
    );
}

#[test]
fn bom_versionless_dep_without_bom_is_skipped() {
    let mut repo = LocalRepo::new();
    repo.add("com.example", "lib", "1.0", &[]);
    let resolution = repo
        .resolve(&[declared(MavenScope::Implementation, "com.example:lib")])
        .expect("resolves");
    assert!(resolution.classpath.compile.is_empty());
    assert!(resolution
        .notes
        .iter()
        .any(|n| n.contains("no version and no BOM")));
    assert!(
        resolution.root_paths.entries.is_empty(),
        "a declared version-less dep that stays unresolved contributes no root_paths entry"
    );
}

#[test]
fn first_bom_wins_on_overlapping_managed_versions() {
    let mut repo = LocalRepo::new();
    for (artifact, version) in [("bom-a", "1.0"), ("bom-b", "2.0")] {
        let pom = BOM_FOR_LIB
            .replace("<artifactId>bom</artifactId>", &format!("<artifactId>{artifact}</artifactId>"))
            .replace("<version>3.0</version>", &format!("<version>{version}</version>"));
        repo.write_artifact("com.example", artifact, "1.0", &pom);
    }
    repo.add("com.example", "lib", "1.0", &[]);
    repo.add("com.example", "lib", "2.0", &[]);
    let resolution = repo
        .resolve(&[
            declared(MavenScope::Implementation, "com.example:bom-a:1.0"),
            declared(MavenScope::Implementation, "com.example:bom-b:1.0"),
            declared(MavenScope::Implementation, "com.example:lib"),
        ])
        .expect("resolves");
    assert_eq!(
        jar_names(&resolution.classpath.compile),
        vec!["lib-1.0.jar"]
    );
}

#[test]
fn root_paths_lists_only_declared_roots_not_transitives() {
    let mut repo = LocalRepo::new();
    repo.add(
        "com.example",
        "lib",
        "1.0",
        &[("com.example:child", "2.0", "")],
    );
    repo.add("com.example", "child", "2.0", &[]);
    let resolution = repo
        .resolve(&[declared(MavenScope::Implementation, "com.example:lib:1.0")])
        .expect("resolves");
    let keys: Vec<(&str, &str)> = resolution
        .root_paths
        .entries
        .iter()
        .map(|root| (root.group.as_str(), root.artifact.as_str()))
        .collect();
    assert_eq!(
        keys,
        vec![("com.example", "lib")],
        "only the declared root lib is keyed in root_paths, not its transitive child"
    );
    assert_eq!(
        jar_names(&[resolution
            .root_paths
            .get("com.example", "lib")
            .unwrap()
            .clone()]),
        vec!["lib-1.0.jar"],
        "root_paths maps the lib coordinate to its own jar, not the child's"
    );
}

#[test]
fn root_paths_omits_pom_packaging_declared_roots() {
    let mut repo = LocalRepo::new();
    // A BOM root is packaging `pom`, so it carries no jar.
    let pom = BOM_FOR_LIB.replace("<version>3.0</version>", "<version>1.0</version>");
    repo.write_artifact("com.example", "bom", "1.0", &pom);
    repo.add("com.example", "lib", "1.0", &[]);
    let resolution = repo
        .resolve(&[
            declared(MavenScope::Implementation, "com.example:bom:1.0"),
            declared(MavenScope::Implementation, "com.example:lib"),
        ])
        .expect("resolves");
    assert_eq!(
        resolution.root_paths.entries.len(),
        1,
        "the BOM (pom packaging) and the version-managed lib resolve to one entry: lib's jar"
    );
    assert_eq!(
        resolution.root_paths.get("com.example", "lib"),
        Some(&resolution.classpath.compile[0])
    );
    assert_eq!(resolution.root_paths.get("com.example", "bom"), None);
}

#[test]
fn bom_transitive_child_with_property_version_resolves_from_managed() {
    let mut repo = LocalRepo::new();
    let bom = BOM_FOR_LIB
        .replace("<artifactId>lib</artifactId>", "<artifactId>transitive</artifactId>")
        .replace("<version>3.0</version>", "<version>5.0</version>");
    repo.write_artifact("com.example", "bom", "1.0", &bom);
    repo.write_artifact(
        "com.example",
        "parent",
        "1.0",
        r#"<?xml version="1.0"?><project>
              <groupId>com.example</groupId><artifactId>parent</artifactId><version>1.0</version>
              <dependencies>
                <dependency>
                  <groupId>com.example</groupId><artifactId>transitive</artifactId><version>${managed.version}</version>
                </dependency>
              </dependencies>
            </project>"#,
    );
    repo.add("com.example", "transitive", "5.0", &[]);
    let resolution = repo
        .resolve(&[
            declared(MavenScope::Implementation, "com.example:bom:1.0"),
            declared(MavenScope::Implementation, "com.example:parent:1.0"),
        ])
        .expect("resolves");
    assert_eq!(
        jar_names(&resolution.classpath.compile),
        vec!["parent-1.0.jar", "transitive-5.0.jar"]
    );
    assert!(!resolution
        .notes
        .iter()
        .any(|n| n.contains("property version")));
}

#[test]
fn bom_child_dep_with_no_version_resolves_from_managed() {
    let mut repo = LocalRepo::new();
    let bom = BOM_FOR_LIB
        .replace("<artifactId>lib</artifactId>", "<artifactId>runtime-lib</artifactId>")
        .replace("<version>3.0</version>", "<version>4.0</version>");
    repo.write_artifact("com.example", "bom", "1.0", &bom);
    repo.write_artifact(
        "com.example",
        "lib-parent",
        "1.0",
        r#"<?xml version="1.0"?><project>
              <groupId>com.example</groupId><artifactId>lib-parent</artifactId><version>1.0</version>
              <dependencies>
                <dependency>
                  <groupId>com.example</groupId><artifactId>runtime-lib</artifactId>
                </dependency>
              </dependencies>
            </project>"#,
    );
    repo.add("com.example", "runtime-lib", "4.0", &[]);
    let resolution = repo
        .resolve(&[
            declared(MavenScope::Implementation, "com.example:bom:1.0"),
            declared(MavenScope::Implementation, "com.example:lib-parent:1.0"),
        ])
        .expect("resolves");
    assert_eq!(
        jar_names(&resolution.classpath.compile),
        vec!["lib-parent-1.0.jar", "runtime-lib-4.0.jar"]
    );
}

#[test]
fn compile_only_version_managed_dep_without_bom_is_skipped() {
    let mut repo = LocalRepo::new();
    repo.add("com.example", "compile-only", "1.0", &[]);
    let resolution = repo
        .resolve(&[declared(
            MavenScope::CompileOnly,
            "com.example:compile-only",
        )])
        .expect("resolves");
    assert!(
        resolution.classpath.compile.is_empty(),
        "compileOnly dep with no BOM version must be skipped, not panic"
    );
    assert!(resolution.notes.iter().any(|n| n.contains("skipped")));
}

#[test]
fn repositories_have_addresses() {
    assert_eq!(
        MavenRepo::Google.url_for("a/b"),
        "https://dl.google.com/dl/android/maven2/a/b"
    );
    assert_eq!(
        MavenRepo::Central.url_for("a/b"),
        "https://repo1.maven.org/maven2/a/b"
    );
    assert_eq!(MavenRepo::Custom("/r/".to_owned()).url_for("a"), "/r/a");
    assert_eq!(
        source_of("file:///x/y"),
        Source::File("/x/y".to_owned())
    );
    assert_eq!(source_of("x/y"), Source::File("x/y".to_owned()));
    assert_eq!(
        source_of("https://h/x"),
        Source::Http("https://h/x".to_owned())
    );
}

#[test]
fn cached_files_have_their_places() {
    let coordinate = Dependency::parse("com.example:lib:1.0").unwrap();
    assert_eq!(
        artifact_path(&coordinate, "pom"),
        "com/example/lib/1.0/lib-1.0.pom"
    );
    assert_eq!(
        classes_path(&coordinate),
        "com/example/lib/1.0/lib-1.0-classes.jar"
    );
    assert_eq!(sha_path("a.jar"), "a.jar.sha256");
    assert_ne!(sha_path("a.jar"), sha_path("a.pom"));
    assert_eq!(part_path("a.jar"), "a.jar.part");
    assert_eq!(extraction_part_path("a.jar", 7, 12), "a.jar.part-7-12");
    assert_eq!(default_cache_dir(Some("/home/me")), "/home/me/.cache/uliab/modules");
    assert_eq!(default_cache_dir(None), ".cache/uliab/modules");
}

#[test]
fn repositories_are_tried_in_order() {
    let repos = vec![MavenRepo::Custom("/a".to_owned()), MavenRepo::Custom("/b".to_owned())];
    let coordinate = Dependency::parse("g.h:a:1").unwrap();
    let step = |attempts: Vec<Attempt>| fetch_from_repos(&repos, &coordinate, "pom", &attempts);
    assert_eq!(
        step(vec![]),
        FetchStep::Try(Source::File("/a/g/h/a/1/a-1.pom".to_owned()))
    );
    assert_eq!(
        step(vec![Attempt::Miss]),
        FetchStep::Try(Source::File("/b/g/h/a/1/a-1.pom".to_owned()))
    );
    assert_eq!(step(vec![Attempt::Miss, Attempt::Fetched]), FetchStep::Done);
    assert_eq!(
        step(vec![Attempt::Miss, Attempt::Miss]),
        FetchStep::Failed(ResolveError::NotFound {
            artifact: "g.h:a:1".to_owned()
        })
    );
    assert_eq!(
        step(vec![
            Attempt::Fail("first".to_owned()),
            Attempt::Fail("second".to_owned())
        ]),
        FetchStep::Failed(ResolveError::Fetch {
            artifact: "g.h:a:1".to_owned(),
            message: "first".to_owned()
        })
    );
    assert_eq!(status_attempt(404), Attempt::Miss);
    assert_eq!(status_attempt(503), Attempt::Fail("HTTP 503".to_owned()));
}

#[test]
fn a_download_is_capped_and_its_digest_recorded() {
    let mut download = Download::new(Some(5));
    download.accept(b"abc").unwrap();
    assert_eq!(
        download.accept(b"def").unwrap_err(),
        "artifact exceeds the 5 byte limit"
    );
    assert_eq!(download.size(), 3);
    let recorded = download.finish();
    assert_eq!(recorded, hex_digest(b"abc"));
    assert_eq!(
        recorded,
        "ba7816bf8f01cfea414140de5dae2223b00361a396177a9cb410ff61f20015ad"
    );
}

#[test]
fn a_recorded_download_is_intact_and_a_changed_one_is_not() {
    let mut download = Download::new(None);
    download.accept(b"one").unwrap();
    download.accept(b"-1.0").unwrap();
    let recorded = download.finish();
    let content = |bytes: &[u8]| {
        let mut hasher = Hasher::new();
        hasher.update(bytes);
        hasher
    };
    assert!(is_intact(content(b"one-1.0"), &format!(" {recorded}\n")));
    assert!(!is_intact(content(b"corrupted"), &recorded));
}

#[test]
fn extractions_follow_their_archive() {
    assert_eq!(recorded_digest(None), None);
    assert_eq!(recorded_digest(Some(" \n")), None);
    assert_eq!(recorded_digest(Some("aa\n")), Some("aa".to_owned()));
    let jar = |bytes: &[u8]| {
        let mut hasher = Hasher::new();
        hasher.update(bytes);
        hasher
    };
    let digest = |s: &str| Some(s.to_owned());
    let recorded = Some(seal(&digest("aa"), jar(b"abc")));
    assert_eq!(
        recorded,
        digest("aa\nba7816bf8f01cfea414140de5dae2223b00361a396177a9cb410ff61f20015ad")
    );
    assert!(reuses_extraction(Some(jar(b"abc")), &recorded, &digest("aa")));
    assert!(!reuses_extraction(Some(jar(b"abd")), &recorded, &digest("aa")));
    assert!(!reuses_extraction(Some(jar(b"abc")), &recorded, &digest("bb")));
    assert!(!reuses_extraction(None, &recorded, &digest("aa")));
    assert!(!reuses_extraction(Some(jar(b"abc")), &None, &digest("aa")));
}

#[test]
fn archives_have_limits_and_errors() {
    let coordinate = Dependency::parse("g:a:1").unwrap();
    assert_eq!(extend_extraction(&coordinate, "a.aar", 1, 2).unwrap(), 3);
    assert_eq!(
        extend_extraction(&coordinate, "a.aar", MAX_ARTIFACT_BYTES, 1)
            .unwrap_err()
            .message(),
        "unpacking archive for g:a:1: classes.jar in a.aar exceeds the 268435456 byte limit"
    );
    assert_eq!(
        archive_error(&coordinate, ArchiveWork::Finding, "a.aar", "gone").message(),
        "unpacking archive for g:a:1: no classes.jar in a.aar: gone"
    );
    assert_eq!(
        Resolver::unreadable_pom(&coordinate, "gone").message(),
        "fetching g:a:1: reading cached POM: gone"
    );
}
