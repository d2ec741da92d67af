use std::cmp::Ordering;

use uliab::maven::fetch::Source;
use uliab::registry::{
    check_index, compare_versions, select_version, verify_artifact, AbiRange,
    CachedResolution, Known, PluginIndexEntry, PluginManifest, PluginSpec, PluginVersionEntry,
    Registry, RegistryError, RegistryIndex, RegistrySource, RegistryStep,
};
use uliab::text_map::TextMap;
use uliab::value::{Number, Value};

const ABI: &str = "0.7";

fn range(min: &str, max: &str) -> AbiRange {
    AbiRange {
        min: min.to_owned(),
        max: max.to_owned(),
    }
}

fn entry(versions: &[(&str, &str, &str, &str)]) -> PluginIndexEntry {
    let mut map = TextMap::new();
    for (version, min, max, url) in versions {
        map.insert(
            (*version).to_owned(),
            PluginVersionEntry {
                abi: range(min, max),
                artifact_url: (*url).to_owned(),
            },
        );
    }
    PluginIndexEntry { versions: map }
}

fn index_of(hello: PluginIndexEntry) -> RegistryIndex {
    let mut plugins = TextMap::new();
    plugins.insert("ulite/hello".to_owned(), hello);
    RegistryIndex {
        schema_version: 1,
        plugins,
    }
}

fn sample_entry() -> PluginIndexEntry {
    entry(&[
        ("0.1.0", "0.4", "0.7", "artifacts/hello_plugin.wasm"),
        ("0.2.0", "0.4", "0.7", "artifacts/hello_plugin.wasm"),
    ])
}

fn spec(version: Option<&str>) -> PluginSpec {
    PluginSpec {
        name: "ulite/hello".to_owned(),
        version: version.map(str::to_owned),
    }
}

fn registry() -> Registry {
    Registry::new(
        RegistrySource::File("/reg/index.json".to_owned()),
        Some("/cache".to_owned()),
        None,
        ABI.to_owned(),
    )
}

fn manifest(name: &str, version: &str, abi: &str) -> Result<PluginManifest, String> {
    Ok(PluginManifest {
        name: name.to_owned(),
        version: version.to_owned(),
        abi_version: abi.to_owned(),
    })
}

#[test]
fn spec_from_coordinate_and_string() {
    let spec = PluginSpec::from_value(&Value::Coordinate("ulite/hello:1.2.3".to_owned()))
        .expect("coordinate");
    assert_eq!(spec.name, "ulite/hello");
    assert_eq!(spec.version.as_deref(), Some("1.2.3"));

    let spec = PluginSpec::from_value(&Value::Str("ulite/hello".to_owned())).expect("string");
    assert_eq!(spec.version, None);

    assert!(PluginSpec::from_value(&Value::Bool(true)).is_err());
    assert!(PluginSpec::from_value(&Value::Invalid("boom".to_owned())).is_err());
}

#[test]
fn plugin_references_that_are_refused() {
    assert_eq!(
        PluginSpec::from_value(&Value::Coordinate("nocolon".to_owned())).unwrap_err(),
        "malformed plugin coordinate 'nocolon' (expected 'name:version')"
    );
    assert_eq!(
        PluginSpec::from_value(&Value::Invalid("boom".to_owned())).unwrap_err(),
        "boom"
    );
    assert_eq!(
        PluginSpec::from_value(&Value::Number(Number::Int(3))).unwrap_err(),
        "plugin reference must be a string coordinate, got number"
    );
    let split = PluginSpec::from_value(&Value::Coordinate("a:b:c".to_owned())).unwrap();
    assert_eq!(split.name, "a");
    assert_eq!(split.version.as_deref(), Some("b:c"));
    assert_eq!(split.shown(), "a@b:c");
}

#[test]
fn abi_range_containment() {
    let range = AbiRange {
        min: "0.1".to_owned(),
        max: "0.2".to_owned(),
    };
    assert!(range.contains("0.1"));
    assert!(range.contains("0.1.0"));
    assert!(range.contains("0.2.0"));
    assert!(!range.contains("0.0.9"));
    assert!(!range.contains("0.3"));
}

#[test]
fn compares_numeric_versions() {
    assert_eq!(compare_versions("0.1", "0.1.0"), Ordering::Equal);
    assert_eq!(compare_versions("0.9.0", "0.10.0"), Ordering::Less);
    assert_eq!(compare_versions("1.0.0", "0.9.9"), Ordering::Greater);
    assert_eq!(compare_versions("0.2.0", "0.2"), Ordering::Equal);
}

#[test]
fn odd_version_segments_count_as_numbers_or_zero() {
    assert_eq!(compare_versions("+5", "5"), Ordering::Equal);
    assert_eq!(compare_versions("1.x", "1"), Ordering::Equal);
    assert_eq!(compare_versions("-1", "0"), Ordering::Equal);
    assert_eq!(
        compare_versions("18446744073709551615", "18446744073709551614"),
        Ordering::Greater
    );
    assert_eq!(
        compare_versions("18446744073709551616", "18446744073709551615"),
        Ordering::Greater
    );
    assert_eq!(compare_versions("", "0"), Ordering::Equal);
    assert_eq!(compare_versions("+", "0"), Ordering::Equal);
}

#[test]
fn registry_versions_are_ordered() {
    let list = ["0.1", "0.1.0", "0.2", "0.10", "1", "1.0.1"];
    for a in list {
        assert_eq!(compare_versions(a, a), Ordering::Equal);
        assert_eq!(compare_versions(a, &format!("{a}.0")), Ordering::Equal);
        for b in list {
            assert_eq!(compare_versions(a, b), compare_versions(b, a).reverse());
            for c in list {
                if compare_versions(a, b) != Ordering::Greater
                    && compare_versions(b, c) != Ordering::Greater
                {
                    assert_ne!(compare_versions(a, c), Ordering::Greater, "{a} {b} {c}");
                }
            }
        }
    }
}

#[test]
fn resolves_newest_compatible_without_pinning() {
    let entry = sample_entry();
    let spec = PluginSpec {
        name: "ulite/hello".to_owned(),
        version: None,
    };
    let selection = select_version(&entry, &spec, ABI).expect("resolvable");
    assert_eq!(selection.version, "0.2.0");
    assert_eq!(selection.abi.min, "0.4");
    assert!(selection.warning.is_none());
}

#[test]
fn falls_back_when_pinned_version_is_incompatible() {
    let entry = entry(&[("0.1.0", "0.1", "0.1", "a"), ("0.3.0", "0.2", "0.2", "b")]);
    let spec = PluginSpec {
        name: "ulite/hello".to_owned(),
        version: Some("0.3.0".to_owned()),
    };
    let selection = select_version(&entry, &spec, "0.1").expect("fallback available");
    assert_eq!(selection.version, "0.1.0");
    let warning = selection.warning.unwrap();
    assert!(warning.contains("0.3.0"));
    assert_eq!(
        warning,
        "plugin 'ulite/hello@0.3.0' does not support plugin-ABI '0.1'; \
         falling back to last-known-compatible '0.1.0'"
    );
}

#[test]
fn errors_when_nothing_compatible() {
    let entry = entry(&[("0.1.0", "0.1", "0.1", "a")]);
    let spec = PluginSpec {
        name: "ulite/hello".to_owned(),
        version: Some("0.1.0".to_owned()),
    };
    let error = select_version(&entry, &spec, "0.2").expect_err("incompatible");
    assert!(matches!(error, RegistryError::Incompatible { .. }));
}

#[test]
fn unknown_plugin_and_version_errors() {
    let entry = sample_entry();
    let spec = PluginSpec {
        name: "ulite/hello".to_owned(),
        version: Some("9.9.9".to_owned()),
    };
    let error = select_version(&entry, &spec, "0.1").expect_err("no such version");
    assert!(matches!(error, RegistryError::UnknownVersion { .. }));
}

#[test]
fn newest_goes_by_number_and_not_by_text() {
    let entry = entry(&[
        ("0.9.0", "0.1", "0.9", "a"),
        ("0.10.0", "0.1", "0.9", "b"),
        ("1.0.0", "1", "2", "c"),
    ]);
    let selection = select_version(&entry, &spec(None), "0.7").unwrap();
    assert_eq!(selection.version, "0.10.0");
    assert_eq!(selection.artifact_url, "b");
}

#[test]
fn a_pinned_compatible_version_is_taken_though_a_newer_one_exists() {
    let selection = select_version(&sample_entry(), &spec(Some("0.1.0")), ABI).unwrap();
    assert_eq!(selection.version, "0.1.0");
    assert_eq!(selection.warning, None);
}

#[test]
fn downloads_and_verifies_on_cache_miss() {
    let index = index_of(sample_entry());
    let registry = registry();
    let spec = spec(None);
    let RegistryStep::Look {
        wasm_path,
        meta_path,
    } = registry.resolve(&spec, &index, &Known::Nothing)
    else {
        panic!("expected a look at the cache");
    };
    assert_eq!(wasm_path, "/cache/ulite/hello/0.2.0/plugin.wasm");
    assert_eq!(meta_path, "/cache/ulite/hello/0.2.0/abi.json");
    assert_eq!(
        registry.resolve(&spec, &index, &Known::Cache(None)),
        RegistryStep::Fetch(Source::File("/reg/artifacts/hello_plugin.wasm".to_owned()))
    );
    assert_eq!(
        registry.resolve(&spec, &index, &Known::Unfetched("HTTP 500".to_owned())),
        RegistryStep::Failed(RegistryError::Fetch {
            url: "artifacts/hello_plugin.wasm".to_owned(),
            message: "HTTP 500".to_owned(),
        })
    );
    let RegistryStep::Fetched(resolved, meta) = registry.resolve(
        &spec,
        &index,
        &Known::Artifact(manifest("ulite/hello", "0.2.0", ABI)),
    ) else {
        panic!("expected the plugin");
    };
    assert!(!resolved.from_cache);
    assert_eq!(resolved.version, "0.2.0");
    assert_eq!(resolved.path, "/cache/ulite/hello/0.2.0/plugin.wasm");
    assert_eq!(meta.name, "ulite/hello");
    assert_eq!(meta.version, "0.2.0");
    assert_eq!(meta.abi, range("0.4", "0.7"));

    // What was fetched is found again.
    let again = registry.resolve(&spec, &index, &Known::Cache(Some(meta)));
    assert!(matches!(again, RegistryStep::Cached(plugin) if plugin.from_cache));
}

#[test]
fn cache_hit_skips_fetch() {
    let meta = CachedResolution {
        name: "ulite/hello".to_owned(),
        version: "0.2.0".to_owned(),
        abi: range("0.4", "0.7"),
    };
    // The artifact URL is intentionally bogus: a hit must never fetch.
    let index = index_of(entry(&[("0.2.0", "0.4", "0.7", "http://127.0.0.1:1/nope")]));
    let step = registry().resolve(&spec(None), &index, &Known::Cache(Some(meta)));
    let RegistryStep::Cached(resolved) = step else {
        panic!("cache hit");
    };
    assert!(resolved.from_cache);
    assert_eq!(resolved.path, "/cache/ulite/hello/0.2.0/plugin.wasm");
}

#[test]
fn stale_cache_refetches() {
    // A cache entry records the ABI range it was verified under; when a
    // later resolve runs under a host ABI outside that range (the tool
    // was upgraded), the cached artifact must be refetched rather than
    // trusted.
    let index = index_of(entry(&[
        ("0.1.0", "0.1", "0.1", "artifacts/hello_plugin.wasm"),
        ("0.2.0", "0.4", "0.7", "artifacts/hello_plugin.wasm"),
    ]));
    let meta = CachedResolution {
        name: "ulite/hello".to_owned(),
        version: "0.2.0".to_owned(),
        abi: range("0.2", "0.2"),
    };
    let step = registry().resolve(&spec(None), &index, &Known::Cache(Some(meta)));
    assert!(matches!(step, RegistryStep::Fetch(_)));
}

#[test]
fn a_cached_artifact_of_another_plugin_is_not_used() {
    let meta = CachedResolution {
        name: "ulite/other".to_owned(),
        version: "0.2.0".to_owned(),
        abi: range("0.4", "0.7"),
    };
    let step = registry().resolve(
        &spec(None),
        &index_of(sample_entry()),
        &Known::Cache(Some(meta)),
    );
    assert!(matches!(step, RegistryStep::Fetch(_)));
}

#[test]
fn verification_rejects_mismatched_artifact() {
    let step = registry().resolve(
        &spec(None),
        &index_of(sample_entry()),
        &Known::Artifact(manifest("ulite/other", "0.2.0", ABI)),
    );
    assert!(matches!(
        step,
        RegistryStep::Failed(RegistryError::Verify(_))
    ));
}

#[test]
fn verification_messages() {
    let abi = range("0.4", "0.7");
    let check = |manifest| match verify_artifact(&manifest, &spec(Some("1.0")), "1.0", &abi) {
        Ok(()) => String::new(),
        Err(error) => error.message(),
    };
    assert_eq!(check(manifest("ulite/hello", "1.0", "0.5")), "");
    assert_eq!(
        check(manifest("other", "1.0", "0.5")),
        "plugin artifact failed verification: \
         artifact manifest name 'other' does not match requested 'ulite/hello'"
    );
    assert_eq!(
        check(manifest("ulite/hello", "1.1", "0.5")),
        "plugin artifact failed verification: \
         artifact manifest version '1.1' does not match resolved '1.0'"
    );
    assert_eq!(
        check(manifest("ulite/hello", "1.0", "0.8")),
        "plugin artifact failed verification: \
         artifact manifest abi-version '0.8' lies outside the entry's declared range 0.4-0.7"
    );
    assert_eq!(
        check(Err("not a component".to_owned())),
        "plugin artifact failed verification: ulite/hello@1.0@1.0: not a component"
    );
}

#[test]
fn an_unpublished_plugin_is_an_error() {
    let unknown = PluginSpec {
        name: "ulite/none".to_owned(),
        version: None,
    };
    let step = registry().resolve(&unknown, &index_of(sample_entry()), &Known::Nothing);
    assert_eq!(
        step,
        RegistryStep::Failed(RegistryError::UnknownPlugin("ulite/none".to_owned()))
    );
}

#[test]
fn artifacts_are_seen_from_where_their_index_lies() {
    let registry = registry();
    assert_eq!(
        registry.artifact_source("https://host/p.wasm"),
        Source::Http("https://host/p.wasm".to_owned())
    );
    assert_eq!(
        registry.artifact_source("file:///abs/p.wasm"),
        Source::File("/abs/p.wasm".to_owned())
    );
    assert_eq!(
        registry.artifact_source("/abs/p.wasm"),
        Source::File("/abs/p.wasm".to_owned())
    );
    assert_eq!(
        registry.artifact_source("p.wasm"),
        Source::File("/reg/p.wasm".to_owned())
    );
    let remote = Registry::new(
        RegistrySource::Url("https://host/index.json".to_owned()),
        None,
        Some("/home/me"),
        ABI.to_owned(),
    );
    assert_eq!(
        remote.artifact_source("p.wasm"),
        Source::File("p.wasm".to_owned())
    );
    assert_eq!(remote.cache_dir(), "/home/me/.cache/uliab/plugins");
    assert_eq!(
        remote.index_unavailable("HTTP 500").message(),
        "registry index unavailable: failed to fetch 'https://host/index.json': HTTP 500"
    );
    assert_eq!(
        registry.index_unavailable("gone").message(),
        "registry index unavailable: /reg/index.json: gone"
    );
}

#[test]
fn only_the_first_index_format_is_understood() {
    assert!(check_index(index_of(sample_entry())).is_ok());
    let mut newer = index_of(sample_entry());
    newer.schema_version = 2;
    assert_eq!(
        check_index(newer).unwrap_err().message(),
        "registry index unavailable: unsupported index schema_version 2 (this tool understands \
         version 1); upgrade the tool or pin an older registry"
    );
}

#[test]
fn registry_error_messages() {
    let cases = [
        (
            RegistryError::UnknownPlugin("p".to_owned()),
            "plugin 'p' is not published in the registry",
        ),
        (
            RegistryError::UnknownVersion {
                name: "p".to_owned(),
                version: "1".to_owned(),
            },
            "plugin 'p' has no published version '1'",
        ),
        (
            RegistryError::Incompatible {
                name: "p".to_owned(),
                host_abi: "0.7".to_owned(),
            },
            "no published build of 'p' supports plugin-ABI '0.7'",
        ),
        (
            RegistryError::Fetch {
                url: "u".to_owned(),
                message: "m".to_owned(),
            },
            "failed to fetch 'u': m",
        ),
        (
            RegistryError::Cache("m".to_owned()),
            "plugin cache error: m",
        ),
        (
            RegistryError::Index("m".to_owned()),
            "registry index unavailable: m",
        ),
    ];
    for (error, message) in cases {
        assert_eq!(error.message(), message);
    }
}
