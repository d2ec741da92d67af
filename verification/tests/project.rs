use uliab::project::{
    read_libs_plugins, read_settings, spec_label, LibsSource, SettingsModel, SettingsSource,
};
use uliab::registry::PluginSpec;
use uliab::text_map::TextMap;
use uliab::value::Value;

fn strings(list: &[&str]) -> Vec<String> {
    list.iter().map(|s| (*s).to_owned()).collect()
}

fn settings(diagnostics: &[&str], modules: &[&str]) -> SettingsSource {
    SettingsSource::Evaluated {
        diagnostics: strings(diagnostics),
        model: SettingsModel {
            project_name: Some("Demo".to_owned()),
            modules: strings(modules),
            extra_repos: vec![],
            lsp_compat: false,
        },
    }
}

fn libs(parse_errors: &[&str], evaluation_errors: &[&str], plugins: Vec<(&str, Value)>) -> LibsSource {
    let mut table = TextMap::new();
    for (alias, value) in plugins {
        table.insert(alias.to_owned(), value);
    }
    LibsSource::Parsed {
        parse_errors: strings(parse_errors),
        evaluation_errors: strings(evaluation_errors),
        plugins: table,
    }
}

#[test]
fn a_project_without_settings_is_a_single_module() {
    assert_eq!(read_settings("/p", "/", SettingsSource::Missing), Ok(None));
}

#[test]
fn modules_have_directories_below_the_project() {
    let found = read_settings("/p", "/", settings(&[], &["app", "libs/core"]))
        .expect("valid")
        .expect("present");
    assert_eq!(found.module_dirs, strings(&["/p/app", "/p/libs/core"]));
    assert_eq!(found.project_dir, "/p");
    let found = read_settings("p", "/home/me", settings(&[], &["app"]))
        .expect("valid")
        .expect("present");
    assert_eq!(found.module_dirs, strings(&["/home/me/p/app"]));
    assert_eq!(found.model.project_name.as_deref(), Some("Demo"));
}

#[test]
fn faulty_settings_are_refused() {
    let refused = |source: SettingsSource| read_settings("/p", "/", source).unwrap_err();
    assert_eq!(
        refused(SettingsSource::Unreadable("denied".to_owned())),
        "reading /p/settings.ulb: denied"
    );
    assert_eq!(
        refused(settings(&["bad", "worse"], &["app"])),
        "/p/settings.ulb: bad; worse"
    );
    assert_eq!(
        refused(settings(&[], &[])),
        "/p/settings.ulb declares no modules; add at least one 'module \"path\"' declaration"
    );
    assert_eq!(
        refused(settings(&[], &["app", "/etc"])),
        "module '/etc' must be a relative path (no leading '/')"
    );
    assert_eq!(
        refused(settings(&[], &["../x", "/etc"])),
        "module '../x' must not contain '..' segments"
    );
}

#[test]
fn plugins_are_taken_in_the_order_of_their_aliases() {
    let found = read_libs_plugins(
        "/p",
        &libs(
            &[],
            &[],
            vec![
                ("zeta", Value::Str("ulite/zeta".to_owned())),
                ("alpha", Value::Coordinate("ulite/alpha:1.0".to_owned())),
            ],
        ),
    )
    .expect("valid");
    assert_eq!(found.libs_path, "/p/libs.ulb");
    let labels: Vec<String> = found.plugins.iter().map(spec_label).collect();
    assert_eq!(labels[1], "ulite/zeta (unversioned)");
    assert_eq!(found.plugins.len(), 2);
    assert_eq!(found.plugins[0].name, "ulite/alpha");
    assert_eq!(found.plugins[0].version.as_deref(), Some("1.0"));
}

#[test]
fn faulty_libs_are_refused() {
    assert_eq!(
        read_libs_plugins("/p", &LibsSource::Unreadable("gone".to_owned())).unwrap_err(),
        "no libs.ulb in /p: gone"
    );
    for source in [
        libs(&["unexpected"], &[], vec![]),
        libs(&[], &["unexpected"], vec![]),
        libs(
            &[],
            &[],
            vec![("a", Value::Invalid("unexpected".to_owned()))],
        ),
    ] {
        let error = read_libs_plugins("/p", &source).unwrap_err();
        assert!(error.contains("unexpected"), "{error}");
        assert!(error.contains("/p/libs.ulb"), "{error}");
    }
}

#[test]
fn specs_have_labels() {
    let spec = |version: Option<&str>| PluginSpec {
        name: "ulite/hello".to_owned(),
        version: version.map(str::to_owned),
    };
    assert_eq!(spec_label(&spec(Some("0.1.0"))), "ulite/hello@0.1.0");
    assert_eq!(spec_label(&spec(None)), "ulite/hello (unversioned)");
}
