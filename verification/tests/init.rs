use uliab::init::{generate, scaffold, source_dirs, DiskStep, ProjectType};

fn makes(steps: &[DiskStep], dir: &str) -> bool {
    steps.iter().any(|step| *step == DiskStep::MakeDir(dir.to_owned()))
}

fn content<'a>(steps: &'a [DiskStep], file: &str) -> Option<&'a str> {
    steps.iter().find_map(|step| match step {
        DiskStep::Write { path, content } if path == file => Some(content.as_str()),
        _ => None,
    })
}

#[test]
fn project_type_parse_valid() {
    assert_eq!(ProjectType::parse("jvm").unwrap(), ProjectType::Jvm);
    assert_eq!(ProjectType::parse("android").unwrap(), ProjectType::Android);
    assert_eq!(ProjectType::parse("kmp").unwrap(), ProjectType::Kmp);
    assert_eq!(ProjectType::parse("JVM").unwrap(), ProjectType::Jvm);
    assert_eq!(ProjectType::parse("Android").unwrap(), ProjectType::Android);
}

#[test]
fn project_type_parse_invalid() {
    let error = ProjectType::parse("ios").unwrap_err();
    assert!(error.contains("unknown project type"), "{error}");
}

#[test]
fn an_unknown_project_type_is_named_in_lower_case() {
    assert_eq!(
        ProjectType::parse("IOS").unwrap_err(),
        "unknown project type 'ios' (expected: jvm, android, kmp)"
    );
}

#[test]
fn android_build_contains_namespace() {
    let files = generate(ProjectType::Android, "app", "com.example.myapp");
    assert!(files.build.contains("com.example.myapp"));
}

#[test]
fn android_template_has_no_apk_key() {
    let files = generate(ProjectType::Android, "app", "com.example.test");
    assert!(
        !files.build.contains("apk"),
        "android template should not contain an 'apk' key"
    );
}

#[test]
fn android_template_scaffold_files_exist() {
    let files = generate(ProjectType::Android, "app", "com.example.test");
    let paths: Vec<&str> = files
        .scaffold_files
        .iter()
        .map(|(p, _)| p.as_str())
        .collect();
    assert!(paths.iter().any(|p| p.contains("AndroidManifest.xml")));
    assert!(paths.iter().any(|p| p.contains("strings.xml")));
    assert!(paths.iter().any(|p| p.contains("MainActivity.java")));
}

#[test]
fn kmp_template_jvm_classes_dir_in_target_block() {
    let files = generate(ProjectType::Kmp, "app", "");
    assert!(
        files.build.contains("jvm {\n"),
        "KMP template must have a separate 'jvm' target block"
    );
    assert!(
        files.build.contains("classesDir"),
        "KMP template must contain classesDir"
    );
    assert!(
        files.build.contains("jarFile"),
        "KMP template must contain jarFile"
    );
}

#[test]
fn jvm_template_scaffold_file_is_kotlin() {
    let files = generate(ProjectType::Jvm, "app", "");
    assert_eq!(files.scaffold_files.len(), 1);
    assert!(files.scaffold_files[0].0.ends_with("Main.kt"));
    assert!(files.scaffold_files[0].1.contains("fun main()"));
}

#[test]
fn jvm_files_are_exactly_these() {
    let files = generate(ProjectType::Jvm, "lib", "");
    assert_eq!(files.settings, "project \"MyApp\"\nmodule \"lib\"\n");
    assert_eq!(files.libs, "plugins {\n  jvm = \"ulite/jvm\" @ \"0.6.0\"\n}\n");
    assert_eq!(
        files.build,
        "plugin \"jvm\"\n\njvm {\n  sources [ \"src/main/kotlin/Main.kt\" ]\n  \
         classesDir \"build/classes\"\n  jarFile \"build/app.jar\"\n}\n"
    );
    assert_eq!(files.conventions, "");
    assert_eq!(
        files.scaffold_files,
        vec![(
            "lib/src/main/kotlin/Main.kt".to_owned(),
            "fun main() {\n    println(\"Hello from lib\")\n}\n".to_owned()
        )]
    );
}

#[test]
fn android_sources_lie_in_their_package() {
    let files = generate(ProjectType::Android, "app", "com.example.test");
    assert_eq!(
        files.scaffold_files[2].0,
        "app/src/main/java/com/example/test/MainActivity.java"
    );
    assert!(files.scaffold_files[2].1.starts_with("package com.example.test;\n"));
    assert!(files.build.contains("sources [ \"src/main/java/com/example/test/MainActivity.java\" ]"));
    assert!(files.scaffold_files[0].1.contains("package=\"com.example.test\""));
    assert!(files.scaffold_files[0]
        .1
        .contains("<activity android:name=\".MainActivity\""));
    assert_eq!(
        files.scaffold_files[3].0,
        "app/src/main/res/layout/activity_main.xml"
    );
    assert!(files.scaffold_files[3].1.contains("@string/app_name"));
}

#[test]
fn scaffold_refuses_overwrite() {
    let result = scaffold("/new", true, ProjectType::Jvm, "app", "");
    assert!(result.is_err(), "should refuse to overwrite");
    assert!(
        result.unwrap_err().contains("already contains"),
        "error should mention existing file"
    );
}

#[test]
fn scaffold_creates_all_files() {
    let steps = scaffold("/new", false, ProjectType::Jvm, "app", "").expect("scaffold");
    let written = steps
        .iter()
        .filter(|step| matches!(step, DiskStep::Write { .. }))
        .count();
    assert!(written >= 4, "should create at least 4 files");

    assert!(content(&steps, "/new/settings.ulb").is_some());
    assert!(content(&steps, "/new/libs.ulb").is_some());
    assert!(content(&steps, "/new/conventions.ulb").is_some());
    assert!(content(&steps, "/new/app/build.ulb").is_some());
    assert!(makes(&steps, "/new/app/src/main/kotlin"));
    assert!(content(&steps, "/new/app/src/main/kotlin/Main.kt").is_some());
}

#[test]
fn scaffold_android_creates_manifest_and_sources() {
    let steps =
        scaffold("/new", false, ProjectType::Android, "app", "com.example.test").expect("scaffold");
    assert!(makes(&steps, "/new/app/src/main/res/layout"));
    assert!(makes(&steps, "/new/app/src/main/res/values"));
    assert!(content(&steps, "/new/app/src/main/res/values/strings.xml").is_some());
    assert!(content(&steps, "/new/app/src/main/AndroidManifest.xml").is_some());
    assert!(
        content(&steps, "/new/app/src/main/java/com/example/test/MainActivity.java").is_some()
    );
    assert!(makes(&steps, "/new/app/src/main/java/com/example/test"));
}

#[test]
fn scaffold_kmp_creates_common_and_jvm_dirs() {
    let steps = scaffold("/new", false, ProjectType::Kmp, "app", "").expect("scaffold");
    assert!(makes(&steps, "/new/app/src/commonMain/kotlin"));
    assert!(makes(&steps, "/new/app/src/jvmMain/kotlin"));
    assert!(content(&steps, "/new/app/src/commonMain/kotlin/Platform.kt").is_some());
    assert!(content(&steps, "/new/app/src/jvmMain/kotlin/Main.kt").is_some());
}

#[test]
fn scaffold_with_custom_module_dir() {
    let steps = scaffold("/new", false, ProjectType::Jvm, "mylib", "").expect("scaffold");
    assert!(content(&steps, "/new/mylib/build.ulb").is_some());
    assert!(makes(&steps, "/new/mylib/src/main/kotlin"));
    let settings = content(&steps, "/new/settings.ulb").unwrap();
    assert!(settings.contains("module \"mylib\""));
}

#[test]
fn directories_are_made_before_files_are_written_into_them() {
    let steps = scaffold("/new", false, ProjectType::Jvm, "app", "").expect("scaffold");
    let made = steps
        .iter()
        .position(|step| *step == DiskStep::MakeDir("/new/app".to_owned()))
        .unwrap();
    let built = steps
        .iter()
        .position(|step| matches!(step, DiskStep::Write { path, .. } if path == "/new/app/build.ulb"))
        .unwrap();
    assert!(made < built);
}

#[test]
fn source_dirs_by_type() {
    assert_eq!(source_dirs(ProjectType::Jvm, "m"), vec!["m/src/main/kotlin"]);
    assert_eq!(
        source_dirs(ProjectType::Android, "m"),
        vec!["m/src/main/res/layout", "m/src/main/res/values"]
    );
    assert_eq!(
        source_dirs(ProjectType::Kmp, "m"),
        vec!["m/src/commonMain/kotlin", "m/src/jvmMain/kotlin"]
    );
}
