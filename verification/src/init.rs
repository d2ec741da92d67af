//! Project scaffolding for `uliab init`.
//!
//! Generates the four core `.ulb` files (`settings.ulb`, `libs.ulb`,
//! `build.ulb`, `conventions.ulb`) and the standard source directory
//! structure for a new project. Each project type (JVM, Android, KMP)
//! produces a minimal but valid starting configuration that the build
//! tool can evaluate without errors. Scaffolded projects have starter
//! source files so the first build succeeds without manual editing.

use vstd::prelude::*;
use crate::text;

verus! {

/// The supported project types for `uliab init`.
#[derive(Debug, Clone, Copy, PartialEq, Eq, Structural)]
pub enum ProjectType {
    /// Plain Java/Kotlin/JVM module.
    Jvm,
    /// Android application module.
    Android,
    /// Kotlin Multiplatform module (JVM target).
    Kmp,
}

/// The project type that a name stands for, its letters in either case.
pub open spec fn type_of(name: Seq<char>) -> Option<ProjectType> {
    let low = text::lower_text(name);
    if low == "jvm"@ {
        Some(ProjectType::Jvm)
    } else if low == "android"@ {
        Some(ProjectType::Android)
    } else if low == "kmp"@ {
        Some(ProjectType::Kmp)
    } else {
        None
    }
}

impl ProjectType {
    /// Parses a string into a [`ProjectType`].
    ///
    /// # Errors
    ///
    /// Returns an error message when the string is not a recognized type.
    pub fn parse(s: &str) -> (result: Result<ProjectType, String>)
        ensures
            match type_of(s@) {
                Some(project_type) => result == Ok::<ProjectType, String>(project_type),
                None => result matches Err(error) && error@ == "unknown project type '"@
                    + text::lower_text(s@) + "' (expected: jvm, android, kmp)"@,
            },
    {
        let low = text::to_lower(s);
        if text::str_eq(&low, "jvm") {
            Ok(ProjectType::Jvm)
        } else if text::str_eq(&low, "android") {
            Ok(ProjectType::Android)
        } else if text::str_eq(&low, "kmp") {
            Ok(ProjectType::Kmp)
        } else {
            Err(
                "unknown project type '".to_owned().concat(&low).concat(
                    "' (expected: jvm, android, kmp)",
                ),
            )
        }
    }
}

/// The four core files a scaffolded project contains, plus any additional
/// scaffold files (starter sources, manifest, etc.) that the project type
/// needs for its first build to succeed.
#[derive(Debug, PartialEq, Eq)]
pub struct ProjectFiles {
    /// The `settings.ulb` content.
    pub settings: String,
    /// The `libs.ulb` content.
    pub libs: String,
    /// The `build.ulb` content (written under the module directory).
    pub build: String,
    /// The `conventions.ulb` content.
    pub conventions: String,
    /// Additional files to create: `(relative_path, content)` pairs.
    /// Paths are relative to the project root.
    pub scaffold_files: Vec<(String, String)>,
}

/// What [`ProjectFiles`] hold.
pub struct Files {
    /// The `settings.ulb` content.
    pub settings: Seq<char>,
    /// The `libs.ulb` content.
    pub libs: Seq<char>,
    /// The `build.ulb` content.
    pub build: Seq<char>,
    /// The `conventions.ulb` content.
    pub conventions: Seq<char>,
    /// Additional files.
    pub scaffold: Seq<(Seq<char>, Seq<char>)>,
}

/// Files with their contents as specification values.
pub open spec fn file_pairs(list: Seq<(String, String)>) -> Seq<(Seq<char>, Seq<char>)> {
    Seq::new(list.len(), |i: int| (list[i].0@, list[i].1@))
}

impl View for ProjectFiles {
    type V = Files;

    open spec fn view(&self) -> Files {
        Files {
            settings: self.settings@,
            libs: self.libs@,
            build: self.build@,
            conventions: self.conventions@,
            scaffold: file_pairs(self.scaffold_files@),
        }
    }
}

/// The settings of a project with one module.
pub open spec fn settings_text(module_dir: Seq<char>) -> Seq<char> {
    "project \"MyApp\"\nmodule \""@ + module_dir + "\"\n"@
}

/// The files of a JVM project.
pub open spec fn jvm_files(module_dir: Seq<char>) -> Files {
    Files {
        settings: settings_text(module_dir),
        libs: "plugins {\n  jvm = \"ulite/jvm\" @ \"0.6.0\"\n}\n"@,
        build: "plugin \"jvm\"\n\njvm {\n  sources [ \"src/main/kotlin/Main.kt\" ]\n  classesDir \"build/classes\"\n  jarFile \"build/app.jar\"\n}\n"@,
        conventions: Seq::empty(),
        scaffold: seq![
            (
                module_dir + "/src/main/kotlin/Main.kt"@,
                "fun main() {\n    println(\"Hello from "@ + module_dir + "\")\n}\n"@,
            ),
        ],
    }
}

/// The directories that a package lies in.
pub open spec fn package_path(namespace: Seq<char>) -> Seq<char> {
    text::replace_text(namespace, '.', '/')
}

/// The files of an Android project.
pub open spec fn android_files(module_dir: Seq<char>, namespace: Seq<char>) -> Files {
    let package = package_path(namespace);
    Files {
        settings: settings_text(module_dir),
        libs: "plugins {\n  android = \"ulite/android\" @ \"0.3.0\"\n}\n"@,
        build: "plugin \"android\"\n\nandroid {\n  namespace \""@ + namespace
            + "\"\n  compileSdk 36\n  minSdk 24\n  sources [ \"src/main/java/"@ + package
            + "/MainActivity.java\" ]\n  resDir \"src/main/res\"\n  manifest \"src/main/AndroidManifest.xml\"\n}\n"@,
        conventions: Seq::empty(),
        scaffold: seq![
            (
                module_dir + "/src/main/AndroidManifest.xml"@,
                "<?xml version=\"1.0\" encoding=\"utf-8\"?>\n<manifest xmlns:android=\"http://schemas.android.com/apk/res/android\"\n    package=\""@
                    + namespace
                    + "\">\n    <application android:label=\"@string/app_name\">\n        <activity android:name=\".MainActivity\"\n            android:exported=\"true\">\n            <intent-filter>\n                <action android:name=\"android.intent.action.MAIN\" />\n                <category android:name=\"android.intent.category.LAUNCHER\" />\n            </intent-filter>\n        </activity>\n    </application>\n</manifest>\n"@,
            ),
            (
                module_dir + "/src/main/res/values/strings.xml"@,
                "<resources>\n    <string name=\"app_name\">MyApp</string>\n</resources>\n"@,
            ),
            (
                module_dir + "/src/main/java/"@ + package + "/MainActivity.java"@,
                "package "@ + namespace
                    + ";\n\nimport android.app.Activity;\nimport android.os.Bundle;\n\npublic class MainActivity extends Activity {\n    @Override\n    protected void onCreate(Bundle savedInstanceState) {\n        super.onCreate(savedInstanceState);\n        setContentView(R.layout.activity_main);\n    }\n}\n"@,
            ),
            (
                module_dir + "/src/main/res/layout/activity_main.xml"@,
                "<?xml version=\"1.0\" encoding=\"utf-8\"?>\n<LinearLayout xmlns:android=\"http://schemas.android.com/apk/res/android\"\n    android:layout_width=\"match_parent\"\n    android:layout_height=\"match_parent\"\n    android:orientation=\"vertical\">\n    <TextView\n        android:layout_width=\"wrap_content\"\n        android:layout_height=\"wrap_content\"\n        android:text=\"@string/app_name\" />\n</LinearLayout>\n"@,
            ),
        ],
    }
}

/// The files of a Kotlin Multiplatform project.
pub open spec fn kmp_files(module_dir: Seq<char>) -> Files {
    Files {
        settings: settings_text(module_dir),
        libs: "plugins {\n  kmp = \"ulite/kmp\" @ \"0.3.0\"\n}\n"@,
        build: "plugin \"kmp\"\n\nkmp {\n  commonMain {\n    sources [ \"src/commonMain/kotlin/Platform.kt\" ]\n  }\n  jvmMain {\n    sources [ \"src/jvmMain/kotlin/Main.kt\" ]\n  }\n  jvm {\n    classesDir \"build/jvm/classes\"\n    jarFile \"build/jvm/app.jar\"\n  }\n}\n"@,
        conventions: Seq::empty(),
        scaffold: seq![
            (
                module_dir + "/src/commonMain/kotlin/Platform.kt"@,
                "expect class Platform {\n    fun name(): String\n}\n"@,
            ),
            (
                module_dir + "/src/jvmMain/kotlin/Main.kt"@,
                "actual class Platform {\n    actual fun name(): String = \"JVM\"\n}\n\nfun main() {\n    println(\"Hello from JVM: ${Platform().name()}\")\n}\n"@,
            ),
        ],
    }
}

/// The files of a project.
pub open spec fn files_of(project_type: ProjectType, module_dir: Seq<char>, namespace: Seq<char>) -> Files {
    match project_type {
        ProjectType::Jvm => jvm_files(module_dir),
        ProjectType::Android => android_files(module_dir, namespace),
        ProjectType::Kmp => kmp_files(module_dir),
    }
}

/// Generates the file contents for a project of the given type.
///
/// `module_dir` is the subdirectory name for the module (e.g. `"app"`).
/// `namespace` is the Android package name for Android projects; ignored
/// for other types.
#[must_use]
pub fn generate(project_type: ProjectType, module_dir: &str, namespace: &str) -> (files: ProjectFiles)
    ensures
        files@ == files_of(project_type, module_dir@, namespace@),
{
    match project_type {
        ProjectType::Jvm => generate_jvm(module_dir),
        ProjectType::Android => generate_android(module_dir, namespace),
        ProjectType::Kmp => generate_kmp(module_dir),
    }
}

fn generate_settings(module_dir: &str) -> (settings: String)
    ensures
        settings@ == settings_text(module_dir@),
{
    "project \"MyApp\"\nmodule \"".to_owned().concat(module_dir).concat("\"\n")
}

fn generate_jvm(module_dir: &str) -> (files: ProjectFiles)
    ensures
        files@ == jvm_files(module_dir@),
{
    let mut scaffold_files: Vec<(String, String)> = Vec::new();
    scaffold_files.push(
        (
            module_dir.to_owned().concat("/src/main/kotlin/Main.kt"),
            "fun main() {\n    println(\"Hello from ".to_owned().concat(module_dir).concat(
                "\")\n}\n",
            ),
        ),
    );
    let files = ProjectFiles {
        settings: generate_settings(module_dir),
        libs: "plugins {\n  jvm = \"ulite/jvm\" @ \"0.6.0\"\n}\n".to_owned(),
        build: "plugin \"jvm\"\n\njvm {\n  sources [ \"src/main/kotlin/Main.kt\" ]\n  classesDir \"build/classes\"\n  jarFile \"build/app.jar\"\n}\n".to_owned(),
        conventions: String::new(),
        scaffold_files,
    };
    assert(files@.scaffold == jvm_files(module_dir@).scaffold);
    files
}

fn generate_android(module_dir: &str, namespace: &str) -> (files: ProjectFiles)
    ensures
        files@ == android_files(module_dir@, namespace@),
{
    let package = text::replace(namespace, '.', '/');
    let mut scaffold_files: Vec<(String, String)> = Vec::new();
    scaffold_files.push(
        (
            module_dir.to_owned().concat("/src/main/AndroidManifest.xml"),
            "<?xml version=\"1.0\" encoding=\"utf-8\"?>\n<manifest xmlns:android=\"http://schemas.android.com/apk/res/android\"\n    package=\"".to_owned().concat(
                namespace,
            ).concat(
                "\">\n    <application android:label=\"@string/app_name\">\n        <activity android:name=\".MainActivity\"\n            android:exported=\"true\">\n            <intent-filter>\n                <action android:name=\"android.intent.action.MAIN\" />\n                <category android:name=\"android.intent.category.LAUNCHER\" />\n            </intent-filter>\n        </activity>\n    </application>\n</manifest>\n",
            ),
        ),
    );
    scaffold_files.push(
        (
            module_dir.to_owned().concat("/src/main/res/values/strings.xml"),
            "<resources>\n    <string name=\"app_name\">MyApp</string>\n</resources>\n".to_owned(),
        ),
    );
    scaffold_files.push(
        (
            module_dir.to_owned().concat("/src/main/java/").concat(&package).concat(
                "/MainActivity.java",
            ),
            "package ".to_owned().concat(namespace).concat(
                ";\n\nimport android.app.Activity;\nimport android.os.Bundle;\n\npublic class MainActivity extends Activity {\n    @Override\n    protected void onCreate(Bundle savedInstanceState) {\n        super.onCreate(savedInstanceState);\n        setContentView(R.layout.activity_main);\n    }\n}\n",
            ),
        ),
    );
    scaffold_files.push(
        (
            module_dir.to_owned().concat("/src/main/res/layout/activity_main.xml"),
            "<?xml version=\"1.0\" encoding=\"utf-8\"?>\n<LinearLayout xmlns:android=\"http://schemas.android.com/apk/res/android\"\n    android:layout_width=\"match_parent\"\n    android:layout_height=\"match_parent\"\n    android:orientation=\"vertical\">\n    <TextView\n        android:layout_width=\"wrap_content\"\n        android:layout_height=\"wrap_content\"\n        android:text=\"@string/app_name\" />\n</LinearLayout>\n".to_owned(),
        ),
    );
    let files = ProjectFiles {
        settings: generate_settings(module_dir),
        libs: "plugins {\n  android = \"ulite/android\" @ \"0.3.0\"\n}\n".to_owned(),
        build: "plugin \"android\"\n\nandroid {\n  namespace \"".to_owned().concat(
            namespace,
        ).concat(
            "\"\n  compileSdk 36\n  minSdk 24\n  sources [ \"src/main/java/",
        ).concat(&package).concat(
            "/MainActivity.java\" ]\n  resDir \"src/main/res\"\n  manifest \"src/main/AndroidManifest.xml\"\n}\n",
        ),
        conventions: String::new(),
        scaffold_files,
    };
    assert(files@.scaffold == android_files(module_dir@, namespace@).scaffold);
    files
}

fn generate_kmp(module_dir: &str) -> (files: ProjectFiles)
    ensures
        files@ == kmp_files(module_dir@),
{
    let mut scaffold_files: Vec<(String, String)> = Vec::new();
    scaffold_files.push(
        (
            module_dir.to_owned().concat("/src/commonMain/kotlin/Platform.kt"),
            "expect class Platform {\n    fun name(): String\n}\n".to_owned(),
        ),
    );
    scaffold_files.push(
        (
            module_dir.to_owned().concat("/src/jvmMain/kotlin/Main.kt"),
            "actual class Platform {\n    actual fun name(): String = \"JVM\"\n}\n\nfun main() {\n    println(\"Hello from JVM: ${Platform().name()}\")\n}\n".to_owned(),
        ),
    );
    let files = ProjectFiles {
        settings: generate_settings(module_dir),
        libs: "plugins {\n  kmp = \"ulite/kmp\" @ \"0.3.0\"\n}\n".to_owned(),
        build: "plugin \"kmp\"\n\nkmp {\n  commonMain {\n    sources [ \"src/commonMain/kotlin/Platform.kt\" ]\n  }\n  jvmMain {\n    sources [ \"src/jvmMain/kotlin/Main.kt\" ]\n  }\n  jvm {\n    classesDir \"build/jvm/classes\"\n    jarFile \"build/jvm/app.jar\"\n  }\n}\n".to_owned(),
        conventions: String::new(),
        scaffold_files,
    };
    assert(files@.scaffold == kmp_files(module_dir@).scaffold);
    files
}

/// The directories of a project type.
pub open spec fn dirs_for(project_type: ProjectType, module_dir: Seq<char>) -> Seq<Seq<char>> {
    match project_type {
        ProjectType::Jvm => seq![text::path_text(module_dir, "src/main/kotlin"@)],
        ProjectType::Android => seq![
            text::path_text(module_dir, "src/main/res/layout"@),
            text::path_text(module_dir, "src/main/res/values"@),
        ],
        ProjectType::Kmp => seq![
            text::path_text(module_dir, "src/commonMain/kotlin"@),
            text::path_text(module_dir, "src/jvmMain/kotlin"@),
        ],
    }
}

/// The directories to create for a project type.
pub fn source_dirs(project_type: ProjectType, module_dir: &str) -> (dirs: Vec<String>)
    ensures
        text::texts(dirs@) == dirs_for(project_type, module_dir@),
{
    let mut dirs: Vec<String> = Vec::new();
    match project_type {
        ProjectType::Jvm => {
            dirs.push(text::join_path(module_dir, "src/main/kotlin"));
        },
        ProjectType::Android => {
            dirs.push(text::join_path(module_dir, "src/main/res/layout"));
            dirs.push(text::join_path(module_dir, "src/main/res/values"));
        },
        ProjectType::Kmp => {
            dirs.push(text::join_path(module_dir, "src/commonMain/kotlin"));
            dirs.push(text::join_path(module_dir, "src/jvmMain/kotlin"));
        },
    }
    assert(text::texts(dirs@) == dirs_for(project_type, module_dir@));
    dirs
}

/// One thing to do on disk.
#[derive(Debug, PartialEq, Eq)]
pub enum DiskStep {
    /// Create a directory and those above it.
    MakeDir(String),
    /// Write a file.
    Write {
        /// The file.
        path: String,
        /// Its content.
        content: String,
    },
}

/// What a [`DiskStep`] does.
pub enum Doing {
    /// Create a directory.
    MakeDir(Seq<char>),
    /// Write a file.
    Write(Seq<char>, Seq<char>),
}

impl View for DiskStep {
    type V = Doing;

    open spec fn view(&self) -> Doing {
        match *self {
            DiskStep::MakeDir(path) => Doing::MakeDir(path@),
            DiskStep::Write { path, content } => Doing::Write(path@, content@),
        }
    }
}

/// What a list of steps does.
pub open spec fn doings(list: Seq<DiskStep>) -> Seq<Doing> {
    Seq::new(list.len(), |i: int| list[i]@)
}

/// Creating the first `n` source directories.
pub open spec fn making_dirs(target: Seq<char>, dirs: Seq<Seq<char>>, n: int) -> Seq<Doing>
    decreases n,
{
    if n <= 0 {
        Seq::empty()
    } else {
        making_dirs(target, dirs, n - 1).push(
            Doing::MakeDir(text::path_text(target, dirs[n - 1])),
        )
    }
}

/// Writing the first `n` scaffold files, each into its directory.
pub open spec fn writing_files(
    target: Seq<char>,
    files: Seq<(Seq<char>, Seq<char>)>,
    n: int,
) -> Seq<Doing>
    decreases n,
{
    if n <= 0 {
        Seq::empty()
    } else {
        let path = text::path_text(target, files[n - 1].0);
        writing_files(target, files, n - 1).push(Doing::MakeDir(text::dir_text(path))).push(
            Doing::Write(path, files[n - 1].1),
        )
    }
}

/// Everything that is done for a new project: the files at its root, the
/// module with its build file, the source directories, and the scaffold files.
pub open spec fn scaffolding(
    target: Seq<char>,
    project_type: ProjectType,
    module_dir: Seq<char>,
    namespace: Seq<char>,
) -> Seq<Doing> {
    let files = files_of(project_type, module_dir, namespace);
    let dirs = dirs_for(project_type, module_dir);
    let module = text::path_text(target, module_dir);
    seq![
        Doing::Write(text::path_text(target, "settings.ulb"@), files.settings),
        Doing::Write(text::path_text(target, "libs.ulb"@), files.libs),
        Doing::Write(text::path_text(target, "conventions.ulb"@), files.conventions),
        Doing::MakeDir(module),
        Doing::Write(text::path_text(module, "build.ulb"@), files.build),
    ] + making_dirs(target, dirs, dirs.len() as int) + writing_files(
        target,
        files.scaffold,
        files.scaffold.len() as int,
    )
}

fn push_step(steps: &mut Vec<DiskStep>, step: DiskStep)
    ensures
        doings(final(steps)@) == doings(old(steps)@).push(step@),
{
    let ghost before = steps@;
    steps.push(step);
    assert(doings(steps@) == doings(before).push(step@));
}

/// The steps that scaffold a new project on disk: the directory structure, all
/// four `.ulb` files and any scaffold files the project type needs.
///
/// # Errors
///
/// Returns an error when the target directory already contains a
/// `settings.ulb` (safety check).
pub fn scaffold(
    target_dir: &str,
    has_settings: bool,
    project_type: ProjectType,
    module_dir: &str,
    namespace: &str,
) -> (result: Result<Vec<DiskStep>, String>)
    ensures
        match result {
            Ok(steps) => !has_settings && doings(steps@) == scaffolding(
                target_dir@,
                project_type,
                module_dir@,
                namespace@,
            ),
            Err(message) => has_settings && message@ == "'"@ + target_dir@
                + "' already contains a settings.ulb \u{2014} aborting to avoid overwriting"@,
        },
{
    if has_settings {
        return Err(
            "'".to_owned().concat(target_dir).concat(
                "' already contains a settings.ulb \u{2014} aborting to avoid overwriting",
            ),
        );
    }
    let files = generate(project_type, module_dir, namespace);
    let ghost all = files@;
    let mut steps: Vec<DiskStep> = Vec::new();
    steps.push(
        DiskStep::Write {
            path: text::join_path(target_dir, "settings.ulb"),
            content: files.settings,
        },
    );
    steps.push(
        DiskStep::Write { path: text::join_path(target_dir, "libs.ulb"), content: files.libs },
    );
    steps.push(
        DiskStep::Write {
            path: text::join_path(target_dir, "conventions.ulb"),
            content: files.conventions,
        },
    );
    // build.ulb goes inside the module directory, which has to exist first.
    let module = text::join_path(target_dir, module_dir);
    let build_path = text::join_path(&module, "build.ulb");
    steps.push(DiskStep::MakeDir(module));
    steps.push(DiskStep::Write { path: build_path, content: files.build });
    let ghost root = doings(steps@);
    let dirs = source_dirs(project_type, module_dir);
    let ghost places = text::texts(dirs@);
    let mut i: usize = 0;
    assert(root == root + making_dirs(target_dir@, places, 0));
    while i < dirs.len()
        invariant
            places == text::texts(dirs@),
            i <= dirs@.len(),
            doings(steps@) == root + making_dirs(target_dir@, places, i as int),
        decreases dirs.len() - i,
    {
        let ghost so_far = making_dirs(target_dir@, places, i as int);
        assert(places[i as int] == dirs@[i as int]@);
        let step = DiskStep::MakeDir(text::join_path(target_dir, &dirs[i]));
        push_step(&mut steps, step);
        assert((root + so_far).push(step@) == root + so_far.push(step@));
        i += 1;
    }
    let ghost with_dirs = doings(steps@);
    let extra = files.scaffold_files;
    let ghost pairs = file_pairs(extra@);
    let mut k: usize = 0;
    assert(with_dirs == with_dirs + writing_files(target_dir@, pairs, 0));
    while k < extra.len()
        invariant
            pairs == file_pairs(extra@),
            k <= extra@.len(),
            doings(steps@) == with_dirs + writing_files(target_dir@, pairs, k as int),
        decreases extra.len() - k,
    {
        let ghost so_far = writing_files(target_dir@, pairs, k as int);
        assert(pairs[k as int] == (extra@[k as int].0@, extra@[k as int].1@));
        let path = text::join_path(target_dir, &extra[k].0);
        let make = DiskStep::MakeDir(text::dir_of(&path));
        let write = DiskStep::Write { path, content: extra[k].1.clone() };
        let ghost made = make@;
        let ghost written = write@;
        push_step(&mut steps, make);
        push_step(&mut steps, write);
        assert((with_dirs + so_far).push(made).push(written) == with_dirs + so_far.push(made).push(
            written,
        ));
        k += 1;
    }
    assert(pairs == all.scaffold);
    Ok(steps)
}

/// The module that a new project declares is the one its sources are in: every
/// scaffold file lies below the module directory, and the settings name that
/// directory.
pub proof fn law_scaffold_stays_in_the_module(
    project_type: ProjectType,
    module_dir: Seq<char>,
    namespace: Seq<char>,
    i: int,
)
    requires
        0 <= i < files_of(project_type, module_dir, namespace).scaffold.len(),
    ensures
        module_dir.is_prefix_of(files_of(project_type, module_dir, namespace).scaffold[i].0),
        files_of(project_type, module_dir, namespace).settings == settings_text(module_dir),
{
    let path = files_of(project_type, module_dir, namespace).scaffold[i].0;
    assert(path.subrange(0, module_dir.len() as int) == module_dir);
}

} // verus!
