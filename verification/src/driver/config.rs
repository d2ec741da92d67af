//! The configuration that plugins receive.

use vstd::prelude::*;
use crate::driver::classpath;
use crate::driver::deps;
use crate::json;
use crate::json::Json;
use crate::maven;
use crate::maven::{Classpath, Paths};
use crate::text;
use crate::text_map::TextMap;
use crate::value::Value;

verus! {

/// The string under a key of a block that is itself under a key of the model.
pub open spec fn setting(model: Value, block: Seq<char>, key: Seq<char>) -> Option<Seq<char>> {
    match deps::member(model, block) {
        Some(inner) => match deps::member(inner, key) {
            Some(Value::Str(s)) => Some(s@),
            _ => None,
        },
        None => None,
    }
}

fn get_setting<'a>(model: &'a Value, block: &str, key: &str) -> (found: Option<&'a String>)
    ensures
        match found {
            Some(s) => setting(*model, block@, key@) == Some(s@),
            None => setting(*model, block@, key@) is None,
        },
{
    match deps::get_member(model, block) {
        Some(inner) => match deps::get_member(inner, key) {
            Some(Value::Str(s)) => Some(s),
            _ => None,
        },
        None => None,
    }
}

/// The artifact a module produces: `jvm.jarFile`, else `android.apk`, seen
/// from the module's directory.
pub open spec fn output_of(model: Value, module_dir: Seq<char>) -> Option<Seq<char>> {
    match setting(model, "jvm"@, "jarFile"@) {
        Some(jar) => Some(text::path_text(module_dir, jar)),
        None => match setting(model, "android"@, "apk"@) {
            Some(apk) => Some(text::path_text(module_dir, apk)),
            None => None,
        },
    }
}

/// Discovers a module's primary output artifact from its evaluated model.
///
/// Scans well-known output keys owned by plugin families (`jvm.jarFile`,
/// `android.apk`) and resolves them against the module directory. Returns
/// `None` when no recognized output key is present — the module either
/// produces no file artifact (a library consumed only via classpath) or
/// its plugin family defines no output key this scan recognizes.
pub fn discover_module_output(model: &Value, module_dir: &str) -> (output: Option<String>)
    ensures
        text::opt_text(output) == output_of(*model, module_dir@),
{
    // JVM plugin: `jvm { jarFile "..." }`.
    if let Some(jar) = get_setting(model, "jvm", "jarFile") {
        return Some(text::join_path(module_dir, jar));
    }
    // Android plugin: `android { apk "..." }`.
    if let Some(apk) = get_setting(model, "android", "apk") {
        return Some(text::join_path(module_dir, apk));
    }
    None
}

/// The member of an object.
pub open spec fn json_member(document: Json, key: Seq<char>) -> Option<Json> {
    match document {
        Json::Object(object) => if object@.contains_key(key) {
            Some(object@[key])
        } else {
            None
        },
        _ => None,
    }
}

fn get_json_member<'a>(document: &'a Json, key: &str) -> (found: Option<&'a Json>)
    ensures
        match found {
            Some(v) => json_member(*document, key@) == Some(*v),
            None => json_member(*document, key@) is None,
        },
{
    match document {
        Json::Object(object) => object.get(key),
        _ => None,
    }
}

/// The directory `android.sdkDir` of a configuration, seen from the project.
pub open spec fn module_sdk(config: Json, dir: Seq<char>) -> Option<Seq<char>> {
    match json_member(config, "android"@) {
        Some(android) => match json_member(android, "sdkDir"@) {
            Some(Json::Str(sdk)) => Some(text::path_text(dir, sdk@)),
            _ => None,
        },
        None => None,
    }
}

/// The module's own `android.sdkDir` — a block path the plugin is asked to
/// use instead of the host-resolved root — resolved against the project
/// directory when relative. `None` when the module declares none, or
/// declares something the host cannot turn into a path (the plugin reports
/// such a block as its own error).
pub fn module_android_sdk_dir(plugin_config: &Json, dir: &str) -> (path: Option<String>)
    ensures
        text::opt_text(path) == module_sdk(*plugin_config, dir@),
{
    match get_json_member(plugin_config, "android") {
        Some(android) => match get_json_member(android, "sdkDir") {
            Some(Json::Str(sdk)) => Some(text::join_path(dir, sdk)),
            _ => None,
        },
        None => None,
    }
}

/// The directories opened for a plugin: the SDK root and the module's own,
/// each once.
pub open spec fn sdk_dirs(root: Option<Seq<char>>, module: Option<Seq<char>>) -> Seq<Seq<char>> {
    match (root, module) {
        (None, None) => Seq::empty(),
        (Some(dir), None) => seq![dir],
        (None, Some(own)) => seq![own],
        (Some(dir), Some(own)) => if text::same_path(dir, own) {
            seq![dir]
        } else {
            seq![dir, own]
        },
    }
}

/// The directories that the host opens read-only for a plugin: the SDK root
/// and, where it is another one, the module's own.
pub fn sdk_roots(sdk_root: Option<&str>, module_root: Option<&str>) -> (roots: Vec<String>)
    ensures
        text::texts(roots@) == sdk_dirs(text::opt_str(sdk_root), text::opt_str(module_root)),
{
    let mut roots: Vec<String> = Vec::new();
    let same = match (sdk_root, module_root) {
        (Some(dir), Some(own)) => text::is_same_path(dir, own),
        _ => false,
    };
    if let Some(dir) = sdk_root {
        roots.push(dir.to_owned());
    }
    if let Some(own) = module_root {
        if !same {
            roots.push(own.to_owned());
        }
    }
    assert(text::texts(roots@) == sdk_dirs(text::opt_str(sdk_root), text::opt_str(module_root)));
    roots
}

/// Where an Android SDK may be found.
#[derive(Debug, PartialEq, Eq)]
pub struct SdkHints {
    /// The variable `ANDROID_HOME`.
    pub android_home: Option<String>,
    /// The variable `ANDROID_SDK_ROOT`.
    pub android_sdk_root: Option<String>,
    /// The home directory.
    pub home: Option<String>,
}

/// One item, or none.
pub open spec fn at_most_one(item: Option<Seq<char>>) -> Seq<Seq<char>> {
    match item {
        Some(s) => seq![s],
        None => Seq::empty(),
    }
}

/// The SDK roots that are tried, in order.
pub open spec fn sdk_places(override_path: Option<Seq<char>>, hints: SdkHints) -> Seq<Seq<char>> {
    at_most_one(override_path) + at_most_one(text::opt_text(hints.android_home)) + at_most_one(
        text::opt_text(hints.android_sdk_root),
    ) + at_most_one(
        match hints.home {
            Some(home) => Some(text::path_text(text::path_text(home@, "Android"@), "Sdk"@)),
            None => None,
        },
    )
}

fn push_some(list: &mut Vec<String>, item: Option<&str>)
    ensures
        text::texts(final(list)@) == text::texts(old(list)@) + at_most_one(text::opt_str(item)),
{
    let ghost before = list@;
    if let Some(s) = item {
        list.push(s.to_owned());
    }
    assert(text::texts(list@) == text::texts(before) + at_most_one(text::opt_str(item)));
}

fn opt_ref(value: &Option<String>) -> (s: Option<&str>)
    ensures
        text::opt_str(s) == text::opt_text(*value),
{
    match value {
        Some(s) => Some(s.as_str()),
        None => None,
    }
}

/// The Android SDK roots a build probes, in priority order: an explicit path,
/// then `ANDROID_HOME`, then `ANDROID_SDK_ROOT`, then the conventional
/// `~/Android/Sdk`.
pub fn sdk_candidates(override_path: Option<&str>, hints: &SdkHints) -> (candidates: Vec<String>)
    ensures
        text::texts(candidates@) == sdk_places(text::opt_str(override_path), *hints),
{
    let mut candidates: Vec<String> = Vec::new();
    assert(text::texts(candidates@) + at_most_one(text::opt_str(override_path)) == at_most_one(
        text::opt_str(override_path),
    ));
    push_some(&mut candidates, override_path);
    push_some(&mut candidates, opt_ref(&hints.android_home));
    push_some(&mut candidates, opt_ref(&hints.android_sdk_root));
    match &hints.home {
        Some(home) => {
            let sdk = text::join_path(&text::join_path(home, "Android"), "Sdk");
            push_some(&mut candidates, Some(sdk.as_str()));
        },
        None => push_some(&mut candidates, None),
    }
    candidates
}

/// The first of some directories, from `from` on, that exists.
pub open spec fn first_of(
    candidates: Seq<Seq<char>>,
    existing: Seq<Seq<char>>,
    from: int,
) -> Option<Seq<char>>
    decreases candidates.len() - from,
{
    if from >= candidates.len() {
        None
    } else if existing.contains(candidates[from]) {
        Some(candidates[from])
    } else {
        first_of(candidates, existing, from + 1)
    }
}

/// The first candidate that is among the existing directories, or `None`.
pub fn first_existing_sdk_dir(candidates: &Vec<String>, existing: &Vec<String>) -> (found: Option<
    String,
>)
    ensures
        text::opt_text(found) == first_of(text::texts(candidates@), text::texts(existing@), 0),
{
    let ghost all = text::texts(candidates@);
    let ghost dirs = text::texts(existing@);
    let mut i: usize = 0;
    while i < candidates.len()
        invariant
            all == text::texts(candidates@),
            dirs == text::texts(existing@),
            i <= candidates@.len(),
            first_of(all, dirs, 0) == first_of(all, dirs, i as int),
        decreases candidates.len() - i,
    {
        if classpath::is_among(existing, &candidates[i]) {
            return Some(candidates[i].clone());
        }
        i += 1;
    }
    None
}

/// Resolves the Android SDK root by probing the environment conventions:
/// an explicit `--android-sdk` path wins, then `ANDROID_HOME`, then
/// `ANDROID_SDK_ROOT`, then the conventional `~/Android/Sdk`. The first
/// candidate that is an existing directory wins; `None` when no candidate
/// exists.
pub fn android_sdk_root(override_path: Option<&str>, hints: &SdkHints, existing: &Vec<String>) -> (root:
    Option<String>)
    ensures
        text::opt_text(root) == first_of(
            sdk_places(text::opt_str(override_path), *hints),
            text::texts(existing@),
            0,
        ),
{
    first_existing_sdk_dir(&sdk_candidates(override_path, hints), existing)
}

/// The SDK root a build uses: the override, which has to exist, else the first
/// of the usual places that does.
pub open spec fn sdk_choice(
    override_path: Option<Seq<char>>,
    hints: SdkHints,
    existing: Seq<Seq<char>>,
) -> Result<Option<Seq<char>>, Seq<char>> {
    match override_path {
        Some(path) => if existing.contains(path) {
            Ok(Some(path))
        } else {
            Err(
                "the Android SDK root '"@ + path
                    + "' does not exist (--android-sdk must name an existing directory)"@,
            )
        },
        None => Ok(first_of(sdk_places(None, hints), existing, 0)),
    }
}

/// Resolves the Android SDK root a build should use: an override that
/// does not name an existing directory is an error — the build must not
/// silently probe the environment and compile against a different SDK than
/// the user asked for. With no override, `ANDROID_HOME`, then
/// `ANDROID_SDK_ROOT`, then the conventional `~/Android/Sdk` are probed
/// silently; the first existing directory wins, and `None` when none
/// exists (the plugins then report their own missing-SDK errors). The
/// resolved root is injected into every plugin's configuration as
/// `androidSdkDir`.
///
/// # Errors
///
/// Returns a message naming the override when an explicit path does not
/// exist.
pub fn checked_sdk_root(
    override_path: Option<&str>,
    hints: &SdkHints,
    existing: &Vec<String>,
) -> (result: Result<Option<String>, String>)
    ensures
        match sdk_choice(text::opt_str(override_path), *hints, text::texts(existing@)) {
            Ok(root) => result matches Ok(found) && text::opt_text(found) == root,
            Err(message) => result matches Err(error) && error@ == message,
        },
{
    match override_path {
        Some(path) => if classpath::is_among(existing, path) {
            Ok(Some(path.to_owned()))
        } else {
            Err(
                "the Android SDK root '".to_owned().concat(path).concat(
                    "' does not exist (--android-sdk must name an existing directory)",
                ),
            )
        },
        None => Ok(android_sdk_root(None, hints, existing)),
    }
}

/// The classpath of the last of the first `n` source sets with a path.
pub open spec fn set_for(sets: Seq<(Seq<char>, Paths)>, path: Seq<char>, n: int) -> Option<Paths>
    decreases n,
{
    if n <= 0 {
        None
    } else if sets[n - 1].0 == path {
        Some(sets[n - 1].1)
    } else {
        set_for(sets, path, n - 1)
    }
}

/// Whether a document is the object of the classpaths of the first `n` source
/// sets.
pub open spec fn is_sets_json(document: Json, sets: Seq<(Seq<char>, Paths)>, n: int) -> bool {
    document matches Json::Object(object) && is_sets_object(object, sets, n)
}

/// Whether an object holds the classpaths of the first `n` source sets.
pub open spec fn is_sets_object(
    object: TextMap<Json>,
    sets: Seq<(Seq<char>, Paths)>,
    n: int,
) -> bool {
    &&& object.wf()
    &&& forall|path: Seq<char>| #[trigger]
        object@.contains_key(path) <==> set_for(sets, path, n) is Some
    &&& forall|path: Seq<char>| #[trigger]
        object@.contains_key(path) ==> maven::is_classpath_json(
            object@[path],
            set_for(sets, path, n)->0,
        )
}

fn sets_json(sets: &Vec<(String, Classpath)>) -> (document: Json)
    ensures
        is_sets_json(document, deps::set_paths(sets@), sets@.len() as int),
{
    let ghost all = deps::set_paths(sets@);
    let mut object: TextMap<Json> = TextMap::new();
    let mut i: usize = 0;
    while i < sets.len()
        invariant
            all == deps::set_paths(sets@),
            i <= sets@.len(),
            is_sets_object(object, all, i as int),
        decreases sets.len() - i,
    {
        let ghost before = object@;
        assert(all[i as int] == (sets@[i as int].0@, sets@[i as int].1@));
        object.insert(sets[i].0.clone(), sets[i].1.to_json());
        proof {
            let key = all[i as int].0;
            assert forall|path: Seq<char>| #[trigger] object@.contains_key(path) <==> set_for(
                all,
                path,
                i + 1,
            ) is Some by {
                assert(before.contains_key(path) <==> set_for(all, path, i as int) is Some);
            }
            assert forall|path: Seq<char>| #[trigger]
                object@.contains_key(path) implies maven::is_classpath_json(
                object@[path],
                set_for(all, path, i + 1)->0,
            ) by {
                if path != key {
                    assert(before.contains_key(path));
                }
            }
        }
        i += 1;
    }
    Json::Object(object)
}

/// What the host adds to a module's model.
pub struct Additions {
    /// The classpath.
    pub classpath: Paths,
    /// The classpaths of the source sets.
    pub sets: Seq<(Seq<char>, Paths)>,
    /// The project directory.
    pub dir: Seq<char>,
    /// The path of the module in a project of several.
    pub module: Option<Seq<char>>,
    /// The Android SDK root.
    pub sdk: Option<Seq<char>>,
}

/// Whether the host gives a key of the configuration.
pub open spec fn is_added(key: Seq<char>, more: Additions) -> bool {
    ||| key == "classpath"@
    ||| key == "projectDir"@
    ||| key == "classpathSourceSets"@ && more.sets.len() > 0
    ||| key == "modulePath"@ && more.module is Some
    ||| key == "androidSdkDir"@ && more.sdk is Some
}

/// Whether an object is the configuration of a module: its model, with what
/// the host adds in place of what the model has under the same keys.
pub open spec fn is_config(
    config: TextMap<Json>,
    members: Map<Seq<char>, Json>,
    more: Additions,
) -> bool {
    &&& config.wf()
    &&& forall|key: Seq<char>| #[trigger]
        config@.contains_key(key) <==> members.contains_key(key) || is_added(key, more)
    &&& forall|key: Seq<char>|
        members.contains_key(key) && !is_added(key, more) ==> #[trigger] config@[key]
            == members[key]
    &&& maven::is_classpath_json(config@["classpath"@], more.classpath)
    &&& json::is_str(config@["projectDir"@], more.dir)
    &&& more.sets.len() > 0 ==> is_sets_json(
        config@["classpathSourceSets"@],
        more.sets,
        more.sets.len() as int,
    )
    &&& more.module matches Some(path) ==> json::is_str(config@["modulePath"@], path)
    &&& more.sdk matches Some(root) ==> json::is_str(config@["androidSdkDir"@], root)
}

proof fn lemma_keys_differ()
    ensures
        "classpath"@ != "projectDir"@,
        "classpath"@ != "classpathSourceSets"@,
        "classpath"@ != "modulePath"@,
        "classpath"@ != "androidSdkDir"@,
        "projectDir"@ != "classpathSourceSets"@,
        "projectDir"@ != "modulePath"@,
        "projectDir"@ != "androidSdkDir"@,
        "classpathSourceSets"@ != "modulePath"@,
        "classpathSourceSets"@ != "androidSdkDir"@,
        "modulePath"@ != "androidSdkDir"@,
{
    reveal_strlit("classpath");
    reveal_strlit("projectDir");
    reveal_strlit("classpathSourceSets");
    reveal_strlit("modulePath");
    reveal_strlit("androidSdkDir");
    assert("classpath"@.len() == 9);
    assert("projectDir"@.len() == 10 && "projectDir"@[0] == 'p');
    assert("classpathSourceSets"@.len() == 19);
    assert("modulePath"@.len() == 10 && "modulePath"@[0] == 'm');
    assert("androidSdkDir"@.len() == 13);
}

/// The configuration a plugin receives: the module model with the `classpath`,
/// the classpaths of the source sets (`classpathSourceSets`, where there are
/// any), the `projectDir`, in a build of several modules the `modulePath`, and
/// the Android SDK root (`androidSdkDir`, where one was found).
///
/// The classpath is resolved host-side and handed to every plugin, so a
/// compiler or runner plugin can embed the jar paths into its task actions
/// without resolving them itself. The project directory is handed over the
/// same channel, so a plugin can resolve its block's relative paths against it
/// regardless of the directory the build tool was invoked from.
pub fn plugin_config(
    members: TextMap<Json>,
    classpath: &Classpath,
    source_sets: &Vec<(String, Classpath)>,
    project_dir: &str,
    module: Option<&str>,
    sdk_root: Option<&str>,
) -> (config: TextMap<Json>)
    requires
        members.wf(),
    ensures
        is_config(
            config,
            members@,
            (Additions {
                classpath: classpath@,
                sets: deps::set_paths(source_sets@),
                dir: project_dir@,
                module: text::opt_str(module),
                sdk: text::opt_str(sdk_root),
            }),
        ),
{
    proof {
        lemma_keys_differ();
    }
    let mut config = members;
    if source_sets.len() > 0 {
        config.insert("classpathSourceSets".to_owned(), sets_json(source_sets));
    }
    config.insert("classpath".to_owned(), classpath.to_json());
    config.insert("projectDir".to_owned(), Json::Str(project_dir.to_owned()));
    if let Some(path) = module {
        config.insert("modulePath".to_owned(), Json::Str(path.to_owned()));
    }
    if let Some(root) = sdk_root {
        config.insert("androidSdkDir".to_owned(), Json::Str(root.to_owned()));
    }
    config
}

proof fn lemma_first_of(candidates: Seq<Seq<char>>, existing: Seq<Seq<char>>, from: int)
    requires
        0 <= from,
    ensures
        first_of(candidates, existing, from) matches Some(dir) ==> existing.contains(dir)
            && candidates.contains(dir),
    decreases candidates.len() - from,
{
    if from < candidates.len() && !existing.contains(candidates[from]) {
        lemma_first_of(candidates, existing, from + 1);
    }
}

/// The SDK root of a build always exists.
pub proof fn law_sdk_root_exists(
    override_path: Option<Seq<char>>,
    hints: SdkHints,
    existing: Seq<Seq<char>>,
)
    ensures
        sdk_choice(override_path, hints, existing) matches Ok(Some(root)) ==> existing.contains(
            root,
        ),
{
    lemma_first_of(sdk_places(None, hints), existing, 0);
}

/// An explicit SDK root is never replaced by another one.
pub proof fn law_override_wins(path: Seq<char>, hints: SdkHints, existing: Seq<Seq<char>>)
    ensures
        match sdk_choice(Some(path), hints, existing) {
            Ok(root) => root == Some(path),
            Err(_) => !existing.contains(path),
        },
{
}

} // verus!
