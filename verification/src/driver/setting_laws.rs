//! What a module's settings amount to: its output, the Android SDK and the
//! configuration its plugins get.

use vstd::prelude::*;
use crate::driver::config;
use crate::driver::config::{Additions, SdkHints};
use crate::json;
use crate::json::Json;
use crate::maven;
use crate::maven::Paths;
use crate::text;
use crate::text_laws;
use crate::text_map::TextMap;
use crate::value::Value;

verus! {

/// Whether a model sets a member of one of its blocks to a string.
pub open spec fn sets(model: Value, block: Seq<char>, key: Seq<char>, value: Seq<char>) -> bool {
    model matches Value::Block(map) && map@.contains_key(block) && (map@[block] matches Value::Block(
        inner,
    ) && inner@.contains_key(key) && (inner@[key] matches Value::Str(s) && s@ == value))
}

/// The output of a module is the jar that it sets, or the package where it sets
/// no jar, in the directory of the module. Without either it has none.
pub proof fn law_outputs_are_set(
    model: Value,
    dir: Seq<char>,
    jar: Seq<char>,
    apk: Seq<char>,
)
    requires
        dir.len() > 0 && dir.last() != '/',
        jar.len() > 0 && jar[0] != '/',
        apk.len() > 0 && apk[0] != '/',
    ensures
        sets(model, "jvm"@, "jarFile"@, jar) ==> config::output_of(model, dir) == Some(
            dir + seq!['/'] + jar,
        ),
        (forall|other: Seq<char>| !#[trigger] sets(model, "jvm"@, "jarFile"@, other)) && sets(
            model,
            "android"@,
            "apk"@,
            apk,
        ) ==> config::output_of(model, dir) == Some(dir + seq!['/'] + apk),
        (forall|other: Seq<char>| !#[trigger] sets(model, "jvm"@, "jarFile"@, other)) && (forall|
            other: Seq<char>,
        | !#[trigger] sets(model, "android"@, "apk"@, other)) ==> config::output_of(model, dir) is None,
{
    text_laws::law_relative_paths_are_appended(dir, jar);
    text_laws::law_relative_paths_are_appended(dir, apk);
    if let Some(s) = config::setting(model, "jvm"@, "jarFile"@) {
        assert(sets(model, "jvm"@, "jarFile"@, s));
    }
    if let Some(s) = config::setting(model, "android"@, "apk"@) {
        assert(sets(model, "android"@, "apk"@, s));
    }
}

/// Whether a configuration sets a member of one of its objects to a string.
pub open spec fn has_setting(
    document: Json,
    object: Seq<char>,
    key: Seq<char>,
    value: Seq<char>,
) -> bool {
    document matches Json::Object(map) && map@.contains_key(object)
        && (map@[object] matches Json::Object(inner) && inner@.contains_key(key) && json::is_str(
        inner@[key],
        value,
    ))
}

/// The SDK that a module names itself is looked for in its own directory, unless
/// its path is absolute; a module that names none has none.
pub proof fn law_modules_name_their_sdk(document: Json, dir: Seq<char>, sdk: Seq<char>)
    requires
        dir.len() > 0 && dir.last() != '/',
        sdk.len() > 0,
    ensures
        has_setting(document, "android"@, "sdkDir"@, sdk) ==> config::module_sdk(document, dir)
            == Some(
            if sdk[0] == '/' {
                sdk
            } else {
                dir + seq!['/'] + sdk
            },
        ),
        (forall|other: Seq<char>| !#[trigger] has_setting(document, "android"@, "sdkDir"@, other))
            ==> config::module_sdk(document, dir) is None,
{
    text_laws::law_relative_paths_are_appended(dir, sdk);
    if let Some(android) = config::json_member(document, "android"@) {
        if let Some(Json::Str(s)) = config::json_member(android, "sdkDir"@) {
            assert(has_setting(document, "android"@, "sdkDir"@, s@));
        }
    }
}

/// Both SDKs of a build are allowed, that of the build before that of the module,
/// and one that is the same only once.
pub proof fn law_both_sdks_are_allowed(root: Option<Seq<char>>, own: Option<Seq<char>>)
    ensures
        ({
            let dirs = config::sdk_dirs(root, own);
            &&& root matches Some(dir) ==> dirs.len() > 0 && dirs[0] == dir
            &&& root is None && own is Some ==> dirs == seq![own->0]
            &&& own matches Some(dir) ==> text::has_path(dirs, dir)
            &&& root is None && own is None ==> dirs.len() == 0
            &&& dirs.len() <= 2
            &&& dirs.len() == 2 ==> !text::same_path(dirs[0], dirs[1]) && dirs[1] == own->0
        }),
{
    let dirs = config::sdk_dirs(root, own);
    if let Some(dir) = own {
        assert(text::same_path(dir, dir));
        assert(text::same_path(dirs.last(), dir));
        assert(dirs.last() == dirs[dirs.len() - 1]);
    }
}

proof fn lemma_first(candidates: Seq<Seq<char>>, existing: Seq<Seq<char>>, from: int, i: int)
    requires
        0 <= from <= i < candidates.len(),
        existing.contains(candidates[i]),
        forall|h: int| from <= h < i ==> !existing.contains(#[trigger] candidates[h]),
    ensures
        config::first_of(candidates, existing, from) == Some(candidates[i]),
    decreases i - from,
{
    if from < i {
        assert(!existing.contains(candidates[from]));
        lemma_first(candidates, existing, from + 1, i);
    }
}

proof fn lemma_none(candidates: Seq<Seq<char>>, existing: Seq<Seq<char>>, from: int)
    requires
        0 <= from,
        forall|h: int|
            from <= h < candidates.len() ==> !existing.contains(#[trigger] candidates[h]),
    ensures
        config::first_of(candidates, existing, from) is None,
    decreases candidates.len() - from,
{
    if from < candidates.len() {
        assert(!existing.contains(candidates[from]));
        lemma_none(candidates, existing, from + 1);
    }
}

/// Whether a directory is known and exists.
pub open spec fn is_there(dir: Option<Seq<char>>, existing: Seq<Seq<char>>) -> bool {
    dir matches Some(path) && existing.contains(path)
}

/// Where no SDK was asked for, it is the one that `ANDROID_HOME` names, then that
/// of `ANDROID_SDK_ROOT`, then `Android/Sdk` in the home directory: the first of
/// them that exists.
pub proof fn law_sdk_is_looked_for_in_order(
    hints: SdkHints,
    existing: Seq<Seq<char>>,
    home: Option<Seq<char>>,
)
    requires
        match hints.home {
            Some(dir) => dir@.len() > 0 && dir@.last() != '/' && home == Some(
                dir@ + "/Android/Sdk"@,
            ),
            None => home is None,
        },
    ensures
        ({
            let first = text::opt_text(hints.android_home);
            let second = text::opt_text(hints.android_sdk_root);
            config::sdk_choice(None, hints, existing) == Ok::<Option<Seq<char>>, Seq<char>>(
                if is_there(first, existing) {
                    first
                } else if is_there(second, existing) {
                    second
                } else if is_there(home, existing) {
                    home
                } else {
                    None
                },
            )
        }),
{
    reveal_strlit("Android");
    reveal_strlit("Sdk");
    reveal_strlit("/Android/Sdk");
    let first = text::opt_text(hints.android_home);
    let second = text::opt_text(hints.android_sdk_root);
    if let Some(dir) = hints.home {
        text_laws::law_relative_paths_are_appended(dir@, "Android"@);
        let inner = dir@ + seq!['/'] + "Android"@;
        assert(inner.last() == "Android"@[6]);
        text_laws::law_relative_paths_are_appended(inner, "Sdk"@);
        assert(inner + seq!['/'] + "Sdk"@ =~= dir@ + "/Android/Sdk"@);
    }
    let places = config::sdk_places(None, hints);
    let a = config::at_most_one(first);
    let b = config::at_most_one(second);
    let c = config::at_most_one(home);
    assert(places =~= a + b + c);
    if is_there(first, existing) {
        assert(places[0] == first->0);
        lemma_first(places, existing, 0, 0);
    } else if is_there(second, existing) {
        assert(places[a.len() as int] == second->0);
        lemma_first(places, existing, 0, a.len() as int);
    } else if is_there(home, existing) {
        let i = (a.len() + b.len()) as int;
        assert(places[i] == home->0);
        assert forall|h: int| 0 <= h < i implies !existing.contains(#[trigger] places[h]) by {
            if h < a.len() {
                assert(places[h] == first->0);
            } else {
                assert(places[h] == second->0);
            }
        }
        lemma_first(places, existing, 0, i);
    } else {
        assert forall|h: int| 0 <= h < places.len() implies !existing.contains(
            #[trigger] places[h],
        ) by {
            if h < a.len() {
                assert(places[h] == first->0);
            } else if h < a.len() + b.len() {
                assert(places[h] == second->0);
            } else {
                assert(places[h] == home->0);
            }
        }
        lemma_none(places, existing, 0);
    }
}

/// Whether an object has a list of strings as a member.
pub open spec fn has_list(
    object: TextMap<Json>,
    key: Seq<char>,
    values: Seq<Seq<char>>,
) -> bool {
    object@.contains_key(key) && (object@[key] matches Json::Array(items) && items@.len()
        == values.len() && forall|i: int|
        0 <= i < values.len() ==> (#[trigger] items@[i] matches Json::Str(s) && s@ == values[i]))
}

/// A classpath is passed on with a list for each of its parts, under the name
/// that plugins look for it.
pub proof fn law_classpaths_are_passed_on(document: Json, paths: Paths)
    requires
        maven::is_classpath_json(document, paths),
    ensures
        document matches Json::Object(object) && {
            &&& has_list(object, "compile"@, paths.compile)
            &&& has_list(object, "runtime"@, paths.runtime)
            &&& has_list(object, "processor"@, paths.processor)
            &&& has_list(object, "api"@, paths.api)
            &&& has_list(object, "composeRuntimes"@, paths.compose_runtimes)
            &&& has_list(object, "testCompile"@, paths.test_compile)
            &&& has_list(object, "testRuntime"@, paths.test_runtime)
            &&& has_list(object, "androidTestCompile"@, paths.android_test_compile)
            &&& has_list(object, "androidTestRuntime"@, paths.android_test_runtime)
        },
{
    let object = document->Object_0;
    assert(maven::bucket_names().contains("compile"@));
    assert(maven::bucket_names().contains("runtime"@));
    assert(maven::bucket_names().contains("processor"@));
    assert(maven::bucket_names().contains("api"@));
    assert(maven::bucket_names().contains("composeRuntimes"@));
    assert(maven::bucket_names().contains("testCompile"@));
    assert(maven::bucket_names().contains("testRuntime"@));
    assert(maven::bucket_names().contains("androidTestCompile"@));
    assert(maven::bucket_names().contains("androidTestRuntime"@));
    lemma_list(object, "compile"@, paths.compile);
    lemma_list(object, "runtime"@, paths.runtime);
    lemma_list(object, "processor"@, paths.processor);
    lemma_list(object, "api"@, paths.api);
    lemma_list(object, "composeRuntimes"@, paths.compose_runtimes);
    lemma_list(object, "testCompile"@, paths.test_compile);
    lemma_list(object, "testRuntime"@, paths.test_runtime);
    lemma_list(object, "androidTestCompile"@, paths.android_test_compile);
    lemma_list(object, "androidTestRuntime"@, paths.android_test_runtime);
}

proof fn lemma_list(object: TextMap<Json>, key: Seq<char>, values: Seq<Seq<char>>)
    requires
        object@.dom().contains(key),
        json::is_str_list(object@[key], values),
    ensures
        has_list(object, key, values),
{
    let items = object@[key]->Array_0;
    assert forall|i: int| 0 <= i < values.len() implies (#[trigger] items@[i] matches Json::Str(s)
        && s@ == values[i]) by {
        assert(json::is_str(items@[i], values[i]));
    }
}

/// Whether an object has a string as a member.
pub open spec fn has_string(object: TextMap<Json>, key: Seq<char>, value: Seq<char>) -> bool {
    object@.contains_key(key) && (object@[key] matches Json::Str(s) && s@ == value)
}

/// A plugin gets the members of the model, beside them the classpath, the
/// directory of the module, its path in the project where it has one, and the
/// SDK where there is one. Nothing of the model is lost but what stands under
/// one of those names.
pub proof fn law_plugins_get_the_model_and_more(
    configuration: TextMap<Json>,
    members: Map<Seq<char>, Json>,
    more: Additions,
    key: Seq<char>,
)
    requires
        config::is_config(configuration, members, more),
    ensures
        configuration@.contains_key("classpath"@) && maven::is_classpath_json(
            configuration@["classpath"@],
            more.classpath,
        ),
        has_string(configuration, "projectDir"@, more.dir),
        more.module matches Some(path) ==> has_string(configuration, "modulePath"@, path),
        more.sdk matches Some(root) ==> has_string(configuration, "androidSdkDir"@, root),
        key != "classpath"@ && key != "projectDir"@ && key != "classpathSourceSets"@ && key
            != "modulePath"@ && key != "androidSdkDir"@ ==> (configuration@.contains_key(key)
            <==> members.contains_key(key)) && (members.contains_key(key) ==> configuration@[key]
            == members[key]),
        more.module is None && key == "modulePath"@ || more.sdk is None && key == "androidSdkDir"@
            || more.sets.len() == 0 && key == "classpathSourceSets"@ ==> (
        configuration@.contains_key(key) <==> members.contains_key(key)),
{
    lemma_names_differ();
    assert(config::is_added("classpath"@, more));
    assert(config::is_added("projectDir"@, more));
    if more.module is Some {
        assert(config::is_added("modulePath"@, more));
    }
    if more.sdk is Some {
        assert(config::is_added("androidSdkDir"@, more));
    }
    assert(configuration@.contains_key("classpath"@));
    assert(configuration@.contains_key("projectDir"@));
    assert(configuration@.contains_key(key) <==> members.contains_key(key) || config::is_added(
        key,
        more,
    ));
}

proof fn lemma_names_differ()
    ensures
        "classpath"@.len() == 9,
        "projectDir"@.len() == 10,
        "classpathSourceSets"@.len() == 19,
        "modulePath"@.len() == 10,
        "projectDir"@[0] == 'p',
        "modulePath"@[0] == 'm',
        "androidSdkDir"@.len() == 13,
{
    reveal_strlit("classpath");
    reveal_strlit("projectDir");
    reveal_strlit("classpathSourceSets");
    reveal_strlit("modulePath");
    reveal_strlit("androidSdkDir");
}

/// The classpaths of the source sets are passed on under their paths, where
/// there are any.
pub proof fn law_source_sets_are_passed_on(
    configuration: TextMap<Json>,
    members: Map<Seq<char>, Json>,
    more: Additions,
    i: int,
)
    requires
        config::is_config(configuration, members, more),
        0 <= i < more.sets.len(),
        forall|j: int| i < j < more.sets.len() ==> (#[trigger] more.sets[j]).0 != more.sets[i].0,
    ensures
        configuration@.contains_key("classpathSourceSets"@)
            && (configuration@["classpathSourceSets"@] matches Json::Object(object)
            && object@.contains_key(more.sets[i].0) && maven::is_classpath_json(
            object@[more.sets[i].0],
            more.sets[i].1,
        )),
{
    assert(config::is_added("classpathSourceSets"@, more));
    lemma_set_for(more.sets, i, more.sets.len() as int);
    let object = configuration@["classpathSourceSets"@]->Object_0;
    assert(config::is_sets_object(object, more.sets, more.sets.len() as int));
    assert(object@.contains_key(more.sets[i].0));
}

proof fn lemma_set_for(sets: Seq<(Seq<char>, Paths)>, i: int, n: int)
    requires
        0 <= i < n <= sets.len(),
        forall|j: int| i < j < n ==> (#[trigger] sets[j]).0 != sets[i].0,
    ensures
        config::set_for(sets, sets[i].0, n) == Some(sets[i].1),
    decreases n,
{
    if i < n - 1 {
        assert(sets[n - 1].0 != sets[i].0);
        lemma_set_for(sets, i, n - 1);
    }
}

} // verus!
