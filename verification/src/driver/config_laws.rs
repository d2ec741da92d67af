//! The text of a configuration is determined by the module's model and by what
//! the host adds to it.

use vstd::prelude::*;
use crate::driver::config;
use crate::driver::config::Additions;
use crate::driver::course;
use crate::driver::course::{BuildRequest, BuildState};
use crate::driver::model;
use crate::json;
use crate::json::Json;
use crate::maven;
use crate::maven::Paths;
use crate::text;
use crate::text_map;
use crate::text_map::TextMap;
use crate::value::Value;

verus! {

proof fn lemma_items(a: Seq<Json>, b: Seq<Json>, from: int)
    requires
        0 <= from,
        a.len() == b.len(),
        forall|i: int|
            0 <= i < a.len() ==> json::json_text(#[trigger] a[i]) == json::json_text(b[i]),
    ensures
        json::items_text(a, from) == json::items_text(b, from),
    decreases a.len() - from,
{
    if from < a.len() {
        assert(json::json_text(a[from]) == json::json_text(b[from]));
        lemma_items(a, b, from + 1);
    }
}

proof fn lemma_members(a: Seq<(String, Json)>, b: Seq<(String, Json)>, from: int)
    requires
        0 <= from,
        a.len() == b.len(),
        forall|i: int|
            0 <= i < a.len() ==> (#[trigger] a[i]).0@ == b[i].0@ && json::json_text(a[i].1)
                == json::json_text(b[i].1),
    ensures
        json::members_text(a, from) == json::members_text(b, from),
    decreases a.len() - from,
{
    if from < a.len() {
        assert(a[from].0@ == b[from].0@);
        lemma_members(a, b, from + 1);
    }
}

/// Two documents of one value have the same text.
proof fn lemma_same_json(a: Json, b: Json, value: Value)
    requires
        model::is_json(a, value),
        model::is_json(b, value),
    ensures
        json::json_text(a) == json::json_text(b),
    decreases value,
{
    match value {
        Value::List(items) => {
            let x = a->Array_0@;
            let y = b->Array_0@;
            assert forall|i: int| 0 <= i < x.len() implies json::json_text(#[trigger] x[i])
                == json::json_text(y[i]) by {
                assert(model::is_json(x[i], items@[i]) && model::is_json(y[i], items@[i]));
                lemma_same_json(x[i], y[i], items@[i]);
            }
            lemma_items(x, y, 0);
        },
        Value::Properties(map) => {
            let x = a->Object_0.entries@;
            let y = b->Object_0.entries@;
            assert forall|i: int| 0 <= i < x.len() implies (#[trigger] x[i]).0@ == y[i].0@
                && json::json_text(x[i].1) == json::json_text(y[i].1) by {
                assert(y[i].0@ == map.entries@[i].0@);
            }
            lemma_members(x, y, 0);
        },
        Value::Block(map) => {
            let x = a->Object_0.entries@;
            let y = b->Object_0.entries@;
            assert forall|i: int| 0 <= i < x.len() implies (#[trigger] x[i]).0@ == y[i].0@
                && json::json_text(x[i].1) == json::json_text(y[i].1) by {
                assert(y[i].0@ == map.entries@[i].0@);
                lemma_same_json(x[i].1, y[i].1, map.entries@[i].1);
            }
            lemma_members(x, y, 0);
        },
        Value::ProjectRef(path) => {
            let x = a->Object_0.entries@;
            let y = b->Object_0.entries@;
            assert forall|i: int| 0 <= i < x.len() implies (#[trigger] x[i]).0@ == y[i].0@
                && json::json_text(x[i].1) == json::json_text(y[i].1) by {
                assert(x[0].0@ == y[0].0@);
            }
            lemma_members(x, y, 0);
        },
        _ => {},
    }
}

/// Whether two documents under a key have the same text.
spec fn agree(a: Map<Seq<char>, Json>, b: Map<Seq<char>, Json>, key: Seq<char>) -> bool {
    json::json_text(a[key]) == json::json_text(b[key])
}

proof fn lemma_same_objects(a: TextMap<Json>, b: TextMap<Json>)
    requires
        a.wf(),
        b.wf(),
        a@.dom() == b@.dom(),
        forall|key: Seq<char>| a@.contains_key(key) ==> #[trigger] agree(a@, b@, key),
    ensures
        json::object_text(a) == json::object_text(b),
{
    text_map::law_key_order_is_canonical(a, b);
    assert forall|i: int| 0 <= i < a.entries@.len() implies (#[trigger] a.entries@[i]).0@
        == b.entries@[i].0@ && json::json_text(a.entries@[i].1) == json::json_text(
        b.entries@[i].1,
    ) by {
        assert(agree(a@, b@, a.entries@[i].0@));
    }
    lemma_members(a.entries@, b.entries@, 0);
}

proof fn lemma_same_lists(a: Json, b: Json, list: Seq<Seq<char>>)
    requires
        json::is_str_list(a, list),
        json::is_str_list(b, list),
    ensures
        json::json_text(a) == json::json_text(b),
{
    let x = a->Array_0@;
    let y = b->Array_0@;
    assert forall|i: int| 0 <= i < x.len() implies json::json_text(#[trigger] x[i])
        == json::json_text(y[i]) by {
        assert(json::is_str(x[i], list[i]) && json::is_str(y[i], list[i]));
    }
    lemma_items(x, y, 0);
}

proof fn lemma_same_classpaths(a: Json, b: Json, paths: Paths)
    requires
        maven::is_classpath_json(a, paths),
        maven::is_classpath_json(b, paths),
    ensures
        json::json_text(a) == json::json_text(b),
{
    let x = a->Object_0;
    let y = b->Object_0;
    lemma_same_lists(x@["compile"@], y@["compile"@], paths.compile);
    lemma_same_lists(x@["runtime"@], y@["runtime"@], paths.runtime);
    lemma_same_lists(x@["processor"@], y@["processor"@], paths.processor);
    lemma_same_lists(x@["api"@], y@["api"@], paths.api);
    lemma_same_lists(x@["composeRuntimes"@], y@["composeRuntimes"@], paths.compose_runtimes);
    lemma_same_lists(x@["testCompile"@], y@["testCompile"@], paths.test_compile);
    lemma_same_lists(x@["testRuntime"@], y@["testRuntime"@], paths.test_runtime);
    lemma_same_lists(
        x@["androidTestCompile"@],
        y@["androidTestCompile"@],
        paths.android_test_compile,
    );
    lemma_same_lists(
        x@["androidTestRuntime"@],
        y@["androidTestRuntime"@],
        paths.android_test_runtime,
    );
    assert forall|key: Seq<char>| x@.contains_key(key) implies #[trigger] agree(x@, y@, key) by {
        assert(x@.dom().contains(key));
        assert(maven::bucket_names().contains(key));
    }
    lemma_same_objects(x, y);
}

proof fn lemma_same_sets(a: Json, b: Json, sets: Seq<(Seq<char>, Paths)>, n: int)
    requires
        config::is_sets_json(a, sets, n),
        config::is_sets_json(b, sets, n),
    ensures
        json::json_text(a) == json::json_text(b),
{
    let x = a->Object_0;
    let y = b->Object_0;
    assert forall|key: Seq<char>| #[trigger] x@.contains_key(key) == y@.contains_key(key) by {
        assert(x@.contains_key(key) <==> config::set_for(sets, key, n) is Some);
        assert(y@.contains_key(key) <==> config::set_for(sets, key, n) is Some);
    }
    assert(x@.dom() =~= y@.dom());
    assert forall|key: Seq<char>| x@.contains_key(key) implies #[trigger] agree(x@, y@, key) by {
        assert(y@.contains_key(key));
        lemma_same_classpaths(x@[key], y@[key], config::set_for(sets, key, n)->0);
    }
    lemma_same_objects(x, y);
}

proof fn lemma_same_strs(a: Json, b: Json, s: Seq<char>)
    requires
        json::is_str(a, s),
        json::is_str(b, s),
    ensures
        json::json_text(a) == json::json_text(b),
{
}

/// The configuration of a module is determined, as a text, by its model and by
/// what the host adds: plugins of the module all get the same text, and so does
/// whoever configures a module with the same model and additions.
pub proof fn law_configuration_is_determined(
    a: TextMap<Json>,
    b: TextMap<Json>,
    value: Value,
    more: Additions,
)
    requires
        value matches Value::Block(map) && map.wf(),
        course::configures(a, value, more),
        course::configures(b, value, more),
    ensures
        json::object_text(a) == json::object_text(b),
{
    let x = choose|members: TextMap<Json>| #[trigger]
        model::is_json(Json::Object(members), value) && config::is_config(a, members@, more);
    let y = choose|members: TextMap<Json>| #[trigger]
        model::is_json(Json::Object(members), value) && config::is_config(b, members@, more);
    let map = value->Block_0;
    lemma_like_model(x, map);
    lemma_like_model(y, map);
    assert(x@.dom() =~= y@.dom());
    assert forall|key: Seq<char>| #[trigger] a@.contains_key(key) == b@.contains_key(key) by {
        assert(x@.dom().contains(key) == y@.dom().contains(key));
    }
    assert(a@.dom() =~= b@.dom());
    assert forall|key: Seq<char>| a@.contains_key(key) implies #[trigger] agree(a@, b@, key) by {
        if key == "classpath"@ {
            lemma_same_classpaths(a@[key], b@[key], more.classpath);
        } else if key == "projectDir"@ {
            lemma_same_strs(a@[key], b@[key], more.dir);
        } else if key == "classpathSourceSets"@ && more.sets.len() > 0 {
            lemma_same_sets(a@[key], b@[key], more.sets, more.sets.len() as int);
        } else if key == "modulePath"@ && more.module is Some {
            lemma_same_strs(a@[key], b@[key], more.module->0);
        } else if key == "androidSdkDir"@ && more.sdk is Some {
            lemma_same_strs(a@[key], b@[key], more.sdk->0);
        } else {
            assert(!config::is_added(key, more));
            assert(x@.contains_key(key) && y@.contains_key(key));
            assert(a@[key] == x@[key]);
            assert(b@[key] == y@[key]);
            text_map::law_key_order_is_canonical(x, y);
            lemma_entry(x, key);
            let i = choose|i: int|
                0 <= i < x.entries@.len() && (#[trigger] x.entries@[i]).0@ == key;
            lemma_same_json(x.entries@[i].1, y.entries@[i].1, map.entries@[i].1);
        }
    }
    lemma_same_objects(a, b);
}

proof fn lemma_entry(map: TextMap<Json>, key: Seq<char>)
    requires
        map@.contains_key(key),
    ensures
        exists|i: int| 0 <= i < map.entries@.len() && (#[trigger] map.entries@[i]).0@ == key,
{
    text_map::lemma_has_key(map.entries@, key);
}

/// The members of a model's document have the keys of the model, in its order.
proof fn lemma_like_model(members: TextMap<Json>, map: TextMap<Value>)
    requires
        map.wf(),
        model::is_json(Json::Object(members), Value::Block(map)),
    ensures
        members.wf(),
        members@.dom() =~= map@.dom(),
        members.entries@.len() == map.entries@.len(),
        forall|i: int|
            0 <= i < map.entries@.len() ==> model::is_json(
                (#[trigger] members.entries@[i]).1,
                map.entries@[i].1,
            ),
{
    assert forall|i: int, j: int| 0 <= i < j < members.entries@.len() implies text::compare_text(
        (#[trigger] members.entries@[i]).0@,
        (#[trigger] members.entries@[j]).0@,
    ) == text::Relation::Less by {
        assert(map.entries@[i].0@ == members.entries@[i].0@);
        assert(map.entries@[j].0@ == members.entries@[j].0@);
    }
    assert forall|key: Seq<char>| #[trigger] members@.dom().contains(key) == map@.dom().contains(
        key,
    ) by {
        text_map::lemma_has_key(members.entries@, key);
        text_map::lemma_has_key(map.entries@, key);
        if members@.contains_key(key) {
            let i = choose|i: int|
                0 <= i < members.entries@.len() && (#[trigger] members.entries@[i]).0@ == key;
            assert(map.entries@[i].0@ == key);
        }
        if map@.contains_key(key) {
            let i = choose|i: int|
                0 <= i < map.entries@.len() && (#[trigger] map.entries@[i]).0@ == key;
            assert(members.entries@[i].0@ == key);
        }
    }
}

/// Whether two documents are both strings, the same, or both none.
spec fn same_str(a: Json, b: Json) -> bool {
    match a {
        Json::Str(x) => b matches Json::Str(y) && x@ == y@,
        _ => !(b is Str),
    }
}

/// Whether two members are under the same key and stand at position `i`.
spec fn are_at(
    a: Seq<(String, Json)>,
    b: Seq<(String, Json)>,
    key: Seq<char>,
    i: int,
) -> bool {
    &&& 0 <= i < a.len()
    &&& a[i].1 == text_map::map_of(a)[key]
    &&& b[i].1 == text_map::map_of(b)[key]
}

proof fn lemma_found(a: Seq<(String, Json)>, b: Seq<(String, Json)>, key: Seq<char>)
    requires
        a.len() == b.len(),
        forall|i: int| 0 <= i < a.len() ==> (#[trigger] a[i]).0@ == b[i].0@,
    ensures
        text_map::map_of(a).contains_key(key) == text_map::map_of(b).contains_key(key),
        text_map::map_of(a).contains_key(key) ==> exists|i: int| #[trigger] are_at(a, b, key, i),
    decreases a.len(),
{
    if a.len() > 0 {
        let x = a.drop_first();
        let y = b.drop_first();
        assert forall|i: int| 0 <= i < x.len() implies (#[trigger] x[i]).0@ == y[i].0@ by {
            assert(a[i + 1].0@ == b[i + 1].0@);
        }
        lemma_found(x, y, key);
        assert(a[0].0@ == b[0].0@);
        if a[0].0@ == key {
            assert(are_at(a, b, key, 0));
        } else if text_map::map_of(a).contains_key(key) {
            let i = choose|i: int| #[trigger] are_at(x, y, key, i);
            assert(are_at(a, b, key, i + 1));
        }
    }
}

proof fn lemma_same_member(a: Json, b: Json, value: Value, key: Seq<char>)
    requires
        model::is_json(a, value),
        model::is_json(b, value),
    ensures
        match config::json_member(a, key) {
            Some(x) => config::json_member(b, key) matches Some(y) && same_str(x, y),
            None => config::json_member(b, key) is None,
        },
{
    if a is Object {
        let x = a->Object_0.entries@;
        let y = b->Object_0.entries@;
        assert forall|i: int| 0 <= i < x.len() implies (#[trigger] x[i]).0@ == y[i].0@ by {
            match value {
                Value::Properties(map) => {
                    assert(y[i].0@ == map.entries@[i].0@);
                },
                Value::Block(map) => {
                    assert(y[i].0@ == map.entries@[i].0@);
                },
                _ => {
                    assert(x[0].0@ == y[0].0@);
                },
            }
        }
        lemma_found(x, y, key);
        if config::json_member(a, key) is Some {
            let i = choose|i: int| #[trigger] are_at(x, y, key, i);
            match value {
                Value::Properties(map) => {
                    assert(json::is_str(x[i].1, map.entries@[i].1@));
                    assert(json::is_str(y[i].1, map.entries@[i].1@));
                },
                Value::Block(map) => {
                    assert(model::is_json(x[i].1, map.entries@[i].1));
                    assert(model::is_json(y[i].1, map.entries@[i].1));
                    lemma_same_scalar(x[i].1, y[i].1, map.entries@[i].1);
                },
                _ => {
                    assert(same_str(x[0].1, y[0].1));
                },
            }
        }
    }
}

proof fn lemma_same_scalar(a: Json, b: Json, value: Value)
    requires
        model::is_json(a, value),
        model::is_json(b, value),
    ensures
        same_str(a, b),
{
}

/// The directory `android.sdkDir` of a configuration is determined by the
/// module's model.
pub proof fn law_module_sdk_is_determined(
    a: TextMap<Json>,
    b: TextMap<Json>,
    value: Value,
    more: Additions,
)
    requires
        value matches Value::Block(map) && map.wf(),
        course::configures(a, value, more),
        course::configures(b, value, more),
    ensures
        config::module_sdk(Json::Object(a), more.dir) == config::module_sdk(
            Json::Object(b),
            more.dir,
        ),
{
    let x = choose|members: TextMap<Json>| #[trigger]
        model::is_json(Json::Object(members), value) && config::is_config(a, members@, more);
    let y = choose|members: TextMap<Json>| #[trigger]
        model::is_json(Json::Object(members), value) && config::is_config(b, members@, more);
    let map = value->Block_0;
    let key = "android"@;
    reveal_strlit("android");
    reveal_strlit("classpath");
    reveal_strlit("projectDir");
    reveal_strlit("classpathSourceSets");
    reveal_strlit("modulePath");
    reveal_strlit("androidSdkDir");
    assert("classpath"@.len() != 7 && "projectDir"@.len() != 7 && "classpathSourceSets"@.len() != 7
        && "modulePath"@.len() != 7 && "androidSdkDir"@.len() != 7);
    assert(key.len() == 7);
    assert(!config::is_added(key, more));
    lemma_like_model(x, map);
    lemma_like_model(y, map);
    assert(x@.dom() =~= y@.dom());
    assert(x@.dom().contains(key) == y@.dom().contains(key));
    if x@.contains_key(key) {
        text_map::law_key_order_is_canonical(x, y);
        lemma_entry(x, key);
        let i = choose|i: int| 0 <= i < x.entries@.len() && (#[trigger] x.entries@[i]).0@ == key;
        lemma_same_member(x.entries@[i].1, y.entries@[i].1, map.entries@[i].1, "sdkDir"@);
    }
}

/// The digest that is recorded of a module's configuration is determined by its
/// model and by what the host adds.
pub proof fn law_config_hash_is_determined(
    one: Seq<char>,
    other: Seq<char>,
    request: BuildRequest,
    state: BuildState,
    m: int,
)
    requires
        state.evaluations@[m]->model matches Value::Block(map) && map.wf(),
        course::is_config_hash(one, request, state, m),
        course::is_config_hash(other, request, state, m),
    ensures
        one == other,
{
    let value = state.evaluations@[m]->model;
    let more = course::additions_at(request, state, m);
    let a = choose|config: TextMap<Json>| #[trigger]
        course::configures(config, value, more) && one == course::digest_text(
            json::object_text(config),
        );
    let b = choose|config: TextMap<Json>| #[trigger]
        course::configures(config, value, more) && other == course::digest_text(
            json::object_text(config),
        );
    law_configuration_is_determined(a, b, value, more);
}

} // verus!
