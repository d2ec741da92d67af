//! How coordinates and `deps {}` blocks are read.

use vstd::prelude::*;
use crate::maven;
use crate::maven::{Declared, Ga, Gav, MavenScope};
use crate::text;
use crate::text_laws;
use crate::text_map::TextMap;
use crate::value::Value;

verus! {

/// A coordinate as it is written, with the version where there is one.
pub open spec fn written(group: Seq<char>, artifact: Seq<char>, version: Seq<char>) -> Seq<char> {
    if version.len() == 0 {
        group + seq![':'] + artifact
    } else {
        group + seq![':'] + artifact + seq![':'] + version
    }
}

/// Whether a group, an artifact and a version can be written as a coordinate.
pub open spec fn can_be_written(
    group: Seq<char>,
    artifact: Seq<char>,
    version: Seq<char>,
) -> bool {
    &&& group.len() > 0
    &&& artifact.len() > 0
    &&& text_laws::lacks(group, ':')
    &&& text_laws::lacks(artifact, ':')
    &&& text_laws::lacks(version, ':')
}

/// A coordinate is read as it is written; without a version the version is left
/// open.
pub proof fn law_coordinates_are_read(
    group: Seq<char>,
    artifact: Seq<char>,
    version: Seq<char>,
)
    requires
        can_be_written(group, artifact, version),
    ensures
        maven::coordinate_of(written(group, artifact, version)) == Some(
            Gav { ga: Ga { group, artifact }, version },
        ),
{
    text_laws::law_separators_part_pieces(group, artifact, ':');
    text_laws::law_separators_part_pieces(artifact, version, ':');
    text_laws::law_separators_part_pieces(version, group, ':');
    text_laws::law_separators_part_pieces(group, artifact + seq![':'] + version, ':');
    let s = written(group, artifact, version);
    let parts = text::split_text(s, ':');
    if version.len() == 0 {
        assert(parts =~= seq![group, artifact]);
        assert(version =~= Seq::<char>::empty());
    } else {
        assert(group + seq![':'] + (artifact + seq![':'] + version) =~= s);
        assert(parts =~= seq![group, artifact, version]);
    }
    assert forall|i: int| 0 <= i < parts.len() implies (#[trigger] parts[i]).len() > 0 by {
        assert(parts[0] == group && parts[1] == artifact);
    }
}

/// Nothing else is a coordinate: what is read as one is written that way.
pub proof fn law_only_coordinates_are_read(s: Seq<char>)
    ensures
        maven::coordinate_of(s) matches Some(gav) ==> can_be_written(
            gav.ga.group,
            gav.ga.artifact,
            gav.version,
        ) && s == written(gav.ga.group, gav.ga.artifact, gav.version),
{
    if let Some(gav) = maven::coordinate_of(s) {
        let parts = text::split_text(s, ':');
        text_laws::law_pieces_lack_the_separator(s, ':', 0);
        text_laws::law_pieces_lack_the_separator(s, ':', 1);
        text::law_split_joins(s, ':');
        assert(parts[0].len() > 0 && parts[1].len() > 0);
        assert(text_laws::lacks(parts[0], ':') && text_laws::lacks(parts[1], ':'));
        let between = seq![':'];
        reveal_with_fuel(text::join_text, 3);
        if parts.len() == 2 {
            assert(parts.drop_last()[0] == parts[0]);
            assert(parts.last() == parts[1]);
        } else {
            text_laws::law_pieces_lack_the_separator(s, ':', 2);
            assert(parts[2].len() > 0);
            assert(parts.drop_last().drop_last()[0] == parts[0]);
            assert(parts.drop_last().last() == parts[1]);
            assert(parts.last() == parts[2]);
        }
    }
}

/// The name of a scope in a `deps {}` block.
pub open spec fn scope_text(scope: MavenScope) -> Seq<char> {
    match scope {
        MavenScope::Api => "api"@,
        MavenScope::Implementation => "implementation"@,
        MavenScope::RuntimeOnly => "runtimeOnly"@,
        MavenScope::CompileOnly => "compileOnly"@,
        MavenScope::Ksp => "ksp"@,
        MavenScope::TestImplementation => "testImplementation"@,
        MavenScope::AndroidTestImplementation => "androidTestImplementation"@,
    }
}

/// A name stands for the scope that has it, and for none where no scope has it.
pub proof fn law_scopes_have_names(name: Seq<char>, scope: MavenScope)
    ensures
        maven::scope_of(name) == Some(scope) <==> name == scope_text(scope),
{
    reveal_strlit("api");
    reveal_strlit("implementation");
    reveal_strlit("runtimeOnly");
    reveal_strlit("compileOnly");
    reveal_strlit("ksp");
    reveal_strlit("testImplementation");
    reveal_strlit("androidTestImplementation");
    assert("api"@.len() == 3 && "ksp"@.len() == 3 && "implementation"@.len() == 14
        && "runtimeOnly"@.len() == 11 && "compileOnly"@.len() == 11
        && "testImplementation"@.len() == 18 && "androidTestImplementation"@.len() == 25);
    assert("api"@[0] == 'a' && "ksp"@[0] == 'k' && "runtimeOnly"@[0] == 'r' && "compileOnly"@[0]
        == 'c');
}

/// Whether a value writes a coordinate.
pub open spec fn writes(value: Value, gav: Gav) -> bool {
    ||| value matches Value::Str(s) && s@ == written(gav.ga.group, gav.ga.artifact, gav.version)
        && can_be_written(gav.ga.group, gav.ga.artifact, gav.version)
    ||| value matches Value::Coordinate(s) && s@ == written(
        gav.ga.group,
        gav.ga.artifact,
        gav.version,
    ) && can_be_written(gav.ga.group, gav.ga.artifact, gav.version)
}

/// Whether an entry of a block declares a coordinate: as its value, or as one of
/// those in its list.
pub open spec fn declares(entry: (String, Value), dep: Declared) -> bool {
    &&& entry.0@ == scope_text(dep.scope)
    &&& match entry.1 {
        Value::List(items) => exists|i: int|
            0 <= i < items@.len() && writes(#[trigger] items@[i], dep.gav),
        _ => writes(entry.1, dep.gav),
    }
}

/// Whether a value can stand in a `deps {}` block: a coordinate or a reference to
/// a module.
pub open spec fn can_stand(value: Value) -> bool {
    value is ProjectRef || exists|gav: Gav| writes(value, gav)
}

/// Whether an entry can stand in a `deps {}` block: its name is that of a scope,
/// its value, or each in its list, can stand there.
pub open spec fn entry_can_stand(entry: (String, Value)) -> bool {
    &&& exists|scope: MavenScope| entry.0@ == #[trigger] scope_text(scope)
    &&& match entry.1 {
        Value::List(items) => forall|i: int|
            0 <= i < items@.len() ==> can_stand(#[trigger] items@[i]),
        _ => can_stand(entry.1),
    }
}

proof fn lemma_value(value: Value, name: Seq<char>, gav: Gav)
    ensures
        maven::coordinate_value(value, name) == Ok::<Gav, Seq<char>>(gav) <==> writes(value, gav),
        maven::coordinate_value(value, name) is Ok <==> exists|any: Gav| writes(value, any),
{
    lemma_value_read(value, name, gav);
    if maven::coordinate_value(value, name) is Ok {
        let any = maven::coordinate_value(value, name)->Ok_0;
        lemma_value_read(value, name, any);
    }
    if exists|any: Gav| writes(value, any) {
        let any = choose|any: Gav| writes(value, any);
        lemma_value_read(value, name, any);
    }
}

proof fn lemma_value_read(value: Value, name: Seq<char>, gav: Gav)
    ensures
        maven::coordinate_value(value, name) == Ok::<Gav, Seq<char>>(gav) <==> writes(value, gav),
{
    if writes(value, gav) {
        law_coordinates_are_read(gav.ga.group, gav.ga.artifact, gav.version);
    }
    match value {
        Value::Str(s) => {
            law_only_coordinates_are_read(s@);
        },
        Value::Coordinate(s) => {
            law_only_coordinates_are_read(s@);
        },
        _ => {},
    }
}

proof fn lemma_items(items: Seq<Value>, name: Seq<char>, scope: MavenScope, dep: Declared, n: int)
    requires
        0 <= n <= items.len(),
    ensures
        match maven::item_deps(items, name, scope, n) {
            Ok(list) => {
                &&& forall|i: int| 0 <= i < n ==> can_stand(#[trigger] items[i])
                &&& list.contains(dep) <==> dep.scope == scope && exists|i: int|
                    0 <= i < n && writes(#[trigger] items[i], dep.gav)
            },
            Err(_) => exists|i: int| 0 <= i < n && !can_stand(#[trigger] items[i]),
        },
    decreases n,
{
    if n > 0 {
        lemma_items(items, name, scope, dep, n - 1);
        let item = items[n - 1];
        lemma_value(item, name, dep.gav);
        match maven::item_deps(items, name, scope, n - 1) {
            Err(_) => {},
            Ok(before) => {
                if let Ok(list) = maven::item_deps(items, name, scope, n) {
                    assert(can_stand(item));
                    if item is ProjectRef {
                        assert(!writes(item, dep.gav));
                    } else {
                        let own = Declared { scope, gav: maven::coordinate_value(item, name)->Ok_0 };
                        assert(list == before.push(own));
                        lemma_pushed(before, own, dep);
                        assert(dep == own <==> dep.scope == scope && writes(item, dep.gav));
                    }
                    if dep.scope == scope && exists|i: int|
                        0 <= i < n && writes(#[trigger] items[i], dep.gav) {
                        let i = choose|i: int|
                            0 <= i < n && writes(#[trigger] items[i], dep.gav);
                        assert(i < n - 1 || i == n - 1);
                    }
                } else {
                    assert(!can_stand(items[n - 1]));
                }
            },
        }
    }
}

proof fn lemma_pushed(list: Seq<Declared>, own: Declared, dep: Declared)
    ensures
        list.push(own).contains(dep) <==> list.contains(dep) || dep == own,
{
    if list.contains(dep) {
        let i = choose|i: int| 0 <= i < list.len() && list[i] == dep;
        assert(list.push(own)[i] == dep);
    }
    assert(list.push(own)[list.len() as int] == own);
}

proof fn lemma_entry(entry: (String, Value), dep: Declared)
    ensures
        match maven::entry_deps(entry.0@, entry.1) {
            Ok(list) => entry_can_stand(entry) && (list.contains(dep) <==> declares(entry, dep)),
            Err(_) => !entry_can_stand(entry),
        },
{
    let name = entry.0@;
    law_scopes_have_names(name, dep.scope);
    if maven::scope_of(name) is Some {
        let scope = maven::scope_of(name)->0;
        law_scopes_have_names(name, scope);
        assert(name == scope_text(scope));
        match entry.1 {
            Value::List(items) => {
                lemma_items(items@, name, scope, dep, items@.len() as int);
            },
            Value::ProjectRef(_) => {
                assert(!writes(entry.1, dep.gav));
            },
            _ => {
                lemma_value(entry.1, name, dep.gav);
                if maven::coordinate_value(entry.1, name) is Ok {
                    let own = Declared {
                        scope,
                        gav: maven::coordinate_value(entry.1, name)->Ok_0,
                    };
                    assert(seq![own][0] == own);
                    assert(seq![own].contains(dep) <==> dep == own);
                }
            },
        }
    } else {
        assert forall|scope: MavenScope| name != #[trigger] scope_text(scope) by {
            law_scopes_have_names(name, scope);
        }
    }
}

proof fn lemma_block(entries: Seq<(String, Value)>, dep: Declared, n: int)
    requires
        0 <= n <= entries.len(),
    ensures
        match maven::block_deps(entries, n) {
            Ok(list) => {
                &&& forall|e: int| 0 <= e < n ==> entry_can_stand(#[trigger] entries[e])
                &&& list.contains(dep) <==> exists|e: int|
                    0 <= e < n && declares(#[trigger] entries[e], dep)
            },
            Err(_) => exists|e: int| 0 <= e < n && !entry_can_stand(#[trigger] entries[e]),
        },
    decreases n,
{
    if n > 0 {
        lemma_block(entries, dep, n - 1);
        let entry = entries[n - 1];
        lemma_entry(entry, dep);
        match maven::block_deps(entries, n - 1) {
            Err(_) => {},
            Ok(before) => {
                if let Ok(more) = maven::entry_deps(entry.0@, entry.1) {
                    let list = before + more;
                    assert(list.contains(dep) <==> before.contains(dep) || more.contains(dep)) by {
                        if before.contains(dep) {
                            let i = choose|i: int| 0 <= i < before.len() && before[i] == dep;
                            assert(list[i] == dep);
                        }
                        if more.contains(dep) {
                            let i = choose|i: int| 0 <= i < more.len() && more[i] == dep;
                            assert(list[before.len() + i] == dep);
                        }
                    }
                    assert(declares(entries[n - 1], dep) <==> more.contains(dep));
                } else {
                    assert(!entry_can_stand(entries[n - 1]));
                }
            },
        }
    }
}

/// A `deps {}` block declares the coordinates that its entries write, each in the
/// scope its entry is named after, and nothing else. It is refused exactly where
/// an entry cannot stand in it.
pub proof fn law_blocks_declare_what_they_write(map: TextMap<Value>, dep: Declared)
    ensures
        match maven::deps_of(Value::Block(map)) {
            Ok(list) => {
                &&& forall|e: int|
                    0 <= e < map.entries@.len() ==> entry_can_stand(#[trigger] map.entries@[e])
                &&& list.contains(dep) <==> exists|e: int|
                    0 <= e < map.entries@.len() && declares(#[trigger] map.entries@[e], dep)
            },
            Err(_) => exists|e: int|
                0 <= e < map.entries@.len() && !entry_can_stand(#[trigger] map.entries@[e]),
        },
{
    lemma_block(map.entries@, dep, map.entries@.len() as int);
}

/// Whether an entry of a block refers to a module: as its value, or as one of
/// those in its list.
pub open spec fn refers(entry: (String, Value), scope: MavenScope, path: Seq<char>) -> bool {
    &&& entry.0@ == scope_text(scope)
    &&& match entry.1 {
        Value::List(items) => exists|i: int|
            0 <= i < items@.len() && is_ref(#[trigger] items@[i], path),
        _ => is_ref(entry.1, path),
    }
}

/// Whether a value refers to a module.
pub open spec fn is_ref(value: Value, path: Seq<char>) -> bool {
    value matches Value::ProjectRef(s) && s@ == path
}

proof fn lemma_item_refs(items: Seq<Value>, own: MavenScope, scope: MavenScope, path: Seq<char>, n: int)
    requires
        0 <= n <= items.len(),
    ensures
        maven::item_refs(items, own, n).contains((scope, path)) <==> scope == own && exists|i: int|
            0 <= i < n && is_ref(#[trigger] items[i], path),
    decreases n,
{
    if n > 0 {
        lemma_item_refs(items, own, scope, path, n - 1);
        let before = maven::item_refs(items, own, n - 1);
        let after = maven::item_refs(items, own, n);
        if before.contains((scope, path)) {
            let i = choose|i: int| 0 <= i < before.len() && before[i] == (scope, path);
            assert(after[i] == (scope, path));
        }
        if is_ref(items[n - 1], path) && scope == own {
            assert(after[before.len() as int] == (scope, path));
        }
        if after.contains((scope, path)) && !before.contains((scope, path)) {
            let i = choose|i: int| 0 <= i < after.len() && after[i] == (scope, path);
            if i < before.len() {
                assert(before[i] == (scope, path));
            }
            assert(is_ref(items[n - 1], path));
        }
    }
}

proof fn lemma_block_refs(entries: Seq<(String, Value)>, scope: MavenScope, path: Seq<char>, n: int)
    requires
        0 <= n <= entries.len(),
    ensures
        maven::block_refs(entries, n).contains((scope, path)) <==> exists|e: int|
            0 <= e < n && refers(#[trigger] entries[e], scope, path),
    decreases n,
{
    if n > 0 {
        lemma_block_refs(entries, scope, path, n - 1);
        let entry = entries[n - 1];
        let before = maven::block_refs(entries, n - 1);
        let more = maven::entry_refs(entry.0@, entry.1);
        let all = before + more;
        law_scopes_have_names(entry.0@, scope);
        if maven::scope_of(entry.0@) is Some {
            law_scopes_have_names(entry.0@, maven::scope_of(entry.0@)->0);
            if let Value::List(items) = entry.1 {
                lemma_item_refs(
                    items@,
                    maven::scope_of(entry.0@)->0,
                    scope,
                    path,
                    items@.len() as int,
                );
            }
        }
        if entry.1 is ProjectRef && more.len() > 0 {
            assert(more[0] == more[0]);
        }
        assert(more.contains((scope, path)) <==> refers(entries[n - 1], scope, path)) by {
            if refers(entry, scope, path) && entry.1 is ProjectRef {
                assert(more[0] == (scope, path));
            }
        }
        if before.contains((scope, path)) {
            let i = choose|i: int| 0 <= i < before.len() && before[i] == (scope, path);
            assert(all[i] == (scope, path));
        }
        if more.contains((scope, path)) {
            let i = choose|i: int| 0 <= i < more.len() && more[i] == (scope, path);
            assert(all[before.len() + i] == (scope, path));
        }
    }
}

/// A `deps {}` block refers to the modules that its entries name, each in the
/// scope its entry is named after, and to no other.
pub proof fn law_blocks_refer_to_what_they_name(
    map: TextMap<Value>,
    scope: MavenScope,
    path: Seq<char>,
)
    ensures
        maven::project_refs(Value::Block(map)).contains((scope, path)) <==> exists|e: int|
            0 <= e < map.entries@.len() && refers(#[trigger] map.entries@[e], scope, path),
{
    lemma_block_refs(map.entries@, scope, path, map.entries@.len() as int);
}

/// A list of coordinates is read in order, each in the scope of the list.
pub proof fn law_lists_are_read_in_order(
    items: Seq<Value>,
    gavs: Seq<Gav>,
    name: Seq<char>,
    scope: MavenScope,
    n: int,
)
    requires
        0 <= n <= items.len(),
        gavs.len() == items.len(),
        forall|i: int| 0 <= i < items.len() ==> writes(#[trigger] items[i], gavs[i]),
    ensures
        maven::item_deps(items, name, scope, n) == Ok::<Seq<Declared>, Seq<char>>(
            Seq::new(n as nat, |i: int| Declared { scope, gav: gavs[i] }),
        ),
    decreases n,
{
    let all = Seq::new(n as nat, |i: int| Declared { scope, gav: gavs[i] });
    if n > 0 {
        law_lists_are_read_in_order(items, gavs, name, scope, n - 1);
        assert(writes(items[n - 1], gavs[n - 1]));
        lemma_value_read(items[n - 1], name, gavs[n - 1]);
        assert(all =~= Seq::new((n - 1) as nat, |i: int| Declared { scope, gav: gavs[i] }).push(
            Declared { scope, gav: gavs[n - 1] },
        ));
    } else {
        assert(all =~= Seq::<Declared>::empty());
    }
}

/// The entries of a `deps {}` block are read in order.
pub proof fn law_entries_are_read_in_order(
    entries: Seq<(String, Value)>,
    deps: Seq<Declared>,
    n: int,
)
    requires
        0 <= n <= entries.len(),
        deps.len() == entries.len(),
        forall|e: int|
            0 <= e < entries.len() ==> (#[trigger] entries[e]).0@ == scope_text(deps[e].scope)
                && writes(entries[e].1, deps[e].gav),
    ensures
        maven::block_deps(entries, n) == Ok::<Seq<Declared>, Seq<char>>(deps.take(n)),
    decreases n,
{
    if n > 0 {
        law_entries_are_read_in_order(entries, deps, n - 1);
        let entry = entries[n - 1];
        let dep = deps[n - 1];
        assert(entries[n - 1].0@ == scope_text(dep.scope));
        law_scopes_have_names(entry.0@, dep.scope);
        lemma_value_read(entry.1, entry.0@, dep.gav);
        assert(deps.take(n) =~= deps.take(n - 1) + seq![dep]);
    } else {
        assert(deps.take(0) =~= Seq::<Declared>::empty());
    }
}

/// The references of a list are found in order.
pub proof fn law_references_of_lists_are_in_order(
    items: Seq<Value>,
    paths: Seq<Seq<char>>,
    scope: MavenScope,
    n: int,
)
    requires
        0 <= n <= items.len(),
        paths.len() == items.len(),
        forall|i: int| 0 <= i < items.len() ==> is_ref(#[trigger] items[i], paths[i]),
    ensures
        maven::item_refs(items, scope, n) == Seq::new(n as nat, |i: int| (scope, paths[i])),
    decreases n,
{
    let all = Seq::new(n as nat, |i: int| (scope, paths[i]));
    if n > 0 {
        law_references_of_lists_are_in_order(items, paths, scope, n - 1);
        assert(is_ref(items[n - 1], paths[n - 1]));
        assert(all =~= Seq::new((n - 1) as nat, |i: int| (scope, paths[i])).push(
            (scope, paths[n - 1]),
        ));
    } else {
        assert(all =~= Seq::<(MavenScope, Seq<char>)>::empty());
    }
}

/// The references of a `deps {}` block are found in the order of its entries.
pub proof fn law_references_of_entries_are_in_order(
    entries: Seq<(String, Value)>,
    refs: Seq<(MavenScope, Seq<char>)>,
    n: int,
)
    requires
        0 <= n <= entries.len(),
        refs.len() == entries.len(),
        forall|e: int|
            0 <= e < entries.len() ==> (#[trigger] entries[e]).0@ == scope_text(refs[e].0)
                && is_ref(entries[e].1, refs[e].1),
    ensures
        maven::block_refs(entries, n) == refs.take(n),
    decreases n,
{
    if n > 0 {
        law_references_of_entries_are_in_order(entries, refs, n - 1);
        let entry = entries[n - 1];
        assert(entries[n - 1].0@ == scope_text(refs[n - 1].0));
        law_scopes_have_names(entry.0@, refs[n - 1].0);
        assert(maven::entry_refs(entry.0@, entry.1) =~= seq![refs[n - 1]]);
        assert(refs.take(n) =~= refs.take(n - 1) + seq![refs[n - 1]]);
    } else {
        assert(refs.take(0) =~= Seq::<(MavenScope, Seq<char>)>::empty());
    }
}

} // verus!
