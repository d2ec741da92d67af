//! Which dependencies a module model declares, and for which of its source sets.

use vstd::prelude::*;
use crate::driver::deps;
use crate::driver::deps::SetsState;
use crate::maven;
use crate::maven::{Declared, Ga, Gav, MavenScope, Paths};
use crate::maven::declared_laws;
use crate::text_laws;
use crate::text_map::TextMap;
use crate::value::Value;

verus! {

/// A library that is compiled against and run with.
pub open spec fn library(group: Seq<char>, artifact: Seq<char>, version: Seq<char>) -> Declared {
    Declared {
        scope: MavenScope::Implementation,
        gav: Gav { ga: Ga { group, artifact }, version },
    }
}

/// What Compose brings at a version: its BOM, and the libraries whose versions
/// the BOM gives.
pub open spec fn compose_libraries(version: Seq<char>) -> Seq<Declared> {
    seq![
        library("androidx.compose"@, "compose-bom"@, version),
        library("androidx.compose.runtime"@, "runtime"@, Seq::empty()),
        library("androidx.compose.ui"@, "ui"@, Seq::empty()),
        library("androidx.compose.material3"@, "material3"@, Seq::empty()),
    ]
}

/// Whether Compose is switched on in a model, at a version: the one the model
/// names as a string or, where it names it otherwise, the one it is shown as,
/// and the default where it names none.
pub open spec fn has_compose(model: Value, shown: Option<Seq<char>>, version: Seq<char>) -> bool {
    &&& deps::member(model, "android"@) matches Some(android)
    &&& deps::member(android, "compose"@) == Some(Value::Bool(true))
    &&& match deps::member(android, "composeVersion"@) {
        None => version == "2026.08.00"@,
        Some(Value::Str(s)) => version == s@,
        Some(_) => shown == Some(version),
    }
}

/// With Compose on, what it brings is declared behind what the model declares
/// itself; without it, the model declares what its block does.
pub proof fn law_compose_is_declared_behind(
    model: Value,
    shown: Option<Seq<char>>,
    version: Seq<char>,
    own: Seq<Declared>,
)
    requires
        match deps::member(model, "deps"@) {
            Some(block) => maven::deps_of(block) == Ok::<Seq<Declared>, Seq<char>>(own),
            None => own.len() == 0,
        },
        version.len() > 0,
        text_laws::lacks(version, ':'),
    ensures
        has_compose(model, shown, version) ==> deps::model_deps_of(model, shown) == Ok::<
            Seq<Declared>,
            Seq<char>,
        >(own + compose_libraries(version)),
        deps::member(model, "deps"@) is Some && !(deps::member(model, "android"@) matches Some(
            android,
        ) && deps::member(android, "compose"@) == Some(Value::Bool(true)))
            ==> deps::model_deps_of(model, shown) == Ok::<Seq<Declared>, Seq<char>>(own),
{
    reveal_strlit("androidx.compose");
    reveal_strlit("compose-bom");
    reveal_strlit("androidx.compose:compose-bom:");
    let group = "androidx.compose"@;
    let artifact = "compose-bom"@;
    assert(text_laws::lacks(group, ':'));
    assert(text_laws::lacks(artifact, ':'));
    declared_laws::law_coordinates_are_read(group, artifact, version);
    assert("androidx.compose:compose-bom:"@ + version =~= declared_laws::written(
        group,
        artifact,
        version,
    ));
    if has_compose(model, shown, version) {
        let bom = Gav { ga: Ga { group, artifact }, version };
        assert(deps::with_managed(bom) =~= compose_libraries(version));
        if deps::member(model, "deps"@) is None {
            assert(own =~= Seq::<Declared>::empty());
        }
    }
}

/// A model that declares nothing and does not use Compose has no dependencies to
/// resolve; one that declares a block or uses Compose has.
pub proof fn law_dependencies_are_wanted_where_declared(
    model: Value,
    shown: Option<Seq<char>>,
    version: Seq<char>,
)
    requires
        version.len() > 0,
        text_laws::lacks(version, ':'),
    ensures
        deps::member(model, "deps"@) is Some ==> deps::wants_deps(model, shown) == Ok::<
            bool,
            Seq<char>,
        >(true),
        has_compose(model, shown, version) ==> deps::wants_deps(model, shown) == Ok::<
            bool,
            Seq<char>,
        >(true),
        deps::member(model, "deps"@) is None && !(deps::member(model, "android"@) matches Some(
            android,
        ) && deps::member(android, "compose"@) == Some(Value::Bool(true))) ==> deps::wants_deps(
            model,
            shown,
        ) == Ok::<bool, Seq<char>>(false),
{
    reveal_strlit("androidx.compose");
    reveal_strlit("compose-bom");
    reveal_strlit("androidx.compose:compose-bom:");
    let group = "androidx.compose"@;
    let artifact = "compose-bom"@;
    assert(text_laws::lacks(group, ':'));
    assert(text_laws::lacks(artifact, ':'));
    declared_laws::law_coordinates_are_read(group, artifact, version);
    assert("androidx.compose:compose-bom:"@ + version =~= declared_laws::written(
        group,
        artifact,
        version,
    ));
}

/// Whether a list of names leads from a block to a value inside it.
pub open spec fn leads(value: Value, names: Seq<Seq<char>>, target: Value) -> bool
    decreases names.len(),
{
    if names.len() == 0 {
        value == target
    } else {
        value matches Value::Block(map) && exists|e: int|
            0 <= e < map.entries@.len() && #[trigger] map.entries@[e].0@ == names[0] && leads(
                map.entries@[e].1,
                names.drop_first(),
                target,
            )
    }
}

/// Names with dots between them, behind another.
pub open spec fn dotted(first: Seq<char>, names: Seq<Seq<char>>) -> Seq<char>
    decreases names.len(),
{
    if names.len() == 0 {
        first
    } else {
        dotted(first + seq!['.'] + names[0], names.drop_first())
    }
}

/// Whether none of the names is that of a `deps {}` block.
pub open spec fn none_is_deps(names: Seq<Seq<char>>) -> bool {
    forall|i: int| 0 <= i < names.len() ==> #[trigger] names[i] != "deps"@
}

proof fn lemma_found(path: Seq<char>, value: Value, names: Seq<Seq<char>>, target: Value, block: Value)
    requires
        leads(value, names, target),
        none_is_deps(names),
        deps::member(target, "deps"@) == Some(block),
        deps::nested_deps(path, value) is Ok,
    ensures
        block is Block,
        deps::nested_deps(path, value)->Ok_0.contains((dotted(path, names), block)),
    decreases names.len(),
{
    reveal_strlit(".");
    assert("."@ =~= seq!['.']);
    let list = deps::nested_deps(path, value)->Ok_0;
    let map = value->Block_0;
    let own = deps::own_deps(path, value)->Ok_0;
    let more = deps::child_deps(path, map.entries@, map.entries@.len() as int)->Ok_0;
    if names.len() == 0 {
        assert(own[0] == (path, block));
        assert(list[0] == (path, block));
    } else {
        let entries = map.entries@;
        let e = choose|e: int|
            0 <= e < entries.len() && #[trigger] entries[e].0@ == names[0] && leads(
                entries[e].1,
                names.drop_first(),
                target,
            );
        let rest = names.drop_first();
        assert forall|i: int| 0 <= i < rest.len() implies #[trigger] rest[i] != "deps"@ by {
            assert(rest[i] == names[i + 1]);
        }
        assert(names[0] != "deps"@);
        assert(entries[e].1 is Block) by {
            if rest.len() == 0 {
                assert(entries[e].1 == target);
            }
        }
        lemma_children(path, entries, entries.len() as int, e);
        let inner = path + seq!['.'] + names[0];
        lemma_found(inner, entries[e].1, rest, target, block);
        let found = deps::nested_deps(inner, entries[e].1)->Ok_0;
        let i = choose|i: int| 0 <= i < found.len() && found[i] == (dotted(inner, rest), block);
        assert(more.contains(found[i]));
        let k = choose|k: int| 0 <= k < more.len() && more[k] == found[i];
        assert(list[own.len() + k] == found[i]);
    }
}

proof fn lemma_children(path: Seq<char>, entries: Seq<(String, Value)>, n: int, e: int)
    requires
        0 <= e < n <= entries.len(),
        deps::child_deps(path, entries, n) is Ok,
        entries[e].0@ != "deps"@,
        entries[e].1 is Block,
    ensures
        ({
            let inner = deps::nested_deps(path + "."@ + entries[e].0@, entries[e].1);
            inner is Ok && forall|i: int|
                0 <= i < inner->Ok_0.len() ==> deps::child_deps(path, entries, n)->Ok_0.contains(
                    #[trigger] inner->Ok_0[i],
                )
        }),
    decreases n,
{
    let inner = deps::nested_deps(path + "."@ + entries[e].0@, entries[e].1);
    let all = deps::child_deps(path, entries, n)->Ok_0;
    let before = deps::child_deps(path, entries, n - 1)->Ok_0;
    if e < n - 1 {
        lemma_children(path, entries, n - 1, e);
        assert forall|i: int| 0 <= i < inner->Ok_0.len() implies all.contains(
            #[trigger] inner->Ok_0[i],
        ) by {
            assert(before.contains(inner->Ok_0[i]));
            let k = choose|k: int| 0 <= k < before.len() && before[k] == inner->Ok_0[i];
            assert(all[k] == inner->Ok_0[i]);
        }
    } else {
        assert forall|i: int| 0 <= i < inner->Ok_0.len() implies all.contains(
            #[trigger] inner->Ok_0[i],
        ) by {
            assert(all[before.len() + i] == inner->Ok_0[i]);
        }
    }
}

/// Whether a `deps {}` block lies where a path says, below the value that the
/// path starts at.
pub open spec fn lies_at(first: Seq<char>, value: Value, found: (Seq<char>, Value)) -> bool {
    exists|names: Seq<Seq<char>>, target: Value| #[trigger]
        leads(value, names, target) && none_is_deps(names) && found.0 == dotted(first, names)
            && deps::member(target, "deps"@) == Some(found.1)
}

proof fn lemma_lies(path: Seq<char>, value: Value, i: int)
    requires
        deps::nested_deps(path, value) is Ok,
        0 <= i < deps::nested_deps(path, value)->Ok_0.len(),
    ensures
        lies_at(path, value, deps::nested_deps(path, value)->Ok_0[i]),
    decreases value, 0int,
{
    let list = deps::nested_deps(path, value)->Ok_0;
    let map = value->Block_0;
    let own = deps::own_deps(path, value)->Ok_0;
    let none = Seq::<Seq<char>>::empty();
    if i < own.len() {
        assert(leads(value, none, value));
        assert(list[i] == own[i]);
    } else {
        match value {
            Value::Block(map) => {
                lemma_child_lies(path, value, map.entries@, map.entries@.len() as int, i - own.len());
            },
            _ => {},
        }
    }
}

proof fn lemma_child_lies(
    path: Seq<char>,
    value: Value,
    entries: Seq<(String, Value)>,
    n: int,
    i: int,
)
    requires
        value matches Value::Block(map) && map.entries@ == entries,
        0 <= n <= entries.len(),
        deps::child_deps(path, entries, n) is Ok,
        0 <= i < deps::child_deps(path, entries, n)->Ok_0.len(),
    ensures
        lies_at(path, value, deps::child_deps(path, entries, n)->Ok_0[i]),
    decreases entries, n,
{
    reveal_strlit(".");
    assert("."@ =~= seq!['.']);
    if n > 0 {
        let before = deps::child_deps(path, entries, n - 1)->Ok_0;
        let all = deps::child_deps(path, entries, n)->Ok_0;
        if i < before.len() {
            lemma_child_lies(path, value, entries, n - 1, i);
            assert(all[i] == before[i]);
        } else {
            let entry = entries[n - 1];
            let inner = path + "."@ + entry.0@;
            assert(decreases_to!(entries => entries[n - 1]));
            lemma_lies(inner, entry.1, i - before.len());
            let found = deps::nested_deps(inner, entry.1)->Ok_0[i - before.len()];
            assert(all[i] == found);
            let (names, target) = choose|names: Seq<Seq<char>>, target: Value| #[trigger]
                leads(entry.1, names, target) && none_is_deps(names) && found.0 == dotted(
                    inner,
                    names,
                ) && deps::member(target, "deps"@) == Some(found.1);
            let more = seq![entry.0@] + names;
            assert(more.drop_first() =~= names);
            assert(more[0] == entry.0@);
            assert(entries[n - 1].0@ == more[0]);
            assert(leads(value, more, target));
            assert(none_is_deps(more)) by {
                assert forall|k: int| 0 <= k < more.len() implies #[trigger] more[k] != "deps"@ by {
                    if k > 0 {
                        assert(more[k] == names[k - 1]);
                    }
                }
            }
            assert(dotted(path, more) == dotted(inner, names));
        }
    }
}

proof fn lemma_top(entries: Seq<(String, Value)>, n: int, e: int)
    requires
        0 <= e < n <= entries.len(),
        deps::top_deps(entries, n) is Ok,
    ensures
        ({
            let inner = deps::nested_deps(entries[e].0@, entries[e].1);
            inner is Ok && forall|i: int|
                0 <= i < inner->Ok_0.len() ==> deps::top_deps(entries, n)->Ok_0.contains(
                    #[trigger] inner->Ok_0[i],
                )
        }),
    decreases n,
{
    let inner = deps::nested_deps(entries[e].0@, entries[e].1);
    let all = deps::top_deps(entries, n)->Ok_0;
    let before = deps::top_deps(entries, n - 1)->Ok_0;
    if e < n - 1 {
        lemma_top(entries, n - 1, e);
    }
    assert forall|i: int| 0 <= i < inner->Ok_0.len() implies all.contains(
        #[trigger] inner->Ok_0[i],
    ) by {
        if e < n - 1 {
            assert(before.contains(inner->Ok_0[i]));
            let k = choose|k: int| 0 <= k < before.len() && before[k] == inner->Ok_0[i];
            assert(all[k] == inner->Ok_0[i]);
        } else {
            assert(all[before.len() + i] == inner->Ok_0[i]);
        }
    }
}

proof fn lemma_top_lies(entries: Seq<(String, Value)>, n: int, i: int) -> (e: int)
    requires
        0 <= n <= entries.len(),
        deps::top_deps(entries, n) is Ok,
        0 <= i < deps::top_deps(entries, n)->Ok_0.len(),
    ensures
        0 <= e < n,
        lies_at(entries[e].0@, entries[e].1, deps::top_deps(entries, n)->Ok_0[i]),
    decreases n,
{
    let all = deps::top_deps(entries, n)->Ok_0;
    let before = deps::top_deps(entries, n - 1)->Ok_0;
    if i < before.len() {
        assert(all[i] == before[i]);
        lemma_top_lies(entries, n - 1, i)
    } else {
        lemma_lies(entries[n - 1].0@, entries[n - 1].1, i - before.len());
        n - 1
    }
}

/// The source sets of a model are the blocks inside its blocks, however deep,
/// that hold a `deps {}` block; each is known by the names that lead to it, with
/// dots between them. There are no others.
pub proof fn law_source_sets_are_found_by_name(
    map: TextMap<Value>,
    e: int,
    names: Seq<Seq<char>>,
    target: Value,
    block: Value,
)
    requires
        deps::source_sets_of(Value::Block(map)) is Ok,
    ensures
        0 <= e < map.entries@.len() && leads(map.entries@[e].1, names, target) && none_is_deps(
            names,
        ) && deps::member(target, "deps"@) == Some(block) ==> deps::source_sets_of(
            Value::Block(map),
        )->Ok_0.contains((dotted(map.entries@[e].0@, names), block)),
        forall|i: int|
            0 <= i < deps::source_sets_of(Value::Block(map))->Ok_0.len() ==> exists|f: int|
                0 <= f < map.entries@.len() && lies_at(
                    map.entries@[f].0@,
                    map.entries@[f].1,
                    #[trigger] deps::source_sets_of(Value::Block(map))->Ok_0[i],
                ),
{
    let entries = map.entries@;
    let list = deps::source_sets_of(Value::Block(map))->Ok_0;
    if 0 <= e < entries.len() && leads(entries[e].1, names, target) && none_is_deps(names)
        && deps::member(target, "deps"@) == Some(block) {
        lemma_top(entries, entries.len() as int, e);
        lemma_found(entries[e].0@, entries[e].1, names, target, block);
        let inner = deps::nested_deps(entries[e].0@, entries[e].1)->Ok_0;
        let found = (dotted(entries[e].0@, names), block);
        let i = choose|i: int| 0 <= i < inner.len() && inner[i] == found;
        assert(list.contains(inner[i]));
    }
    assert forall|i: int| 0 <= i < list.len() implies exists|f: int|
        0 <= f < entries.len() && lies_at(entries[f].0@, entries[f].1, #[trigger] list[i]) by {
        let f = lemma_top_lies(entries, entries.len() as int, i);
        assert(lies_at(entries[f].0@, entries[f].1, list[i]));
    }
}

/// Whether the first `n` of the resolved classpaths are there.
pub open spec fn are_resolved(resolved: Seq<Result<Paths, Seq<char>>>, n: int) -> bool {
    n <= resolved.len() && forall|i: int| 0 <= i < n ==> #[trigger] resolved[i] is Ok
}

proof fn lemma_sets(
    blocks: Seq<(Seq<char>, Value)>,
    compose: Option<Seq<Declared>>,
    resolved: Seq<Result<Paths, Seq<char>>>,
    n: int,
)
    requires
        0 <= n <= blocks.len(),
        are_resolved(resolved, n),
        forall|i: int| 0 <= i < n ==> maven::deps_of((#[trigger] blocks[i]).1) is Ok,
    ensures
        deps::sets_after(blocks, compose, resolved, n) == SetsState::Done(
            Seq::new(n as nat, |i: int| (blocks[i].0, resolved[i]->Ok_0)),
        ),
    decreases n,
{
    let list = Seq::new(n as nat, |i: int| (blocks[i].0, resolved[i]->Ok_0));
    if n > 0 {
        lemma_sets(blocks, compose, resolved, n - 1);
        assert(resolved[n - 1] is Ok);
        assert(maven::deps_of(blocks[n - 1].1) is Ok);
        assert(list =~= Seq::new(
            (n - 1) as nat,
            |i: int| (blocks[i].0, resolved[i]->Ok_0),
        ).push((blocks[n - 1].0, resolved[n - 1]->Ok_0)));
    } else {
        assert(list =~= Seq::<(Seq<char>, Paths)>::empty());
    }
}

proof fn lemma_sets_stay(
    blocks: Seq<(Seq<char>, Value)>,
    compose: Option<Seq<Declared>>,
    resolved: Seq<Result<Paths, Seq<char>>>,
    m: int,
    n: int,
)
    requires
        0 <= m <= n,
        !(deps::sets_after(blocks, compose, resolved, m) is Done),
    ensures
        deps::sets_after(blocks, compose, resolved, n) == deps::sets_after(
            blocks,
            compose,
            resolved,
            m,
        ),
    decreases n,
{
    if m < n {
        lemma_sets_stay(blocks, compose, resolved, m, n - 1);
    }
}

/// The classpaths of the source sets are resolved one after the other: each from
/// what its own block declares and what Compose brings. Each set gets the one
/// that was resolved for it, and the first failure is reported with the name of
/// the set.
pub proof fn law_source_sets_are_resolved_in_turn(
    blocks: Seq<(Seq<char>, Value)>,
    compose: Option<Seq<Declared>>,
    resolved: Seq<Result<Paths, Seq<char>>>,
    n: int,
)
    requires
        0 <= n <= blocks.len(),
        are_resolved(resolved, n),
        forall|i: int| 0 <= i < blocks.len() ==> maven::deps_of((#[trigger] blocks[i]).1) is Ok,
    ensures
        n == blocks.len() ==> deps::sets_after(blocks, compose, resolved, n) == SetsState::Done(
            Seq::new(n as nat, |i: int| (blocks[i].0, resolved[i]->Ok_0)),
        ),
        n < blocks.len() && n == resolved.len() ==> deps::sets_after(
            blocks,
            compose,
            resolved,
            blocks.len() as int,
        ) == SetsState::Resolve(
            maven::deps_of(blocks[n].1)->Ok_0 + match compose {
                Some(more) => more,
                None => Seq::empty(),
            },
        ),
        n < blocks.len() && n < resolved.len() ==> (resolved[n] matches Err(message)
            ==> deps::sets_after(blocks, compose, resolved, blocks.len() as int)
            == SetsState::Failed(blocks[n].0 + seq![':', ' '] + message)),
{
    reveal_strlit(": ");
    assert(": "@ =~= seq![':', ' ']);
    lemma_sets(blocks, compose, resolved, n);
    if n < blocks.len() {
        assert(maven::deps_of(blocks[n].1) is Ok);
        let declared = maven::deps_of(blocks[n].1)->Ok_0;
        assert(declared + Seq::<Declared>::empty() =~= declared);
        if n == resolved.len() || resolved[n] is Err {
            lemma_sets_stay(blocks, compose, resolved, n + 1, blocks.len() as int);
        }
    }
}

} // verus!
