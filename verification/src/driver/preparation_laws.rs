//! What a module is prepared to be.

use vstd::prelude::*;
use crate::driver::classpath;
use crate::driver::deps;
use crate::driver::dependency_laws;
use crate::driver::linking_laws;
use crate::driver::model;
use crate::driver::modules;
use crate::driver::modules::{PrepState, Prepared};
use crate::maven;
use crate::maven::{Declared, MavenScope, Paths};
use crate::value::Value;

verus! {

/// Whether what is resolved for the source sets of a module is all there, each
/// for the set at the same place.
pub open spec fn are_sets(
    sets: Seq<(Seq<char>, Paths)>,
    blocks: Seq<(Seq<char>, Value)>,
    resolved: Seq<Result<Paths, Seq<char>>>,
) -> bool {
    &&& sets.len() == blocks.len()
    &&& forall|i: int|
        0 <= i < sets.len() ==> (#[trigger] sets[i]).0 == blocks[i].0 && resolved[i] == Ok::<
            Paths,
            Seq<char>,
        >(sets[i].1)
}

/// A module is ready with the classpath that was resolved for it, which shows its
/// own jars and those of its source sets, with the classpaths that were resolved
/// for those, and with the references of its `deps {}` block.
pub proof fn law_modules_are_ready_with_what_was_resolved(
    dir: Seq<char>,
    value: Value,
    shown: Option<Seq<char>>,
    alone: bool,
    own: Paths,
    resolved: Seq<Result<Paths, Seq<char>>>,
    blocks: Seq<(Seq<char>, Value)>,
)
    requires
        model::fault_of(value) is None,
        modules::refusal(dir, value, alone) is None,
        value is Block,
        deps::wants_deps(value, shown) == Ok::<bool, Seq<char>>(true),
        deps::model_deps_of(value, shown) is Ok,
        deps::source_sets_of(value) == Ok::<Seq<(Seq<char>, Value)>, Seq<char>>(blocks),
        forall|i: int| 0 <= i < blocks.len() ==> maven::deps_of((#[trigger] blocks[i]).1) is Ok,
        dependency_laws::are_resolved(resolved, blocks.len() as int),
    ensures
        modules::prep_state(dir, value, shown, alone, Some(Ok(own)), resolved) matches
            PrepState::Ready(ready) && {
            &&& ready.classpath == (Paths { api: ready.classpath.api, ..own })
            &&& own.api.is_prefix_of(ready.classpath.api)
            &&& forall|k: int|
                own.api.len() <= k < ready.classpath.api.len() ==> linking_laws::is_shown(
                    ready.sets,
                    #[trigger] ready.classpath.api[k],
                    ready.sets.len() as int,
                )
            &&& forall|jar: Seq<char>| #[trigger]
                linking_laws::is_shown(ready.sets, jar, ready.sets.len() as int)
                    ==> crate::text::has_path(ready.classpath.api, jar)
            &&& are_sets(ready.sets, blocks, resolved)
            &&& ready.refs == match deps::member(value, "deps"@) {
                Some(block) => maven::project_refs(block),
                None => Seq::<(MavenScope, Seq<char>)>::empty(),
            }
        },
{
    let n = blocks.len() as int;
    let compose = deps::compose_of(value, shown);
    assert(compose is Ok);
    dependency_laws::law_source_sets_are_resolved_in_turn(blocks, compose->Ok_0, resolved, n);
    let sets = Seq::new(n as nat, |i: int| (blocks[i].0, resolved[i]->Ok_0));
    linking_laws::law_modules_show_what_their_source_sets_do(own.api, sets, n);
    assert forall|i: int| 0 <= i < sets.len() implies (#[trigger] sets[i]).0 == blocks[i].0
        && resolved[i] == Ok::<Paths, Seq<char>>(sets[i].1) by {
        assert(resolved[i] is Ok);
    }
}

/// What a module needs is asked for before it is ready: first the classpath of its
/// own, then those of its source sets.
pub proof fn law_modules_ask_for_what_they_declare(
    dir: Seq<char>,
    value: Value,
    shown: Option<Seq<char>>,
    alone: bool,
    declared: Seq<Declared>,
    resolved: Seq<Result<Paths, Seq<char>>>,
    message: Seq<char>,
)
    requires
        model::fault_of(value) is None,
        modules::refusal(dir, value, alone) is None,
        deps::wants_deps(value, shown) == Ok::<bool, Seq<char>>(true),
        deps::model_deps_of(value, shown) == Ok::<Seq<Declared>, Seq<char>>(declared),
    ensures
        modules::prep_state(dir, value, shown, alone, None, resolved) == PrepState::ResolveOwn(
            declared,
        ),
        modules::prep_state(dir, value, shown, alone, Some(Err(message)), resolved)
            == PrepState::Failed(message),
{
}

/// A model that cannot be a document, or that refers to other modules where there
/// are none, is not prepared.
pub proof fn law_faulty_models_are_not_prepared(
    dir: Seq<char>,
    value: Value,
    shown: Option<Seq<char>>,
    alone: bool,
    own: Option<Result<Paths, Seq<char>>>,
    resolved: Seq<Result<Paths, Seq<char>>>,
)
    requires
        model::fault_of(value) is Some || alone && deps::ref_fault(value) is Some || !(
        value is Block),
    ensures
        modules::prep_state(dir, value, shown, alone, own, resolved) is Failed,
{
}

proof fn lemma_set_warnings(
    refs: Seq<(Seq<char>, Seq<(MavenScope, Seq<char>)>)>,
    names: Seq<Seq<char>>,
    outputs: Map<Seq<char>, Seq<char>>,
    n: int,
    r: int,
    warning: Seq<char>,
)
    requires
        0 <= r < n <= refs.len(),
        classpath::skip_warnings(refs[r].1, names, outputs, 0).contains(warning),
    ensures
        modules::set_warnings(refs, names, outputs, n).contains(warning),
    decreases n,
{
    let before = modules::set_warnings(refs, names, outputs, n - 1);
    let own = classpath::skip_warnings(refs[n - 1].1, names, outputs, 0);
    let after = modules::set_warnings(refs, names, outputs, n);
    if r < n - 1 {
        lemma_set_warnings(refs, names, outputs, n - 1, r, warning);
        let k = choose|k: int| 0 <= k < before.len() && before[k] == warning;
        assert(after[k] == warning);
    } else {
        let k = choose|k: int| 0 <= k < own.len() && own[k] == warning;
        assert(after[before.len() + k] == warning);
    }
}

/// Skipped references are warned of wherever they stand: in the `deps {}` block of
/// a module and in those of its source sets.
pub proof fn law_all_skipped_references_are_warned_of(
    module: Prepared,
    names: Seq<Seq<char>>,
    outputs: Map<Seq<char>, Seq<char>>,
    r: int,
    warning: Seq<char>,
)
    ensures
        classpath::skip_warnings(module.refs, names, outputs, 0).contains(warning)
            ==> modules::warnings_of(module, names, outputs).contains(warning),
        0 <= r < module.set_refs.len() && classpath::skip_warnings(
            module.set_refs[r].1,
            names,
            outputs,
            0,
        ).contains(warning) ==> modules::warnings_of(module, names, outputs).contains(warning),
{
    let own = classpath::skip_warnings(module.refs, names, outputs, 0);
    let n = module.set_refs.len() as int;
    let sets = modules::set_warnings(module.set_refs, names, outputs, n);
    let all = modules::warnings_of(module, names, outputs);
    if own.contains(warning) {
        let k = choose|k: int| 0 <= k < own.len() && own[k] == warning;
        assert(all[k] == warning);
    }
    if 0 <= r < n && classpath::skip_warnings(module.set_refs[r].1, names, outputs, 0).contains(
        warning,
    ) {
        lemma_set_warnings(module.set_refs, names, outputs, n, r, warning);
        let k = choose|k: int| 0 <= k < sets.len() && sets[k] == warning;
        assert(all[own.len() + k] == warning);
    }
}

/// A source set comes before those inside it.
pub proof fn law_outer_source_sets_come_first(path: Seq<char>, value: Value)
    requires
        deps::nested_deps(path, value) is Ok,
        deps::member(value, "deps"@) is Some,
    ensures
        deps::nested_deps(path, value)->Ok_0.len() > 0,
        deps::nested_deps(path, value)->Ok_0[0] == (path, deps::member(value, "deps"@)->0),
{
    let own = deps::own_deps(path, value)->Ok_0;
    assert(own[0] == (path, deps::member(value, "deps"@)->0));
}

/// The references of source sets are kept with the name of the set, for each set
/// that has any.
pub proof fn law_source_set_references_are_kept(
    blocks: Seq<(Seq<char>, Value)>,
    n: int,
    found: (Seq<char>, Seq<(MavenScope, Seq<char>)>),
)
    requires
        0 <= n <= blocks.len(),
    ensures
        deps::refs_in(blocks, n).contains(found) <==> found.1.len() > 0 && exists|i: int|
            0 <= i < n && (#[trigger] blocks[i]).0 == found.0 && maven::project_refs(blocks[i].1)
                == found.1,
    decreases n,
{
    if n > 0 {
        law_source_set_references_are_kept(blocks, n - 1, found);
        let before = deps::refs_in(blocks, n - 1);
        let after = deps::refs_in(blocks, n);
        let own = (blocks[n - 1].0, maven::project_refs(blocks[n - 1].1));
        if before.contains(found) {
            let k = choose|k: int| 0 <= k < before.len() && before[k] == found;
            assert(after[k] == found);
        }
        if own.1.len() > 0 {
            assert(after[before.len() as int] == own);
        }
        if after.contains(found) && !before.contains(found) {
            let k = choose|k: int| 0 <= k < after.len() && after[k] == found;
            if k < before.len() {
                assert(before[k] == found);
            }
            assert(found == own);
            assert(blocks[n - 1].0 == found.0);
        }
    }
}

/// Source sets stand in the order of the entries they are found in.
pub proof fn law_source_sets_keep_their_order(entries: Seq<(String, Value)>, n: int)
    requires
        0 < n <= entries.len(),
        deps::top_deps(entries, n) is Ok,
    ensures
        deps::top_deps(entries, n - 1) is Ok,
        deps::nested_deps(entries[n - 1].0@, entries[n - 1].1) is Ok,
        deps::top_deps(entries, n)->Ok_0.len() == deps::top_deps(entries, n - 1)->Ok_0.len()
            + deps::nested_deps(entries[n - 1].0@, entries[n - 1].1)->Ok_0.len(),
        forall|i: int|
            0 <= i < deps::top_deps(entries, n - 1)->Ok_0.len() ==> #[trigger] deps::top_deps(
                entries,
                n,
            )->Ok_0[i] == deps::top_deps(entries, n - 1)->Ok_0[i],
{
}

} // verus!
