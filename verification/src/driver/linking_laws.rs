//! What modules show to each other, and what becomes of references from their
//! source sets.

use vstd::prelude::*;
use crate::driver::classpath;
use crate::driver::classpath::Offers;
use crate::driver::modules;
use crate::driver::reference_laws;
use crate::maven::{MavenScope, Paths};
use crate::text;

verus! {

proof fn lemma_only_missing(list: Seq<Seq<char>>, more: Seq<Seq<char>>, n: int)
    requires
        0 <= n <= more.len(),
    ensures
        forall|k: int|
            list.len() <= k < classpath::with_missing(list, more, n).len() ==> more.contains(
                #[trigger] classpath::with_missing(list, more, n)[k],
            ),
    decreases n,
{
    if n > 0 {
        lemma_only_missing(list, more, n - 1);
        let before = classpath::with_missing(list, more, n - 1);
        let after = classpath::with_missing(list, more, n);
        classpath::lemma_missing_keeps(list, more, n - 1);
        assert forall|k: int| list.len() <= k < after.len() implies more.contains(
            #[trigger] after[k],
        ) by {
            if k < before.len() {
                assert(after[k] == before[k]);
            } else {
                assert(after[k] == more[n - 1]);
            }
        }
    }
}

/// Whether one of the first `n` source sets shows a jar.
pub open spec fn is_shown(sets: Seq<(Seq<char>, Paths)>, jar: Seq<char>, n: int) -> bool {
    exists|s: int| 0 <= s < n && (#[trigger] sets[s]).1.api.contains(jar)
}

/// A module shows its own jars first, then all that its source sets show, and
/// nothing else.
pub proof fn law_modules_show_what_their_source_sets_do(
    api: Seq<Seq<char>>,
    sets: Seq<(Seq<char>, Paths)>,
    n: int,
)
    requires
        0 <= n <= sets.len(),
    ensures
        api.is_prefix_of(classpath::api_of(api, sets, n)),
        forall|jar: Seq<char>| #[trigger]
            is_shown(sets, jar, n) ==> text::has_path(classpath::api_of(api, sets, n), jar),
        forall|k: int|
            api.len() <= k < classpath::api_of(api, sets, n).len() ==> is_shown(
                sets,
                #[trigger] classpath::api_of(api, sets, n)[k],
                n,
            ),
    decreases n,
{
    let after = classpath::api_of(api, sets, n);
    if n > 0 {
        law_modules_show_what_their_source_sets_do(api, sets, n - 1);
        let before = classpath::api_of(api, sets, n - 1);
        let own = sets[n - 1].1.api;
        let m = own.len() as int;
        classpath::lemma_missing_keeps(before, own, m);
        lemma_only_missing(before, own, m);
        assert(before == after.subrange(0, before.len() as int));
        assert(api == before.subrange(0, api.len() as int));
        assert(api =~= after.subrange(0, api.len() as int));
        assert forall|jar: Seq<char>| #[trigger] is_shown(sets, jar, n) implies text::has_path(
            after,
            jar,
        ) by {
            let s = choose|s: int| 0 <= s < n && (#[trigger] sets[s]).1.api.contains(jar);
            if s < n - 1 {
                assert(is_shown(sets, jar, n - 1));
                let k = choose|k: int|
                    0 <= k < before.len() && text::same_path(#[trigger] before[k], jar);
                assert(after[k] == before[k]);
            } else {
                let i = choose|i: int| 0 <= i < own.len() && own[i] == jar;
                assert(text::has_path(after, own[i]));
            }
        }
        assert forall|k: int| api.len() <= k < after.len() implies is_shown(
            sets,
            #[trigger] after[k],
            n,
        ) by {
            if k < before.len() {
                assert(after[k] == before[k]);
                assert(is_shown(sets, before[k], n - 1));
                let s = choose|s: int| 0 <= s < n - 1 && (#[trigger] sets[s]).1.api.contains(before[k]);
                assert(sets[s].1.api.contains(after[k]));
            } else {
                assert(own.contains(after[k]));
                assert(sets[n - 1].1.api.contains(after[k]));
            }
        }
    } else {
        assert(api =~= api.subrange(0, api.len() as int));
    }
}

/// The warning about a reference that is skipped for its scope.
pub open spec fn warns(warning: Seq<char>, path: Seq<char>, scope: MavenScope) -> bool {
    match scope {
        MavenScope::Ksp => warning == "project(\""@ + path
            + "\"): ksp scope is not supported for project dependencies; skipping"@,
        MavenScope::AndroidTestImplementation => warning == "project(\""@ + path
            + "\"): androidTestImplementation scope is not supported for project dependencies; skipping"@,
        _ => false,
    }
}

proof fn lemma_warns(path: Seq<char>, scope: MavenScope)
    ensures
        classpath::skipped_scope(scope) matches Some(name) ==> warns(
            classpath::skip_warning(path, name),
            path,
            scope,
        ),
        classpath::skipped_scope(scope) is None ==> forall|warning: Seq<char>|
            !#[trigger] warns(warning, path, scope),
{
    reveal_strlit("\"): ");
    reveal_strlit("ksp");
    reveal_strlit("androidTestImplementation");
    reveal_strlit(" scope is not supported for project dependencies; skipping");
    reveal_strlit("\"): ksp scope is not supported for project dependencies; skipping");
    reveal_strlit(
        "\"): androidTestImplementation scope is not supported for project dependencies; skipping",
    );
    let start = "project(\""@ + path;
    if scope == MavenScope::Ksp {
        assert(start + "\"): "@ + "ksp"@
            + " scope is not supported for project dependencies; skipping"@ =~= start
            + "\"): ksp scope is not supported for project dependencies; skipping"@);
    }
    if scope == MavenScope::AndroidTestImplementation {
        assert(start + "\"): "@ + "androidTestImplementation"@
            + " scope is not supported for project dependencies; skipping"@ =~= start
            + "\"): androidTestImplementation scope is not supported for project dependencies; skipping"@);
    }
}

/// A reference that is skipped for its scope is warned of, and nothing else is.
pub proof fn law_skipped_references_are_warned_of(
    refs: Seq<(MavenScope, Seq<char>)>,
    names: Seq<Seq<char>>,
    modules: Seq<Seq<char>>,
    outputs: Map<Seq<char>, Seq<char>>,
    from: int,
    warning: Seq<char>,
)
    requires
        0 <= from <= refs.len(),
        names.len() == refs.len(),
        forall|i: int|
            0 <= i < refs.len() ==> reference_laws::refers_to((#[trigger] refs[i]).1, names[i])
                && modules.contains(names[i]) && outputs.contains_key(names[i]),
    ensures
        classpath::skip_warnings(refs, modules, outputs, from).contains(warning) <==> exists|i: int|
            from <= i < refs.len() && warns(warning, (#[trigger] refs[i]).1, refs[i].0),
    decreases refs.len() - from,
{
    if from < refs.len() {
        law_skipped_references_are_warned_of(refs, names, modules, outputs, from + 1, warning);
        let (scope, path) = refs[from];
        lemma_warns(path, scope);
        assert(reference_laws::refers_to(refs[from].1, names[from]));
        reference_laws::lemma_refers(path, names[from]);
        let rest = classpath::skip_warnings(refs, modules, outputs, from + 1);
        let all = classpath::skip_warnings(refs, modules, outputs, from);
        if let Some(name) = classpath::skipped_scope(scope) {
            let own = classpath::skip_warning(path, name);
            assert(all =~= seq![own] + rest);
            assert(all[0] == own);
            assert(warns(warning, path, scope) <==> warning == own);
            if rest.contains(warning) {
                let k = choose|k: int| 0 <= k < rest.len() && rest[k] == warning;
                assert(all[k + 1] == warning);
            }
            if all.contains(warning) && warning != own {
                let k = choose|k: int| 0 <= k < all.len() && all[k] == warning;
                assert(rest[k - 1] == warning);
            }
        }
        if warns(warning, path, scope) {
            assert(warns(warning, refs[from].1, refs[from].0));
        }
    }
}

/// Whether a source set got what its references bring, behind its own jars.
pub open spec fn is_joined(before: Paths, more: Paths, after: Paths) -> bool {
    after == (Paths {
        compile: before.compile + more.compile,
        runtime: before.runtime + more.runtime,
        test_compile: before.test_compile + more.test_compile,
        test_runtime: before.test_runtime + more.test_runtime,
        ..before
    })
}

proof fn lemma_own_place(sets: Seq<(Seq<char>, Paths)>, s: int, from: int)
    requires
        0 <= from <= s < sets.len(),
        forall|i: int, j: int| 0 <= i < j < sets.len() ==> (#[trigger] sets[i]).0 != (#[trigger] sets[j]).0,
    ensures
        modules::set_at(sets, sets[s].0, from) == s,
    decreases s - from,
{
    if from < s {
        assert(sets[from].0 != sets[s].0);
        lemma_own_place(sets, s, from + 1);
    }
}

proof fn lemma_no_place(sets: Seq<(Seq<char>, Paths)>, path: Seq<char>, from: int)
    requires
        0 <= from <= sets.len(),
    ensures
        from <= modules::set_at(sets, path, from) <= sets.len(),
        modules::set_at(sets, path, from) < sets.len() ==> sets[modules::set_at(sets, path, from)].0
            == path,
    decreases sets.len() - from,
{
    if from < sets.len() && sets[from].0 != path {
        lemma_no_place(sets, path, from + 1);
    }
}

/// Each source set gets what its own references bring, behind its own jars; a
/// source set without references stays as it is.
pub proof fn law_source_sets_get_what_their_references_bring(
    sets: Seq<(Seq<char>, Paths)>,
    refs: Seq<(Seq<char>, Seq<(MavenScope, Seq<char>)>)>,
    offers: Offers,
    n: int,
    s: int,
)
    requires
        0 <= n <= refs.len(),
        0 <= s < sets.len(),
        modules::linked_sets(sets, refs, offers, n) is Ok,
        forall|i: int, j: int| 0 <= i < j < sets.len() ==> (#[trigger] sets[i]).0 != (#[trigger] sets[j]).0,
        forall|i: int, j: int| 0 <= i < j < refs.len() ==> (#[trigger] refs[i]).0 != (#[trigger] refs[j]).0,
    ensures
        ({
            let after = modules::linked_sets(sets, refs, offers, n)->Ok_0;
            &&& after.len() == sets.len()
            &&& forall|i: int| 0 <= i < sets.len() ==> (#[trigger] after[i]).0 == sets[i].0
            &&& (forall|r: int| 0 <= r < n ==> (#[trigger] refs[r]).0 != sets[s].0) ==> after[s]
                == sets[s]
            &&& forall|r: int|
                0 <= r < n && (#[trigger] refs[r]).0 == sets[s].0 ==> (
                reference_laws::classpath_of(refs[r].1, offers) matches Ok(more) && is_joined(
                    sets[s].1,
                    more,
                    after[s].1,
                ))
        }),
    decreases n,
{
    if n > 0 {
        law_source_sets_get_what_their_references_bring(sets, refs, offers, n - 1, s);
        let before = modules::linked_sets(sets, refs, offers, n - 1)->Ok_0;
        let after = modules::linked_sets(sets, refs, offers, n)->Ok_0;
        let name = refs[n - 1].0;
        let at = modules::set_at(before, name, 0);
        lemma_no_place(before, name, 0);
        if name == sets[s].0 {
            assert forall|i: int, j: int| 0 <= i < j < before.len() implies (#[trigger] before[i]).0
                != (#[trigger] before[j]).0 by {
                assert(sets[i].0 != sets[j].0);
            }
            assert(before[s].0 == sets[s].0);
            lemma_own_place(before, s, 0);
            assert forall|r: int| 0 <= r < n - 1 implies (#[trigger] refs[r]).0 != sets[s].0 by {
                assert(refs[r].0 != refs[n - 1].0);
            }
            assert(before[s] == sets[s]);
        } else if at < before.len() {
            assert(before[at].0 == name);
            assert(at != s);
        }
    }
}

} // verus!
