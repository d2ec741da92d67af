//! What references between modules bring, told by the references.

use vstd::prelude::*;
use crate::driver::classpath;
use crate::driver::classpath::Offers;
use crate::driver::modules;
use crate::driver::modules::Prepared;
use crate::maven::{MavenScope, Paths};
use crate::text;

verus! {

/// The classpath of a list of references.
pub open spec fn classpath_of(refs: Seq<(MavenScope, Seq<char>)>, offers: Offers) -> Result<
    Paths,
    Seq<char>,
> {
    classpath::refs_paths(refs, offers, refs.len() as int)
}

/// Whether a reference names a module, with a colon before it or without.
pub open spec fn refers_to(reference: Seq<char>, name: Seq<char>) -> bool {
    reference == seq![':'] + name || (reference == name && !(name.len() > 0 && name[0] == ':'))
}

pub proof fn lemma_refers(reference: Seq<char>, name: Seq<char>)
    requires
        refers_to(reference, name),
    ensures
        classpath::module_name(reference) == name,
{
    if reference == seq![':'] + name {
        assert(reference[0] == ':');
        assert(reference.drop_first() =~= name);
    }
}

proof fn lemma_front(
    refs: Seq<(MavenScope, Seq<char>)>,
    more: Seq<(MavenScope, Seq<char>)>,
    offers: Offers,
    n: int,
)
    requires
        0 <= n <= refs.len(),
        refs.len() <= more.len(),
        forall|i: int| 0 <= i < refs.len() ==> #[trigger] refs[i] == more[i],
    ensures
        classpath::refs_paths(refs, offers, n) == classpath::refs_paths(more, offers, n),
    decreases n,
{
    if n > 0 {
        lemma_front(refs, more, offers, n - 1);
        assert(refs[n - 1] == more[n - 1]);
    }
}

proof fn lemma_one_more(
    refs: Seq<(MavenScope, Seq<char>)>,
    scope: MavenScope,
    reference: Seq<char>,
    name: Seq<char>,
    offers: Offers,
)
    requires
        refers_to(reference, name),
        classpath_of(refs, offers) is Ok,
        offers.modules.contains(name),
        offers.outputs.contains_key(name),
    ensures
        classpath_of(refs.push((scope, reference)), offers) == Ok::<Paths, Seq<char>>(
            classpath::with_module(
                classpath_of(refs, offers)->Ok_0,
                scope,
                offers.outputs[name],
                classpath::api_for(offers, name),
            ),
        ),
{
    let more = refs.push((scope, reference));
    lemma_refers(reference, name);
    lemma_front(refs, more, offers, refs.len() as int);
}

/// Which classpaths the artifact of a module joins, by the scope of the
/// reference to it: `compileOnly` only what is compiled against, `runtimeOnly`
/// only what is run with, `implementation` both, `testImplementation` those of
/// the tests, and the scopes without a meaning across modules none. Everything
/// else stays as it was.
pub proof fn law_scopes_join_classpaths(
    refs: Seq<(MavenScope, Seq<char>)>,
    reference: Seq<char>,
    name: Seq<char>,
    offers: Offers,
)
    requires
        refers_to(reference, name),
        classpath_of(refs, offers) is Ok,
        offers.modules.contains(name),
        offers.outputs.contains_key(name),
    ensures
        ({
            let before = classpath_of(refs, offers)->Ok_0;
            let jar = offers.outputs[name];
            &&& classpath_of(refs.push((MavenScope::CompileOnly, reference)), offers) == Ok::<
                Paths,
                Seq<char>,
            >(Paths { compile: before.compile.push(jar), ..before })
            &&& classpath_of(refs.push((MavenScope::RuntimeOnly, reference)), offers) == Ok::<
                Paths,
                Seq<char>,
            >(Paths { runtime: before.runtime.push(jar), ..before })
            &&& classpath_of(refs.push((MavenScope::Implementation, reference)), offers) == Ok::<
                Paths,
                Seq<char>,
            >(
                Paths {
                    compile: before.compile.push(jar),
                    runtime: before.runtime.push(jar),
                    ..before
                },
            )
            &&& classpath_of(refs.push((MavenScope::TestImplementation, reference)), offers)
                == Ok::<Paths, Seq<char>>(
                Paths {
                    test_compile: before.test_compile.push(jar),
                    test_runtime: before.test_runtime.push(jar),
                    ..before
                },
            )
            &&& classpath_of(refs.push((MavenScope::Ksp, reference)), offers) == Ok::<
                Paths,
                Seq<char>,
            >(before)
            &&& classpath_of(
                refs.push((MavenScope::AndroidTestImplementation, reference)),
                offers,
            ) == Ok::<Paths, Seq<char>>(before)
        }),
{
    lemma_one_more(refs, MavenScope::CompileOnly, reference, name, offers);
    lemma_one_more(refs, MavenScope::RuntimeOnly, reference, name, offers);
    lemma_one_more(refs, MavenScope::Implementation, reference, name, offers);
    lemma_one_more(refs, MavenScope::TestImplementation, reference, name, offers);
    lemma_one_more(refs, MavenScope::Ksp, reference, name, offers);
    lemma_one_more(refs, MavenScope::AndroidTestImplementation, reference, name, offers);
}

proof fn lemma_missing_adds(list: Seq<Seq<char>>, more: Seq<Seq<char>>, n: int)
    requires
        0 <= n <= more.len(),
    ensures
        forall|k: int|
            list.len() <= k < classpath::with_missing(list, more, n).len() ==> more.contains(
                #[trigger] classpath::with_missing(list, more, n)[k],
            ),
        forall|j: int, k: int|
            0 <= j < k && list.len() <= k < classpath::with_missing(list, more, n).len()
                ==> !text::same_path(
                #[trigger] classpath::with_missing(list, more, n)[j],
                #[trigger] classpath::with_missing(list, more, n)[k],
            ),
        list.len() <= classpath::with_missing(list, more, n).len(),
    decreases n,
{
    if n > 0 {
        lemma_missing_adds(list, more, n - 1);
        let before = classpath::with_missing(list, more, n - 1);
        let after = classpath::with_missing(list, more, n);
        if !text::has_path(before, more[n - 1]) {
            assert forall|k: int| list.len() <= k < after.len() implies more.contains(
                #[trigger] after[k],
            ) by {
                if k < before.len() {
                    assert(after[k] == before[k]);
                } else {
                    assert(after[k] == more[n - 1]);
                }
            }
            assert forall|j: int, k: int|
                0 <= j < k && list.len() <= k < after.len() implies !text::same_path(
                #[trigger] after[j],
                #[trigger] after[k],
            ) by {
                assert(after[j] == before[j]);
                if k < before.len() {
                    assert(after[k] == before[k]);
                }
            }
        }
    }
}

/// Whether a list is another with an artifact behind it, and behind that those
/// jars that are not there yet, each once.
pub open spec fn is_with_shown(
    after: Seq<Seq<char>>,
    before: Seq<Seq<char>>,
    artifact: Seq<char>,
    shown: Seq<Seq<char>>,
) -> bool {
    let start = before.push(artifact);
    &&& start.is_prefix_of(after)
    &&& forall|i: int| 0 <= i < shown.len() ==> text::has_path(after, #[trigger] shown[i])
    &&& forall|k: int| start.len() <= k < after.len() ==> shown.contains(#[trigger] after[k])
    &&& forall|j: int, k: int|
        0 <= j < k && start.len() <= k < after.len() ==> !text::same_path(
            #[trigger] after[j],
            #[trigger] after[k],
        )
}

/// An `api` reference puts the artifact of a module, and the jars that the
/// module shows to its consumers, on what is compiled against and on what is run
/// with, and on nothing else.
pub proof fn law_api_joins_classpaths(
    refs: Seq<(MavenScope, Seq<char>)>,
    reference: Seq<char>,
    name: Seq<char>,
    offers: Offers,
)
    requires
        refers_to(reference, name),
        classpath_of(refs, offers) is Ok,
        offers.modules.contains(name),
        offers.outputs.contains_key(name),
        offers.apis.contains_key(name),
    ensures
        ({
            let before = classpath_of(refs, offers)->Ok_0;
            let jar = offers.outputs[name];
            &&& classpath_of(refs.push((MavenScope::Api, reference)), offers) matches Ok(after)
            &&& is_with_shown(after.compile, before.compile, jar, offers.apis[name])
            &&& is_with_shown(after.runtime, before.runtime, jar, offers.apis[name])
            &&& after == (Paths { compile: after.compile, runtime: after.runtime, ..before })
        }),
{
    lemma_one_more(refs, MavenScope::Api, reference, name, offers);
    let before = classpath_of(refs, offers)->Ok_0;
    let jar = offers.outputs[name];
    let api = offers.apis[name];
    classpath::lemma_missing_keeps(before.compile.push(jar), api, api.len() as int);
    classpath::lemma_missing_keeps(before.runtime.push(jar), api, api.len() as int);
    lemma_missing_adds(before.compile.push(jar), api, api.len() as int);
    lemma_missing_adds(before.runtime.push(jar), api, api.len() as int);
}

/// No references bring nothing.
pub proof fn law_no_references_bring_nothing(offers: Offers)
    ensures
        ({
            let none = Seq::<Seq<char>>::empty();
            classpath_of(Seq::empty(), offers) == Ok::<Paths, Seq<char>>(
                Paths {
                    compile: none,
                    runtime: none,
                    processor: none,
                    api: none,
                    compose_runtimes: none,
                    test_compile: none,
                    test_runtime: none,
                    android_test_compile: none,
                    android_test_runtime: none,
                },
            )
        }),
{
}

/// References are followed exactly where every one of them names a module that
/// the project declares and that has an artifact.
pub proof fn law_references_name_modules(
    refs: Seq<(MavenScope, Seq<char>)>,
    names: Seq<Seq<char>>,
    offers: Offers,
    n: int,
)
    requires
        0 <= n <= refs.len(),
        names.len() == refs.len(),
        forall|i: int| 0 <= i < refs.len() ==> refers_to((#[trigger] refs[i]).1, names[i]),
    ensures
        classpath::refs_paths(refs, offers, n) is Ok <==> forall|i: int|
            0 <= i < n ==> offers.modules.contains(#[trigger] names[i])
                && offers.outputs.contains_key(names[i]),
    decreases n,
{
    if n > 0 {
        law_references_name_modules(refs, names, offers, n - 1);
        lemma_refers(refs[n - 1].1, names[n - 1]);
        assert(refs[n - 1] == refs[n - 1]);
        if classpath::refs_paths(refs, offers, n) is Ok {
            assert forall|i: int| 0 <= i < n implies offers.modules.contains(#[trigger] names[i])
                && offers.outputs.contains_key(names[i]) by {
                if i == n - 1 {
                    assert(classpath::ref_error(
                        offers.modules,
                        offers.outputs,
                        refs[n - 1].1,
                    ) is None);
                }
            }
        } else if forall|i: int|
            0 <= i < n ==> offers.modules.contains(#[trigger] names[i])
                && offers.outputs.contains_key(names[i]) {
            assert(offers.modules.contains(names[n - 1]));
        }
    }
}

/// Linking adds what the references bring behind the jars of the module itself,
/// to compile against, to run with and for its unit tests; what it shows to its
/// consumers, its processors and its instrumented tests stay its own.
pub proof fn law_linking_adds_behind(module: Prepared, offers: Offers)
    requires
        modules::linked(module, offers) is Ok,
    ensures
        ({
            let after = modules::linked(module, offers)->Ok_0;
            &&& classpath_of(module.refs, offers) matches Ok(more)
            &&& after.classpath.compile == module.classpath.compile + more.compile
            &&& after.classpath.runtime == module.classpath.runtime + more.runtime
            &&& after.classpath.test_compile == module.classpath.test_compile + more.test_compile
            &&& after.classpath.test_runtime == module.classpath.test_runtime + more.test_runtime
            &&& after.classpath.processor == module.classpath.processor
            &&& after.classpath.api == module.classpath.api
            &&& after.classpath.compose_runtimes == module.classpath.compose_runtimes
            &&& after.classpath.android_test_compile == module.classpath.android_test_compile
            &&& after.classpath.android_test_runtime == module.classpath.android_test_runtime
        }),
{
}

} // verus!
