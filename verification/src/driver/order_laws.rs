//! The order in which a project declares its modules plays no role.

use vstd::prelude::*;
use crate::driver::classpath;
use crate::driver::classpath::Offers;
use crate::driver::config;
use crate::driver::config_laws;
use crate::driver::course;
use crate::driver::course::{BuildRequest, BuildState, Configuration, Evaluation};
use crate::driver::modules;
use crate::driver::modules::{PrepState, Prepared};
use crate::maven::{MavenScope, Paths};
use crate::text;

verus! {

/// Whether module `i` of one build and module `j` of another are the same, with
/// what is known of them.
pub open spec fn is_same_module(
    a: BuildRequest,
    known_a: BuildState,
    i: int,
    b: BuildRequest,
    known_b: BuildState,
    j: int,
) -> bool {
    &&& a.modules@[i].rel@ == b.modules@[j].rel@
    &&& a.modules@[i].dir@ == b.modules@[j].dir@
    &&& known_a.evaluations@[i] == known_b.evaluations@[j]
    &&& course::own_at(known_a.resolutions@, i) == course::own_at(known_b.resolutions@, j)
    &&& course::sets_at(known_a.resolutions@, i) == course::sets_at(known_b.resolutions@, j)
}

/// Whether a module's path tells which one it is: modules declared with the same
/// path are the same.
pub open spec fn are_named(a: BuildRequest, known: BuildState) -> bool {
    forall|i: int, j: int|
        #![trigger a.modules@[i], a.modules@[j]]
        0 <= i < a.modules@.len() && 0 <= j < a.modules@.len() && a.modules@[i].rel@
            == a.modules@[j].rel@ ==> is_same_module(a, known, i, a, known, j)
}

/// Whether two builds differ only in the order of their modules: module `j` of
/// the second is module `at[j]` of the first. Every module is evaluated.
pub open spec fn is_reordered(
    a: BuildRequest,
    known_a: BuildState,
    b: BuildRequest,
    known_b: BuildState,
    at: Seq<int>,
) -> bool {
    let n = a.modules@.len();
    &&& b.modules@.len() == n
    &&& at.len() == n
    &&& known_a.evaluations@.len() == n
    &&& known_b.evaluations@.len() == n
    &&& forall|j: int| 0 <= j < n ==> 0 <= #[trigger] at[j] < n
    &&& forall|i: int| 0 <= i < n ==> #[trigger] at.contains(i)
    &&& at.no_duplicates()
    &&& forall|j: int| 0 <= j < n ==> is_same_module(a, known_a, #[trigger] at[j], b, known_b, j)
    &&& are_named(a, known_a)
    &&& b.several == a.several
    &&& b.plugins == a.plugins
    &&& b.libs_path == a.libs_path
    &&& b.libs_fault == a.libs_fault
    &&& b.sdk == a.sdk
}

spec fn is_evaluated(request: BuildRequest, evaluations: Seq<Evaluation>, i: int) -> bool {
    let module = request.modules@[i];
    &&& i < evaluations.len()
    &&& course::evaluation_fault(
        evaluations[i],
        module.dir@,
        module.rel@,
        request.several,
    ) is None
}

proof fn lemma_evaluated(request: BuildRequest, evaluations: Seq<Evaluation>, from: int)
    requires
        0 <= from <= request.modules@.len(),
    ensures
        course::evaluating(request, evaluations, from) is None <==> (forall|i: int|
            from <= i < request.modules@.len() ==> #[trigger] is_evaluated(
                request,
                evaluations,
                i,
            )),
    decreases request.modules@.len() - from,
{
    if from < request.modules@.len() {
        lemma_evaluated(request, evaluations, from + 1);
        let here = is_evaluated(request, evaluations, from);
        if course::evaluating(request, evaluations, from) is None {
            assert(here);
        } else if course::evaluating(request, evaluations, from + 1) is None {
            assert(!here);
        }
    }
}

spec fn is_ready(request: BuildRequest, known: BuildState, i: int) -> bool {
    course::prep_at(request, known.evaluations@, known.resolutions@, i) is Ready
}

proof fn lemma_ready(request: BuildRequest, known: BuildState, from: int)
    requires
        0 <= from <= request.modules@.len(),
    ensures
        course::preparing(request, known.evaluations@, known.resolutions@, from) is None <==> (
        forall|i: int|
            from <= i < request.modules@.len() ==> #[trigger] is_ready(request, known, i)),
    decreases request.modules@.len() - from,
{
    if from < request.modules@.len() {
        lemma_ready(request, known, from + 1);
        let here = is_ready(request, known, from);
        if course::preparing(request, known.evaluations@, known.resolutions@, from) is None {
            assert(here);
        } else if course::preparing(
            request,
            known.evaluations@,
            known.resolutions@,
            from + 1,
        ) is None {
            assert(!here);
        }
    }
}

spec fn maps<V>(map: Map<Seq<char>, V>, key: Seq<char>, value: V) -> bool {
    map.contains_key(key) && map[key] == value
}

/// Whether module `i` produces an artifact.
spec fn produces(
    request: BuildRequest,
    evaluations: Seq<Evaluation>,
    i: int,
    rel: Seq<char>,
    output: Seq<char>,
) -> bool {
    let module = request.modules@[i];
    module.rel@ == rel && config::output_of(evaluations[i]->model, module.dir@) == Some(output)
}

proof fn lemma_outputs(request: BuildRequest, known: BuildState, n: int)
    requires
        0 <= n <= request.modules@.len(),
        are_named(request, known),
    ensures
        forall|rel: Seq<char>, output: Seq<char>| #[trigger]
            maps(course::outputs_of(request, known.evaluations@, n), rel, output) <==> exists|
                i: int,
            | 0 <= i < n && #[trigger] produces(request, known.evaluations@, i, rel, output),
    decreases n,
{
    let all = known.evaluations@;
    if n > 0 {
        lemma_outputs(request, known, n - 1);
        let before = course::outputs_of(request, all, n - 1);
        let after = course::outputs_of(request, all, n);
        assert forall|rel: Seq<char>, output: Seq<char>| #[trigger]
            maps(after, rel, output) <==> exists|i: int|
                0 <= i < n && #[trigger] produces(request, all, i, rel, output) by {
            let last = request.modules@[n - 1];
            if maps(after, rel, output) {
                if produces(request, all, n - 1, rel, output) {
                } else {
                    assert(maps(before, rel, output));
                    let i = choose|i: int|
                        0 <= i < n - 1 && #[trigger] produces(request, all, i, rel, output);
                    assert(produces(request, all, i, rel, output));
                }
            }
            if exists|i: int| 0 <= i < n && #[trigger] produces(request, all, i, rel, output) {
                let i = choose|i: int|
                    0 <= i < n && #[trigger] produces(request, all, i, rel, output);
                if last.rel@ == rel {
                    assert(request.modules@[i].rel@ == request.modules@[n - 1].rel@);
                    assert(is_same_module(request, known, i, request, known, n - 1));
                } else {
                    assert(i < n - 1);
                    assert(maps(before, rel, output));
                }
            }
        }
    }
}

/// Whether module `i` shows these jars to its consumers.
spec fn shows(
    request: BuildRequest,
    prepared: Seq<Prepared>,
    i: int,
    rel: Seq<char>,
    api: Seq<Seq<char>>,
) -> bool {
    request.modules@[i].rel@ == rel && prepared[i].classpath.api == api
}

proof fn lemma_apis(request: BuildRequest, prepared: Seq<Prepared>, n: int)
    requires
        0 <= n <= request.modules@.len(),
        forall|i: int, j: int|
            #![trigger request.modules@[i], request.modules@[j]]
            0 <= i < request.modules@.len() && 0 <= j < request.modules@.len()
                && request.modules@[i].rel@ == request.modules@[j].rel@ ==> prepared[i]
                == prepared[j],
    ensures
        forall|rel: Seq<char>, api: Seq<Seq<char>>| #[trigger]
            maps(course::apis_of(request, prepared, n), rel, api) <==> exists|i: int|
                0 <= i < n && #[trigger] shows(request, prepared, i, rel, api),
    decreases n,
{
    if n > 0 {
        lemma_apis(request, prepared, n - 1);
        let before = course::apis_of(request, prepared, n - 1);
        let after = course::apis_of(request, prepared, n);
        assert forall|rel: Seq<char>, api: Seq<Seq<char>>| #[trigger]
            maps(after, rel, api) <==> exists|i: int|
                0 <= i < n && #[trigger] shows(request, prepared, i, rel, api) by {
            let last = request.modules@[n - 1];
            if maps(after, rel, api) {
                if last.rel@ == rel {
                    assert(shows(request, prepared, n - 1, rel, api));
                } else {
                    assert(maps(before, rel, api));
                    let i = choose|i: int|
                        0 <= i < n - 1 && #[trigger] shows(request, prepared, i, rel, api);
                    assert(shows(request, prepared, i, rel, api));
                }
            }
            if exists|i: int| 0 <= i < n && #[trigger] shows(request, prepared, i, rel, api) {
                let i = choose|i: int|
                    0 <= i < n && #[trigger] shows(request, prepared, i, rel, api);
                if last.rel@ == rel {
                    assert(request.modules@[i].rel@ == request.modules@[n - 1].rel@);
                } else {
                    assert(i < n - 1);
                    assert(maps(before, rel, api));
                }
            }
        }
    }
}

/// Whether two lists hold the same names.
pub open spec fn same_names(a: Seq<Seq<char>>, b: Seq<Seq<char>>) -> bool {
    forall|name: Seq<char>| #[trigger] a.contains(name) == b.contains(name)
}

proof fn lemma_linked_sets(
    sets: Seq<(Seq<char>, Paths)>,
    refs: Seq<(Seq<char>, Seq<(MavenScope, Seq<char>)>)>,
    a: Offers,
    b: Offers,
    n: int,
)
    requires
        a.outputs == b.outputs,
        a.apis == b.apis,
        same_names(a.modules, b.modules),
    ensures
        modules::linked_sets(sets, refs, a, n) == modules::linked_sets(sets, refs, b, n),
    decreases n,
{
    if n > 0 {
        lemma_linked_sets(sets, refs, a, b, n - 1);
        classpath::law_module_order_is_irrelevant(
            refs[n - 1].1,
            a,
            b,
            refs[n - 1].1.len() as int,
        );
    }
}

proof fn lemma_skip_warnings(
    refs: Seq<(MavenScope, Seq<char>)>,
    a: Seq<Seq<char>>,
    b: Seq<Seq<char>>,
    outputs: Map<Seq<char>, Seq<char>>,
    from: int,
)
    requires
        same_names(a, b),
        0 <= from,
    ensures
        classpath::skip_warnings(refs, a, outputs, from) == classpath::skip_warnings(
            refs,
            b,
            outputs,
            from,
        ),
    decreases refs.len() - from,
{
    if from < refs.len() {
        let name = classpath::module_name(refs[from].1);
        assert(a.contains(name) == b.contains(name));
        lemma_skip_warnings(refs, a, b, outputs, from + 1);
    }
}

proof fn lemma_set_warnings(
    refs: Seq<(Seq<char>, Seq<(MavenScope, Seq<char>)>)>,
    a: Seq<Seq<char>>,
    b: Seq<Seq<char>>,
    outputs: Map<Seq<char>, Seq<char>>,
    n: int,
)
    requires
        same_names(a, b),
    ensures
        modules::set_warnings(refs, a, outputs, n) == modules::set_warnings(refs, b, outputs, n),
    decreases n,
{
    if n > 0 {
        lemma_set_warnings(refs, a, b, outputs, n - 1);
        lemma_skip_warnings(refs[n - 1].1, a, b, outputs, 0);
    }
}

pub proof fn lemma_phases(
    a: BuildRequest,
    known_a: BuildState,
    b: BuildRequest,
    known_b: BuildState,
    at: Seq<int>,
)
    requires
        is_reordered(a, known_a, b, known_b, at),
    ensures
        course::evaluating(a, known_a.evaluations@, 0) is None <==> course::evaluating(
            b,
            known_b.evaluations@,
            0,
        ) is None,
        course::preparing(a, known_a.evaluations@, known_a.resolutions@, 0) is None
            <==> course::preparing(b, known_b.evaluations@, known_b.resolutions@, 0) is None,
{
    let n = a.modules@.len() as int;
    lemma_evaluated(a, known_a.evaluations@, 0);
    lemma_evaluated(b, known_b.evaluations@, 0);
    lemma_ready(a, known_a, 0);
    lemma_ready(b, known_b, 0);
    assert forall|j: int| 0 <= j < n implies is_ready(a, known_a, #[trigger] at[j]) == is_ready(
        b,
        known_b,
        j,
    ) && is_evaluated(a, known_a.evaluations@, at[j]) == is_evaluated(
        b,
        known_b.evaluations@,
        j,
    ) by {
        assert(is_same_module(a, known_a, at[j], b, known_b, j));
    }
    if forall|j: int| 0 <= j < n ==> #[trigger] is_ready(b, known_b, j) {
        assert forall|i: int| 0 <= i < n implies #[trigger] is_ready(a, known_a, i) by {
            assert(at.contains(i));
            let j = choose|j: int| 0 <= j < at.len() && at[j] == i;
            assert(is_ready(b, known_b, j));
        }
    }
    if forall|j: int| 0 <= j < n ==> #[trigger] is_evaluated(b, known_b.evaluations@, j) {
        assert forall|i: int| 0 <= i < n implies #[trigger] is_evaluated(
            a,
            known_a.evaluations@,
            i,
        ) by {
            assert(at.contains(i));
            let j = choose|j: int| 0 <= j < at.len() && at[j] == i;
            assert(is_evaluated(b, known_b.evaluations@, j));
        }
    }
    if forall|i: int| 0 <= i < n ==> #[trigger] is_ready(a, known_a, i) {
        assert forall|j: int| 0 <= j < n implies #[trigger] is_ready(b, known_b, j) by {
            assert(is_ready(a, known_a, at[j]));
        }
    }
    if forall|i: int| 0 <= i < n ==> #[trigger] is_evaluated(a, known_a.evaluations@, i) {
        assert forall|j: int| 0 <= j < n implies #[trigger] is_evaluated(
            b,
            known_b.evaluations@,
            j,
        ) by {
            assert(is_evaluated(a, known_a.evaluations@, at[j]));
        }
    }
}

proof fn lemma_offers(
    a: BuildRequest,
    known_a: BuildState,
    b: BuildRequest,
    known_b: BuildState,
    at: Seq<int>,
)
    requires
        is_reordered(a, known_a, b, known_b, at),
    ensures
        ({
            let x = course::offers_of(a, known_a.evaluations@, known_a.resolutions@);
            let y = course::offers_of(b, known_b.evaluations@, known_b.resolutions@);
            &&& x.outputs == y.outputs
            &&& x.apis == y.apis
            &&& same_names(x.modules, y.modules)
        }),
{
    let n = a.modules@.len() as int;
    let x = course::offers_of(a, known_a.evaluations@, known_a.resolutions@);
    let y = course::offers_of(b, known_b.evaluations@, known_b.resolutions@);
    let p = course::all_prepared(a, known_a.evaluations@, known_a.resolutions@);
    let q = course::all_prepared(b, known_b.evaluations@, known_b.resolutions@);
    assert forall|j: int| 0 <= j < n implies p[#[trigger] at[j]] == q[j] by {
        assert(is_same_module(a, known_a, at[j], b, known_b, j));
    }
    assert forall|i: int, j: int|
        #![trigger b.modules@[i], b.modules@[j]]
        0 <= i < n && 0 <= j < n && b.modules@[i].rel@ == b.modules@[j].rel@ implies is_same_module(
        b,
        known_b,
        i,
        b,
        known_b,
        j,
    ) by {
        assert(is_same_module(a, known_a, at[i], b, known_b, i));
        assert(is_same_module(a, known_a, at[j], b, known_b, j));
        assert(a.modules@[at[i]].rel@ == a.modules@[at[j]].rel@);
        assert(is_same_module(a, known_a, at[i], a, known_a, at[j]));
    }
    assert forall|i: int, j: int|
        #![trigger a.modules@[i], a.modules@[j]]
        0 <= i < n && 0 <= j < n && a.modules@[i].rel@ == a.modules@[j].rel@ implies p[i]
        == p[j] by {
        assert(is_same_module(a, known_a, i, a, known_a, j));
    }
    assert forall|i: int, j: int|
        #![trigger b.modules@[i], b.modules@[j]]
        0 <= i < n && 0 <= j < n && b.modules@[i].rel@ == b.modules@[j].rel@ implies q[i]
        == q[j] by {
        assert(is_same_module(b, known_b, i, b, known_b, j));
    }
    lemma_outputs(a, known_a, n);
    lemma_outputs(b, known_b, n);
    lemma_apis(a, p, n);
    lemma_apis(b, q, n);
    assert forall|rel: Seq<char>| #[trigger] x.outputs.contains_key(rel) implies y.outputs.contains_key(
        rel,
    ) && y.outputs[rel] == x.outputs[rel] by {
        let output = x.outputs[rel];
        assert(maps(x.outputs, rel, output));
        let i = choose|i: int|
            0 <= i < n && #[trigger] produces(a, known_a.evaluations@, i, rel, output);
        assert(at.contains(i));
        let j = choose|j: int| 0 <= j < at.len() && at[j] == i;
        assert(is_same_module(a, known_a, at[j], b, known_b, j));
        assert(produces(b, known_b.evaluations@, j, rel, output));
        assert(maps(y.outputs, rel, output));
    }
    assert forall|rel: Seq<char>| #[trigger] y.outputs.contains_key(rel) implies x.outputs.contains_key(
        rel,
    ) by {
        let output = y.outputs[rel];
        assert(maps(y.outputs, rel, output));
        let j = choose|j: int|
            0 <= j < n && #[trigger] produces(b, known_b.evaluations@, j, rel, output);
        assert(is_same_module(a, known_a, at[j], b, known_b, j));
        assert(produces(a, known_a.evaluations@, at[j], rel, output));
        assert(maps(x.outputs, rel, output));
    }
    assert(x.outputs =~= y.outputs);
    assert forall|rel: Seq<char>| #[trigger] x.apis.contains_key(rel) implies y.apis.contains_key(
        rel,
    ) && y.apis[rel] == x.apis[rel] by {
        let api = x.apis[rel];
        assert(maps(x.apis, rel, api));
        let i = choose|i: int| 0 <= i < n && #[trigger] shows(a, p, i, rel, api);
        assert(at.contains(i));
        let j = choose|j: int| 0 <= j < at.len() && at[j] == i;
        assert(is_same_module(a, known_a, at[j], b, known_b, j));
        assert(shows(b, q, j, rel, api));
        assert(maps(y.apis, rel, api));
    }
    assert forall|rel: Seq<char>| #[trigger] y.apis.contains_key(rel) implies x.apis.contains_key(
        rel,
    ) by {
        let api = y.apis[rel];
        assert(maps(y.apis, rel, api));
        let j = choose|j: int| 0 <= j < n && #[trigger] shows(b, q, j, rel, api);
        assert(is_same_module(a, known_a, at[j], b, known_b, j));
        assert(shows(a, p, at[j], rel, api));
        assert(maps(x.apis, rel, api));
    }
    assert(x.apis =~= y.apis);
    assert forall|name: Seq<char>| #[trigger] x.modules.contains(name) == y.modules.contains(
        name,
    ) by {
        if x.modules.contains(name) {
            let i = choose|i: int| 0 <= i < n && x.modules[i] == name;
            assert(at.contains(i));
            let j = choose|j: int| 0 <= j < at.len() && at[j] == i;
            assert(is_same_module(a, known_a, at[j], b, known_b, j));
            assert(y.modules[j] == name);
        }
        if y.modules.contains(name) {
            let j = choose|j: int| 0 <= j < n && y.modules[j] == name;
            assert(is_same_module(a, known_a, at[j], b, known_b, j));
            assert(x.modules[at[j]] == name);
        }
    }
}

/// The order in which a project declares its modules plays no role for a build:
/// where the modules of one build are those of another in a different order, the
/// one comes to configuring plugins exactly when the other does, each module is
/// linked with the others or refused alike, and its plugins get the same: what
/// the host adds to the model, the labels of the plugins and of their tasks, and
/// the warnings.
pub proof fn law_declaration_order_is_irrelevant(
    a: BuildRequest,
    known_a: BuildState,
    b: BuildRequest,
    known_b: BuildState,
    at: Seq<int>,
    j: int,
    p: int,
)
    requires
        is_reordered(a, known_a, b, known_b, at),
        0 <= j < b.modules@.len(),
        0 <= p < b.plugins@.len(),
    ensures
        course::evaluating(a, known_a.evaluations@, 0) is None <==> course::evaluating(
            b,
            known_b.evaluations@,
            0,
        ) is None,
        course::preparing(a, known_a.evaluations@, known_a.resolutions@, 0) is None
            <==> course::preparing(b, known_b.evaluations@, known_b.resolutions@, 0) is None,
        course::linked_at(a, known_a, at[j]) == course::linked_at(b, known_b, j),
        course::additions_at(a, known_a, at[j]) == course::additions_at(b, known_b, j),
        known_a.evaluations@[at[j]] == known_b.evaluations@[j],
        course::plugin_label(a, at[j], p) == course::plugin_label(b, j, p),
        course::owner_label(a, at[j], p) == course::owner_label(b, j, p),
        modules::warnings_of(
            course::all_prepared(a, known_a.evaluations@, known_a.resolutions@)[at[j]],
            course::rels_of(a.modules@),
            course::outputs_of(a, known_a.evaluations@, a.modules@.len() as int),
        ) == modules::warnings_of(
            course::all_prepared(b, known_b.evaluations@, known_b.resolutions@)[j],
            course::rels_of(b.modules@),
            course::outputs_of(b, known_b.evaluations@, b.modules@.len() as int),
        ),
{
    lemma_phases(a, known_a, b, known_b, at);
    lemma_offers(a, known_a, b, known_b, at);
    assert(is_same_module(a, known_a, at[j], b, known_b, j));
    let x = course::offers_of(a, known_a.evaluations@, known_a.resolutions@);
    let y = course::offers_of(b, known_b.evaluations@, known_b.resolutions@);
    let module = course::prep_at(a, known_a.evaluations@, known_a.resolutions@, at[j])->Ready_0;
    classpath::law_module_order_is_irrelevant(module.refs, x, y, module.refs.len() as int);
    lemma_linked_sets(module.sets, module.set_refs, x, y, module.set_refs.len() as int);
    lemma_skip_warnings(module.refs, x.modules, y.modules, x.outputs, 0);
    lemma_set_warnings(
        module.set_refs,
        x.modules,
        y.modules,
        x.outputs,
        module.set_refs.len() as int,
    );
}

/// Each plugin gets the same configuration for a module, whatever the order in
/// which the modules are declared: the same text, labels, SDK directories and
/// warnings.
pub proof fn law_configurations_ignore_the_order(
    a: BuildRequest,
    known_a: BuildState,
    x: Configuration,
    b: BuildRequest,
    known_b: BuildState,
    y: Configuration,
    at: Seq<int>,
)
    requires
        is_reordered(a, known_a, b, known_b, at),
        course::are_ordered(known_a.evaluations@),
        course::next_turn(a, known_a) is Configure,
        course::is_configuration(x, a, known_a),
        course::is_configuration(y, b, known_b),
        x.module == at[y.module as int],
        x.plugin == y.plugin,
    ensures
        x.text@ == y.text@,
        x.label@ == y.label@,
        x.owner@ == y.owner@,
        text::texts(x.sdk_roots@) == text::texts(y.sdk_roots@),
        text::texts(x.warnings@) == text::texts(y.warnings@),
{
    let j = y.module as int;
    let i = x.module as int;
    law_declaration_order_is_irrelevant(a, known_a, b, known_b, at, j, y.plugin as int);
    course::law_modules_come_before_plugins(a, known_a);
    lemma_evaluated(a, known_a.evaluations@, 0);
    lemma_ready(a, known_a, 0);
    assert(is_evaluated(a, known_a.evaluations@, i));
    assert(is_ready(a, known_a, i));
    let value = known_a.evaluations@[i]->model;
    let more = course::additions_at(a, known_a, i);
    assert(value is Block);
    config_laws::law_configuration_is_determined(x.config, y.config, value, more);
    config_laws::law_module_sdk_is_determined(x.config, y.config, value, more);
}

/// The digest of a module's configuration is the same, whatever the order in
/// which the modules are declared.
pub proof fn law_config_hashes_ignore_the_order(
    a: BuildRequest,
    known_a: BuildState,
    b: BuildRequest,
    known_b: BuildState,
    at: Seq<int>,
    j: int,
    hash: Seq<char>,
)
    requires
        is_reordered(a, known_a, b, known_b, at),
        b.plugins@.len() > 0,
        0 <= j < b.modules@.len(),
    ensures
        course::is_config_hash(hash, a, known_a, at[j]) <==> course::is_config_hash(
            hash,
            b,
            known_b,
            j,
        ),
{
    law_declaration_order_is_irrelevant(a, known_a, b, known_b, at, j, 0);
}

proof fn lemma_offered(request: BuildRequest, known: BuildState, x: int)
    requires
        are_named(request, known),
        0 <= x < request.modules@.len(),
    ensures
        ({
            let offers = course::offers_of(request, known.evaluations@, known.resolutions@);
            let module = request.modules@[x];
            let output = config::output_of(known.evaluations@[x]->model, module.dir@);
            let all = course::all_prepared(request, known.evaluations@, known.resolutions@);
            &&& output is Some ==> offers.outputs.contains_key(module.rel@)
                && offers.outputs[module.rel@] == output->0
            &&& classpath::api_for(offers, module.rel@) == all[x].classpath.api
        }),
{
    let n = request.modules@.len() as int;
    let all = course::all_prepared(request, known.evaluations@, known.resolutions@);
    let rel = request.modules@[x].rel@;
    assert forall|i: int, j: int|
        #![trigger request.modules@[i], request.modules@[j]]
        0 <= i < n && 0 <= j < n && request.modules@[i].rel@
            == request.modules@[j].rel@ implies all[i] == all[j] by {
        assert(is_same_module(request, known, i, request, known, j));
    }
    lemma_outputs(request, known, n);
    lemma_apis(request, all, n);
    assert(shows(request, all, x, rel, all[x].classpath.api));
    assert(maps(course::apis_of(request, all, n), rel, all[x].classpath.api));
    let output = config::output_of(known.evaluations@[x]->model, request.modules@[x].dir@);
    if output is Some {
        assert(produces(request, known.evaluations@, x, rel, output->0));
        assert(maps(course::outputs_of(request, known.evaluations@, n), rel, output->0));
    }
}

/// Whether a reference to module `x` brings a jar: the artifact of the module,
/// or under `api` one of the jars that it shows to its consumers.
pub open spec fn is_jar_of(
    request: BuildRequest,
    known: BuildState,
    x: int,
    reference: (MavenScope, Seq<char>),
    jar: Seq<char>,
) -> bool {
    let module = request.modules@[x];
    let all = course::all_prepared(request, known.evaluations@, known.resolutions@);
    &&& classpath::module_name(reference.1) == module.rel@
    &&& reference.0 is Api || reference.0 is Implementation
    &&& config::output_of(known.evaluations@[x]->model, module.dir@) == Some(jar) || (
    reference.0 is Api && all[x].classpath.api.contains(jar))
}

/// A consumer gets the artifact of a module that it refers to, and under `api`
/// also the jars that this module shows, wherever the two are declared: module
/// `x` may come before module `m` or behind it.
pub proof fn law_consumers_get_what_they_refer_to(
    request: BuildRequest,
    known: BuildState,
    m: int,
    x: int,
    r: int,
    jar: Seq<char>,
)
    requires
        are_named(request, known),
        0 <= m < request.modules@.len(),
        0 <= x < request.modules@.len(),
        course::linked_at(request, known, m) is Ok,
        ({
            let all = course::all_prepared(request, known.evaluations@, known.resolutions@);
            0 <= r < all[m].refs.len() && is_jar_of(request, known, x, all[m].refs[r], jar)
        }),
    ensures
        classpath::reaches(course::linked_at(request, known, m)->Ok_0.classpath, jar),
{
    let all = course::all_prepared(request, known.evaluations@, known.resolutions@);
    let offers = course::offers_of(request, known.evaluations@, known.resolutions@);
    let refs = all[m].refs;
    let n = refs.len() as int;
    lemma_offered(request, known, x);
    classpath::law_references_bring_jars(refs, offers, n, r, jar);
    classpath::law_joining_keeps_jars(
        all[m].classpath,
        classpath::refs_paths(refs, offers, n)->Ok_0,
        jar,
    );
}

/// A source set gets the artifact of a module that it refers to, and under `api`
/// also the jars that this module shows, wherever the two modules are declared.
pub proof fn law_source_sets_get_what_they_refer_to(
    request: BuildRequest,
    known: BuildState,
    m: int,
    x: int,
    s: int,
    r: int,
    jar: Seq<char>,
)
    requires
        are_named(request, known),
        0 <= m < request.modules@.len(),
        0 <= x < request.modules@.len(),
        course::linked_at(request, known, m) is Ok,
        ({
            let all = course::all_prepared(request, known.evaluations@, known.resolutions@);
            let refs = all[m].set_refs;
            &&& 0 <= s < refs.len()
            &&& 0 <= r < refs[s].1.len()
            &&& is_jar_of(request, known, x, refs[s].1[r], jar)
            &&& modules::set_at(all[m].sets, refs[s].0, 0) < all[m].sets.len()
        }),
    ensures
        ({
            let all = course::all_prepared(request, known.evaluations@, known.resolutions@);
            let at = modules::set_at(all[m].sets, all[m].set_refs[s].0, 0);
            classpath::reaches(course::linked_at(request, known, m)->Ok_0.sets[at].1, jar)
        }),
{
    let all = course::all_prepared(request, known.evaluations@, known.resolutions@);
    let offers = course::offers_of(request, known.evaluations@, known.resolutions@);
    lemma_offered(request, known, x);
    modules::law_source_set_references_bring_jars(
        all[m].sets,
        all[m].set_refs,
        offers,
        all[m].set_refs.len() as int,
        s,
        r,
        jar,
    );
}

} // verus!
