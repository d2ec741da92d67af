//! Classpaths across modules.

use vstd::prelude::*;
use crate::driver::deps;
use crate::driver::deps::ProjectRefs;
use crate::maven;
use crate::maven::{Classpath, MavenScope, Paths};
use crate::text;
use crate::text_map::TextMap;

verus! {

/// A list of paths with those of another behind it that it does not have yet.
pub open spec fn with_missing(list: Seq<Seq<char>>, more: Seq<Seq<char>>, n: int) -> Seq<Seq<char>>
    decreases n,
{
    if n <= 0 {
        list
    } else {
        let before = with_missing(list, more, n - 1);
        if text::has_path(before, more[n - 1]) {
            before
        } else {
            before.push(more[n - 1])
        }
    }
}

fn push_missing(list: &mut Vec<String>, jar: &String)
    ensures
        text::texts(final(list)@) == if text::has_path(text::texts(old(list)@), jar@) {
            text::texts(old(list)@)
        } else {
            text::texts(old(list)@).push(jar@)
        },
{
    if !text::is_path_among(list, jar) {
        push_text(list, jar);
    }
}

/// Adds to a list of paths those of another that it does not have yet.
pub fn add_missing(list: &mut Vec<String>, more: &Vec<String>)
    ensures
        text::texts(final(list)@) == with_missing(
            text::texts(old(list)@),
            text::texts(more@),
            more@.len() as int,
        ),
{
    let ghost before = text::texts(list@);
    let ghost all = text::texts(more@);
    let mut i: usize = 0;
    while i < more.len()
        invariant
            all == text::texts(more@),
            i <= more@.len(),
            text::texts(list@) == with_missing(before, all, i as int),
        decreases more.len() - i,
    {
        push_missing(list, &more[i]);
        i += 1;
    }
}

/// The jars visible to the consumers of a module: its own, and those of its
/// first `n` source sets.
pub open spec fn api_of(api: Seq<Seq<char>>, sets: Seq<(Seq<char>, Paths)>, n: int) -> Seq<Seq<char>>
    decreases n,
{
    if n <= 0 {
        api
    } else {
        let before = api_of(api, sets, n - 1);
        with_missing(before, sets[n - 1].1.api, sets[n - 1].1.api.len() as int)
    }
}

/// Adds the jars that the source sets of a module show to its consumers.
pub fn merge_api(classpath: &mut Classpath, sets: &Vec<(String, Classpath)>)
    ensures
        final(classpath)@ == (Paths {
            api: api_of(old(classpath)@.api, deps::set_paths(sets@), sets@.len() as int),
            ..old(classpath)@
        }),
{
    let ghost before = classpath@;
    let ghost all = deps::set_paths(sets@);
    let mut i: usize = 0;
    while i < sets.len()
        invariant
            all == deps::set_paths(sets@),
            i <= sets@.len(),
            classpath@ == (Paths { api: api_of(before.api, all, i as int), ..before }),
        decreases sets.len() - i,
    {
        assert(all[i as int] == (sets@[i as int].0@, sets@[i as int].1@));
        add_missing(&mut classpath.api, &sets[i].1.api);
        i += 1;
    }
}

/// The name a reference to a module stands for: without the leading colon.
pub open spec fn module_name(path: Seq<char>) -> Seq<char> {
    if path.len() > 0 && path[0] == ':' {
        path.drop_first()
    } else {
        path
    }
}

fn strip_colon(path: &str) -> (name: String)
    ensures
        name@ == module_name(path@),
{
    let chars = text::chars_of(path);
    if chars.len() > 0 && chars[0] == ':' {
        let name = text::from_chars(&chars, 1, chars.len());
        assert(name@ == path@.drop_first());
        name
    } else {
        path.to_owned()
    }
}

/// Whether a text is among those of a list.
pub fn is_among(list: &Vec<String>, item: &str) -> (yes: bool)
    ensures
        yes == text::texts(list@).contains(item@),
{
    let ghost all = text::texts(list@);
    match text::position(list, item) {
        Some(i) => {
            assert(all[i as int] == item@);
            true
        },
        None => {
            assert(!all.contains(item@)) by {
                if all.contains(item@) {
                    let i = choose|i: int| 0 <= i < all.len() && all[i] == item@;
                    assert(list@[i]@ == item@);
                }
            }
            false
        },
    }
}

/// What the modules of a project have to offer each other.
pub struct Offers {
    /// The modules that are declared.
    pub modules: Seq<Seq<char>>,
    /// The artifact each module produces.
    pub outputs: Map<Seq<char>, Seq<char>>,
    /// The jars each module shows to its consumers.
    pub apis: Map<Seq<char>, Seq<Seq<char>>>,
}

/// The artifacts of modules as a specification value.
pub open spec fn output_map(map: Map<Seq<char>, String>) -> Map<Seq<char>, Seq<char>> {
    map.map_values(|path: String| path@)
}

/// The visible jars of modules as a specification value.
pub open spec fn api_map(map: Map<Seq<char>, Vec<String>>) -> Map<Seq<char>, Seq<Seq<char>>> {
    map.map_values(|jars: Vec<String>| text::texts(jars@))
}

/// Why a reference to a module cannot be followed, where it cannot.
pub open spec fn ref_error(
    modules: Seq<Seq<char>>,
    outputs: Map<Seq<char>, Seq<char>>,
    path: Seq<char>,
) -> Option<Seq<char>> {
    let name = module_name(path);
    if !modules.contains(name) {
        Some(
            "project(\""@ + path + "\"): module '"@ + name + "' is not declared in settings.ulb"@,
        )
    } else if !outputs.contains_key(name) {
        Some(
            "project(\""@ + path + "\"): module '"@ + name
                + "' has no discoverable output (expected jvm.jarFile or android.apk in its build.ulb)"@,
        )
    } else {
        None
    }
}

/// The classpath with the artifact of a module added under a scope. `api`
/// brings the jars that the module itself shows to its consumers.
pub open spec fn with_module(
    paths: Paths,
    scope: MavenScope,
    output: Seq<char>,
    api: Seq<Seq<char>>,
) -> Paths {
    match scope {
        MavenScope::Api => Paths {
            compile: with_missing(paths.compile.push(output), api, api.len() as int),
            runtime: with_missing(paths.runtime.push(output), api, api.len() as int),
            ..paths
        },
        MavenScope::Implementation => Paths {
            compile: paths.compile.push(output),
            runtime: paths.runtime.push(output),
            ..paths
        },
        MavenScope::RuntimeOnly => Paths { runtime: paths.runtime.push(output), ..paths },
        MavenScope::CompileOnly => Paths { compile: paths.compile.push(output), ..paths },
        MavenScope::TestImplementation => Paths {
            test_compile: paths.test_compile.push(output),
            test_runtime: paths.test_runtime.push(output),
            ..paths
        },
        MavenScope::Ksp => paths,
        MavenScope::AndroidTestImplementation => paths,
    }
}

/// The jars a module shows to its consumers.
pub open spec fn api_for(offers: Offers, name: Seq<char>) -> Seq<Seq<char>> {
    if offers.apis.contains_key(name) {
        offers.apis[name]
    } else {
        Seq::empty()
    }
}

/// The classpath of the first `n` references to other modules.
pub open spec fn refs_paths(
    refs: Seq<(MavenScope, Seq<char>)>,
    offers: Offers,
    n: int,
) -> Result<Paths, Seq<char>>
    decreases n,
{
    if n <= 0 {
        Ok(maven::no_paths())
    } else {
        match refs_paths(refs, offers, n - 1) {
            Err(message) => Err(message),
            Ok(paths) => match ref_error(offers.modules, offers.outputs, refs[n - 1].1) {
                Some(message) => Err(message),
                None => {
                    let name = module_name(refs[n - 1].1);
                    Ok(
                        with_module(
                            paths,
                            refs[n - 1].0,
                            offers.outputs[name],
                            api_for(offers, name),
                        ),
                    )
                },
            },
        }
    }
}

/// A classpath, or why there is none, as a specification value.
pub open spec fn paths_result(result: Result<Classpath, String>) -> Result<Paths, Seq<char>> {
    match result {
        Ok(classpath) => Ok(classpath@),
        Err(message) => Err(message@),
    }
}

proof fn lemma_refs_err(refs: Seq<(MavenScope, Seq<char>)>, offers: Offers, m: int, n: int)
    requires
        0 <= m <= n,
        refs_paths(refs, offers, m) is Err,
    ensures
        refs_paths(refs, offers, n) == refs_paths(refs, offers, m),
    decreases n,
{
    if m < n {
        lemma_refs_err(refs, offers, m, n - 1);
    }
}

fn push_text(list: &mut Vec<String>, item: &String)
    ensures
        text::texts(final(list)@) == text::texts(old(list)@).push(item@),
{
    let ghost before = list@;
    list.push(item.clone());
    assert(text::texts(list@) == text::texts(before).push(item@));
}

fn add_module(
    classpath: &mut Classpath,
    scope: MavenScope,
    output: &String,
    api: Option<&Vec<String>>,
)
    ensures
        final(classpath)@ == with_module(
            old(classpath)@,
            scope,
            output@,
            match api {
                Some(jars) => text::texts(jars@),
                None => Seq::empty(),
            },
        ),
{
    match scope {
        MavenScope::Api => {
            push_text(&mut classpath.compile, output);
            push_text(&mut classpath.runtime, output);
            if let Some(jars) = api {
                add_missing(&mut classpath.compile, jars);
                add_missing(&mut classpath.runtime, jars);
            }
        },
        MavenScope::Implementation => {
            push_text(&mut classpath.compile, output);
            push_text(&mut classpath.runtime, output);
        },
        MavenScope::RuntimeOnly => {
            push_text(&mut classpath.runtime, output);
        },
        MavenScope::CompileOnly => {
            push_text(&mut classpath.compile, output);
        },
        MavenScope::TestImplementation => {
            push_text(&mut classpath.test_compile, output);
            push_text(&mut classpath.test_runtime, output);
        },
        MavenScope::Ksp => {},
        MavenScope::AndroidTestImplementation => {},
    }
}

/// Builds a [`Classpath`] from project-module references.
///
/// Each `(scope, path)` pair is resolved against `module_outputs`
/// (a map from module relative path to output artifact) and
/// `module_api_classpaths` (direct `api`-scoped jars per module).
///
/// `implementation` and `api` refs inject the module output into both
/// compile and runtime.  `api` refs additionally propagate the depended
/// module's `api` classpath (direct `api`-scoped jars) so that consumers
/// see transitive `api` deps.  `runtimeOnly` injects into runtime only;
/// `compileOnly` injects into compile only; `testImplementation` injects
/// into test compile and test runtime.
///
/// `ksp` and `androidTestImplementation` have no cross-module meaning for
/// project references; a ref using either scope is skipped (see
/// [`skipped_refs`]), degrading to a smaller classpath rather than
/// failing the build.
///
/// # Errors
///
/// Returns an error when a referenced module path does not appear in
/// `settings_modules` or has no discoverable output.
pub fn resolve_project_classpath(
    project_refs: &ProjectRefs,
    module_outputs: &TextMap<String>,
    module_api_classpaths: &TextMap<Vec<String>>,
    settings_modules: &Vec<String>,
) -> (result: Result<Classpath, String>)
    ensures
        paths_result(result) == refs_paths(
            maven::scoped_refs(project_refs@),
            (Offers {
                modules: text::texts(settings_modules@),
                outputs: output_map(module_outputs@),
                apis: api_map(module_api_classpaths@),
            }),
            project_refs@.len() as int,
        ),
{
    let ghost refs = maven::scoped_refs(project_refs@);
    let ghost offers = Offers {
        modules: text::texts(settings_modules@),
        outputs: output_map(module_outputs@),
        apis: api_map(module_api_classpaths@),
    };
    let mut classpath = Classpath::default();
    let mut i: usize = 0;
    while i < project_refs.len()
        invariant
            refs == maven::scoped_refs(project_refs@),
            offers == (Offers {
                modules: text::texts(settings_modules@),
                outputs: output_map(module_outputs@),
                apis: api_map(module_api_classpaths@),
            }),
            i <= project_refs@.len(),
            refs_paths(refs, offers, i as int) == Ok::<Paths, Seq<char>>(classpath@),
        decreases project_refs.len() - i,
    {
        let scope = project_refs[i].0;
        let path = &project_refs[i].1;
        let name = strip_colon(path);
        proof {
            assert(refs[i as int] == (scope, path@));
            if ref_error(offers.modules, offers.outputs, path@) is Some {
                lemma_refs_err(refs, offers, i + 1, refs.len() as int);
            }
        }
        if !is_among(settings_modules, &name) {
            return Err(
                "project(\"".to_owned().concat(path).concat("\"): module '").concat(
                    &name,
                ).concat("' is not declared in settings.ulb"),
            );
        }
        let output = match module_outputs.get(&name) {
            Some(output) => output,
            None => {
                return Err(
                    "project(\"".to_owned().concat(path).concat("\"): module '").concat(
                        &name,
                    ).concat(
                        "' has no discoverable output (expected jvm.jarFile or android.apk in its build.ulb)",
                    ),
                );
            },
        };
        add_module(&mut classpath, scope, output, module_api_classpaths.get(&name));
        i += 1;
    }
    Ok(classpath)
}

/// The name of a scope that has no meaning across modules.
pub open spec fn skipped_scope(scope: MavenScope) -> Option<Seq<char>> {
    match scope {
        MavenScope::Ksp => Some("ksp"@),
        MavenScope::AndroidTestImplementation => Some("androidTestImplementation"@),
        _ => None,
    }
}

/// The warning about a reference under a scope without a meaning across
/// modules.
pub open spec fn skip_warning(path: Seq<char>, scope: Seq<char>) -> Seq<char> {
    "project(\""@ + path + "\"): "@ + scope
        + " scope is not supported for project dependencies; skipping"@
}

/// The warnings about the references from `from` on, up to the first one that
/// cannot be followed.
pub open spec fn skip_warnings(
    refs: Seq<(MavenScope, Seq<char>)>,
    modules: Seq<Seq<char>>,
    outputs: Map<Seq<char>, Seq<char>>,
    from: int,
) -> Seq<Seq<char>>
    decreases refs.len() - from,
{
    if from >= refs.len() || ref_error(modules, outputs, refs[from].1) is Some {
        Seq::empty()
    } else {
        let rest = skip_warnings(refs, modules, outputs, from + 1);
        match skipped_scope(refs[from].0) {
            Some(scope) => seq![skip_warning(refs[from].1, scope)] + rest,
            None => rest,
        }
    }
}

/// The warnings to give about project references that
/// [`resolve_project_classpath`] skips.
pub fn skipped_refs(
    project_refs: &ProjectRefs,
    module_outputs: &TextMap<String>,
    settings_modules: &Vec<String>,
) -> (warnings: Vec<String>)
    ensures
        text::texts(warnings@) == skip_warnings(
            maven::scoped_refs(project_refs@),
            text::texts(settings_modules@),
            output_map(module_outputs@),
            0,
        ),
{
    let ghost refs = maven::scoped_refs(project_refs@);
    let ghost modules = text::texts(settings_modules@);
    let ghost outputs = output_map(module_outputs@);
    let ghost all = skip_warnings(refs, modules, outputs, 0);
    let mut warnings: Vec<String> = Vec::new();
    let mut i: usize = 0;
    assert(text::texts(warnings@) + all == all);
    while i < project_refs.len()
        invariant
            refs == maven::scoped_refs(project_refs@),
            modules == text::texts(settings_modules@),
            outputs == output_map(module_outputs@),
            i <= project_refs@.len(),
            all == skip_warnings(refs, modules, outputs, 0),
            text::texts(warnings@) + skip_warnings(refs, modules, outputs, i as int) == all,
        decreases project_refs.len() - i,
    {
        let path = &project_refs[i].1;
        let name = strip_colon(path);
        assert(refs[i as int] == (project_refs@[i as int].0, path@));
        if !is_among(settings_modules, &name) || !module_outputs.contains_key(&name) {
            assert(text::texts(warnings@) + Seq::<Seq<char>>::empty() == text::texts(warnings@));
            return warnings;
        }
        let scope = match project_refs[i].0 {
            MavenScope::Ksp => Some("ksp"),
            MavenScope::AndroidTestImplementation => Some("androidTestImplementation"),
            _ => None,
        };
        if let Some(scope) = scope {
            let ghost was = text::texts(warnings@);
            let warning = "project(\"".to_owned().concat(path).concat("\"): ").concat(
                scope,
            ).concat(" scope is not supported for project dependencies; skipping");
            let ghost rest = skip_warnings(refs, modules, outputs, i + 1);
            push_text(&mut warnings, &warning);
            assert(was.push(warning@) + rest == was + (seq![warning@] + rest));
        }
        i += 1;
    }
    assert(text::texts(warnings@) + Seq::<Seq<char>>::empty() == text::texts(warnings@));
    warnings
}

/// A classpath with the jars of other modules behind its own.
pub open spec fn joined(paths: Paths, more: Paths) -> Paths {
    Paths {
        compile: paths.compile + more.compile,
        runtime: paths.runtime + more.runtime,
        test_compile: paths.test_compile + more.test_compile,
        test_runtime: paths.test_runtime + more.test_runtime,
        ..paths
    }
}

/// Adds the jars of other modules behind those of a classpath.
pub fn join_classpath(classpath: &mut Classpath, more: &Classpath)
    ensures
        final(classpath)@ == joined(old(classpath)@, more@),
{
    text::extend_texts(&mut classpath.compile, &more.compile);
    text::extend_texts(&mut classpath.runtime, &more.runtime);
    text::extend_texts(&mut classpath.test_compile, &more.test_compile);
    text::extend_texts(&mut classpath.test_runtime, &more.test_runtime);
}

pub proof fn lemma_missing_keeps(list: Seq<Seq<char>>, more: Seq<Seq<char>>, n: int)
    requires
        0 <= n <= more.len(),
    ensures
        list.is_prefix_of(with_missing(list, more, n)),
        forall|i: int| 0 <= i < n ==> text::has_path(with_missing(list, more, n), #[trigger] more[i]),
    decreases n,
{
    if n > 0 {
        lemma_missing_keeps(list, more, n - 1);
        let before = with_missing(list, more, n - 1);
        let after = with_missing(list, more, n);
        if !text::has_path(before, more[n - 1]) {
            assert(after[before.len() as int] == more[n - 1]);
        }
        assert(list.is_prefix_of(after)) by {
            assert(list == after.subrange(0, list.len() as int)) by {
                assert(list == before.subrange(0, list.len() as int));
            }
        }
        assert forall|i: int| 0 <= i < n implies text::has_path(after, #[trigger] more[i]) by {
            if i < n - 1 || text::has_path(before, more[i]) {
                assert(text::has_path(before, more[i]));
                let k = choose|k: int|
                    0 <= k < before.len() && text::same_path(#[trigger] before[k], more[i]);
                assert(after[k] == before[k]);
            }
        }
    }
}

/// An `api` reference shows a consumer, to compile against and to run with,
/// the module itself and everything the module shows to its consumers.
pub proof fn law_api_is_passed_on(paths: Paths, output: Seq<char>, api: Seq<Seq<char>>, jar: Seq<char>)
    requires
        jar == output || api.contains(jar),
    ensures
        text::has_path(with_module(paths, MavenScope::Api, output, api).compile, jar),
        text::has_path(with_module(paths, MavenScope::Api, output, api).runtime, jar),
{
    let n = api.len() as int;
    let compile = paths.compile.push(output);
    let runtime = paths.runtime.push(output);
    lemma_missing_keeps(compile, api, n);
    lemma_missing_keeps(runtime, api, n);
    let all = with_missing(compile, api, n);
    let run = with_missing(runtime, api, n);
    if jar == output {
        assert(all[paths.compile.len() as int] == compile[paths.compile.len() as int]);
        assert(run[paths.runtime.len() as int] == runtime[paths.runtime.len() as int]);
    } else {
        let i = choose|i: int| 0 <= i < api.len() && api[i] == jar;
        assert(text::has_path(all, api[i]));
        assert(text::has_path(run, api[i]));
    }
}

/// An `implementation` reference brings the module itself and nothing that it
/// shows to its consumers.
pub proof fn law_implementation_is_private(
    paths: Paths,
    output: Seq<char>,
    api: Seq<Seq<char>>,
)
    ensures
        with_module(paths, MavenScope::Implementation, output, api) == with_module(
            paths,
            MavenScope::Implementation,
            output,
            Seq::empty(),
        ),
        with_module(paths, MavenScope::Implementation, output, api).compile
            == paths.compile.push(output),
{
}

/// The order in which a project declares its modules plays no role for the
/// references between them.
pub proof fn law_module_order_is_irrelevant(
    refs: Seq<(MavenScope, Seq<char>)>,
    a: Offers,
    b: Offers,
    n: int,
)
    requires
        a.outputs == b.outputs,
        a.apis == b.apis,
        forall|name: Seq<char>| #[trigger] a.modules.contains(name) == b.modules.contains(name),
    ensures
        refs_paths(refs, a, n) == refs_paths(refs, b, n),
    decreases n,
{
    if n > 0 {
        law_module_order_is_irrelevant(refs, a, b, n - 1);
        assert(a.modules.contains(module_name(refs[n - 1].1)) == b.modules.contains(
            module_name(refs[n - 1].1),
        ));
    }
}

/// Whether a jar is there to compile against and to run with.
pub open spec fn reaches(paths: Paths, jar: Seq<char>) -> bool {
    text::has_path(paths.compile, jar) && text::has_path(paths.runtime, jar)
}

/// Whether a reference brings a jar to compile against and to run with: the
/// artifact of the module that it names, or under `api` one of the jars that
/// this module shows to its consumers.
pub open spec fn is_brought(
    refs: Seq<(MavenScope, Seq<char>)>,
    offers: Offers,
    r: int,
    jar: Seq<char>,
) -> bool {
    let name = module_name(refs[r].1);
    &&& 0 <= r < refs.len()
    &&& refs[r].0 is Api || refs[r].0 is Implementation
    &&& jar == offers.outputs[name] || (refs[r].0 is Api && api_for(offers, name).contains(jar))
}

proof fn lemma_longer_has_path(list: Seq<Seq<char>>, longer: Seq<Seq<char>>, jar: Seq<char>)
    requires
        list.is_prefix_of(longer),
        text::has_path(list, jar),
    ensures
        text::has_path(longer, jar),
{
    let i = choose|i: int| 0 <= i < list.len() && text::same_path(#[trigger] list[i], jar);
    assert(list == longer.subrange(0, list.len() as int));
    assert(longer[i] == list[i]);
}

proof fn lemma_still_reaches(
    paths: Paths,
    scope: MavenScope,
    output: Seq<char>,
    api: Seq<Seq<char>>,
    jar: Seq<char>,
)
    requires
        reaches(paths, jar),
    ensures
        reaches(with_module(paths, scope, output, api), jar),
{
    let after = with_module(paths, scope, output, api);
    let compile = paths.compile.push(output);
    let runtime = paths.runtime.push(output);
    assert(paths.compile == compile.subrange(0, paths.compile.len() as int));
    assert(paths.runtime == runtime.subrange(0, paths.runtime.len() as int));
    lemma_longer_has_path(paths.compile, compile, jar);
    lemma_longer_has_path(paths.runtime, runtime, jar);
    if scope is Api {
        lemma_missing_keeps(compile, api, api.len() as int);
        lemma_missing_keeps(runtime, api, api.len() as int);
        lemma_longer_has_path(compile, after.compile, jar);
        lemma_longer_has_path(runtime, after.runtime, jar);
    }
}

proof fn lemma_same_path(path: Seq<char>)
    ensures
        text::same_path(path, path),
{
}

/// What the references of a module bring is among its jars, whichever other
/// references stand before or behind.
pub proof fn law_references_bring_jars(
    refs: Seq<(MavenScope, Seq<char>)>,
    offers: Offers,
    n: int,
    r: int,
    jar: Seq<char>,
)
    requires
        0 <= r < n <= refs.len(),
        refs_paths(refs, offers, n) is Ok,
        is_brought(refs, offers, r, jar),
    ensures
        reaches(refs_paths(refs, offers, n)->Ok_0, jar),
    decreases n,
{
    let paths = refs_paths(refs, offers, n - 1)->Ok_0;
    let name = module_name(refs[n - 1].1);
    let output = offers.outputs[name];
    let api = api_for(offers, name);
    if r == n - 1 {
        if refs[r].0 is Api {
            law_api_is_passed_on(paths, output, api, jar);
        } else {
            let compile = paths.compile.push(output);
            let runtime = paths.runtime.push(output);
            lemma_same_path(jar);
            assert(compile[paths.compile.len() as int] == jar);
            assert(runtime[paths.runtime.len() as int] == jar);
        }
    } else {
        law_references_bring_jars(refs, offers, n - 1, r, jar);
        lemma_still_reaches(paths, refs[n - 1].0, output, api, jar);
    }
}

/// Joining keeps what is on either side.
pub proof fn law_joining_keeps_jars(paths: Paths, more: Paths, jar: Seq<char>)
    requires
        reaches(paths, jar) || reaches(more, jar),
    ensures
        reaches(joined(paths, more), jar),
{
    let after = joined(paths, more);
    if reaches(paths, jar) {
        assert(paths.compile == after.compile.subrange(0, paths.compile.len() as int));
        assert(paths.runtime == after.runtime.subrange(0, paths.runtime.len() as int));
        lemma_longer_has_path(paths.compile, after.compile, jar);
        lemma_longer_has_path(paths.runtime, after.runtime, jar);
    } else {
        let i = choose|i: int|
            0 <= i < more.compile.len() && text::same_path(#[trigger] more.compile[i], jar);
        assert(after.compile[paths.compile.len() + i] == more.compile[i]);
        let k = choose|k: int|
            0 <= k < more.runtime.len() && text::same_path(#[trigger] more.runtime[k], jar);
        assert(after.runtime[paths.runtime.len() + k] == more.runtime[k]);
    }
}

} // verus!
