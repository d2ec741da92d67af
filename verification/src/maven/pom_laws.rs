//! What reading a POM gives back of what was written into it.

use vstd::prelude::*;
use crate::maven::pom;
use crate::maven::pom::{PomDep, PomScope, Reading, XmlItem};
use crate::text;

verus! {

/// A dependency as a POM writes it.
pub struct Written {
    /// The group.
    pub group: Seq<char>,
    /// The artifact.
    pub artifact: Seq<char>,
    /// What the `version` element holds, where there is one.
    pub version: Option<Seq<char>>,
    /// What the `scope` element holds, where there is one.
    pub scope: Option<Seq<char>>,
    /// What the `optional` element holds, where there is one.
    pub optional: Option<Seq<char>>,
}

/// Whether a text is more than white space.
pub open spec fn is_filled(s: Seq<char>) -> bool {
    !text::all_space(s)
}

/// Whether the elements of a dependency that are there are filled.
pub open spec fn is_written(dep: Written) -> bool {
    &&& is_filled(dep.group)
    &&& is_filled(dep.artifact)
    &&& dep.version matches Some(s) ==> is_filled(s)
    &&& dep.scope matches Some(s) ==> is_filled(s)
    &&& dep.optional matches Some(s) ==> is_filled(s)
}

/// An element that holds a text.
pub open spec fn element(name: Seq<char>, content: Seq<char>) -> Seq<XmlItem> {
    seq![XmlItem::Start(name), XmlItem::Text(content), XmlItem::End(name)]
}

/// An element that may be missing.
pub open spec fn maybe(name: Seq<char>, content: Option<Seq<char>>) -> Seq<XmlItem> {
    match content {
        Some(s) => element(name, s),
        None => Seq::empty(),
    }
}

/// What is written of a dependency.
pub open spec fn dep_items(dep: Written) -> Seq<XmlItem> {
    seq![XmlItem::Start("dependency"@)] + (element("groupId"@, dep.group) + (element(
        "artifactId"@,
        dep.artifact,
    ) + (maybe("version"@, dep.version) + (maybe("scope"@, dep.scope) + (maybe(
        "optional"@,
        dep.optional,
    ) + seq![XmlItem::End("dependency"@)])))))
}

/// What is written of the first `n` dependencies.
pub open spec fn list_items(deps: Seq<Written>, n: int) -> Seq<XmlItem>
    decreases n,
{
    if n <= 0 {
        Seq::empty()
    } else {
        list_items(deps, n - 1) + dep_items(deps[n - 1])
    }
}

/// A POM with a packaging, managed dependencies and direct ones.
pub open spec fn pom_items(
    packaging: Option<Seq<char>>,
    managed: Seq<Written>,
    deps: Seq<Written>,
) -> Seq<XmlItem> {
    seq![XmlItem::Start("project"@)] + (maybe("packaging"@, packaging) + (seq![
        XmlItem::Start("dependencyManagement"@),
        XmlItem::Start("dependencies"@),
    ] + (list_items(managed, managed.len() as int) + (seq![
        XmlItem::End("dependencies"@),
        XmlItem::End("dependencyManagement"@),
        XmlItem::Start("dependencies"@),
    ] + (list_items(deps, deps.len() as int) + seq![
        XmlItem::End("dependencies"@),
        XmlItem::End("project"@),
    ])))))
}

/// The scope that a dependency has: `runtime`, or else compile scope.
pub open spec fn scope_of(dep: Written) -> PomScope {
    if dep.scope == Some("runtime"@) {
        PomScope::Runtime
    } else {
        PomScope::Compile
    }
}

/// Whether a direct dependency reaches a consumer: it is not optional, and its
/// scope is none of `test`, `provided` and `system`.
pub open spec fn is_kept(dep: Written) -> bool {
    dep.optional != Some("true"@) && dep.scope != Some("test"@) && dep.scope != Some("provided"@)
        && dep.scope != Some("system"@)
}

/// The version that a text stands for: that between the brackets of a pin, else
/// the text itself.
pub open spec fn is_version_of(version: Seq<char>, written: Seq<char>) -> bool {
    if written.len() > 2 && written[0] == '[' && written[written.len() - 1] == ']' && forall|i: int|
        0 <= i < written.len() ==> #[trigger] written[i] != ',' {
        written == seq!['['] + version + seq![']']
    } else {
        version == written
    }
}

/// Whether a dependency was read as it was written.
pub open spec fn is_read(found: PomDep, dep: Written, direct: bool) -> bool {
    &&& found.group == dep.group
    &&& found.artifact == dep.artifact
    &&& match dep.version {
        None => found.version is None,
        Some(s) => match found.version {
            Some(version) => is_version_of(version, s) && !(direct && version == "unspecified"@),
            None => direct && is_version_of("unspecified"@, s),
        },
    }
    &&& direct ==> found.scope == scope_of(dep) && !found.optional
}

/// Whether dependencies were read as they were written, in order; of the direct
/// ones those that reach a consumer.
pub open spec fn are_read(found: Seq<PomDep>, deps: Seq<Written>, n: int, direct: bool) -> bool
    decreases n,
{
    if n <= 0 {
        found.len() == 0
    } else if direct && !is_kept(deps[n - 1]) {
        are_read(found, deps, n - 1, direct)
    } else {
        &&& found.len() > 0
        &&& is_read(found.last(), deps[n - 1], direct)
        &&& are_read(found.drop_last(), deps, n - 1, direct)
    }
}

/// The reading after more items.
spec fn read_on(reading: Reading, items: Seq<XmlItem>) -> Reading
    decreases items.len(),
{
    if items.len() == 0 {
        reading
    } else {
        pom::after_item(read_on(reading, items.drop_last()), items.last())
    }
}

proof fn lemma_read_on(reading: Reading, a: Seq<XmlItem>, b: Seq<XmlItem>)
    ensures
        read_on(reading, a + b) == read_on(read_on(reading, a), b),
    decreases b.len(),
{
    if b.len() == 0 {
        assert(a + b =~= a);
    } else {
        assert((a + b).drop_last() =~= a + b.drop_last());
        assert((a + b).last() == b.last());
        lemma_read_on(reading, a, b.drop_last());
    }
}

proof fn lemma_read_all(items: Seq<XmlItem>)
    ensures
        pom::read_items(items) == read_on(pom::blank_reading(), items),
    decreases items.len(),
{
    if items.len() > 0 {
        lemma_read_all(items.drop_last());
    }
}

proof fn lemma_one(reading: Reading, item: XmlItem)
    ensures
        read_on(reading, seq![item]) == pom::after_item(reading, item),
{
    let items = seq![item];
    assert(items.drop_last() =~= Seq::<XmlItem>::empty());
    assert(read_on(reading, items.drop_last()) == reading);
}

proof fn lemma_three(reading: Reading, a: XmlItem, b: XmlItem, c: XmlItem)
    ensures
        read_on(reading, seq![a, b, c]) == pom::after_item(
            pom::after_item(pom::after_item(reading, a), b),
            c,
        ),
{
    assert(seq![a, b, c] =~= seq![a] + (seq![b] + seq![c]));
    lemma_read_on(reading, seq![a], seq![b] + seq![c]);
    lemma_one(reading, a);
    let first = pom::after_item(reading, a);
    lemma_read_on(first, seq![b], seq![c]);
    lemma_one(first, b);
    lemma_one(pom::after_item(first, b), c);
}

proof fn lemma_names_differ()
    ensures
        "groupId"@ != "artifactId"@,
        "groupId"@ != "version"@,
        "groupId"@ != "scope"@,
        "groupId"@ != "optional"@,
        "artifactId"@ != "version"@,
        "artifactId"@ != "scope"@,
        "artifactId"@ != "optional"@,
        "version"@ != "scope"@,
        "version"@ != "optional"@,
        "scope"@ != "optional"@,
        forall|name: Seq<char>| #[trigger]
            pom::is_dep_field(name) ==> name != "packaging"@ && name != "dependencyManagement"@
                && name != "dependencies"@ && name != "dependency"@,
        "packaging"@ != "dependencyManagement"@,
        "packaging"@ != "dependencies"@,
        "packaging"@ != "dependency"@,
        "dependencyManagement"@ != "dependencies"@,
        "dependencyManagement"@ != "dependency"@,
        "dependencies"@ != "dependency"@,
        "project"@ != "packaging"@,
        "project"@ != "dependencyManagement"@,
        "project"@ != "dependencies"@,
        "project"@ != "dependency"@,
        !pom::is_dep_field("project"@),
{
    reveal_strlit("groupId");
    reveal_strlit("artifactId");
    reveal_strlit("version");
    reveal_strlit("scope");
    reveal_strlit("optional");
    reveal_strlit("packaging");
    reveal_strlit("dependencyManagement");
    reveal_strlit("dependencies");
    reveal_strlit("dependency");
    reveal_strlit("project");
    assert("groupId"@.len() == 7 && "groupId"@[0] == 'g');
    assert("artifactId"@.len() == 10 && "artifactId"@[0] == 'a');
    assert("version"@.len() == 7 && "version"@[0] == 'v');
    assert("scope"@.len() == 5);
    assert("optional"@.len() == 8);
    assert("packaging"@.len() == 9);
    assert("dependencyManagement"@.len() == 20);
    assert("dependencies"@.len() == 12);
    assert("dependency"@.len() == 10 && "dependency"@[0] == 'd');
    assert("project"@.len() == 7 && "project"@[0] == 'p');
}

/// Whether a dependency is open and none of its elements is.
spec fn is_open(reading: Reading, dep: PomDep) -> bool {
    &&& pom::is_inside(reading, "dependency"@)
    &&& reading.current == Some(dep)
    &&& reading.field is None
}

proof fn lemma_element(reading: Reading, dep: PomDep, name: Seq<char>, content: Seq<char>)
    requires
        is_open(reading, dep),
        pom::is_dep_field(name),
        is_filled(content),
    ensures
        read_on(reading, element(name, content)) == (Reading {
            current: Some(pom::with_field(dep, name, content, reading.in_dependencies)),
            ..reading
        }),
{
    lemma_names_differ();
    lemma_three(
        reading,
        XmlItem::Start(name),
        XmlItem::Text(content),
        XmlItem::End(name),
    );
    let after = pom::after_item(
        pom::after_item(
            pom::after_item(reading, XmlItem::Start(name)),
            XmlItem::Text(content),
        ),
        XmlItem::End(name),
    );
    assert(reading.stack.push(name).drop_last() =~= reading.stack);
    assert(after.stack =~= reading.stack);
}

spec fn filled(dep: PomDep, name: Seq<char>, content: Option<Seq<char>>, direct: bool) -> PomDep {
    match content {
        Some(s) => pom::with_field(dep, name, s, direct),
        None => dep,
    }
}

proof fn lemma_maybe(reading: Reading, dep: PomDep, name: Seq<char>, content: Option<Seq<char>>)
    requires
        is_open(reading, dep),
        pom::is_dep_field(name),
        content matches Some(s) ==> is_filled(s),
    ensures
        read_on(reading, maybe(name, content)) == (Reading {
            current: Some(filled(dep, name, content, reading.in_dependencies)),
            ..reading
        }),
{
    if let Some(s) = content {
        lemma_element(reading, dep, name, s);
    }
}

/// Whether a list of dependencies is open: the direct ones, or the managed ones.
spec fn is_list_open(reading: Reading, direct: bool) -> bool {
    &&& pom::is_inside(reading, "dependencies"@)
    &&& reading.current is None
    &&& reading.field is None
    &&& reading.in_dependencies == direct
    &&& reading.in_management_deps == !direct
}

spec fn dep_of(dep: Written, direct: bool) -> PomDep {
    filled(
        filled(
            filled(
                pom::with_field(
                    pom::with_field(pom::blank_dep(), "groupId"@, dep.group, direct),
                    "artifactId"@,
                    dep.artifact,
                    direct,
                ),
                "version"@,
                dep.version,
                direct,
            ),
            "scope"@,
            dep.scope,
            direct,
        ),
        "optional"@,
        dep.optional,
        direct,
    )
}

proof fn lemma_dep(reading: Reading, dep: Written, direct: bool)
    requires
        is_list_open(reading, direct),
        is_written(dep),
    ensures
        read_on(reading, dep_items(dep)) == if !direct {
            Reading { managed_deps: reading.managed_deps.push(dep_of(dep, direct)), ..reading }
        } else if is_kept(dep) {
            Reading { deps: reading.deps.push(dep_of(dep, direct)), ..reading }
        } else {
            reading
        },
{
    lemma_names_differ();
    let end = seq![XmlItem::End("dependency"@)];
    let e5 = maybe("optional"@, dep.optional) + end;
    let e4 = maybe("scope"@, dep.scope) + e5;
    let e3 = maybe("version"@, dep.version) + e4;
    let e2 = element("artifactId"@, dep.artifact) + e3;
    let e1 = element("groupId"@, dep.group) + e2;
    let start = seq![XmlItem::Start("dependency"@)];
    lemma_read_on(reading, start, e1);
    lemma_one(reading, XmlItem::Start("dependency"@));
    let r0 = pom::after_item(reading, XmlItem::Start("dependency"@));
    let d0 = pom::blank_dep();
    assert(r0.stack.last() == "dependency"@);
    assert(is_open(r0, d0));
    lemma_read_on(r0, element("groupId"@, dep.group), e2);
    lemma_element(r0, d0, "groupId"@, dep.group);
    let d1 = pom::with_field(d0, "groupId"@, dep.group, direct);
    let r1 = Reading { current: Some(d1), ..r0 };
    lemma_read_on(r1, element("artifactId"@, dep.artifact), e3);
    lemma_element(r1, d1, "artifactId"@, dep.artifact);
    let d2 = pom::with_field(d1, "artifactId"@, dep.artifact, direct);
    let r2 = Reading { current: Some(d2), ..r0 };
    lemma_read_on(r2, maybe("version"@, dep.version), e4);
    lemma_maybe(r2, d2, "version"@, dep.version);
    let d3 = filled(d2, "version"@, dep.version, direct);
    let r3 = Reading { current: Some(d3), ..r0 };
    lemma_read_on(r3, maybe("scope"@, dep.scope), e5);
    lemma_maybe(r3, d3, "scope"@, dep.scope);
    let d4 = filled(d3, "scope"@, dep.scope, direct);
    let r4 = Reading { current: Some(d4), ..r0 };
    lemma_read_on(r4, maybe("optional"@, dep.optional), end);
    lemma_maybe(r4, d4, "optional"@, dep.optional);
    let d5 = filled(d4, "optional"@, dep.optional, direct);
    let r5 = Reading { current: Some(d5), ..r0 };
    lemma_one(r5, XmlItem::End("dependency"@));
    let after = pom::after_item(r5, XmlItem::End("dependency"@));
    assert(d5 == dep_of(dep, direct));
    lemma_dep_of(dep, direct);
    assert(r0.stack.drop_last() =~= reading.stack);
    assert(after.stack =~= reading.stack);
}

proof fn lemma_dep_of(dep: Written, direct: bool)
    requires
        is_written(dep),
    ensures
        dep_of(dep, direct).group == dep.group,
        dep_of(dep, direct).artifact == dep.artifact,
        dep.group.len() > 0,
        dep.artifact.len() > 0,
        dep_of(dep, direct).version == match dep.version {
            None => None,
            Some(s) => if direct && pom::pinned(s) == "unspecified"@ {
                None
            } else {
                Some(pom::pinned(s))
            },
        },
        dep_of(dep, direct).scope == match dep.scope {
            None => PomScope::Compile,
            Some(s) => pom::scope_named(s),
        },
        dep_of(dep, direct).optional == (dep.optional == Some("true"@)),
        is_kept(dep) <==> !dep_of(dep, direct).optional && dep_of(dep, direct).scope
            != PomScope::Skip,
        is_kept(dep) ==> dep_of(dep, direct).scope == scope_of(dep),
{
    lemma_names_differ();
    reveal_strlit("runtime");
    reveal_strlit("test");
    reveal_strlit("provided");
    reveal_strlit("system");
    assert("runtime"@.len() == 7);
    assert("test"@.len() == 4);
    assert("provided"@.len() == 8);
    assert("system"@.len() == 6);
}

/// The brackets of a pin are no part of the version; a range is left alone.
pub proof fn law_pins_are_versions(written: Seq<char>)
    ensures
        is_version_of(pom::pinned(written), written),
        forall|version: Seq<char>| #[trigger]
            is_version_of(version, written) ==> version == pom::pinned(written),
{
    let found = pom::pinned(written);
    let n = written.len() as int;
    if n > 2 && written[0] == '[' && written[n - 1] == ']' && forall|i: int|
        0 <= i < n ==> #[trigger] written[i] != ',' {
        assert(!written.contains(','));
        assert(written =~= seq!['['] + found + seq![']']);
        assert forall|version: Seq<char>| #[trigger]
            is_version_of(version, written) implies version == found by {
            let whole = seq!['['] + version + seq![']'];
            assert(version =~= whole.subrange(1, whole.len() - 1));
        }
    } else if n > 2 && written[0] == '[' && written[n - 1] == ']' {
        let i = choose|i: int| 0 <= i < n && written[i] == ',';
        assert(written.contains(','));
    }
}

proof fn lemma_read(dep: Written, direct: bool)
    requires
        is_written(dep),
        direct ==> is_kept(dep),
    ensures
        is_read(dep_of(dep, direct), dep, direct),
{
    lemma_dep_of(dep, direct);
    if let Some(s) = dep.version {
        law_pins_are_versions(s);
    }
}

proof fn lemma_list(reading: Reading, deps: Seq<Written>, n: int, direct: bool)
    requires
        is_list_open(reading, direct),
        0 <= n <= deps.len(),
        forall|i: int| 0 <= i < deps.len() ==> is_written(#[trigger] deps[i]),
        direct ==> reading.deps.len() == 0,
        !direct ==> reading.managed_deps.len() == 0,
    ensures
        ({
            let after = read_on(reading, list_items(deps, n));
            if direct {
                after == (Reading { deps: after.deps, ..reading }) && are_read(
                    after.deps,
                    deps,
                    n,
                    direct,
                )
            } else {
                after == (Reading { managed_deps: after.managed_deps, ..reading }) && are_read(
                    after.managed_deps,
                    deps,
                    n,
                    direct,
                )
            }
        }),
    decreases n,
{
    if n > 0 {
        lemma_list(reading, deps, n - 1, direct);
        let before = read_on(reading, list_items(deps, n - 1));
        let dep = deps[n - 1];
        lemma_read_on(reading, list_items(deps, n - 1), dep_items(dep));
        lemma_dep(before, dep, direct);
        let one = dep_of(dep, direct);
        if !direct || is_kept(dep) {
            lemma_read(dep, direct);
            if direct {
                assert(before.deps.push(one).drop_last() =~= before.deps);
            } else {
                assert(before.managed_deps.push(one).drop_last() =~= before.managed_deps);
            }
        }
    }
}

proof fn lemma_going_on(items: Seq<XmlItem>, from: int)
    requires
        0 <= from <= items.len(),
        forall|i: int| 0 <= i < items.len() ==> !pom::stops(#[trigger] items[i]),
    ensures
        pom::first_stop(items.push(XmlItem::Eof), from) == items.len(),
    decreases items.len() - from,
{
    let all = items.push(XmlItem::Eof);
    if from < items.len() {
        assert(all[from] == items[from]);
        lemma_going_on(items, from + 1);
    } else {
        assert(all[from] is Eof);
    }
}

/// Whether reading does not stop at any of the items.
spec fn goes_on(items: Seq<XmlItem>) -> bool {
    forall|i: int| 0 <= i < items.len() ==> !pom::stops(#[trigger] items[i])
}

proof fn lemma_both_go_on(a: Seq<XmlItem>, b: Seq<XmlItem>)
    requires
        goes_on(a),
        goes_on(b),
    ensures
        goes_on(a + b),
{
    let all = a + b;
    assert forall|i: int| 0 <= i < all.len() implies !pom::stops(#[trigger] all[i]) by {
        if i < a.len() {
            assert(all[i] == a[i]);
        } else {
            assert(all[i] == b[i - a.len()]);
        }
    }
}

proof fn lemma_dep_goes_on(dep: Written)
    ensures
        goes_on(dep_items(dep)),
{
    let end = seq![XmlItem::End("dependency"@)];
    let e5 = maybe("optional"@, dep.optional) + end;
    let e4 = maybe("scope"@, dep.scope) + e5;
    let e3 = maybe("version"@, dep.version) + e4;
    let e2 = element("artifactId"@, dep.artifact) + e3;
    let e1 = element("groupId"@, dep.group) + e2;
    lemma_both_go_on(maybe("optional"@, dep.optional), end);
    lemma_both_go_on(maybe("scope"@, dep.scope), e5);
    lemma_both_go_on(maybe("version"@, dep.version), e4);
    lemma_both_go_on(element("artifactId"@, dep.artifact), e3);
    lemma_both_go_on(element("groupId"@, dep.group), e2);
    lemma_both_go_on(seq![XmlItem::Start("dependency"@)], e1);
}

proof fn lemma_list_goes_on(deps: Seq<Written>, n: int)
    ensures
        goes_on(list_items(deps, n)),
    decreases n,
{
    if n > 0 {
        lemma_list_goes_on(deps, n - 1);
        lemma_dep_goes_on(deps[n - 1]);
        lemma_both_go_on(list_items(deps, n - 1), dep_items(deps[n - 1]));
    }
}

proof fn lemma_pom_goes_on(
    packaging: Option<Seq<char>>,
    managed: Seq<Written>,
    deps: Seq<Written>,
)
    ensures
        goes_on(pom_items(packaging, managed, deps)),
{
    let p7 = seq![XmlItem::End("dependencies"@), XmlItem::End("project"@)];
    let p6 = list_items(deps, deps.len() as int) + p7;
    let turn = seq![
        XmlItem::End("dependencies"@),
        XmlItem::End("dependencyManagement"@),
        XmlItem::Start("dependencies"@),
    ];
    let p5 = turn + p6;
    let p4 = list_items(managed, managed.len() as int) + p5;
    let opening = seq![
        XmlItem::Start("dependencyManagement"@),
        XmlItem::Start("dependencies"@),
    ];
    let p3 = opening + p4;
    let p2 = maybe("packaging"@, packaging) + p3;
    lemma_list_goes_on(managed, managed.len() as int);
    lemma_list_goes_on(deps, deps.len() as int);
    lemma_both_go_on(list_items(deps, deps.len() as int), p7);
    lemma_both_go_on(turn, p6);
    lemma_both_go_on(list_items(managed, managed.len() as int), p5);
    lemma_both_go_on(opening, p4);
    lemma_both_go_on(maybe("packaging"@, packaging), p3);
    lemma_both_go_on(seq![XmlItem::Start("project"@)], p2);
}

/// The reading once the project and its packaging were read.
proof fn lemma_head(packaging: Option<Seq<char>>) -> (r: Reading)
    requires
        packaging matches Some(s) ==> is_filled(s),
    ensures
        r == read_on(
            read_on(pom::blank_reading(), seq![XmlItem::Start("project"@)]),
            maybe("packaging"@, packaging),
        ),
        r == (Reading {
            stack: seq!["project"@],
            packaging: match packaging {
                Some(s) => s,
                None => "jar"@,
            },
            ..pom::blank_reading()
        }),
{
    lemma_names_differ();
    let blank = pom::blank_reading();
    lemma_one(blank, XmlItem::Start("project"@));
    let r1 = pom::after_item(blank, XmlItem::Start("project"@));
    assert(r1.stack =~= seq!["project"@]);
    let r2 = read_on(r1, maybe("packaging"@, packaging));
    if let Some(s) = packaging {
        lemma_three(
            r1,
            XmlItem::Start("packaging"@),
            XmlItem::Text(s),
            XmlItem::End("packaging"@),
        );
        assert(r1.stack.push("packaging"@).drop_last() =~= r1.stack);
    }
    assert(r2.stack =~= seq!["project"@]);
    r2
}

/// The reading once `dependencyManagement` is open.
proof fn lemma_opening(r: Reading) -> (after: Reading)
    requires
        r.stack == seq!["project"@],
        r.field is None,
        r.current is None,
        !r.in_dependencies,
        !r.in_management_deps,
    ensures
        after == read_on(
            r,
            seq![XmlItem::Start("dependencyManagement"@), XmlItem::Start("dependencies"@)],
        ),
        is_list_open(after, false),
        after == (Reading {
            stack: seq!["project"@, "dependencyManagement"@, "dependencies"@],
            in_management: true,
            in_management_deps: true,
            ..r
        }),
{
    lemma_names_differ();
    let a = seq![XmlItem::Start("dependencyManagement"@)];
    let b = seq![XmlItem::Start("dependencies"@)];
    assert(seq![XmlItem::Start("dependencyManagement"@), XmlItem::Start("dependencies"@)] =~= a + b);
    lemma_read_on(r, a, b);
    lemma_one(r, XmlItem::Start("dependencyManagement"@));
    let r3 = pom::after_item(r, XmlItem::Start("dependencyManagement"@));
    lemma_one(r3, XmlItem::Start("dependencies"@));
    let r4 = pom::after_item(r3, XmlItem::Start("dependencies"@));
    assert(r4.stack =~= seq!["project"@, "dependencyManagement"@, "dependencies"@]);
    r4
}

/// The reading once `dependencyManagement` is closed and the project's own list
/// is open.
proof fn lemma_turn(r: Reading) -> (after: Reading)
    requires
        r.stack == seq!["project"@, "dependencyManagement"@, "dependencies"@],
        r.field is None,
        r.current is None,
        !r.in_dependencies,
        r.in_management,
        r.in_management_deps,
    ensures
        after == read_on(
            r,
            seq![
                XmlItem::End("dependencies"@),
                XmlItem::End("dependencyManagement"@),
                XmlItem::Start("dependencies"@),
            ],
        ),
        is_list_open(after, true),
        after == (Reading {
            stack: seq!["project"@, "dependencies"@],
            in_management: false,
            in_management_deps: false,
            in_dependencies: true,
            ..r
        }),
{
    lemma_names_differ();
    lemma_three(
        r,
        XmlItem::End("dependencies"@),
        XmlItem::End("dependencyManagement"@),
        XmlItem::Start("dependencies"@),
    );
    let a = pom::after_item(r, XmlItem::End("dependencies"@));
    assert(a.stack =~= seq!["project"@, "dependencyManagement"@]);
    let b = pom::after_item(a, XmlItem::End("dependencyManagement"@));
    assert(b.stack =~= seq!["project"@]);
    let c = pom::after_item(b, XmlItem::Start("dependencies"@));
    assert(c.stack =~= seq!["project"@, "dependencies"@]);
    c
}

/// A POM is read as it was written: its packaging, `jar` where it names none, its
/// managed dependencies, whatever their scope, and those of its direct
/// dependencies that reach a consumer, each with its coordinate and scope, in
/// order.
pub proof fn law_poms_are_read_as_written(
    packaging: Option<Seq<char>>,
    managed: Seq<Written>,
    deps: Seq<Written>,
)
    requires
        packaging matches Some(s) ==> is_filled(s),
        forall|i: int| 0 <= i < managed.len() ==> is_written(#[trigger] managed[i]),
        forall|i: int| 0 <= i < deps.len() ==> is_written(#[trigger] deps[i]),
    ensures
        pom::pom_of(pom_items(packaging, managed, deps).push(XmlItem::Eof)) matches Ok(found)
            && found.packaging == match packaging {
            Some(s) => s,
            None => "jar"@,
        } && are_read(found.managed_deps, managed, managed.len() as int, false) && are_read(
            found.deps,
            deps,
            deps.len() as int,
            true,
        ),
{
    lemma_names_differ();
    let all = pom_items(packaging, managed, deps);
    let p7 = seq![XmlItem::End("dependencies"@), XmlItem::End("project"@)];
    let own = list_items(deps, deps.len() as int);
    let p6 = own + p7;
    let turn = seq![
        XmlItem::End("dependencies"@),
        XmlItem::End("dependencyManagement"@),
        XmlItem::Start("dependencies"@),
    ];
    let p5 = turn + p6;
    let list = list_items(managed, managed.len() as int);
    let p4 = list + p5;
    let opening = seq![
        XmlItem::Start("dependencyManagement"@),
        XmlItem::Start("dependencies"@),
    ];
    let p3 = opening + p4;
    let p2 = maybe("packaging"@, packaging) + p3;
    let start = seq![XmlItem::Start("project"@)];
    let blank = pom::blank_reading();
    lemma_read_all(all);
    lemma_read_on(blank, start, p2);
    let r1 = read_on(blank, start);
    lemma_read_on(r1, maybe("packaging"@, packaging), p3);
    let r2 = lemma_head(packaging);
    lemma_read_on(r2, opening, p4);
    let r4 = lemma_opening(r2);
    lemma_read_on(r4, list, p5);
    lemma_list(r4, managed, managed.len() as int, false);
    let r5 = read_on(r4, list);
    lemma_read_on(r5, turn, p6);
    let r6 = lemma_turn(r5);
    lemma_read_on(r6, own, p7);
    lemma_list(r6, deps, deps.len() as int, true);
    let r7 = read_on(r6, own);
    assert(p7 =~= seq![XmlItem::End("dependencies"@)] + seq![XmlItem::End("project"@)]);
    lemma_read_on(r7, seq![XmlItem::End("dependencies"@)], seq![XmlItem::End("project"@)]);
    lemma_one(r7, XmlItem::End("dependencies"@));
    let r8 = pom::after_item(r7, XmlItem::End("dependencies"@));
    lemma_one(r8, XmlItem::End("project"@));
    lemma_pom_goes_on(packaging, managed, deps);
    lemma_going_on(all, 0);
    let items = all.push(XmlItem::Eof);
    assert(items[all.len() as int] is Eof);
    assert(items.take(all.len() as int) =~= all);
}

/// What stands in an element inside a dependency, such as an exclusion, says
/// nothing of the dependency.
pub proof fn law_nested_elements_do_not_count(
    items: Seq<XmlItem>,
    name: Seq<char>,
    content: Seq<char>,
)
    requires
        pom::read_items(items).current is Some,
        !pom::is_inside(pom::read_items(items), "dependency"@),
        name == "groupId"@ || name == "artifactId"@ || name == "version"@ || name == "scope"@ || name
            == "optional"@,
    ensures
        pom::read_items(items + element(name, content)).current == pom::read_items(items).current,
{
    lemma_names_differ();
    assert(pom::is_dep_field(name));
    lemma_read_all(items);
    lemma_read_all(items + element(name, content));
    let reading = pom::read_items(items);
    lemma_read_on(pom::blank_reading(), items, element(name, content));
    lemma_three(
        reading,
        XmlItem::Start(name),
        XmlItem::Text(content),
        XmlItem::End(name),
    );
}

/// Whether nothing is being read.
spec fn is_idle(reading: Reading) -> bool {
    !reading.in_dependencies && !reading.in_management_deps && reading.current is None
}

proof fn lemma_idle_list(reading: Reading, deps: Seq<Written>, n: int)
    requires
        is_idle(reading),
        0 <= n <= deps.len(),
    ensures
        is_idle(read_on(reading, list_items(deps, n))),
        read_on(reading, list_items(deps, n)).deps == reading.deps,
        read_on(reading, list_items(deps, n)).managed_deps == reading.managed_deps,
        read_on(reading, list_items(deps, n)).packaging == reading.packaging,
    decreases n,
{
    if n > 0 {
        lemma_idle_list(reading, deps, n - 1);
        let before = read_on(reading, list_items(deps, n - 1));
        lemma_read_on(reading, list_items(deps, n - 1), dep_items(deps[n - 1]));
        lemma_idle_dep(before, deps[n - 1]);
    }
}

proof fn lemma_idle_dep(reading: Reading, dep: Written)
    requires
        is_idle(reading),
    ensures
        is_idle(read_on(reading, dep_items(dep))),
        read_on(reading, dep_items(dep)).deps == reading.deps,
        read_on(reading, dep_items(dep)).managed_deps == reading.managed_deps,
        read_on(reading, dep_items(dep)).packaging == reading.packaging,
{
    lemma_names_differ();
    let end = seq![XmlItem::End("dependency"@)];
    let e5 = maybe("optional"@, dep.optional) + end;
    let e4 = maybe("scope"@, dep.scope) + e5;
    let e3 = maybe("version"@, dep.version) + e4;
    let e2 = element("artifactId"@, dep.artifact) + e3;
    let e1 = element("groupId"@, dep.group) + e2;
    lemma_read_on(reading, seq![XmlItem::Start("dependency"@)], e1);
    lemma_one(reading, XmlItem::Start("dependency"@));
    let r0 = pom::after_item(reading, XmlItem::Start("dependency"@));
    assert(is_still(r0, reading));
    lemma_read_on(r0, element("groupId"@, dep.group), e2);
    lemma_idle_element(r0, "groupId"@, dep.group);
    let r1 = read_on(r0, element("groupId"@, dep.group));
    lemma_read_on(r1, element("artifactId"@, dep.artifact), e3);
    lemma_idle_element(r1, "artifactId"@, dep.artifact);
    let r2 = read_on(r1, element("artifactId"@, dep.artifact));
    lemma_read_on(r2, maybe("version"@, dep.version), e4);
    lemma_idle_maybe(r2, "version"@, dep.version);
    let r3 = read_on(r2, maybe("version"@, dep.version));
    lemma_read_on(r3, maybe("scope"@, dep.scope), e5);
    lemma_idle_maybe(r3, "scope"@, dep.scope);
    let r4 = read_on(r3, maybe("scope"@, dep.scope));
    lemma_read_on(r4, maybe("optional"@, dep.optional), end);
    lemma_idle_maybe(r4, "optional"@, dep.optional);
    let r5 = read_on(r4, maybe("optional"@, dep.optional));
    lemma_one(r5, XmlItem::End("dependency"@));
}

/// Whether nothing is being read and nothing has been.
spec fn is_still(after: Reading, before: Reading) -> bool {
    &&& is_idle(after)
    &&& after.field is None
    &&& after.deps == before.deps
    &&& after.managed_deps == before.managed_deps
    &&& after.packaging == before.packaging
}

proof fn lemma_idle_element(reading: Reading, name: Seq<char>, content: Seq<char>)
    requires
        is_idle(reading),
        reading.field is None,
        pom::is_dep_field(name),
    ensures
        is_still(read_on(reading, element(name, content)), reading),
{
    lemma_names_differ();
    lemma_three(
        reading,
        XmlItem::Start(name),
        XmlItem::Text(content),
        XmlItem::End(name),
    );
}

proof fn lemma_idle_maybe(reading: Reading, name: Seq<char>, content: Option<Seq<char>>)
    requires
        is_idle(reading),
        reading.field is None,
        pom::is_dep_field(name),
    ensures
        is_still(read_on(reading, maybe(name, content)), reading),
{
    if let Some(s) = content {
        lemma_idle_element(reading, name, s);
    }
}

/// A POM whose only dependencies stand in another section of the project than
/// `dependencyManagement`, such as those of a profile or a plugin, has none.
pub proof fn law_dependencies_of_sections_do_not_count(section: Seq<char>, deps: Seq<Written>)
    requires
        section != "packaging"@,
        section != "dependencyManagement"@,
        section != "dependencies"@,
        section != "dependency"@,
        section != "project"@,
    ensures
        pom::pom_of(
            (seq![XmlItem::Start("project"@)] + (seq![XmlItem::Start(section)] + (seq![
                XmlItem::Start("dependencies"@),
            ] + (list_items(deps, deps.len() as int) + seq![
                XmlItem::End("dependencies"@),
                XmlItem::End(section),
                XmlItem::End("project"@),
            ])))).push(XmlItem::Eof),
        ) matches Ok(found) && found.deps.len() == 0 && found.managed_deps.len() == 0
            && found.packaging == "jar"@,
{
    lemma_names_differ();
    let list = list_items(deps, deps.len() as int);
    let tail = seq![
        XmlItem::End("dependencies"@),
        XmlItem::End(section),
        XmlItem::End("project"@),
    ];
    let a = seq![XmlItem::Start("project"@)];
    let b = seq![XmlItem::Start(section)];
    let c = seq![XmlItem::Start("dependencies"@)];
    let p3 = list + tail;
    let p2 = c + p3;
    let p1 = b + p2;
    let all = a + p1;
    let blank = pom::blank_reading();
    lemma_read_all(all);
    lemma_read_on(blank, a, p1);
    lemma_one(blank, XmlItem::Start("project"@));
    let r1 = pom::after_item(blank, XmlItem::Start("project"@));
    lemma_read_on(r1, b, p2);
    lemma_one(r1, XmlItem::Start(section));
    let r2 = pom::after_item(r1, XmlItem::Start(section));
    assert(r2.stack.last() == section);
    lemma_read_on(r2, c, p3);
    lemma_one(r2, XmlItem::Start("dependencies"@));
    let r3 = pom::after_item(r2, XmlItem::Start("dependencies"@));
    assert(is_still(r3, blank));
    lemma_read_on(r3, list, tail);
    lemma_idle_list(r3, deps, deps.len() as int);
    let r4 = read_on(r3, list);
    lemma_three(
        r4,
        XmlItem::End("dependencies"@),
        XmlItem::End(section),
        XmlItem::End("project"@),
    );
    lemma_list_goes_on(deps, deps.len() as int);
    lemma_both_go_on(list, tail);
    lemma_both_go_on(c, p3);
    lemma_both_go_on(b, p2);
    lemma_both_go_on(a, p1);
    lemma_going_on(all, 0);
    let items = all.push(XmlItem::Eof);
    assert(items[all.len() as int] is Eof);
    assert(items.take(all.len() as int) =~= all);
}

/// A packaging that stands in another element than the project itself, such as
/// that of a plugin, is not the packaging of the POM.
pub proof fn law_packaging_of_sections_does_not_count(section: Seq<char>, content: Seq<char>)
    requires
        section != "packaging"@,
        section != "dependencyManagement"@,
        section != "dependencies"@,
        section != "dependency"@,
        section != "project"@,
    ensures
        pom::pom_of(
            (seq![XmlItem::Start("project"@)] + (seq![XmlItem::Start(section)] + (element(
                "packaging"@,
                content,
            ) + seq![XmlItem::End(section), XmlItem::End("project"@)]))).push(XmlItem::Eof),
        ) matches Ok(found) && found.packaging == "jar"@ && found.deps.len() == 0,
{
    lemma_names_differ();
    let tail = seq![XmlItem::End(section), XmlItem::End("project"@)];
    let a = seq![XmlItem::Start("project"@)];
    let b = seq![XmlItem::Start(section)];
    let inner = element("packaging"@, content);
    let p2 = inner + tail;
    let p1 = b + p2;
    let all = a + p1;
    let blank = pom::blank_reading();
    lemma_read_all(all);
    lemma_read_on(blank, a, p1);
    lemma_one(blank, XmlItem::Start("project"@));
    let r1 = pom::after_item(blank, XmlItem::Start("project"@));
    lemma_read_on(r1, b, p2);
    lemma_one(r1, XmlItem::Start(section));
    let r2 = pom::after_item(r1, XmlItem::Start(section));
    assert(r2.stack.last() == section);
    lemma_read_on(r2, inner, tail);
    lemma_three(
        r2,
        XmlItem::Start("packaging"@),
        XmlItem::Text(content),
        XmlItem::End("packaging"@),
    );
    let r3 = read_on(r2, inner);
    assert(r3.packaging == "jar"@);
    assert(tail =~= seq![XmlItem::End(section)] + seq![XmlItem::End("project"@)]);
    lemma_read_on(r3, seq![XmlItem::End(section)], seq![XmlItem::End("project"@)]);
    lemma_one(r3, XmlItem::End(section));
    lemma_one(pom::after_item(r3, XmlItem::End(section)), XmlItem::End("project"@));
    lemma_both_go_on(inner, tail);
    lemma_both_go_on(b, p2);
    lemma_both_go_on(a, p1);
    lemma_going_on(all, 0);
    let items = all.push(XmlItem::Eof);
    assert(items[all.len() as int] is Eof);
    assert(items.take(all.len() as int) =~= all);
}

} // verus!
