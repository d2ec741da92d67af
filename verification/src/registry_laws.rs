//! What resolving a plugin selects, told by what the registry publishes.

use vstd::prelude::*;
use crate::maven::fetch_laws;
use crate::maven::fetch::Place;
use crate::registry;
use crate::registry::{
    AbiRange, CachedResolution, Choice, Known, PluginManifest, PluginVersionEntry, Registry,
    RegistrySource, RegistryStep, Trouble, Wish,
};
use crate::text;
use crate::text_laws;
use crate::text::Relation;
use crate::text_map;
use crate::text_map::TextMap;
use crate::value::Value;

verus! {

/// Whether one version is not newer than another.
pub open spec fn is_up_to(a: Seq<char>, b: Seq<char>) -> bool {
    registry::relation_of(a, b) == Relation::Less || registry::relation_of(a, b)
        == Relation::Equal
}

/// Whether the build that is published at a position supports a host: its range
/// reaches from the host's ABI version or below to that version or above.
pub open spec fn supports(
    versions: TextMap<PluginVersionEntry>,
    i: int,
    host_abi: Seq<char>,
) -> bool {
    &&& 0 <= i < versions.entries@.len()
    &&& is_up_to(versions.entries@[i].1.abi.min@, host_abi)
    &&& is_up_to(host_abi, versions.entries@[i].1.abi.max@)
}

proof fn lemma_supports(versions: TextMap<PluginVersionEntry>, i: int, host_abi: Seq<char>)
    requires
        0 <= i < versions.entries@.len(),
    ensures
        supports(versions, i, host_abi) <==> registry::in_abi(
            versions.entries@[i].1.abi,
            host_abi,
        ),
{
    registry::law_swapped(versions.entries@[i].1.abi.max@, host_abi);
}

proof fn lemma_published(versions: TextMap<PluginVersionEntry>, i: int)
    requires
        versions.wf(),
        0 <= i < versions.entries@.len(),
    ensures
        versions@.contains_key(versions.entries@[i].0@),
        versions@[versions.entries@[i].0@] == versions.entries@[i].1,
{
    text_map::law_key_order_is_canonical(versions, versions);
}

/// Whether a build was selected at a position: no build that supports the host
/// is newer.
pub open spec fn is_newest_at(
    choice: Choice,
    versions: TextMap<PluginVersionEntry>,
    host_abi: Seq<char>,
    k: int,
) -> bool {
    &&& supports(versions, k, host_abi)
    &&& choice.version == versions.entries@[k].0@
    &&& choice.entry == versions.entries@[k].1
    &&& forall|i: int| #[trigger]
        supports(versions, i, host_abi) ==> is_up_to(versions.entries@[i].0@, choice.version)
}

/// A pinned version that is published and does not support the host gives way to
/// the newest published one that does, whether older or newer than the pinned
/// one, with a warning; resolving fails only where no published build supports
/// the host.
pub proof fn law_fallback_is_the_newest_that_fits(
    versions: TextMap<PluginVersionEntry>,
    name: Seq<char>,
    pinned: int,
    host_abi: Seq<char>,
)
    requires
        versions.wf(),
        0 <= pinned < versions.entries@.len(),
        !supports(versions, pinned, host_abi),
    ensures
        ({
            let wish = Wish { name, version: Some(versions.entries@[pinned].0@) };
            match registry::choice(versions, wish, host_abi) {
                Ok(choice) => choice.warning is Some && exists|k: int|
                    is_newest_at(choice, versions, host_abi, k),
                Err(trouble) => trouble == (Trouble::Incompatible { name, host_abi }) && forall|
                    i: int,
                | !(#[trigger] supports(versions, i, host_abi)),
            }
        }),
{
    let requested = versions.entries@[pinned].0@;
    let entries = versions.entries@;
    let n = entries.len() as int;
    lemma_published(versions, pinned);
    lemma_supports(versions, pinned, host_abi);
    registry::lemma_newest(entries, host_abi, Some(requested), n);
    assert forall|i: int| 0 <= i < n implies supports(versions, i, host_abi)
        == registry::is_candidate(#[trigger] entries[i], host_abi, Some(requested)) by {
        lemma_supports(versions, i, host_abi);
        lemma_published(versions, i);
    }
    if let Some(k) = registry::newest(entries, host_abi, Some(requested), n) {
        let wish = Wish { name, version: Some(requested) };
        let choice = registry::choice(versions, wish, host_abi)->Ok_0;
        assert forall|i: int| #[trigger] supports(versions, i, host_abi) implies is_up_to(
            entries[i].0@,
            choice.version,
        ) by {
            assert(registry::is_candidate(entries[i], host_abi, Some(requested)));
        }
        assert(supports(versions, k, host_abi) == registry::is_candidate(
            entries[k],
            host_abi,
            Some(requested),
        ));
        assert(is_newest_at(choice, versions, host_abi, k));
    } else {
        assert forall|i: int| !(#[trigger] supports(versions, i, host_abi)) by {
            if supports(versions, i, host_abi) {
                assert(registry::is_candidate(entries[i], host_abi, Some(requested)));
            }
        }
    }
}

/// Without a pinned version the newest published build that supports the host is
/// selected, without a warning; resolving fails only where none does.
pub proof fn law_newest_that_fits_is_selected(
    versions: TextMap<PluginVersionEntry>,
    name: Seq<char>,
    host_abi: Seq<char>,
)
    requires
        versions.wf(),
    ensures
        match registry::choice(versions, Wish { name, version: None }, host_abi) {
            Ok(choice) => choice.warning is None && exists|k: int|
                is_newest_at(choice, versions, host_abi, k),
            Err(trouble) => trouble == (Trouble::Incompatible { name, host_abi }) && forall|i: int|
                !(#[trigger] supports(versions, i, host_abi)),
        },
{
    let entries = versions.entries@;
    let n = entries.len() as int;
    registry::lemma_newest(entries, host_abi, None, n);
    assert forall|i: int| 0 <= i < n implies supports(versions, i, host_abi)
        == registry::is_candidate(#[trigger] entries[i], host_abi, None) by {
        lemma_supports(versions, i, host_abi);
    }
    if let Some(k) = registry::newest(entries, host_abi, None, n) {
        let choice = registry::choice(versions, Wish { name, version: None }, host_abi)->Ok_0;
        assert forall|i: int| #[trigger] supports(versions, i, host_abi) implies is_up_to(
            entries[i].0@,
            choice.version,
        ) by {
            assert(registry::is_candidate(entries[i], host_abi, None));
        }
        assert(supports(versions, k, host_abi) == registry::is_candidate(
            entries[k],
            host_abi,
            None,
        ));
        assert(is_newest_at(choice, versions, host_abi, k));
    } else {
        assert forall|i: int| !(#[trigger] supports(versions, i, host_abi)) by {
            if supports(versions, i, host_abi) {
                assert(registry::is_candidate(entries[i], host_abi, None));
            }
        }
    }
}

/// A pinned version that is published and supports the host is selected as it
/// is, however old, without a warning.
pub proof fn law_pinned_version_is_kept(
    versions: TextMap<PluginVersionEntry>,
    name: Seq<char>,
    pinned: int,
    host_abi: Seq<char>,
)
    requires
        versions.wf(),
        supports(versions, pinned, host_abi),
    ensures
        registry::choice(
            versions,
            Wish { name, version: Some(versions.entries@[pinned].0@) },
            host_abi,
        ) == Ok::<Choice, Trouble>(
            Choice {
                version: versions.entries@[pinned].0@,
                entry: versions.entries@[pinned].1,
                warning: None,
            },
        ),
{
    lemma_published(versions, pinned);
    lemma_supports(versions, pinned, host_abi);
}

/// A pinned version that is not published is never replaced by another one.
pub proof fn law_unpublished_version_is_refused(
    versions: TextMap<PluginVersionEntry>,
    name: Seq<char>,
    requested: Seq<char>,
    host_abi: Seq<char>,
)
    requires
        forall|i: int|
            0 <= i < versions.entries@.len() ==> (#[trigger] versions.entries@[i]).0@ != requested,
    ensures
        registry::choice(versions, Wish { name, version: Some(requested) }, host_abi) == Err::<
            Choice,
            Trouble,
        >(Trouble::UnknownVersion { name, version: requested }),
{
    text_map::lemma_has_key(versions.entries@, requested);
}

proof fn lemma_split_dotted(p: Seq<char>, x: Seq<char>, n: int)
    requires
        0 <= n <= x.len(),
        forall|i: int| 0 <= i < x.len() ==> #[trigger] x[i] != '.',
    ensures
        text::split_text(p.push('.') + x.take(n), '.') == text::split_text(p, '.').push(x.take(n)),
    decreases n,
{
    let base = p.push('.');
    let whole = base + x.take(n);
    if n == 0 {
        assert(whole =~= base);
        assert(base.drop_last() =~= p);
        assert(x.take(0) =~= Seq::<char>::empty());
    } else {
        lemma_split_dotted(p, x, n - 1);
        assert(whole.drop_last() =~= base + x.take(n - 1));
        assert(whole.last() == x[n - 1]);
        let before = text::split_text(p, '.').push(x.take(n - 1));
        assert(before.drop_last() =~= text::split_text(p, '.'));
        assert(x.take(n) =~= x.take(n - 1).push(x[n - 1]));
    }
}

proof fn lemma_dotted(p: Seq<char>, x: Seq<char>)
    requires
        forall|i: int| 0 <= i < x.len() ==> #[trigger] x[i] != '.',
    ensures
        registry::segments_of(p.push('.') + x) == registry::segments_of(p).push(
            registry::segment_value(x),
        ),
{
    lemma_split_dotted(p, x, x.len() as int);
    assert(x.take(x.len() as int) =~= x);
    assert(registry::segments_of(p.push('.') + x) =~= registry::segments_of(p).push(
        registry::segment_value(x),
    ));
}

proof fn lemma_digits(x: Seq<char>)
    requires
        x.len() > 0,
        text::all_digits(x),
    ensures
        registry::segment_value(x) == text::digits_value(x),
        forall|i: int| 0 <= i < x.len() ==> #[trigger] x[i] != '.',
{
    assert(text::is_digit(x[0]));
    assert forall|i: int| 0 <= i < x.len() implies #[trigger] x[i] != '.' by {
        assert(text::is_digit(x[i]));
    }
}

proof fn lemma_last_segment(a: Seq<nat>, m: nat, n: nat, from: int)
    requires
        0 <= from <= a.len(),
    ensures
        registry::compare_segments(a.push(m), a.push(n), from) == text::compare_int(
            m as int,
            n as int,
        ),
    decreases a.len() - from,
{
    if from < a.len() {
        lemma_last_segment(a, m, n, from + 1);
    } else {
        assert(registry::compare_segments(a.push(m), a.push(n), from + 1) == Relation::Equal);
    }
}

/// Segments compare by value: `0.10` is newer than `0.9`, and `0.01` is `0.1`.
pub proof fn law_segments_compare_by_value(p: Seq<char>, x: Seq<char>, y: Seq<char>)
    requires
        x.len() > 0 && text::all_digits(x),
        y.len() > 0 && text::all_digits(y),
    ensures
        registry::relation_of(p.push('.') + x, p.push('.') + y) == text::compare_int(
            text::digits_value(x) as int,
            text::digits_value(y) as int,
        ),
{
    lemma_digits(x);
    lemma_digits(y);
    lemma_dotted(p, x);
    lemma_dotted(p, y);
    lemma_last_segment(
        registry::segments_of(p),
        text::digits_value(x),
        text::digits_value(y),
        0,
    );
}

proof fn lemma_one_segment(x: Seq<char>, n: int)
    requires
        0 <= n <= x.len(),
        forall|i: int| 0 <= i < x.len() ==> #[trigger] x[i] != '.',
    ensures
        text::split_text(x.take(n), '.') == seq![x.take(n)],
    decreases n,
{
    if n == 0 {
        assert(x.take(0) =~= Seq::<char>::empty());
    } else {
        lemma_one_segment(x, n - 1);
        let whole = x.take(n);
        assert(whole.drop_last() =~= x.take(n - 1));
        assert(whole.last() == x[n - 1]);
        assert(seq![x.take(n - 1)].drop_last() =~= Seq::<Seq<char>>::empty());
        assert(text::split_text(whole, '.') =~= seq![x.take(n - 1).push(x[n - 1])]);
        assert(x.take(n) =~= x.take(n - 1).push(x[n - 1]));
    }
}

/// Plain numbers compare by value.
pub proof fn law_numbers_compare_by_value(x: Seq<char>, y: Seq<char>)
    requires
        x.len() > 0 && text::all_digits(x),
        y.len() > 0 && text::all_digits(y),
    ensures
        registry::relation_of(x, y) == text::compare_int(
            text::digits_value(x) as int,
            text::digits_value(y) as int,
        ),
{
    lemma_digits(x);
    lemma_digits(y);
    lemma_one_segment(x, x.len() as int);
    lemma_one_segment(y, y.len() as int);
    assert(x.take(x.len() as int) =~= x && y.take(y.len() as int) =~= y);
    let none = Seq::<nat>::empty();
    assert(registry::segments_of(x) =~= none.push(text::digits_value(x)));
    assert(registry::segments_of(y) =~= none.push(text::digits_value(y)));
    lemma_last_segment(none, text::digits_value(x), text::digits_value(y), 0);
}

proof fn lemma_early(a: Seq<nat>, b: Seq<nat>, m: nat, n: nat, from: int)
    requires
        a.len() == b.len(),
        0 <= from,
        registry::compare_segments(a, b, from) != Relation::Equal,
    ensures
        registry::compare_segments(a.push(m), b.push(n), from) == registry::compare_segments(
            a,
            b,
            from,
        ),
    decreases a.len() - from,
{
    if from < a.len() && a[from] == b[from] {
        lemma_early(a, b, m, n, from + 1);
    }
}

/// Earlier segments decide before later ones: where versions of as many segments
/// differ, nothing behind them changes which is newer.
pub proof fn law_earlier_segments_decide(
    a: Seq<char>,
    b: Seq<char>,
    x: Seq<char>,
    y: Seq<char>,
)
    requires
        text::split_text(a, '.').len() == text::split_text(b, '.').len(),
        registry::relation_of(a, b) != Relation::Equal,
        forall|i: int| 0 <= i < x.len() ==> #[trigger] x[i] != '.',
        forall|i: int| 0 <= i < y.len() ==> #[trigger] y[i] != '.',
    ensures
        registry::relation_of(a.push('.') + x, b.push('.') + y) == registry::relation_of(a, b),
{
    lemma_dotted(a, x);
    lemma_dotted(b, y);
    lemma_early(
        registry::segments_of(a),
        registry::segments_of(b),
        registry::segment_value(x),
        registry::segment_value(y),
        0,
    );
}

/// A fetched artifact is accepted exactly where its manifest can be read, has
/// the name that was asked for and the version that was selected, and was built
/// for an ABI version within the range that the index declares.
pub proof fn law_accepted_artifacts_are_as_promised(
    manifest: Result<PluginManifest, String>,
    wish: Wish,
    version: Seq<char>,
    abi: AbiRange,
)
    ensures
        registry::artifact_fault(manifest, wish, version, abi) is None <==> (manifest matches Ok(
            found,
        ) && found.name@ == wish.name && found.version@ == version && is_up_to(
            abi.min@,
            found.abi_version@,
        ) && is_up_to(found.abi_version@, abi.max@)),
{
    if let Ok(found) = manifest {
        registry::law_swapped(abi.max@, found.abi_version@);
    }
}

/// A cached artifact is used exactly where it is recorded under the name that was
/// asked for and for a range that the host's ABI version lies in; else the
/// artifact that the index names is fetched.
pub proof fn law_cache_is_used_while_it_fits(
    step: RegistryStep,
    registry: Registry,
    wish: Wish,
    choice: Choice,
    cached: Option<CachedResolution>,
)
    requires
        registry::is_next(step, registry, wish, choice, Known::Cache(cached)),
    ensures
        step is Cached <==> (cached matches Some(meta) && meta.name@ == wish.name && is_up_to(
            meta.abi.min@,
            registry.host_abi@,
        ) && is_up_to(registry.host_abi@, meta.abi.max@)),
        !(step is Cached) ==> step is Fetch,
        step matches RegistryStep::Cached(plugin) ==> plugin.version@ == choice.version
            && plugin.from_cache && plugin.name@ == wish.name,
{
    if let Some(meta) = cached {
        registry::law_swapped(meta.abi.max@, registry.host_abi@);
    }
}

/// A fetched artifact that is refused never becomes the plugin, and one that is
/// accepted is recorded as what was selected.
pub proof fn law_only_verified_artifacts_are_taken(
    step: RegistryStep,
    registry: Registry,
    wish: Wish,
    choice: Choice,
    manifest: Result<PluginManifest, String>,
)
    requires
        registry::is_next(step, registry, wish, choice, Known::Artifact(manifest)),
    ensures
        match step {
            RegistryStep::Fetched(plugin, meta) => {
                &&& manifest matches Ok(found)
                &&& found.name@ == wish.name
                &&& found.version@ == choice.version
                &&& plugin.version@ == found.version@
                &&& plugin.name@ == found.name@
                &&& meta.name@ == found.name@
                &&& meta.version@ == found.version@
                &&& meta.abi == choice.entry.abi
                &&& is_up_to(meta.abi.min@, found.abi_version@)
                &&& is_up_to(found.abi_version@, meta.abi.max@)
            },
            RegistryStep::Failed(_) => true,
            _ => false,
        },
{
    law_accepted_artifacts_are_as_promised(manifest, wish, choice.version, choice.entry.abi);
}

/// An artifact with an address is fetched from there. One with a path is a file:
/// beside the index where the index is a file, and by itself where it is not.
pub proof fn law_artifacts_lie_beside_their_index(
    source: RegistrySource,
    scheme: Seq<char>,
    path: Seq<char>,
    dir: Seq<char>,
    index: Seq<char>,
)
    requires
        path.len() > 0 && path[0] != '/',
        text_laws::lacks(path, ':'),
        text_laws::lacks(index, '/'),
        dir.len() > 0 && dir.last() != '/',
    ensures
        scheme.len() < 4 || scheme.take(4) != "file"@ ==> registry::artifact_place(
            source,
            scheme + "://"@ + path,
        ) == Place::Http(scheme + "://"@ + path),
        registry::artifact_place(source, "file://"@ + path) == Place::File(path),
        source matches RegistrySource::File(file) ==> file@ == dir + seq!['/'] + index
            ==> registry::artifact_place(source, path) == Place::File(dir + seq!['/'] + path),
        source is Url ==> registry::artifact_place(source, path) == Place::File(path),
{
    fetch_laws::law_addresses_name_places(scheme, path);
    text_laws::law_directories_hold_their_files(dir, index);
    text_laws::law_relative_paths_are_appended(dir, path);
    reveal_strlit("file://");
    let file = "file://"@ + path;
    assert("file://"@ =~= file.subrange(0, 7));
    assert("file://"@.is_prefix_of(file));
    if "file://"@.is_prefix_of(path) {
        assert("file://"@ =~= path.subrange(0, 7));
        assert(path.subrange(0, 7)[4] == path[4]);
    }
}

/// A reference to a plugin names it, and the version behind the first colon where
/// it is a coordinate; a reference without a version leaves it open. Nothing but
/// a string and a coordinate with a version is a reference.
pub proof fn law_references_name_plugins(value: Value, name: Seq<char>, version: Seq<char>)
    requires
        text_laws::lacks(name, ':'),
    ensures
        value matches Value::Coordinate(s) ==> s@ == name + seq![':'] + version
            ==> registry::wish_of(value) == Ok::<Wish, Seq<char>>(
            Wish { name, version: Some(version) },
        ),
        value matches Value::Str(s) ==> registry::wish_of(value) == Ok::<Wish, Seq<char>>(
            Wish { name: s@, version: None },
        ),
        value matches Value::Coordinate(s) ==> s@ == name ==> registry::wish_of(value) is Err,
        !(value is Coordinate) && !(value is Str) ==> registry::wish_of(value) is Err,
{
    if let Value::Coordinate(s) = value {
        if s@ == name + seq![':'] + version {
            let at = name.len() as int;
            assert(s@[at] == ':');
            let first = s@.index_of_first(':')->0;
            s@.index_of_first_ensures(':');
            assert forall|i: int| 0 <= i < at implies s@[i] != ':' by {
                assert(s@[i] == name[i]);
            }
            assert(first == at);
            assert(s@.take(at) =~= name);
            assert(s@.skip(at + 1) =~= version);
        }
    }
}

/// The cache of plugins lies below the home directory, where that is known, and
/// holds each version of a plugin in a directory of its own.
pub proof fn law_plugins_are_cached_below_home(home: Seq<char>, name: Seq<char>, version: Seq<char>)
    requires
        home.len() > 0 && home.last() != '/',
        name.len() > 0 && name[0] != '/' && name.last() != '/',
        version.len() > 0 && version[0] != '/',
    ensures
        registry::default_cache_text(Some(home)) == home + "/.cache/uliab/plugins"@,
        registry::default_cache_text(None) == ".cache/uliab/plugins"@,
        registry::plugin_dir(home, name, version) == home + seq!['/'] + name + seq!['/'] + version,
{
    reveal_strlit(".cache");
    reveal_strlit("uliab");
    reveal_strlit("plugins");
    reveal_strlit("/.cache/uliab/plugins");
    reveal_strlit(".cache/uliab/plugins");
    let slash = seq!['/'];
    let start = home + slash + ".cache"@;
    text_laws::law_relative_paths_are_appended(home, ".cache"@);
    assert(start.last() == ".cache"@[5]);
    text_laws::law_relative_paths_are_appended(start, "uliab"@);
    assert((start + slash + "uliab"@).last() == "uliab"@[4]);
    text_laws::law_relative_paths_are_appended(start + slash + "uliab"@, "plugins"@);
    assert(start + slash + "uliab"@ + slash + "plugins"@ =~= home + "/.cache/uliab/plugins"@);
    text_laws::law_relative_paths_are_appended(".cache"@, "uliab"@);
    assert((".cache"@ + slash + "uliab"@).last() == "uliab"@[4]);
    text_laws::law_relative_paths_are_appended(".cache"@ + slash + "uliab"@, "plugins"@);
    assert(".cache"@ + slash + "uliab"@ + slash + "plugins"@ =~= ".cache/uliab/plugins"@);
    text_laws::law_relative_paths_are_appended(home, name);
    assert((home + slash + name).last() == name.last());
    text_laws::law_relative_paths_are_appended(home + slash + name, version);
}

/// A range of ABI versions holds its bounds and what lies between them, and
/// nothing else.
pub proof fn law_ranges_hold_their_bounds(range: AbiRange, version: Seq<char>)
    ensures
        registry::in_abi(range, version) <==> is_up_to(range.min@, version) && is_up_to(
            version,
            range.max@,
        ),
{
    registry::law_swapped(range.max@, version);
}

proof fn lemma_last(
    entries: Seq<(String, PluginVersionEntry)>,
    host_abi: Seq<char>,
    skip: Option<Seq<char>>,
    n: int,
)
    requires
        0 <= n <= entries.len(),
    ensures
        registry::newest(entries, host_abi, skip, n) matches Some(best) ==> forall|i: int|
            best < i < n && registry::is_candidate(#[trigger] entries[i], host_abi, skip)
                ==> registry::relation_of(entries[i].0@, entries[best].0@) == Relation::Less,
    decreases n,
{
    if n > 0 {
        lemma_last(entries, host_abi, skip, n - 1);
    }
}

/// Of builds whose versions are equally new, such as `1.0` and `1.0.0`, the one
/// that is listed last is selected: all that support the host and are listed
/// behind the selected one are older.
pub proof fn law_last_of_equals_is_selected(
    versions: TextMap<PluginVersionEntry>,
    name: Seq<char>,
    host_abi: Seq<char>,
    k: int,
)
    requires
        versions.wf(),
        registry::choice(versions, Wish { name, version: None }, host_abi) matches Ok(choice) && 0
            <= k < versions.entries@.len() && versions.entries@[k].0@ == choice.version,
    ensures
        forall|i: int|
            i > k && #[trigger] supports(versions, i, host_abi) ==> registry::relation_of(
                versions.entries@[i].0@,
                versions.entries@[k].0@,
            ) == Relation::Less,
{
    let entries = versions.entries@;
    let n = entries.len() as int;
    registry::lemma_newest(entries, host_abi, None, n);
    lemma_last(entries, host_abi, None, n);
    let best = registry::newest(entries, host_abi, None, n)->0;
    text_map::lemma_entries(entries);
    if best < k {
        assert(text::compare_text(entries[best].0@, entries[k].0@) == Relation::Less);
        text::lemma_compare_reflexive(entries[k].0@);
    } else if k < best {
        assert(text::compare_text(entries[k].0@, entries[best].0@) == Relation::Less);
        text::lemma_compare_reflexive(entries[k].0@);
    }
    assert forall|i: int| i > k && #[trigger] supports(versions, i, host_abi) implies
        registry::relation_of(entries[i].0@, entries[k].0@) == Relation::Less by {
        lemma_supports(versions, i, host_abi);
        assert(registry::is_candidate(entries[i], host_abi, None));
    }
}

proof fn lemma_segments_join(a: Seq<char>, b: Seq<char>)
    ensures
        registry::segments_of(a + seq!['.'] + b) == registry::segments_of(a)
            + registry::segments_of(b),
{
    text_laws::law_separators_part_pieces(a, b, '.');
    let parts = text::split_text(a, '.');
    let more = text::split_text(b, '.');
    assert(registry::segments_of(a + seq!['.'] + b) =~= registry::segments_of(a)
        + registry::segments_of(b)) by {
        assert forall|i: int| 0 <= i < parts.len() + more.len() implies (parts + more)[i] == if i
            < parts.len() {
            parts[i]
        } else {
            more[i - parts.len()]
        } by {}
    }
}

proof fn lemma_common_segments(a: Seq<nat>, s: Seq<nat>, t: Seq<nat>, from: int)
    requires
        0 <= from <= a.len(),
    ensures
        registry::compare_segments(a + s, a + t, from) == registry::compare_segments(
            a + s,
            a + t,
            a.len() as int,
        ),
    decreases a.len() - from,
{
    if from < a.len() {
        lemma_common_segments(a, s, t, from + 1);
        assert((a + s)[from] == a[from] && (a + t)[from] == a[from]);
    }
}

/// Whether a text is empty or starts with a dot.
pub open spec fn goes_on(s: Seq<char>) -> bool {
    s.len() == 0 || s[0] == '.'
}

proof fn lemma_number_first(p: Seq<char>, x: Seq<char>, rest: Seq<char>) -> (more: Seq<nat>)
    requires
        x.len() > 0 && text::all_digits(x),
        goes_on(rest),
    ensures
        registry::segments_of(p + seq!['.'] + x + rest) == registry::segments_of(p) + (seq![
            text::digits_value(x),
        ] + more),
{
    lemma_digits(x);
    text_laws::law_separators_part_pieces(x, x, '.');
    assert(text_laws::lacks(x, '.')) by {
        assert forall|i: int| 0 <= i < x.len() implies #[trigger] x[i] != '.' by {
            assert(text::is_digit(x[i]));
        }
    }
    let own = seq![text::digits_value(x)];
    assert(text::split_text(x, '.') =~= seq![x]);
    assert(registry::segments_of(x) =~= own);
    lemma_segments_join(p, x);
    let first = registry::segments_of(p);
    if rest.len() == 0 {
        assert(p + seq!['.'] + x + rest =~= p + seq!['.'] + x);
        let more = Seq::<nat>::empty();
        assert(own + more =~= own);
        more
    } else {
        let inner = rest.drop_first();
        let more = registry::segments_of(inner);
        lemma_segments_join(p + seq!['.'] + x, inner);
        assert(p + seq!['.'] + x + seq!['.'] + inner =~= p + seq!['.'] + x + rest);
        assert(first + own + more =~= first + (own + more));
        more
    }
}

/// The first number that differs decides, whatever stands behind it: `1.10` is
/// newer than `1.9.5`.
pub proof fn law_first_difference_decides(
    p: Seq<char>,
    x: Seq<char>,
    behind: Seq<char>,
    y: Seq<char>,
    other: Seq<char>,
)
    requires
        x.len() > 0 && text::all_digits(x),
        y.len() > 0 && text::all_digits(y),
        text::digits_value(x) != text::digits_value(y),
        goes_on(behind),
        goes_on(other),
    ensures
        registry::relation_of(p + seq!['.'] + x + behind, p + seq!['.'] + y + other)
            == text::compare_int(text::digits_value(x) as int, text::digits_value(y) as int),
{
    let a = registry::segments_of(p);
    let more = lemma_number_first(p, x, behind);
    let rest = lemma_number_first(p, y, other);
    let s = seq![text::digits_value(x)] + more;
    let t = seq![text::digits_value(y)] + rest;
    lemma_common_segments(a, s, t, 0);
    let at = a.len() as int;
    assert((a + s)[at] == s[0] && (a + t)[at] == t[0]);
    assert(s[0] == text::digits_value(x) && t[0] == text::digits_value(y));
}

/// A version is as new as with zeros behind it, and older than with any other
/// number.
pub proof fn law_missing_segments_are_zero(p: Seq<char>, x: Seq<char>)
    requires
        x.len() > 0 && text::all_digits(x),
    ensures
        registry::relation_of(p + seq!['.'] + x, p) == text::compare_int(
            text::digits_value(x) as int,
            0,
        ),
{
    let a = registry::segments_of(p);
    let more = lemma_number_first(p, x, Seq::empty());
    let s = seq![text::digits_value(x)] + more;
    assert(p + seq!['.'] + x + Seq::<char>::empty() =~= p + seq!['.'] + x);
    lemma_segments_join(p, x);
    lemma_digits(x);
    let none = Seq::<nat>::empty();
    assert(a + none =~= a);
    lemma_common_segments(a, s, none, 0);
    let at = a.len() as int;
    assert((a + s)[at] == s[0]);
    text_laws::law_separators_part_pieces(x, x, '.');
    assert(text_laws::lacks(x, '.')) by {
        assert forall|i: int| 0 <= i < x.len() implies #[trigger] x[i] != '.' by {
            assert(text::is_digit(x[i]));
        }
    }
    assert(registry::segments_of(x).len() == 1);
    assert((a + s).len() == at + 1);
    assert(registry::compare_segments(a + s, a, at + 1) == Relation::Equal);
}

/// A segment that is not a number counts as zero.
pub proof fn law_words_count_as_zero(p: Seq<char>, word: Seq<char>, i: int)
    requires
        text_laws::lacks(word, '.'),
        0 <= i < word.len(),
        !('0' <= word[i] <= '9'),
        word[0] != '+',
    ensures
        registry::relation_of(p + seq!['.'] + word, p) == Relation::Equal,
{
    let a = registry::segments_of(p);
    lemma_segments_join(p, word);
    text_laws::law_separators_part_pieces(word, word, '.');
    assert(!text::is_digit(word[i]));
    assert(!text::all_digits(word));
    assert(registry::segment_digits(word) =~= Seq::<char>::empty());
    assert(text::digits_value(Seq::<char>::empty()) == 0);
    let s = seq![0nat];
    assert(text::split_text(word, '.') =~= seq![word]);
    assert(registry::segments_of(word) =~= s);
    let none = Seq::<nat>::empty();
    assert(a + none =~= a);
    lemma_common_segments(a, s, none, 0);
    let at = a.len() as int;
    assert((a + s)[at] == 0);
    assert(registry::compare_segments(a + s, a, at + 1) == Relation::Equal);
}

/// A plugin that was resolved lies in the cache, in the directory of its version,
/// and is what was selected.
pub proof fn law_resolved_plugins_lie_in_the_cache(
    step: RegistryStep,
    registry: Registry,
    wish: Wish,
    choice: Choice,
    known: Known,
)
    requires
        registry::is_next(step, registry, wish, choice, known),
        registry.cache_root@.len() > 0 && registry.cache_root@.last() != '/',
        wish.name.len() > 0 && wish.name[0] != '/' && wish.name.last() != '/',
        choice.version.len() > 0 && choice.version[0] != '/' && choice.version.last() != '/',
    ensures
        ({
            let path = registry.cache_root@ + seq!['/'] + wish.name + seq!['/'] + choice.version
                + "/plugin.wasm"@;
            match step {
                RegistryStep::Cached(plugin) => plugin.path@ == path && plugin.from_cache
                    && plugin.name@ == wish.name && plugin.version@ == choice.version,
                RegistryStep::Fetched(plugin, meta) => plugin.path@ == path && !plugin.from_cache
                    && plugin.name@ == wish.name && plugin.version@ == choice.version && meta.name@
                    == wish.name && meta.version@ == choice.version && meta.abi == choice.entry.abi,
                RegistryStep::Look { wasm_path, .. } => wasm_path@ == path,
                _ => true,
            }
        }),
{
    reveal_strlit("plugin.wasm");
    reveal_strlit("/plugin.wasm");
    law_plugins_are_cached_below_home(registry.cache_root@, wish.name, choice.version);
    let dir = registry.cache_root@ + seq!['/'] + wish.name + seq!['/'] + choice.version;
    assert(dir.last() == choice.version.last());
    text_laws::law_relative_paths_are_appended(dir, "plugin.wasm"@);
    assert(dir + seq!['/'] + "plugin.wasm"@ =~= dir + "/plugin.wasm"@);
}

} // verus!
