//! Plugin registry resolution.
//!
//! A plugin coordinate declared in a `libs.ulb` `plugins {}` table
//! (`"vendor/name" @ version`) resolves against a registry index that maps
//! `name -> versions -> { abi range, artifact URL }`. Resolution selects a
//! version whose declared plugin-ABI range contains the host's ABI version,
//! falling back to the newest compatible build when the requested version does
//! not, decides whether a cached artifact may be used, and verifies that a
//! fetched component really is what the index promised.

use vstd::prelude::*;
use core::cmp::Ordering;
use crate::maven::fetch;
use crate::maven::fetch::{Place, Source};
use crate::maven::version;
use crate::text;
use crate::text::Relation;
use crate::text_map::TextMap;
use crate::value::Value;

verus! {

/// Upper bound on a single registry response (index document or plugin
/// artifact), matching the Maven resolver's artifact cap.
pub const MAX_RESPONSE_BYTES: u64 = 268_435_456;

/// The version of the index document that is understood.
pub const SCHEMA_VERSION: u32 = 1;

/// The digits of a version segment: those behind an optional `+`. A segment that
/// holds anything else has none.
pub open spec fn segment_digits(segment: Seq<char>) -> Seq<char> {
    let digits = if segment.len() > 0 && segment[0] == '+' {
        segment.drop_first()
    } else {
        segment
    };
    if text::all_digits(digits) {
        digits
    } else {
        Seq::empty()
    }
}

/// The number a version segment writes; one that is not a number counts as
/// zero.
pub open spec fn segment_value(segment: Seq<char>) -> nat {
    text::digits_value(segment_digits(segment))
}

/// The numbers a version's dot-separated segments write.
pub open spec fn segments_of(v: Seq<char>) -> Seq<nat> {
    let parts = text::split_text(v, '.');
    Seq::new(parts.len(), |i: int| segment_value(parts[i]))
}

/// The number at a position, zero behind the end.
pub open spec fn segment_at(list: Seq<nat>, i: int) -> nat {
    if i < list.len() {
        list[i]
    } else {
        0
    }
}

/// Two lists of numbers by their first difference from `from` on, padded with
/// zeros.
pub open spec fn compare_segments(a: Seq<nat>, b: Seq<nat>, from: int) -> Relation
    decreases a.len() + b.len() - from,
{
    if from >= a.len() && from >= b.len() {
        Relation::Equal
    } else if segment_at(a, from) < segment_at(b, from) {
        Relation::Less
    } else if segment_at(a, from) > segment_at(b, from) {
        Relation::Greater
    } else {
        compare_segments(a, b, from + 1)
    }
}

/// How two version strings compare.
pub open spec fn relation_of(a: Seq<char>, b: Seq<char>) -> Relation {
    compare_segments(segments_of(a), segments_of(b), 0)
}

fn parse_segment(segment: &str) -> (digits: Vec<char>)
    ensures
        digits@ == segment_digits(segment@),
{
    let chars = text::chars_of(segment);
    let start: usize = if chars.len() > 0 && chars[0] == '+' {
        1
    } else {
        0
    };
    let ghost all = chars@.skip(start as int);
    assert(all == if segment@.len() > 0 && segment@[0] == '+' {
        segment@.drop_first()
    } else {
        segment@
    });
    let mut digits: Vec<char> = Vec::new();
    let mut i: usize = start;
    assert(digits@ == all.take(0));
    while i < chars.len()
        invariant
            all == chars@.skip(start as int),
            segment_digits(segment@) == if text::all_digits(all) {
                all
            } else {
                Seq::empty()
            },
            start <= i <= chars@.len(),
            text::all_digits(digits@),
            digits@ == all.take(i - start),
        decreases chars.len() - i,
    {
        let c = chars[i];
        assert(all[i - start] == c);
        if !('0' <= c && c <= '9') {
            assert(!text::is_digit(all[i - start]));
            return Vec::new();
        }
        digits.push(c);
        assert(digits@ == all.take(i + 1 - start));
        i += 1;
    }
    assert(all.take(i - start) == all);
    digits
}

fn segments(v: &str) -> (list: Vec<Vec<char>>)
    ensures
        list@.len() == segments_of(v@).len(),
        forall|i: int|
            0 <= i < list@.len() ==> text::all_digits((#[trigger] list@[i])@) && text::digits_value(
                list@[i]@,
            ) == segments_of(v@)[i],
{
    let parts = text::split(v, '.');
    let ghost pieces = text::texts(parts@);
    let mut list: Vec<Vec<char>> = Vec::new();
    let mut i: usize = 0;
    while i < parts.len()
        invariant
            pieces == text::texts(parts@),
            pieces == text::split_text(v@, '.'),
            i <= parts@.len(),
            list@.len() == i,
            forall|j: int|
                0 <= j < i ==> text::all_digits((#[trigger] list@[j])@) && text::digits_value(
                    list@[j]@,
                ) == segments_of(v@)[j],
        decreases parts.len() - i,
    {
        assert(pieces[i as int] == parts@[i as int]@);
        list.push(parse_segment(&parts[i]));
        i += 1;
    }
    list
}

fn relate(a: &str, b: &str) -> (relation: Relation)
    ensures
        relation == relation_of(a@, b@),
{
    let x = segments(a);
    let y = segments(b);
    let ghost p = segments_of(a@);
    let ghost q = segments_of(b@);
    let none: Vec<char> = Vec::new();
    let mut i: usize = 0;
    while i < x.len() || i < y.len()
        invariant
            none@ == Seq::<char>::empty(),
            p == segments_of(a@),
            q == segments_of(b@),
            x@.len() == p.len(),
            y@.len() == q.len(),
            forall|j: int|
                0 <= j < x@.len() ==> text::all_digits((#[trigger] x@[j])@) && text::digits_value(
                    x@[j]@,
                ) == p[j],
            forall|j: int|
                0 <= j < y@.len() ==> text::all_digits((#[trigger] y@[j])@) && text::digits_value(
                    y@[j]@,
                ) == q[j],
            i <= x@.len() || i <= y@.len(),
            relation_of(a@, b@) == compare_segments(p, q, i as int),
        decreases x.len() + y.len() - i,
    {
        let left = if i < x.len() {
            &x[i]
        } else {
            &none
        };
        let right = if i < y.len() {
            &y[i]
        } else {
            &none
        };
        match text::compare_digits(left, right) {
            Relation::Less => return Relation::Less,
            Relation::Greater => return Relation::Greater,
            Relation::Equal => {},
        }
        i += 1;
    }
    Relation::Equal
}

/// Compares two version strings as dot-separated numeric segments;
/// missing trailing segments count as zero (`"0.1" == "0.1.0"`).
pub fn compare_versions(a: &str, b: &str) -> (ordering: Ordering)
    ensures
        ordering == version::ordering_of(relation_of(a@, b@)),
{
    match relate(a, b) {
        Relation::Less => Ordering::Less,
        Relation::Equal => Ordering::Equal,
        Relation::Greater => Ordering::Greater,
    }
}

proof fn lemma_segments_equal(a: Seq<nat>, from: int)
    requires
        0 <= from,
    ensures
        compare_segments(a, a, from) == Relation::Equal,
    decreases 2 * a.len() - from,
{
    if from < a.len() {
        lemma_segments_equal(a, from + 1);
    }
}

proof fn lemma_segments_flip(a: Seq<nat>, b: Seq<nat>, from: int)
    requires
        0 <= from,
    ensures
        compare_segments(b, a, from) == text::flip(compare_segments(a, b, from)),
    decreases a.len() + b.len() - from,
{
    if from < a.len() || from < b.len() {
        lemma_segments_flip(a, b, from + 1);
    }
}

proof fn lemma_segments_transitive(a: Seq<nat>, b: Seq<nat>, c: Seq<nat>, from: int)
    requires
        0 <= from,
        compare_segments(a, b, from) != Relation::Greater,
        compare_segments(b, c, from) != Relation::Greater,
    ensures
        compare_segments(a, c, from) != Relation::Greater,
        compare_segments(a, c, from) == Relation::Equal ==> compare_segments(a, b, from)
            == Relation::Equal && compare_segments(b, c, from) == Relation::Equal,
    decreases a.len() + b.len() + c.len() - from,
{
    if from < a.len() || from < b.len() || from < c.len() {
        if segment_at(a, from) == segment_at(b, from) && segment_at(b, from) == segment_at(
            c,
            from,
        ) {
            lemma_segments_transitive(a, b, c, from + 1);
        }
    }
}

/// A version compares as equal with itself.
pub proof fn law_reflexive(a: Seq<char>)
    ensures
        relation_of(a, a) == Relation::Equal,
{
    lemma_segments_equal(segments_of(a), 0);
}

/// Swapping two versions flips their relation.
pub proof fn law_swapped(a: Seq<char>, b: Seq<char>)
    ensures
        relation_of(b, a) == text::flip(relation_of(a, b)),
{
    lemma_segments_flip(segments_of(a), segments_of(b), 0);
}

/// Versions are ordered transitively.
pub proof fn law_transitive(a: Seq<char>, b: Seq<char>, c: Seq<char>)
    requires
        relation_of(a, b) != Relation::Greater,
        relation_of(b, c) != Relation::Greater,
    ensures
        relation_of(a, c) != Relation::Greater,
{
    lemma_segments_transitive(segments_of(a), segments_of(b), segments_of(c), 0);
}

proof fn lemma_segments_padded(a: Seq<nat>, from: int)
    requires
        0 <= from,
    ensures
        compare_segments(a, a.push(0), from) == Relation::Equal,
    decreases 2 * a.len() + 1 - from,
{
    if from <= a.len() {
        lemma_segments_padded(a, from + 1);
    }
}

/// A missing trailing segment counts as zero: `0.1` is `0.1.0`.
pub proof fn law_trailing_zero(v: Seq<char>)
    ensures
        relation_of(v, v + ".0"@) == Relation::Equal,
{
    reveal_strlit(".0");
    let dotted = v.push('.');
    let padded = v + ".0"@;
    assert(padded == dotted.push('0'));
    assert(dotted.drop_last() == v);
    assert(padded.drop_last() == dotted);
    let before = text::split_text(v, '.');
    assert(text::split_text(dotted, '.') == before.push(Seq::<char>::empty()));
    assert(before.push(Seq::<char>::empty()).drop_last() == before);
    let zero = Seq::<char>::empty().push('0');
    assert(text::split_text(padded, '.') == before.push(zero));
    assert(zero.drop_last() == Seq::<char>::empty());
    assert(text::digits_value(zero) == 0) by {
        reveal_with_fuel(text::digits_value, 2);
    }
    assert(segments_of(padded) == segments_of(v).push(0));
    lemma_segments_padded(segments_of(v), 0);
}

/// A contiguous range of plugin-ABI versions a plugin version declares it
/// targets. The host picks a version whose range contains its own ABI version.
#[derive(Debug, PartialEq, Eq)]
pub struct AbiRange {
    /// Lowest plugin-ABI version the plugin works with.
    pub min: String,
    /// Highest plugin-ABI version the plugin works with.
    pub max: String,
}

impl Clone for AbiRange {
    fn clone(&self) -> (copy: AbiRange)
        ensures
            copy == *self,
    {
        AbiRange { min: self.min.clone(), max: self.max.clone() }
    }
}

/// Whether a range contains a version, its ends included.
pub open spec fn in_abi(range: AbiRange, v: Seq<char>) -> bool {
    relation_of(range.min@, v) != Relation::Greater && relation_of(range.max@, v) != Relation::Less
}

impl AbiRange {
    /// True if `version` lies within `self`, inclusive.
    ///
    /// Version strings are compared as dot-separated numeric segments
    /// (`"0.1" == "0.1.0"`).
    #[must_use]
    pub fn contains(&self, version: &str) -> (yes: bool)
        ensures
            yes == in_abi(*self, version@),
    {
        relate(&self.min, version) != Relation::Greater && relate(&self.max, version)
            != Relation::Less
    }
}

/// One published version of a plugin: the ABI range it targets and where
/// its component artifact lives.
#[derive(Debug, PartialEq, Eq)]
pub struct PluginVersionEntry {
    /// Plugin-ABI range this build declares support for.
    pub abi: AbiRange,
    /// Where the `plugin.wasm` component can be fetched from. An HTTP(S)
    /// URL, a `file://` URL, or a filesystem path (relative paths are
    /// resolved against the directory of the index file, when the index
    /// itself came from disk).
    pub artifact_url: String,
}

/// All published versions of one plugin.
#[derive(Debug, PartialEq, Eq)]
pub struct PluginIndexEntry {
    /// Versions keyed by version string.
    pub versions: TextMap<PluginVersionEntry>,
}

/// A `registry/index.json` document.
#[derive(Debug, PartialEq, Eq)]
pub struct RegistryIndex {
    /// Format version of the index document.
    pub schema_version: u32,
    /// Plugin catalog keyed by plugin name (`"ulite/hello"`).
    pub plugins: TextMap<PluginIndexEntry>,
}

/// A plugin reference extracted from a `libs.ulb` `plugins {}` table.
#[derive(Debug, PartialEq, Eq)]
pub struct PluginSpec {
    /// Plugin name as it resolves in the registry, e.g. `ulite/hello`.
    pub name: String,
    /// Pinned version, or `None` to resolve the newest compatible build.
    pub version: Option<String>,
}

/// What a [`PluginSpec`] holds.
pub struct Wish {
    /// The plugin.
    pub name: Seq<char>,
    /// The pinned version.
    pub version: Option<Seq<char>>,
}

impl View for PluginSpec {
    type V = Wish;

    open spec fn view(&self) -> Wish {
        Wish { name: self.name@, version: text::opt_text(self.version) }
    }
}

/// A plugin reference as it is shown: `name@version`, or the name alone.
pub open spec fn wish_text(wish: Wish) -> Seq<char> {
    match wish.version {
        Some(v) => wish.name + "@"@ + v,
        None => wish.name,
    }
}

/// What a value is called in messages about plugins.
pub open spec fn kind_text(value: Value) -> Seq<char> {
    match value {
        Value::Str(_) => "string"@,
        Value::Number(_) => "number"@,
        Value::Bool(_) => "boolean"@,
        Value::List(_) => "list"@,
        Value::Version(_) => "version"@,
        Value::Properties(_) => "properties"@,
        Value::Coordinate(_) => "coordinate"@,
        Value::Block(_) => "block"@,
        Value::Invalid(_) => "invalid"@,
        Value::ProjectRef(_) => "project reference"@,
    }
}

fn value_kind(value: &Value) -> (name: &'static str)
    ensures
        name@ == kind_text(*value),
{
    match value {
        Value::Str(_) => "string",
        Value::Number(_) => "number",
        Value::Bool(_) => "boolean",
        Value::List(_) => "list",
        Value::Version(_) => "version",
        Value::Properties(_) => "properties",
        Value::Coordinate(_) => "coordinate",
        Value::Block(_) => "block",
        Value::Invalid(_) => "invalid",
        Value::ProjectRef(_) => "project reference",
    }
}

/// The plugin a value refers to: a coordinate `name:version`, split at its
/// first colon, or a name.
pub open spec fn wish_of(value: Value) -> Result<Wish, Seq<char>> {
    match value {
        Value::Coordinate(coordinate) => if coordinate@.contains(':') {
            let at = coordinate@.index_of_first(':')->0;
            Ok(
                Wish {
                    name: coordinate@.take(at),
                    version: Some(coordinate@.skip(at + 1)),
                },
            )
        } else {
            Err(
                "malformed plugin coordinate '"@ + coordinate@ + "' (expected 'name:version')"@,
            )
        },
        Value::Str(name) => Ok(Wish { name: name@, version: None }),
        Value::Invalid(message) => Err(message@),
        _ => Err("plugin reference must be a string coordinate, got "@ + kind_text(value)),
    }
}

/// A plugin reference, or why there is none, as a specification value.
pub open spec fn wish_result(result: Result<PluginSpec, String>) -> Result<Wish, Seq<char>> {
    match result {
        Ok(spec) => Ok(spec@),
        Err(message) => Err(message@),
    }
}

impl PluginSpec {
    /// Extracts a spec from the value the evaluator produced for one
    /// `plugins { NAME = ... }` entry: a `"vendor/name" @ ref` reference
    /// becomes a [`Value::Coordinate`] (`"name:version"`), an unversioned
    /// one a [`Value::Str`].
    ///
    /// # Errors
    ///
    /// Returns a description of the problem when the value is not a plugin
    /// reference (a non-string base, an invalid value, or a malformed
    /// coordinate).
    pub fn from_value(value: &Value) -> (result: Result<PluginSpec, String>)
        ensures
            wish_result(result) == wish_of(*value),
    {
        match value {
            Value::Coordinate(coordinate) => {
                let chars = text::chars_of(coordinate);
                let mut i: usize = 0;
                while i < chars.len()
                    invariant
                        chars@ == coordinate@,
                        *value == (Value::Coordinate(*coordinate)),
                        i <= chars@.len(),
                        forall|j: int| 0 <= j < i ==> chars@[j] != ':',
                    decreases chars.len() - i,
                {
                    if chars[i] == ':' {
                        proof {
                            coordinate@.index_of_first_ensures(':');
                            assert(coordinate@[i as int] == ':');
                            assert(coordinate@.index_of_first(':') == Some(i as int));
                        }
                        let name = text::from_chars(&chars, 0, i);
                        let rest = text::from_chars(&chars, i + 1, chars.len());
                        assert(name@ == coordinate@.take(i as int));
                        assert(rest@ == coordinate@.skip(i + 1));
                        return Ok(PluginSpec { name, version: Some(rest) });
                    }
                    i += 1;
                }
                Err(
                    "malformed plugin coordinate '".to_owned().concat(coordinate).concat(
                        "' (expected 'name:version')",
                    ),
                )
            },
            Value::Str(name) => Ok(PluginSpec { name: name.clone(), version: None }),
            Value::Invalid(message) => Err(message.clone()),
            _ => Err(
                "plugin reference must be a string coordinate, got ".to_owned().concat(
                    value_kind(value),
                ),
            ),
        }
    }

    /// The reference as it is shown.
    pub fn shown(&self) -> (s: String)
        ensures
            s@ == wish_text(self@),
    {
        match &self.version {
            Some(v) => self.name.clone().concat("@").concat(v),
            None => self.name.clone(),
        }
    }
}

/// Where a registry index comes from.
#[derive(Debug, PartialEq, Eq)]
pub enum RegistrySource {
    /// An index served over HTTP(S).
    Url(String),
    /// An `index.json` on the local filesystem. Relative `artifact_url`
    /// entries in it are resolved against this file's directory.
    File(String),
}

/// The outcome of resolving one plugin to a local artifact.
#[derive(Debug, PartialEq, Eq)]
pub struct ResolvedPlugin {
    /// Registry name the plugin resolved under.
    pub name: String,
    /// Version that was selected.
    pub version: String,
    /// ABI range the selected build declares.
    pub abi: AbiRange,
    /// Local path of the cached component.
    pub path: String,
    /// True when the artifact was already present in the cache and no
    /// fetch or verification was needed.
    pub from_cache: bool,
    /// A human-readable warning about a fallback (e.g. the requested
    /// version is ABI-incompatible with the host, so a compatible build
    /// was picked instead). `None` when resolution was straightforward.
    pub warning: Option<String>,
}

/// Errors raised while resolving a plugin.
#[derive(Debug, PartialEq, Eq)]
pub enum RegistryError {
    /// The index could not be fetched or parsed.
    Index(String),
    /// The plugin name is not in the index.
    UnknownPlugin(String),
    /// The requested version does not exist in the index.
    UnknownVersion {
        /// Plugin name.
        name: String,
        /// Requested version.
        version: String,
    },
    /// No version compatible with the host ABI exists.
    Incompatible {
        /// Plugin name.
        name: String,
        /// Host plugin-ABI version nothing matches.
        host_abi: String,
    },
    /// The artifact could not be fetched.
    Fetch {
        /// URL or path that failed.
        url: String,
        /// Underlying error.
        message: String,
    },
    /// The downloaded artifact failed verification.
    Verify(String),
    /// Cache read/write failure.
    Cache(String),
}

/// What a [`RegistryError`] holds.
pub enum Trouble {
    /// The index is not usable.
    Index(Seq<char>),
    /// The plugin is not published.
    UnknownPlugin(Seq<char>),
    /// The version is not published.
    UnknownVersion {
        /// Plugin name.
        name: Seq<char>,
        /// Requested version.
        version: Seq<char>,
    },
    /// No version is compatible.
    Incompatible {
        /// Plugin name.
        name: Seq<char>,
        /// Host plugin-ABI version.
        host_abi: Seq<char>,
    },
    /// The artifact could not be fetched.
    Fetch {
        /// URL or path.
        url: Seq<char>,
        /// Underlying error.
        message: Seq<char>,
    },
    /// Verification failed.
    Verify(Seq<char>),
    /// The cache failed.
    Cache(Seq<char>),
}

impl View for RegistryError {
    type V = Trouble;

    open spec fn view(&self) -> Trouble {
        match *self {
            RegistryError::Index(message) => Trouble::Index(message@),
            RegistryError::UnknownPlugin(name) => Trouble::UnknownPlugin(name@),
            RegistryError::UnknownVersion { name, version } => Trouble::UnknownVersion {
                name: name@,
                version: version@,
            },
            RegistryError::Incompatible { name, host_abi } => Trouble::Incompatible {
                name: name@,
                host_abi: host_abi@,
            },
            RegistryError::Fetch { url, message } => Trouble::Fetch {
                url: url@,
                message: message@,
            },
            RegistryError::Verify(message) => Trouble::Verify(message@),
            RegistryError::Cache(message) => Trouble::Cache(message@),
        }
    }
}

/// What is said of a resolution that failed.
pub open spec fn trouble_text(trouble: Trouble) -> Seq<char> {
    match trouble {
        Trouble::Index(message) => "registry index unavailable: "@ + message,
        Trouble::UnknownPlugin(name) => "plugin '"@ + name
            + "' is not published in the registry"@,
        Trouble::UnknownVersion { name, version } => "plugin '"@ + name
            + "' has no published version '"@ + version + "'"@,
        Trouble::Incompatible { name, host_abi } => "no published build of '"@ + name
            + "' supports plugin-ABI '"@ + host_abi + "'"@,
        Trouble::Fetch { url, message } => "failed to fetch '"@ + url + "': "@ + message,
        Trouble::Verify(message) => "plugin artifact failed verification: "@ + message,
        Trouble::Cache(message) => "plugin cache error: "@ + message,
    }
}

impl RegistryError {
    /// A description for the user.
    pub fn message(&self) -> (s: String)
        ensures
            s@ == trouble_text(self@),
    {
        match self {
            RegistryError::Index(message) => "registry index unavailable: ".to_owned().concat(
                message,
            ),
            RegistryError::UnknownPlugin(name) => "plugin '".to_owned().concat(name).concat(
                "' is not published in the registry",
            ),
            RegistryError::UnknownVersion { name, version } => "plugin '".to_owned().concat(
                name,
            ).concat("' has no published version '").concat(version).concat("'"),
            RegistryError::Incompatible { name, host_abi } => "no published build of '".to_owned().concat(
                name,
            ).concat("' supports plugin-ABI '").concat(host_abi).concat("'"),
            RegistryError::Fetch { url, message } => "failed to fetch '".to_owned().concat(
                url,
            ).concat("': ").concat(message),
            RegistryError::Verify(message) => "plugin artifact failed verification: ".to_owned().concat(
                message,
            ),
            RegistryError::Cache(message) => "plugin cache error: ".to_owned().concat(message),
        }
    }
}

/// Refuses an index document of a version that is not understood.
///
/// # Errors
///
/// Returns [`RegistryError::Index`] for any other version.
pub fn check_index(index: RegistryIndex) -> (result: Result<RegistryIndex, RegistryError>)
    ensures
        match result {
            Ok(checked) => checked == index && index.schema_version == SCHEMA_VERSION,
            Err(error) => index.schema_version != SCHEMA_VERSION && error@ == Trouble::Index(
                "unsupported index schema_version "@ + text::decimal_text(
                    index.schema_version as nat,
                )
                    + " (this tool understands version 1); upgrade the tool or pin an older registry"@,
            ),
        },
{
    if index.schema_version == SCHEMA_VERSION {
        Ok(index)
    } else {
        Err(
            RegistryError::Index(
                "unsupported index schema_version ".to_owned().concat(
                    &text::decimal(index.schema_version as u64),
                ).concat(
                    " (this tool understands version 1); upgrade the tool or pin an older registry",
                ),
            ),
        )
    }
}

/// Whether a published version may be picked: it supports the host and is not
/// the one to skip.
pub open spec fn is_candidate(
    entry: (String, PluginVersionEntry),
    host_abi: Seq<char>,
    skip: Option<Seq<char>>,
) -> bool {
    skip != Some(entry.0@) && in_abi(entry.1.abi, host_abi)
}

/// The position of the newest candidate among the first `n` versions, the last
/// among equals.
pub open spec fn newest(
    entries: Seq<(String, PluginVersionEntry)>,
    host_abi: Seq<char>,
    skip: Option<Seq<char>>,
    n: int,
) -> Option<int>
    decreases n,
{
    if n <= 0 {
        None
    } else {
        let before = newest(entries, host_abi, skip, n - 1);
        if !is_candidate(entries[n - 1], host_abi, skip) {
            before
        } else {
            match before {
                Some(best) => if relation_of(entries[n - 1].0@, entries[best].0@)
                    == Relation::Less {
                    before
                } else {
                    Some(n - 1)
                },
                None => Some(n - 1),
            }
        }
    }
}

/// The version that was selected.
pub struct Choice {
    /// The version.
    pub version: Seq<char>,
    /// Its entry in the index.
    pub entry: PluginVersionEntry,
    /// What to tell the user.
    pub warning: Option<Seq<char>>,
}

/// The warning that another version was taken than the requested one.
pub open spec fn fallback_text(
    name: Seq<char>,
    requested: Seq<char>,
    host_abi: Seq<char>,
    taken: Seq<char>,
) -> Seq<char> {
    "plugin '"@ + name + "@"@ + requested + "' does not support plugin-ABI '"@ + host_abi
        + "'; falling back to last-known-compatible '"@ + taken + "'"@
}

/// The version of a plugin to use: the requested one where it supports the
/// host, else the newest other one that does, with a warning; the newest one
/// that does where none is requested.
pub open spec fn choice(
    versions: TextMap<PluginVersionEntry>,
    wish: Wish,
    host_abi: Seq<char>,
) -> Result<Choice, Trouble> {
    let n = versions.entries@.len() as int;
    match wish.version {
        Some(requested) => if !versions@.contains_key(requested) {
            Err(Trouble::UnknownVersion { name: wish.name, version: requested })
        } else if in_abi(versions@[requested].abi, host_abi) {
            Ok(Choice { version: requested, entry: versions@[requested], warning: None })
        } else {
            match newest(versions.entries@, host_abi, Some(requested), n) {
                Some(i) => Ok(
                    Choice {
                        version: versions.entries@[i].0@,
                        entry: versions.entries@[i].1,
                        warning: Some(
                            fallback_text(
                                wish.name,
                                requested,
                                host_abi,
                                versions.entries@[i].0@,
                            ),
                        ),
                    },
                ),
                None => Err(Trouble::Incompatible { name: wish.name, host_abi }),
            }
        },
        None => match newest(versions.entries@, host_abi, None, n) {
            Some(i) => Ok(
                Choice {
                    version: versions.entries@[i].0@,
                    entry: versions.entries@[i].1,
                    warning: None,
                },
            ),
            None => Err(Trouble::Incompatible { name: wish.name, host_abi }),
        },
    }
}

/// The version that was selected.
#[derive(Debug, PartialEq, Eq)]
pub struct Selection {
    /// The version.
    pub version: String,
    /// The ABI range it declares.
    pub abi: AbiRange,
    /// Where its artifact lives.
    pub artifact_url: String,
    /// What to tell the user.
    pub warning: Option<String>,
}

/// Whether a selection is the given choice.
pub open spec fn is_choice(selection: Selection, choice: Choice) -> bool {
    &&& selection.version@ == choice.version
    &&& selection.abi == choice.entry.abi
    &&& selection.artifact_url == choice.entry.artifact_url
    &&& text::opt_text(selection.warning) == choice.warning
}

fn newest_compatible(
    versions: &TextMap<PluginVersionEntry>,
    host_abi: &str,
    skip: Option<&str>,
) -> (found: Option<usize>)
    ensures
        match found {
            Some(i) => i < versions.entries@.len() && newest(
                versions.entries@,
                host_abi@,
                text::opt_str(skip),
                versions.entries@.len() as int,
            ) == Some(i as int),
            None => newest(
                versions.entries@,
                host_abi@,
                text::opt_str(skip),
                versions.entries@.len() as int,
            ) is None,
        },
{
    let entries = &versions.entries;
    let mut best: Option<usize> = None;
    let mut i: usize = 0;
    while i < entries.len()
        invariant
            *entries == versions.entries,
            i <= entries@.len(),
            match best {
                Some(b) => b < i && newest(
                    entries@,
                    host_abi@,
                    text::opt_str(skip),
                    i as int,
                ) == Some(b as int),
                None => newest(entries@, host_abi@, text::opt_str(skip), i as int) is None,
            },
        decreases entries.len() - i,
    {
        let skipped = match skip {
            Some(v) => text::str_eq(v, &entries[i].0),
            None => false,
        };
        if !skipped && entries[i].1.abi.contains(host_abi) {
            best = match best {
                Some(b) => if relate(&entries[i].0, &entries[b].0) == Relation::Less {
                    Some(b)
                } else {
                    Some(i)
                },
                None => Some(i),
            };
        }
        i += 1;
    }
    best
}

/// Picks the version of `entry` to use for `spec` under host ABI `host_abi`.
///
/// # Errors
///
/// Returns [`RegistryError::UnknownVersion`] when the requested version is
/// not published and [`RegistryError::Incompatible`] when no version
/// supports the host.
pub fn select_version(entry: &PluginIndexEntry, spec: &PluginSpec, host_abi: &str) -> (result:
    Result<Selection, RegistryError>)
    ensures
        match choice(entry.versions, spec@, host_abi@) {
            Ok(choice) => result matches Ok(selection) && is_choice(selection, choice),
            Err(trouble) => result matches Err(error) && error@ == trouble,
        },
{
    let skip = match &spec.version {
        Some(requested) => {
            let candidate = match entry.versions.get(requested) {
                Some(candidate) => candidate,
                None => {
                    return Err(
                        RegistryError::UnknownVersion {
                            name: spec.name.clone(),
                            version: requested.clone(),
                        },
                    );
                },
            };
            if candidate.abi.contains(host_abi) {
                return Ok(
                    Selection {
                        version: requested.clone(),
                        abi: candidate.abi.clone(),
                        artifact_url: candidate.artifact_url.clone(),
                        warning: None,
                    },
                );
            }
            Some(requested.as_str())
        },
        None => None,
    };
    match newest_compatible(&entry.versions, host_abi, skip) {
        Some(i) => {
            let found = &entry.versions.entries[i];
            let warning = match &spec.version {
                Some(requested) => Some(
                    "plugin '".to_owned().concat(&spec.name).concat("@").concat(requested).concat(
                        "' does not support plugin-ABI '",
                    ).concat(host_abi).concat(
                        "'; falling back to last-known-compatible '",
                    ).concat(&found.0).concat("'"),
                ),
                None => None,
            };
            Ok(
                Selection {
                    version: found.0.clone(),
                    abi: found.1.abi.clone(),
                    artifact_url: found.1.artifact_url.clone(),
                    warning,
                },
            )
        },
        None => Err(
            RegistryError::Incompatible {
                name: spec.name.clone(),
                host_abi: host_abi.to_owned(),
            },
        ),
    }
}

pub proof fn lemma_newest(
    entries: Seq<(String, PluginVersionEntry)>,
    host_abi: Seq<char>,
    skip: Option<Seq<char>>,
    n: int,
)
    requires
        0 <= n <= entries.len(),
    ensures
        match newest(entries, host_abi, skip, n) {
            Some(best) => 0 <= best < n && is_candidate(entries[best], host_abi, skip)
                && forall|i: int|
                0 <= i < n && is_candidate(#[trigger] entries[i], host_abi, skip) ==> relation_of(
                    entries[i].0@,
                    entries[best].0@,
                ) != Relation::Greater,
            None => forall|i: int|
                0 <= i < n ==> !is_candidate(#[trigger] entries[i], host_abi, skip),
        },
    decreases n,
{
    if n > 0 {
        lemma_newest(entries, host_abi, skip, n - 1);
        let before = newest(entries, host_abi, skip, n - 1);
        let last = entries[n - 1];
        if is_candidate(last, host_abi, skip) {
            law_reflexive(last.0@);
            if let Some(best) = before {
                law_swapped(last.0@, entries[best].0@);
                if relation_of(last.0@, entries[best].0@) != Relation::Less {
                    assert forall|i: int|
                        0 <= i < n && is_candidate(
                            #[trigger] entries[i],
                            host_abi,
                            skip,
                        ) implies relation_of(entries[i].0@, last.0@) != Relation::Greater by {
                        if i < n - 1 {
                            law_transitive(entries[i].0@, entries[best].0@, last.0@);
                        }
                    }
                }
            }
        }
    }
}

/// Whatever is selected supports the host.
pub proof fn law_selection_supports_host(
    versions: TextMap<PluginVersionEntry>,
    wish: Wish,
    host_abi: Seq<char>,
)
    ensures
        choice(versions, wish, host_abi) matches Ok(choice) ==> in_abi(choice.entry.abi, host_abi),
{
    let n = versions.entries@.len() as int;
    lemma_newest(versions.entries@, host_abi, wish.version, n);
    lemma_newest(versions.entries@, host_abi, None, n);
}

/// Without a requested version the newest that supports the host is selected:
/// no other one that does is newer.
pub proof fn law_newest_is_selected(
    versions: TextMap<PluginVersionEntry>,
    name: Seq<char>,
    host_abi: Seq<char>,
    i: int,
)
    requires
        0 <= i < versions.entries@.len(),
        in_abi(versions.entries@[i].1.abi, host_abi),
    ensures
        choice(versions, Wish { name, version: None }, host_abi) matches Ok(choice) && relation_of(
            versions.entries@[i].0@,
            choice.version,
        ) != Relation::Greater,
{
    let entries = versions.entries@;
    lemma_newest(entries, host_abi, None, entries.len() as int);
    assert(is_candidate(entries[i], host_abi, None));
}

/// A requested version that supports the host is selected as it is, without a
/// warning.
pub proof fn law_request_is_honoured(
    versions: TextMap<PluginVersionEntry>,
    name: Seq<char>,
    requested: Seq<char>,
    host_abi: Seq<char>,
)
    requires
        versions@.contains_key(requested),
        in_abi(versions@[requested].abi, host_abi),
    ensures
        choice(versions, Wish { name, version: Some(requested) }, host_abi) matches Ok(choice)
            && choice.version == requested && choice.warning is None,
{
}

/// What a component says of itself.
#[derive(Debug, PartialEq, Eq)]
pub struct PluginManifest {
    /// Its name.
    pub name: String,
    /// Its version.
    pub version: String,
    /// The plugin-ABI version it was built for.
    pub abi_version: String,
}

/// Metadata written next to a cached artifact so a later resolve can tell
/// which ABI range the cached build was verified against (and detect that
/// a host upgrade has made the cached artifact stale).
#[derive(Debug, PartialEq, Eq)]
pub struct CachedResolution {
    /// The plugin.
    pub name: String,
    /// Recorded for provenance in the on-disk metadata; resolution reads
    /// `name` and `abi` only.
    pub version: String,
    /// The ABI range of the cached build.
    pub abi: AbiRange,
}

/// Why a fetched artifact is refused, where it is: its manifest cannot be
/// read, or does not match what the index promised.
pub open spec fn artifact_fault(
    manifest: Result<PluginManifest, String>,
    wish: Wish,
    v: Seq<char>,
    abi: AbiRange,
) -> Option<Seq<char>> {
    match manifest {
        Err(error) => Some(wish_text(wish) + "@"@ + v + ": "@ + error@),
        Ok(manifest) => if manifest.name@ != wish.name {
            Some(
                "artifact manifest name '"@ + manifest.name@ + "' does not match requested '"@
                    + wish.name + "'"@,
            )
        } else if manifest.version@ != v {
            Some(
                "artifact manifest version '"@ + manifest.version@
                    + "' does not match resolved '"@ + v + "'"@,
            )
        } else if !in_abi(abi, manifest.abi_version@) {
            Some(
                "artifact manifest abi-version '"@ + manifest.abi_version@
                    + "' lies outside the entry's declared range "@ + abi.min@ + "-"@ + abi.max@,
            )
        } else {
            None
        },
    }
}

/// Verifies a fetched artifact against the index entry that was selected:
/// the `manifest` name and version must match the coordinate, and the
/// manifest's ABI version must lie within the entry's declared range.
///
/// # Errors
///
/// Returns [`RegistryError::Verify`] when they do not.
pub fn verify_artifact(
    manifest: &Result<PluginManifest, String>,
    spec: &PluginSpec,
    version: &str,
    abi: &AbiRange,
) -> (result: Result<(), RegistryError>)
    ensures
        match artifact_fault(*manifest, spec@, version@, *abi) {
            Some(message) => result matches Err(error) && error@ == Trouble::Verify(message),
            None => result is Ok,
        },
{
    let manifest = match manifest {
        Ok(manifest) => manifest,
        Err(error) => {
            return Err(
                RegistryError::Verify(
                    spec.shown().concat("@").concat(version).concat(": ").concat(error),
                ),
            );
        },
    };
    if !text::str_eq(&manifest.name, &spec.name) {
        return Err(
            RegistryError::Verify(
                "artifact manifest name '".to_owned().concat(&manifest.name).concat(
                    "' does not match requested '",
                ).concat(&spec.name).concat("'"),
            ),
        );
    }
    if !text::str_eq(&manifest.version, version) {
        return Err(
            RegistryError::Verify(
                "artifact manifest version '".to_owned().concat(&manifest.version).concat(
                    "' does not match resolved '",
                ).concat(version).concat("'"),
            ),
        );
    }
    if !abi.contains(&manifest.abi_version) {
        return Err(
            RegistryError::Verify(
                "artifact manifest abi-version '".to_owned().concat(&manifest.abi_version).concat(
                    "' lies outside the entry's declared range ",
                ).concat(&abi.min).concat("-").concat(&abi.max),
            ),
        );
    }
    Ok(())
}

/// Where an artifact lies: at an address, or at a path that is seen from the
/// directory of an index on disk.
pub open spec fn artifact_place(source: RegistrySource, url: Seq<char>) -> Place {
    match fetch::place_of(url) {
        Place::Http(address) => Place::Http(address),
        Place::File(path) => if "file://"@.is_prefix_of(url) {
            Place::File(path)
        } else {
            match source {
                RegistrySource::File(index) => Place::File(
                    text::path_text(text::dir_text(index@), path),
                ),
                RegistrySource::Url(_) => Place::File(path),
            }
        },
    }
}

/// What is known of a plugin that is being resolved.
#[derive(Debug, PartialEq, Eq)]
pub enum Known {
    /// Nothing yet.
    Nothing,
    /// What lies beside the cached artifact, where there is one.
    Cache(Option<CachedResolution>),
    /// The artifact cannot be fetched, with the reason.
    Unfetched(String),
    /// What the fetched artifact says of itself.
    Artifact(Result<PluginManifest, String>),
}

/// What resolving a plugin needs next, or how it ended.
#[derive(Debug, PartialEq, Eq)]
pub enum RegistryStep {
    /// The cache has to be looked at: the artifact and what is recorded of it.
    Look {
        /// The cached artifact.
        wasm_path: String,
        /// What is recorded of it.
        meta_path: String,
    },
    /// The artifact has to be fetched.
    Fetch(Source),
    /// The plugin is in the cache.
    Cached(ResolvedPlugin),
    /// The fetched artifact is the plugin; it goes into the cache with this
    /// metadata.
    Fetched(ResolvedPlugin, CachedResolution),
    /// Resolving failed.
    Failed(RegistryError),
}

/// Resolves plugin coordinates against a registry index.
#[derive(Debug, PartialEq, Eq)]
pub struct Registry {
    /// Where the index comes from.
    pub source: RegistrySource,
    /// The cache root.
    pub cache_root: String,
    /// The plugin-ABI version of the host.
    pub host_abi: String,
}

/// The default plugin cache: `~/.cache/uliab/plugins`.
pub open spec fn default_cache_text(home: Option<Seq<char>>) -> Seq<char> {
    let start = match home {
        Some(home) => text::path_text(home, ".cache"@),
        None => ".cache"@,
    };
    text::path_text(text::path_text(start, "uliab"@), "plugins"@)
}

/// The directory that a version of a plugin is cached in.
pub open spec fn plugin_dir(root: Seq<char>, name: Seq<char>, v: Seq<char>) -> Seq<char> {
    text::path_text(text::path_text(root, name), v)
}

/// Whether what is recorded beside a cached artifact lets it be used.
pub open spec fn is_usable(
    cached: Option<CachedResolution>,
    name: Seq<char>,
    host_abi: Seq<char>,
) -> bool {
    cached matches Some(meta) && meta.name@ == name && in_abi(meta.abi, host_abi)
}

/// Whether a resolved plugin is the given choice, at its place in the cache.
pub open spec fn is_resolved(
    plugin: ResolvedPlugin,
    registry: Registry,
    wish: Wish,
    choice: Choice,
    from_cache: bool,
) -> bool {
    &&& plugin.name@ == wish.name
    &&& plugin.version@ == choice.version
    &&& plugin.abi == choice.entry.abi
    &&& plugin.path@ == text::path_text(
        plugin_dir(registry.cache_root@, wish.name, choice.version),
        "plugin.wasm"@,
    )
    &&& plugin.from_cache == from_cache
    &&& text::opt_text(plugin.warning) == choice.warning
}

/// Whether metadata describes the given choice.
pub open spec fn is_record(meta: CachedResolution, wish: Wish, choice: Choice) -> bool {
    &&& meta.name@ == wish.name
    &&& meta.version@ == choice.version
    &&& meta.abi == choice.entry.abi
}

/// Whether a step is the next one of resolving the given choice.
pub open spec fn is_next(
    step: RegistryStep,
    registry: Registry,
    wish: Wish,
    choice: Choice,
    known: Known,
) -> bool {
    let dir = plugin_dir(registry.cache_root@, wish.name, choice.version);
    match known {
        Known::Nothing => step matches RegistryStep::Look { wasm_path, meta_path } && wasm_path@
            == text::path_text(dir, "plugin.wasm"@) && meta_path@ == text::path_text(
            dir,
            "abi.json"@,
        ),
        Known::Cache(cached) => if is_usable(cached, wish.name, registry.host_abi@) {
            step matches RegistryStep::Cached(plugin) && is_resolved(
                plugin,
                registry,
                wish,
                choice,
                true,
            )
        } else {
            step matches RegistryStep::Fetch(source) && source@ == artifact_place(
                registry.source,
                choice.entry.artifact_url@,
            )
        },
        Known::Unfetched(cause) => step matches RegistryStep::Failed(error) && error@ == (
        Trouble::Fetch { url: choice.entry.artifact_url@, message: cause@ }),
        Known::Artifact(manifest) => match artifact_fault(
            manifest,
            wish,
            choice.version,
            choice.entry.abi,
        ) {
            Some(message) => step matches RegistryStep::Failed(error) && error@ == Trouble::Verify(
                message,
            ),
            None => step matches RegistryStep::Fetched(plugin, meta) && is_resolved(
                plugin,
                registry,
                wish,
                choice,
                false,
            ) && is_record(meta, wish, choice),
        },
    }
}

impl Registry {
    /// Creates a resolver against `source` for a host of plugin-ABI version
    /// `host_abi`, caching artifacts under `cache_dir` or, when `None`, under
    /// `.cache/uliab/plugins` in the home directory `home`.
    pub fn new(
        source: RegistrySource,
        cache_dir: Option<String>,
        home: Option<&str>,
        host_abi: String,
    ) -> (registry: Registry)
        ensures
            registry.source == source,
            registry.host_abi == host_abi,
            registry.cache_root@ == match cache_dir {
                Some(dir) => dir@,
                None => default_cache_text(text::opt_str(home)),
            },
    {
        let cache_root = match cache_dir {
            Some(dir) => dir,
            None => {
                let start = match home {
                    Some(home) => text::join_path(home, ".cache"),
                    None => ".cache".to_owned(),
                };
                text::join_path(&text::join_path(&start, "uliab"), "plugins")
            },
        };
        Registry { source, cache_root, host_abi }
    }

    /// The cache root this resolver writes to.
    #[must_use]
    pub fn cache_dir(&self) -> (dir: &str)
        ensures
            dir@ == self.cache_root@,
    {
        self.cache_root.as_str()
    }

    /// The error of an index that cannot be read because of `cause`.
    pub fn index_unavailable(&self, cause: &str) -> (error: RegistryError)
        ensures
            error@ == Trouble::Index(
                match self.source {
                    RegistrySource::File(path) => path@ + ": "@ + cause@,
                    RegistrySource::Url(url) => "failed to fetch '"@ + url@ + "': "@ + cause@,
                },
            ),
    {
        RegistryError::Index(
            match &self.source {
                RegistrySource::File(path) => path.clone().concat(": ").concat(cause),
                RegistrySource::Url(url) => "failed to fetch '".to_owned().concat(url).concat(
                    "': ",
                ).concat(cause),
            },
        )
    }

    /// Where an artifact with the given address lies.
    pub fn artifact_source(&self, artifact_url: &str) -> (source: Source)
        ensures
            source@ == artifact_place(self.source, artifact_url@),
    {
        match fetch::source_of(artifact_url) {
            Source::Http(address) => Source::Http(address),
            Source::File(path) => {
                if text::starts_with(artifact_url, "file://") {
                    return Source::File(path);
                }
                match &self.source {
                    RegistrySource::File(index) => Source::File(
                        text::join_path(&text::dir_of(index), &path),
                    ),
                    RegistrySource::Url(_) => Source::File(path),
                }
            },
        }
    }

    /// Resolves `spec` to a local cached artifact, as far as what is known
    /// allows.
    ///
    /// Selection picks the requested version when its declared ABI range
    /// contains the host ABI version, and otherwise falls back to the
    /// newest compatible build with a warning. With no requested version, the
    /// newest compatible build is chosen directly.
    ///
    /// On a cache hit the cached artifact is returned without refetching,
    /// unless its recorded ABI range no longer contains the host ABI
    /// version, in which case it is refetched (the tool was upgraded in
    /// between).
    ///
    /// On a cache miss the artifact is fetched and, before it is written
    /// to the cache, cross-checked against the index entry: the `manifest`
    /// name and version must match the coordinate, and the manifest's ABI
    /// version must lie within the entry's declared range.
    pub fn resolve(&self, spec: &PluginSpec, index: &RegistryIndex, known: &Known) -> (step:
        RegistryStep)
        ensures
            if !index.plugins@.contains_key(spec@.name) {
                step matches RegistryStep::Failed(error) && error@ == Trouble::UnknownPlugin(
                    spec@.name,
                )
            } else {
                match choice(
                    index.plugins@[spec@.name].versions,
                    spec@,
                    self.host_abi@,
                ) {
                    Err(trouble) => step matches RegistryStep::Failed(error) && error@ == trouble,
                    Ok(choice) => is_next(step, *self, spec@, choice, *known),
                }
            },
    {
        let entry = match index.plugins.get(&spec.name) {
            Some(entry) => entry,
            None => {
                return RegistryStep::Failed(RegistryError::UnknownPlugin(spec.name.clone()));
            },
        };
        let selection = match select_version(entry, spec, &self.host_abi) {
            Ok(selection) => selection,
            Err(error) => return RegistryStep::Failed(error),
        };
        let dir = text::join_path(
            &text::join_path(&self.cache_root, &spec.name),
            &selection.version,
        );
        let wasm_path = text::join_path(&dir, "plugin.wasm");
        match known {
            Known::Nothing => RegistryStep::Look {
                wasm_path,
                meta_path: text::join_path(&dir, "abi.json"),
            },
            Known::Cache(cached) => {
                let usable = match cached {
                    Some(meta) => text::str_eq(&meta.name, &spec.name) && meta.abi.contains(
                        &self.host_abi,
                    ),
                    None => false,
                };
                if usable {
                    RegistryStep::Cached(
                        ResolvedPlugin {
                            name: spec.name.clone(),
                            version: selection.version,
                            abi: selection.abi,
                            path: wasm_path,
                            from_cache: true,
                            warning: selection.warning,
                        },
                    )
                } else {
                    RegistryStep::Fetch(self.artifact_source(&selection.artifact_url))
                }
            },
            Known::Unfetched(cause) => RegistryStep::Failed(
                RegistryError::Fetch { url: selection.artifact_url, message: cause.clone() },
            ),
            Known::Artifact(manifest) => {
                if let Err(error) = verify_artifact(
                    manifest,
                    spec,
                    &selection.version,
                    &selection.abi,
                ) {
                    return RegistryStep::Failed(error);
                }
                let meta = CachedResolution {
                    name: spec.name.clone(),
                    version: selection.version.clone(),
                    abi: selection.abi.clone(),
                };
                RegistryStep::Fetched(
                    ResolvedPlugin {
                        name: spec.name.clone(),
                        version: selection.version,
                        abi: selection.abi,
                        path: wasm_path,
                        from_cache: false,
                        warning: selection.warning,
                    },
                    meta,
                )
            },
        }
    }
}

/// What was fetched is found again: the metadata that goes into the cache with
/// a plugin lets the host that fetched it use the cached artifact.
pub proof fn law_cached_plugin_is_reused(
    versions: TextMap<PluginVersionEntry>,
    wish: Wish,
    host_abi: Seq<char>,
    meta: CachedResolution,
)
    requires
        choice(versions, wish, host_abi) matches Ok(choice) && is_record(meta, wish, choice),
    ensures
        is_usable(Some(meta), wish.name, host_abi),
{
    law_selection_supports_host(versions, wish, host_abi);
}

} // verus!
