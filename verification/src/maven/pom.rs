//! Reading POM documents.
//!
//! A POM is read as a run of XML events. The reading keeps the packaging, the
//! direct dependencies that reach a consumer, and the entries of
//! `dependencyManagement`.

use vstd::prelude::*;
use crate::text;

verus! {

/// The reader of the `quick_xml` crate, over the bytes of one document.
#[verifier::external_type_specification]
#[verifier::external_body]
#[verifier::reject_recursive_types(R)]
pub struct ExReader<R>(quick_xml::Reader<R>);

/// One step of reading an XML document.
#[derive(Debug, PartialEq, Eq)]
pub enum XmlEvent {
    /// A start tag, by its element name.
    Start(String),
    /// Character data with its entities replaced.
    Text(String),
    /// Character data that could not be decoded, with the reason.
    BadText(String),
    /// An end tag, by its element name.
    End(String),
    /// Anything else a document may hold: an empty element, a comment, a
    /// declaration, a processing instruction, character data in a `CDATA`
    /// section.
    Other,
    /// The end of the document.
    Eof,
    /// The document could not be read on, with the reason.
    Failed(String),
}

/// What an [`XmlEvent`] holds.
pub enum XmlItem {
    /// A start tag.
    Start(Seq<char>),
    /// Character data.
    Text(Seq<char>),
    /// Undecodable character data.
    BadText(Seq<char>),
    /// An end tag.
    End(Seq<char>),
    /// Anything else.
    Other,
    /// The end of the document.
    Eof,
    /// A failure to read on.
    Failed(Seq<char>),
}

impl View for XmlEvent {
    type V = XmlItem;

    open spec fn view(&self) -> XmlItem {
        match *self {
            XmlEvent::Start(name) => XmlItem::Start(name@),
            XmlEvent::Text(content) => XmlItem::Text(content@),
            XmlEvent::BadText(reason) => XmlItem::BadText(reason@),
            XmlEvent::End(name) => XmlItem::End(name@),
            XmlEvent::Other => XmlItem::Other,
            XmlEvent::Eof => XmlItem::Eof,
            XmlEvent::Failed(reason) => XmlItem::Failed(reason@),
        }
    }
}

/// The items of a list of events.
pub open spec fn items_of(events: Seq<XmlEvent>) -> Seq<XmlItem> {
    Seq::new(events.len(), |i: int| events[i]@)
}

/// Whether nothing can be read behind an item.
pub open spec fn is_last(item: XmlItem) -> bool {
    item is Eof || item is Failed
}

/// The items of a whole document: the last one, and no other, is the end of
/// the document or a failure.
pub open spec fn is_document(items: Seq<XmlItem>) -> bool {
    &&& items.len() > 0
    &&& is_last(items.last())
    &&& forall|i: int| 0 <= i < items.len() - 1 ==> !is_last(#[trigger] items[i])
}

/// The items of the document that `bytes` write, as the `quick_xml` reader
/// gives them with surrounding white space trimmed off character data.
pub uninterp spec fn xml_items(bytes: Seq<u8>) -> Seq<XmlItem>;

/// The items a reader has still to give, up to the first end of document or
/// failure.
pub uninterp spec fn pending(reader: quick_xml::Reader<&[u8]>) -> Seq<XmlItem>;

/// `quick_xml::Reader::from_reader`, with `Config::trim_text` switched on: the
/// reader will give the items of the document that `bytes` write, and the
/// first end of document or failure among them is the last.
#[verifier::external_body]
fn open_document(bytes: &[u8]) -> (reader: quick_xml::Reader<&[u8]>)
    ensures
        pending(reader) == xml_items(bytes@),
        is_document(pending(reader)),
{
    let mut reader = quick_xml::Reader::from_reader(bytes);
    reader.config_mut().trim_text(true);
    reader
}

/// `quick_xml::Reader::read_event_into`: takes the next item off a reader. The
/// names of start and end tags are decoded as UTF-8, and
/// `quick_xml::events::BytesText::unescape` decodes character data.
#[verifier::external_body]
fn next_event(reader: &mut quick_xml::Reader<&[u8]>) -> (event: XmlEvent)
    requires
        pending(*old(reader)).len() > 0,
    ensures
        event@ == pending(*old(reader)).first(),
        pending(*final(reader)) == pending(*old(reader)).drop_first(),
{
    match reader.read_event_into(&mut Vec::new()) {
        Ok(quick_xml::events::Event::Start(tag)) => XmlEvent::Start(
            String::from_utf8_lossy(tag.name().as_ref()).into_owned(),
        ),
        Ok(quick_xml::events::Event::End(tag)) => XmlEvent::End(
            String::from_utf8_lossy(tag.name().as_ref()).into_owned(),
        ),
        Ok(quick_xml::events::Event::Text(text)) => match text.unescape() {
            Ok(content) => XmlEvent::Text(content.into_owned()),
            Err(error) => XmlEvent::BadText(error.to_string()),
        },
        Ok(quick_xml::events::Event::Eof) => XmlEvent::Eof,
        Ok(_) => XmlEvent::Other,
        Err(error) => XmlEvent::Failed(error.to_string()),
    }
}

/// The scope of a dependency in a POM.
#[derive(Debug, Clone, Copy, PartialEq, Eq, Structural)]
pub enum PomScope {
    /// Needed to compile against the artifact and to run it.
    Compile,
    /// Needed to run the artifact.
    Runtime,
    /// `test`, `provided`, or `system`: not part of a consumer's graph.
    Skip,
}

/// A dependency as a POM declares it.
#[derive(Debug, PartialEq, Eq)]
pub struct PomDependency {
    /// The Maven group.
    pub group: String,
    /// The Maven artifact.
    pub artifact: String,
    /// The version, where one is given.
    pub version: Option<String>,
    /// The scope.
    pub scope: PomScope,
    /// Whether the dependency is optional.
    pub optional: bool,
}

/// What a [`PomDependency`] holds.
pub struct PomDep {
    /// The Maven group.
    pub group: Seq<char>,
    /// The Maven artifact.
    pub artifact: Seq<char>,
    /// The version, where one is given.
    pub version: Option<Seq<char>>,
    /// The scope.
    pub scope: PomScope,
    /// Whether the dependency is optional.
    pub optional: bool,
}

impl View for PomDependency {
    type V = PomDep;

    open spec fn view(&self) -> PomDep {
        PomDep {
            group: self.group@,
            artifact: self.artifact@,
            version: text::opt_text(self.version),
            scope: self.scope,
            optional: self.optional,
        }
    }
}

/// What a list of dependencies holds.
pub open spec fn pom_deps(list: Seq<PomDependency>) -> Seq<PomDep> {
    Seq::new(list.len(), |i: int| list[i]@)
}

/// A POM, as far as resolution reads it.
#[derive(Debug, PartialEq, Eq)]
pub struct PomProject {
    /// The packaging; `jar` where the POM names none.
    pub packaging: String,
    /// The direct dependencies that are part of a consumer's graph.
    pub deps: Vec<PomDependency>,
    /// The entries of `dependencyManagement`.
    pub managed_deps: Vec<PomDependency>,
}

/// What a [`PomProject`] holds.
pub struct Pom {
    /// The packaging.
    pub packaging: Seq<char>,
    /// The direct dependencies.
    pub deps: Seq<PomDep>,
    /// The entries of `dependencyManagement`.
    pub managed_deps: Seq<PomDep>,
}

impl View for PomProject {
    type V = Pom;

    open spec fn view(&self) -> Pom {
        Pom {
            packaging: self.packaging@,
            deps: pom_deps(self.deps@),
            managed_deps: pom_deps(self.managed_deps@),
        }
    }
}

/// How far a POM has been read.
pub struct Reading {
    /// The names of the open elements, the outermost first.
    pub stack: Seq<Seq<char>>,
    /// The packaging so far.
    pub packaging: Seq<char>,
    /// Whether `dependencyManagement` is open.
    pub in_management: bool,
    /// Whether the dependency list of `dependencyManagement` is open.
    pub in_management_deps: bool,
    /// Whether the project's own dependency list is open.
    pub in_dependencies: bool,
    /// The dependency being read.
    pub current: Option<PomDep>,
    /// The name of the element whose character data counts.
    pub field: Option<Seq<char>>,
    /// The direct dependencies so far.
    pub deps: Seq<PomDep>,
    /// The managed dependencies so far.
    pub managed_deps: Seq<PomDep>,
}

/// Before the first item.
pub open spec fn blank_reading() -> Reading {
    Reading {
        stack: Seq::empty(),
        packaging: "jar"@,
        in_management: false,
        in_management_deps: false,
        in_dependencies: false,
        current: None,
        field: None,
        deps: Seq::empty(),
        managed_deps: Seq::empty(),
    }
}

/// A dependency none of whose elements has been read.
pub open spec fn blank_dep() -> PomDep {
    PomDep {
        group: Seq::empty(),
        artifact: Seq::empty(),
        version: None,
        scope: PomScope::Compile,
        optional: false,
    }
}

/// Whether the innermost open element has the given name.
pub open spec fn is_inside(reading: Reading, name: Seq<char>) -> bool {
    reading.stack.len() > 0 && reading.stack.last() == name
}

/// Whether an element of this name describes the dependency around it.
pub open spec fn is_dep_field(name: Seq<char>) -> bool {
    name == "groupId"@ || name == "artifactId"@ || name == "version"@ || name == "scope"@ || name
        == "optional"@
}

/// A start tag opens a section, a dependency or a field, depending on what it
/// stands in.
pub open spec fn after_start(reading: Reading, name: Seq<char>) -> Reading {
    let opened = Reading { stack: reading.stack.push(name), field: None, ..reading };
    if name == "packaging"@ {
        if is_inside(reading, "project"@) {
            Reading { field: Some(name), ..opened }
        } else {
            opened
        }
    } else if name == "dependencyManagement"@ {
        Reading { in_management: true, ..opened }
    } else if name == "dependencies"@ {
        if reading.in_management && is_inside(reading, "dependencyManagement"@) {
            Reading { in_management_deps: true, ..opened }
        } else if !reading.in_management && is_inside(reading, "project"@) {
            Reading { in_dependencies: true, ..opened }
        } else {
            opened
        }
    } else if name == "dependency"@ {
        if (reading.in_dependencies || reading.in_management_deps) && is_inside(
            reading,
            "dependencies"@,
        ) && reading.current is None {
            Reading { current: Some(blank_dep()), ..opened }
        } else {
            opened
        }
    } else if is_dep_field(name) && reading.current is Some && is_inside(reading, "dependency"@) {
        Reading { field: Some(name), ..opened }
    } else {
        opened
    }
}

/// A hard pin `[1.2.3]` is the version between its brackets; a range, which
/// holds a comma, is left alone.
pub open spec fn pinned(version: Seq<char>) -> Seq<char> {
    if version.len() > 2 && version.first() == '[' && version.last() == ']' && !version.contains(
        ',',
    ) {
        version.subrange(1, version.len() - 1)
    } else {
        version
    }
}

/// The scope a POM's `scope` element names.
pub open spec fn scope_named(name: Seq<char>) -> PomScope {
    if name == "runtime"@ {
        PomScope::Runtime
    } else if name == "test"@ || name == "provided"@ || name == "system"@ {
        PomScope::Skip
    } else {
        PomScope::Compile
    }
}

/// A dependency after the character data of one of its fields. A direct
/// dependency whose version is the placeholder `unspecified` has no version.
pub open spec fn with_field(
    dep: PomDep,
    field: Seq<char>,
    content: Seq<char>,
    direct: bool,
) -> PomDep {
    if field == "groupId"@ {
        PomDep { group: content, ..dep }
    } else if field == "artifactId"@ {
        PomDep { artifact: content, ..dep }
    } else if field == "version"@ {
        PomDep {
            version: if direct && pinned(content) == "unspecified"@ {
                None
            } else {
                Some(pinned(content))
            },
            ..dep
        }
    } else if field == "scope"@ {
        PomDep { scope: scope_named(content), ..dep }
    } else if field == "optional"@ {
        PomDep { optional: content == "true"@, ..dep }
    } else {
        dep
    }
}

/// Character data fills the open field; white space alone fills nothing.
pub open spec fn after_text(reading: Reading, content: Seq<char>) -> Reading {
    if text::all_space(content) || reading.field is None {
        reading
    } else {
        let field = reading.field->0;
        match reading.current {
            None => if field == "packaging"@ {
                Reading { packaging: content, ..reading }
            } else {
                reading
            },
            Some(dep) => Reading {
                current: Some(with_field(dep, field, content, reading.in_dependencies)),
                ..reading
            },
        }
    }
}

/// An end tag closes what its name says is open. A finished dependency is
/// kept where its coordinate is complete: among the managed ones inside
/// `dependencyManagement`, else among the direct ones unless it is optional
/// or of a skipped scope.
pub open spec fn after_end(reading: Reading, name: Seq<char>) -> Reading {
    let left = Reading {
        field: if reading.field == Some(name) {
            None
        } else {
            reading.field
        },
        stack: if reading.stack.len() > 0 {
            reading.stack.drop_last()
        } else {
            reading.stack
        },
        ..reading
    };
    if name == "dependency"@ {
        let taken = Reading { current: None, ..left };
        match reading.current {
            Some(dep) => if dep.group.len() == 0 || dep.artifact.len() == 0 {
                taken
            } else if reading.in_management_deps {
                Reading { managed_deps: reading.managed_deps.push(dep), ..taken }
            } else if !dep.optional && dep.scope != PomScope::Skip {
                Reading { deps: reading.deps.push(dep), ..taken }
            } else {
                taken
            },
            None => taken,
        }
    } else if name == "dependencies"@ {
        if reading.in_management_deps {
            Reading { in_management_deps: false, ..left }
        } else {
            Reading { in_dependencies: false, ..left }
        }
    } else if name == "dependencyManagement"@ {
        Reading { in_management: false, ..left }
    } else {
        left
    }
}

/// The reading after one more item.
pub open spec fn after_item(reading: Reading, item: XmlItem) -> Reading {
    match item {
        XmlItem::Start(name) => after_start(reading, name),
        XmlItem::Text(content) => after_text(reading, content),
        XmlItem::End(name) => after_end(reading, name),
        _ => reading,
    }
}

/// The reading after all of `items`.
pub open spec fn read_items(items: Seq<XmlItem>) -> Reading
    decreases items.len(),
{
    if items.len() == 0 {
        blank_reading()
    } else {
        after_item(read_items(items.drop_last()), items.last())
    }
}

/// Whether reading a POM stops at an item.
pub open spec fn stops(item: XmlItem) -> bool {
    item is Eof || item is Failed || item is BadText
}

/// What reading a POM gives: the project where the first stopping item is the
/// end of the document, else a description of what that item says. A list
/// without a stopping item is read to its end.
pub open spec fn pom_of(items: Seq<XmlItem>) -> Result<Pom, Seq<char>> {
    let n = first_stop(items, 0);
    if n < items.len() && items[n] is Failed {
        Err("reading XML: "@ + items[n]->Failed_0)
    } else if n < items.len() && items[n] is BadText {
        Err("decoding text: "@ + items[n]->BadText_0)
    } else {
        let reading = read_items(items.take(n));
        Ok(
            Pom {
                packaging: reading.packaging,
                deps: reading.deps,
                managed_deps: reading.managed_deps,
            },
        )
    }
}

/// The position of the first stopping item from `from` on, the length where
/// there is none.
pub open spec fn first_stop(items: Seq<XmlItem>, from: int) -> int
    decreases items.len() - from,
{
    if from >= items.len() || stops(items[from]) {
        from
    } else {
        first_stop(items, from + 1)
    }
}

/// A reading's result as a specification value.
pub open spec fn pom_result(result: Result<PomProject, String>) -> Result<Pom, Seq<char>> {
    match result {
        Ok(pom) => Ok(pom@),
        Err(message) => Err(message@),
    }
}

struct Progress {
    stack: Vec<String>,
    packaging: String,
    in_management: bool,
    in_management_deps: bool,
    in_dependencies: bool,
    current: Option<PomDependency>,
    field: Option<String>,
    deps: Vec<PomDependency>,
    managed_deps: Vec<PomDependency>,
}

spec fn opt_dep(dep: Option<PomDependency>) -> Option<PomDep> {
    match dep {
        Some(dep) => Some(dep@),
        None => None,
    }
}

impl Progress {
    spec fn reading(self) -> Reading {
        Reading {
            stack: text::texts(self.stack@),
            packaging: self.packaging@,
            in_management: self.in_management,
            in_management_deps: self.in_management_deps,
            in_dependencies: self.in_dependencies,
            current: opt_dep(self.current),
            field: text::opt_text(self.field),
            deps: pom_deps(self.deps@),
            managed_deps: pom_deps(self.managed_deps@),
        }
    }

    fn new() -> (progress: Progress)
        ensures
            progress.reading() == blank_reading(),
    {
        let progress = Progress {
            stack: Vec::new(),
            packaging: "jar".to_owned(),
            in_management: false,
            in_management_deps: false,
            in_dependencies: false,
            current: None,
            field: None,
            deps: Vec::new(),
            managed_deps: Vec::new(),
        };
        assert(progress.reading().stack == blank_reading().stack);
        assert(progress.reading().deps == blank_reading().deps);
        assert(progress.reading().managed_deps == blank_reading().managed_deps);
        progress
    }

    fn inside(&self, name: &str) -> (yes: bool)
        ensures
            yes == is_inside(self.reading(), name@),
    {
        let n: usize = self.stack.len();
        n > 0 && text::str_eq(&self.stack[n - 1], name)
    }

    fn start(&mut self, name: &String)
        ensures
            final(self).reading() == after_start(old(self).reading(), name@),
    {
        let ghost before = self.reading();
        let in_project = self.inside("project");
        let in_managed = self.inside("dependencyManagement");
        let in_list = self.inside("dependencies");
        let in_dependency = self.inside("dependency");
        self.stack.push(name.clone());
        assert(text::texts(self.stack@) == before.stack.push(name@));
        self.field = None;
        if text::str_eq(name, "packaging") {
            if in_project {
                self.field = Some(name.clone());
            }
        } else if text::str_eq(name, "dependencyManagement") {
            self.in_management = true;
        } else if text::str_eq(name, "dependencies") {
            if self.in_management && in_managed {
                self.in_management_deps = true;
            } else if !self.in_management && in_project {
                self.in_dependencies = true;
            }
        } else if text::str_eq(name, "dependency") {
            if (self.in_dependencies || self.in_management_deps) && in_list
                && self.current.is_none() {
                self.current = Some(
                    PomDependency {
                        group: String::new(),
                        artifact: String::new(),
                        version: None,
                        scope: PomScope::Compile,
                        optional: false,
                    },
                );
                assert(self.current->0@ == blank_dep());
            }
        } else if (text::str_eq(name, "groupId") || text::str_eq(name, "artifactId")
            || text::str_eq(name, "version") || text::str_eq(name, "scope") || text::str_eq(
            name,
            "optional",
        )) && self.current.is_some() && in_dependency {
            self.field = Some(name.clone());
        }
    }

    fn text(&mut self, content: &String)
        ensures
            final(self).reading() == after_text(old(self).reading(), content@),
    {
        if text::is_blank(content) {
            return ;
        }
        let field = match &self.field {
            Some(field) => field.clone(),
            None => return ,
        };
        let direct = self.in_dependencies;
        match self.current.take() {
            None => {
                if text::str_eq(&field, "packaging") {
                    self.packaging = content.clone();
                }
            },
            Some(mut dep) => {
                fill(&mut dep, &field, content, direct);
                self.current = Some(dep);
            },
        }
    }

    fn end(&mut self, name: &String)
        ensures
            final(self).reading() == after_end(old(self).reading(), name@),
    {
        let ghost before = self.reading();
        let closes = match &self.field {
            Some(field) => text::str_eq(field, name),
            None => false,
        };
        if closes {
            self.field = None;
        }
        let ghost names = self.stack@;
        let _ = self.stack.pop();
        assert(names.len() > 0 ==> text::texts(self.stack@) == text::texts(names).drop_last());
        if text::str_eq(name, "dependency") {
            if let Some(dep) = self.current.take() {
                if dep.group.as_str().unicode_len() > 0 && dep.artifact.as_str().unicode_len() > 0 {
                    if self.in_management_deps {
                        let ghost list = self.managed_deps@;
                        self.managed_deps.push(dep);
                        assert(pom_deps(self.managed_deps@) == pom_deps(list).push(dep@));
                    } else if !dep.optional && dep.scope != PomScope::Skip {
                        let ghost list = self.deps@;
                        self.deps.push(dep);
                        assert(pom_deps(self.deps@) == pom_deps(list).push(dep@));
                    }
                }
            }
        } else if text::str_eq(name, "dependencies") {
            if self.in_management_deps {
                self.in_management_deps = false;
            } else {
                self.in_dependencies = false;
            }
        } else if text::str_eq(name, "dependencyManagement") {
            self.in_management = false;
        }
    }
}

fn fill(dep: &mut PomDependency, field: &str, content: &String, direct: bool)
    ensures
        final(dep)@ == with_field(old(dep)@, field@, content@, direct),
{
    if text::str_eq(field, "groupId") {
        dep.group = content.clone();
    } else if text::str_eq(field, "artifactId") {
        dep.artifact = content.clone();
    } else if text::str_eq(field, "version") {
        let version = normalize_pom_version(content);
        dep.version = if direct && text::str_eq(&version, "unspecified") {
            None
        } else {
            Some(version)
        };
    } else if text::str_eq(field, "scope") {
        dep.scope = if text::str_eq(content, "runtime") {
            PomScope::Runtime
        } else if text::str_eq(content, "test") || text::str_eq(content, "provided")
            || text::str_eq(content, "system") {
            PomScope::Skip
        } else {
            PomScope::Compile
        };
    } else if text::str_eq(field, "optional") {
        dep.optional = text::str_eq(content, "true");
    }
}

/// Normalizes a version as read from a POM `<version>` element into the
/// concrete version a coordinate resolves to.
///
/// A dependency declared with a Maven hard pin (`<version>[1.2.3]</version>`)
/// pins the exact version: the brackets are pin syntax, not part of the
/// version. Range pins, which carry a comma, are left untouched.
pub fn normalize_pom_version(version: &str) -> (normalized: String)
    ensures
        normalized@ == pinned(version@),
{
    let chars = text::chars_of(version);
    let n: usize = chars.len();
    if n > 2 && chars[0] == '[' && chars[n - 1] == ']' {
        let mut i: usize = 0;
        while i < n
            invariant
                i <= n,
                n == chars@.len(),
                chars@ == version@,
                forall|j: int| 0 <= j < i ==> chars@[j] != ',',
            decreases n - i,
        {
            if chars[i] == ',' {
                assert(version@.contains(','));
                return version.to_owned();
            }
            i += 1;
        }
        text::from_chars(&chars, 1, n - 1)
    } else {
        version.to_owned()
    }
}

proof fn lemma_first_stop(items: Seq<XmlItem>, from: int, n: int)
    requires
        0 <= from <= n <= items.len(),
        forall|i: int| from <= i < n ==> !stops(#[trigger] items[i]),
        n < items.len() ==> stops(items[n]),
    ensures
        first_stop(items, from) == n,
    decreases n - from,
{
    if from < n {
        assert(!stops(items[from]));
        lemma_first_stop(items, from + 1, n);
    }
}

/// Reads a POM from the events of its document.
///
/// # Errors
///
/// Returns a description where the first event that stops the reading is a
/// failure or undecodable character data.
pub fn parse_pom_events(events: &Vec<XmlEvent>) -> (result: Result<PomProject, String>)
    ensures
        pom_result(result) == pom_of(items_of(events@)),
{
    let ghost items = items_of(events@);
    let mut progress = Progress::new();
    let mut i: usize = 0;
    assert(items.take(0).len() == 0);
    while i < events.len()
        invariant
            items == items_of(events@),
            i <= events.len(),
            progress.reading() == read_items(items.take(i as int)),
            forall|j: int| 0 <= j < i ==> !stops(#[trigger] items[j]),
        decreases events.len() - i,
    {
        assert(items[i as int] == events@[i as int]@);
        assert(items.take(i + 1).drop_last() == items.take(i as int));
        match &events[i] {
            XmlEvent::Start(name) => progress.start(name),
            XmlEvent::Text(content) => progress.text(content),
            XmlEvent::End(name) => progress.end(name),
            XmlEvent::Other => {},
            XmlEvent::Eof => {
                proof {
                    lemma_first_stop(items, 0, i as int);
                }
                return Ok(
                    PomProject {
                        packaging: progress.packaging,
                        deps: progress.deps,
                        managed_deps: progress.managed_deps,
                    },
                );
            },
            XmlEvent::BadText(reason) => {
                proof {
                    lemma_first_stop(items, 0, i as int);
                }
                return Err("decoding text: ".to_owned().concat(reason));
            },
            XmlEvent::Failed(reason) => {
                proof {
                    lemma_first_stop(items, 0, i as int);
                }
                return Err("reading XML: ".to_owned().concat(reason));
            },
        }
        i += 1;
    }
    proof {
        lemma_first_stop(items, 0, i as int);
    }
    Ok(
        PomProject {
            packaging: progress.packaging,
            deps: progress.deps,
            managed_deps: progress.managed_deps,
        },
    )
}

/// Parses a POM's packaging, its direct `compile`/`runtime`-scoped
/// dependencies, and its `dependencyManagement` entries.
///
/// `test`/`provided`/`system` and `optional` dependencies are dropped from
/// the direct dependencies list, as are dependencies that are not part of a
/// consumer's graph. Managed dependencies are preserved regardless of scope
/// since they supply version constraints to consumers.
///
/// # Errors
///
/// Returns a description when the document cannot be read.
pub fn parse_pom(bytes: &[u8]) -> (result: Result<PomProject, String>)
    ensures
        pom_result(result) == pom_of(xml_items(bytes@)),
{
    let mut reader = open_document(bytes);
    let mut events: Vec<XmlEvent> = Vec::new();
    let ghost all = xml_items(bytes@);
    let mut more = true;
    assert(items_of(events@) + pending(reader) == all);
    while more
        invariant
            is_document(all),
            items_of(events@) + pending(reader) == all,
            more <==> pending(reader).len() > 0,
        decreases pending(reader).len(),
    {
        let ghost list = events@;
        let ghost left = pending(reader);
        assert(all[list.len() as int] == left.first());
        let event = next_event(&mut reader);
        more = match &event {
            XmlEvent::Eof => false,
            XmlEvent::Failed(_) => false,
            _ => true,
        };
        proof {
            if left.len() == 1 {
                assert(left.first() == all.last());
            } else {
                assert(!is_last(all[list.len() as int]));
            }
        }
        events.push(event);
        assert(items_of(events@) == items_of(list).push(event@));
    }
    assert(items_of(events@) == all);
    parse_pom_events(&events)
}

/// Whether a dependency belongs in a consumer's graph.
pub open spec fn reaches_consumer(dep: PomDep) -> bool {
    &&& dep.group.len() > 0
    &&& dep.artifact.len() > 0
    &&& !dep.optional
    &&& dep.scope != PomScope::Skip
}

proof fn lemma_direct_deps(items: Seq<XmlItem>)
    ensures
        forall|i: int|
            0 <= i < read_items(items).deps.len() ==> reaches_consumer(
                #[trigger] read_items(items).deps[i],
            ),
        forall|i: int|
            0 <= i < read_items(items).managed_deps.len() ==> {
                let dep = #[trigger] read_items(items).managed_deps[i];
                dep.group.len() > 0 && dep.artifact.len() > 0
            },
    decreases items.len(),
{
    if items.len() > 0 {
        lemma_direct_deps(items.drop_last());
    }
}

/// Whatever a POM holds, the direct dependencies read from it have complete
/// coordinates, are not optional and are not of a skipped scope; managed
/// entries have complete coordinates.
pub proof fn law_direct_dependencies_reach_consumers(items: Seq<XmlItem>)
    requires
        pom_of(items) is Ok,
    ensures
        forall|i: int|
            0 <= i < pom_of(items)->Ok_0.deps.len() ==> reaches_consumer(
                #[trigger] pom_of(items)->Ok_0.deps[i],
            ),
        forall|i: int|
            0 <= i < pom_of(items)->Ok_0.managed_deps.len() ==> {
                let dep = #[trigger] pom_of(items)->Ok_0.managed_deps[i];
                dep.group.len() > 0 && dep.artifact.len() > 0
            },
{
    lemma_direct_deps(items.take(first_stop(items, 0)));
}

} // verus!
