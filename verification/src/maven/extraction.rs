//! Extracting the `classes.jar` of an Android archive.
//!
//! An AAR contributes the `classes.jar` it holds to a classpath. The jar is tied
//! to the AAR it came from: the digest of the AAR is recorded beside it, together
//! with its own, and it is extracted again where the one is no longer that of the
//! AAR in the cache or the other no longer that of the jar. An extraction goes through a partial file of its own, is moved into
//! place as a whole, and may be no larger than a download. This module decides
//! what is to be done next; doing it is up to the caller, who tells how it went.

use vstd::prelude::*;
use crate::digest;
use crate::digest::Hasher;
use crate::maven;
use crate::maven::{Dependency, Failure, Gav, ResolveError};
use crate::maven::fetch;
use crate::maven::fetch::ArchiveWork;
use crate::maven::transfer;
use crate::maven::transfer::Event;
use crate::text;

verus! {

/// The entry of an AAR that is extracted.
pub const CLASSES_JAR: &'static str = "classes.jar";

/// What an extraction does at present.
pub enum Phase {
    /// Open the AAR.
    Open,
    /// Read it as an archive.
    Archive,
    /// Look for the jar in it.
    Find,
    /// Create the directory of the extracted jar.
    MakeDir,
    /// Create the partial file.
    Create,
    /// Read the next chunk of the jar.
    Read,
    /// Append the chunk to the partial file.
    Append,
    /// Bring the partial file to the disk.
    Sync,
    /// Record the digests of the AAR and of the jar.
    Record,
    /// Move the partial file into place.
    Rename,
    /// Remove the partial file, because of this.
    Discard(Failure),
    /// Nothing: the jar is in the cache.
    Done,
    /// Nothing: it failed because of this.
    Failed(Failure),
}

/// How far an extraction has come.
#[verifier::ext_equal]
pub struct Course {
    /// The coordinate of the AAR.
    pub coordinate: Gav,
    /// The file that is the AAR.
    pub aar: Seq<char>,
    /// The file that the jar goes to.
    pub jar: Seq<char>,
    /// The file that it goes through.
    pub part: Seq<char>,
    /// The digest recorded for the AAR, where there is one.
    pub digest: Option<Seq<char>>,
    /// What has been read of the jar.
    pub content: Seq<u8>,
    /// What is done at present.
    pub phase: Phase,
}

/// The error of work of an extraction that failed at `path`.
pub open spec fn fault(course: Course, work: ArchiveWork, path: Seq<char>, cause: Seq<char>) -> Failure {
    Failure::Archive {
        artifact: maven::gav_text(course.coordinate),
        message: fetch::work_text(work) + path + ": "@ + cause,
    }
}

/// The error of an extraction that is larger than an artifact may be.
pub open spec fn excess(course: Course) -> Failure {
    Failure::Archive {
        artifact: maven::gav_text(course.coordinate),
        message: "classes.jar in "@ + course.aar + " exceeds the "@ + text::decimal_text(
            fetch::MAX_ARTIFACT_BYTES as nat,
        ) + " byte limit"@,
    }
}

/// The course when what was to be done is done.
pub open spec fn course_done(course: Course) -> Course {
    let phase = match course.phase {
        Phase::Open => Phase::Archive,
        Phase::Archive => Phase::Find,
        Phase::Find => Phase::MakeDir,
        Phase::MakeDir => Phase::Create,
        Phase::Create => Phase::Read,
        Phase::Append => Phase::Read,
        Phase::Sync => Phase::Record,
        Phase::Record => Phase::Rename,
        Phase::Rename => Phase::Done,
        Phase::Discard(failure) => Phase::Failed(failure),
        other => other,
    };
    Course { phase, ..course }
}

/// The course when what was to be done failed because of `cause`. There is a
/// partial file to remove once it may have been created.
pub open spec fn course_failed(course: Course, cause: Seq<char>) -> Course {
    let phase = match course.phase {
        Phase::Open => Phase::Failed(fault(course, ArchiveWork::Opening, course.aar, cause)),
        Phase::Archive => Phase::Failed(fault(course, ArchiveWork::Reading, course.aar, cause)),
        Phase::Find => Phase::Failed(fault(course, ArchiveWork::Finding, course.aar, cause)),
        Phase::MakeDir => Phase::Failed(
            fault(course, ArchiveWork::Creating, text::dir_text(course.jar), cause),
        ),
        Phase::Create => Phase::Discard(fault(course, ArchiveWork::Creating, course.part, cause)),
        Phase::Read => Phase::Discard(fault(course, ArchiveWork::Reading, course.part, cause)),
        Phase::Append => Phase::Discard(fault(course, ArchiveWork::Writing, course.part, cause)),
        Phase::Sync => Phase::Discard(fault(course, ArchiveWork::Writing, course.part, cause)),
        Phase::Record => Phase::Discard(
            fault(course, ArchiveWork::Recording, transfer::sha_text(course.jar), cause),
        ),
        Phase::Rename => Phase::Discard(fault(course, ArchiveWork::Finishing, course.jar, cause)),
        Phase::Discard(failure) => Phase::Failed(failure),
        other => other,
    };
    Course { phase, ..course }
}

/// The course when a chunk was read. An empty one is the end of the jar.
pub open spec fn course_fed(course: Course, chunk: Seq<u8>) -> Course {
    if !(course.phase is Read) {
        course
    } else if chunk.len() == 0 {
        Course { phase: Phase::Sync, ..course }
    } else if course.content.len() + chunk.len() > fetch::MAX_ARTIFACT_BYTES {
        Course { phase: Phase::Discard(excess(course)), ..course }
    } else {
        Course { content: course.content + chunk, phase: Phase::Append, ..course }
    }
}

/// What an extraction starts from.
pub struct Extract<'a> {
    /// The coordinate of the AAR.
    pub coordinate: &'a Dependency,
    /// The file that is the AAR.
    pub aar: &'a str,
    /// The digest recorded for it, where there is one.
    pub aar_digest: Option<String>,
    /// The file that the jar goes to.
    pub jar: &'a str,
    /// A digest that has taken in what that file holds, where it can be read.
    pub jar_content: Option<Hasher>,
    /// What is recorded beside it, where there is anything.
    pub recorded: Option<String>,
    /// The number of this process.
    pub process: u32,
    /// A number that no other extraction of this process has.
    pub nonce: u64,
}

/// Whether the jar extracted before is intact and that of the AAR as it is now.
pub open spec fn is_current(from: Extract<'_>) -> bool {
    from.jar_content matches Some(hasher) && text::opt_text(from.recorded) == Some(
        fetch::seal_text(text::opt_text(from.aar_digest), hasher.message()),
    )
}

/// Where an extraction starts: at its end, where there is nothing to do.
pub open spec fn fresh_course(from: Extract<'_>) -> Course {
    Course {
        coordinate: from.coordinate@,
        aar: from.aar@,
        jar: from.jar@,
        part: from.jar@ + ".part-"@ + text::decimal_text(from.process as nat) + "-"@
            + text::decimal_text(from.nonce as nat),
        digest: text::opt_text(from.aar_digest),
        content: Seq::empty(),
        phase: if is_current(from) {
            Phase::Done
        } else {
            Phase::Open
        },
    }
}

/// What an extraction needs next, or how it ended.
#[derive(Debug, PartialEq, Eq)]
pub enum ExtractionStep {
    /// Open this file.
    Open(String),
    /// Read the file as a zip archive.
    Archive,
    /// Look for this entry in the archive.
    Find(String),
    /// Create this directory and those above it.
    MakeDir(String),
    /// Create this partial file.
    Create(String),
    /// Read the next chunk of the entry.
    Read,
    /// Append the chunk to the partial file.
    Append,
    /// Bring the partial file to the disk.
    Sync,
    /// Write this file.
    Record {
        /// The file.
        path: String,
        /// Its content.
        digest: String,
    },
    /// Move a file.
    Rename {
        /// The file.
        from: String,
        /// Where it goes.
        to: String,
    },
    /// Remove this partial file, whether or not it exists.
    Discard(String),
    /// Nothing: this jar is in the cache.
    Done(String),
    /// Nothing: the extraction failed.
    Failed(ResolveError),
}

/// Whether a step is the next one of an extraction.
pub open spec fn is_step(step: ExtractionStep, course: Course) -> bool {
    match course.phase {
        Phase::Open => step matches ExtractionStep::Open(path) && path@ == course.aar,
        Phase::Archive => step is Archive,
        Phase::Find => step matches ExtractionStep::Find(name) && name@ == CLASSES_JAR@,
        Phase::MakeDir => step matches ExtractionStep::MakeDir(dir) && dir@ == text::dir_text(
            course.jar,
        ),
        Phase::Create => step matches ExtractionStep::Create(path) && path@ == course.part,
        Phase::Read => step is Read,
        Phase::Append => step is Append,
        Phase::Sync => step is Sync,
        Phase::Record => step matches ExtractionStep::Record { path, digest } && path@
            == transfer::sha_text(course.jar) && digest@ == fetch::seal_text(
            course.digest,
            course.content,
        ),
        Phase::Rename => step matches ExtractionStep::Rename { from, to } && from@ == course.part
            && to@ == course.jar,
        Phase::Discard(_) => step matches ExtractionStep::Discard(path) && path@ == course.part,
        Phase::Done => step matches ExtractionStep::Done(path) && path@ == course.jar,
        Phase::Failed(failure) => step matches ExtractionStep::Failed(error) && error@ == failure,
    }
}

enum Stage {
    Open,
    Archive,
    Find,
    MakeDir,
    Create,
    Read,
    Append,
    Sync(String),
    Record(String),
    Rename,
    Discard(ResolveError),
    Done,
    Failed(ResolveError),
}

impl Stage {
    spec fn phase(self) -> Phase {
        match self {
            Stage::Open => Phase::Open,
            Stage::Archive => Phase::Archive,
            Stage::Find => Phase::Find,
            Stage::MakeDir => Phase::MakeDir,
            Stage::Create => Phase::Create,
            Stage::Read => Phase::Read,
            Stage::Append => Phase::Append,
            Stage::Sync(_) => Phase::Sync,
            Stage::Record(_) => Phase::Record,
            Stage::Rename => Phase::Rename,
            Stage::Discard(error) => Phase::Discard(error@),
            Stage::Done => Phase::Done,
            Stage::Failed(error) => Phase::Failed(error@),
        }
    }
}

/// An extraction on its way into the cache.
pub struct Extraction {
    coordinate: Dependency,
    aar: String,
    jar: String,
    part: String,
    digest: Option<String>,
    hasher: Hasher,
    copied: u64,
    content: Ghost<Seq<u8>>,
    stage: Stage,
}

impl View for Extraction {
    type V = Course;

    closed spec fn view(&self) -> Course {
        Course {
            coordinate: self.coordinate@,
            aar: self.aar@,
            jar: self.jar@,
            part: self.part@,
            digest: text::opt_text(self.digest),
            content: self.content@,
            phase: self.stage.phase(),
        }
    }
}

impl Extraction {
    /// Whether what was read is accounted for and no more than an artifact may
    /// hold, and what is to be recorded belongs to the AAR and to what was read.
    pub closed spec fn wf(&self) -> bool {
        let text = fetch::seal_text(text::opt_text(self.digest), self.content@);
        &&& self.copied == self.content@.len()
        &&& self.copied <= fetch::MAX_ARTIFACT_BYTES
        &&& match self.stage {
            Stage::Sync(seal) => seal@ == text,
            Stage::Record(seal) => seal@ == text,
            Stage::Rename | Stage::Discard(_) | Stage::Done | Stage::Failed(_) => true,
            _ => self.hasher.message() == self.content@,
        }
    }

    /// An extraction from what is in the cache.
    pub fn new(from: Extract<'_>) -> (extraction: Extraction)
        requires
            from.jar_content matches Some(hasher) ==> hasher.message().len()
                <= digest::MAX_MESSAGE,
        ensures
            extraction.wf(),
            extraction@ == fresh_course(from),
    {
        let reuses = fetch::reuses_extraction(from.jar_content, &from.recorded, &from.aar_digest);
        Extraction {
            coordinate: from.coordinate.clone(),
            aar: from.aar.to_owned(),
            jar: from.jar.to_owned(),
            part: fetch::extraction_part_path(from.jar, from.process, from.nonce),
            digest: from.aar_digest,
            hasher: Hasher::new(),
            copied: 0,
            content: Ghost(Seq::empty()),
            stage: if reuses {
                Stage::Done
            } else {
                Stage::Open
            },
        }
    }

    /// What has to be done next.
    pub fn step(&self) -> (step: ExtractionStep)
        requires
            self.wf(),
        ensures
            is_step(step, self@),
    {
        match &self.stage {
            Stage::Open => ExtractionStep::Open(self.aar.clone()),
            Stage::Archive => ExtractionStep::Archive,
            Stage::Find => ExtractionStep::Find(CLASSES_JAR.to_owned()),
            Stage::MakeDir => ExtractionStep::MakeDir(text::dir_of(&self.jar)),
            Stage::Create => ExtractionStep::Create(self.part.clone()),
            Stage::Read => ExtractionStep::Read,
            Stage::Append => ExtractionStep::Append,
            Stage::Sync(_) => ExtractionStep::Sync,
            Stage::Record(digest) => ExtractionStep::Record {
                path: fetch::sha_path(&self.jar),
                digest: digest.clone(),
            },
            Stage::Rename => ExtractionStep::Rename {
                from: self.part.clone(),
                to: self.jar.clone(),
            },
            Stage::Discard(_) => ExtractionStep::Discard(self.part.clone()),
            Stage::Done => ExtractionStep::Done(self.jar.clone()),
            Stage::Failed(error) => ExtractionStep::Failed(error.clone()),
        }
    }

    /// What was to be done is done.
    pub fn succeed(self) -> (next: Extraction)
        requires
            self.wf(),
        ensures
            next.wf(),
            next@ == course_done(self@),
    {
        let mut next = self;
        next.stage = match next.stage {
            Stage::Open => Stage::Archive,
            Stage::Archive => Stage::Find,
            Stage::Find => Stage::MakeDir,
            Stage::MakeDir => Stage::Create,
            Stage::Create => Stage::Read,
            Stage::Append => Stage::Read,
            Stage::Sync(seal) => Stage::Record(seal),
            Stage::Record(_) => Stage::Rename,
            Stage::Rename => Stage::Done,
            Stage::Discard(error) => Stage::Failed(error),
            other => other,
        };
        next
    }

    fn fault(&self, work: ArchiveWork, path: &str, cause: &str) -> (error: ResolveError)
        ensures
            error@ == fault(self@, work, path@, cause@),
    {
        fetch::archive_error(&self.coordinate, work, path, cause)
    }

    /// What was to be done failed because of `cause`.
    pub fn fail(self, cause: &str) -> (next: Extraction)
        requires
            self.wf(),
        ensures
            next.wf(),
            next@ == course_failed(self@, cause@),
    {
        let stage = match &self.stage {
            Stage::Open => Stage::Failed(self.fault(ArchiveWork::Opening, &self.aar, cause)),
            Stage::Archive => Stage::Failed(self.fault(ArchiveWork::Reading, &self.aar, cause)),
            Stage::Find => Stage::Failed(self.fault(ArchiveWork::Finding, &self.aar, cause)),
            Stage::MakeDir => Stage::Failed(
                self.fault(ArchiveWork::Creating, &text::dir_of(&self.jar), cause),
            ),
            Stage::Create => Stage::Discard(self.fault(ArchiveWork::Creating, &self.part, cause)),
            Stage::Read => Stage::Discard(self.fault(ArchiveWork::Reading, &self.part, cause)),
            Stage::Append => Stage::Discard(self.fault(ArchiveWork::Writing, &self.part, cause)),
            Stage::Sync(_) => Stage::Discard(self.fault(ArchiveWork::Writing, &self.part, cause)),
            Stage::Record(_) => Stage::Discard(
                self.fault(ArchiveWork::Recording, &fetch::sha_path(&self.jar), cause),
            ),
            Stage::Rename => Stage::Discard(self.fault(ArchiveWork::Finishing, &self.jar, cause)),
            Stage::Discard(error) => Stage::Failed(error.clone()),
            Stage::Done => Stage::Done,
            Stage::Failed(error) => Stage::Failed(error.clone()),
        };
        Extraction { stage, ..self }
    }

    /// A chunk was read; an empty one is the end of the jar.
    pub fn receive(self, chunk: &[u8]) -> (next: Extraction)
        requires
            self.wf(),
        ensures
            next.wf(),
            next@ == course_fed(self@, chunk@),
    {
        let mut next = self;
        if let Stage::Read = next.stage {
            if chunk.len() == 0 {
                let seal = fetch::seal(&next.digest, next.hasher);
                next.hasher = Hasher::new();
                next.stage = Stage::Sync(seal);
            } else {
                match fetch::extend_extraction(
                    &next.coordinate,
                    &next.aar,
                    next.copied,
                    chunk.len() as u64,
                ) {
                    Ok(total) => {
                        next.hasher.update(chunk);
                        next.copied = total;
                        next.content = Ghost(next.content@ + chunk@);
                        next.stage = Stage::Append;
                    },
                    Err(error) => {
                        next.stage = Stage::Discard(error);
                    },
                }
            }
        }
        next
    }
}

/// The course behind one event.
pub open spec fn course_after(course: Course, event: Event) -> Course {
    match event {
        Event::Done => course_done(course),
        Event::Failed(cause) => course_failed(course, cause),
        Event::Read(chunk) => course_fed(course, chunk),
    }
}

/// The course behind a row of events.
pub open spec fn course_behind(course: Course, events: Seq<Event>) -> Course
    decreases events.len(),
{
    if events.len() == 0 {
        course
    } else {
        course_after(course_behind(course, events.drop_last()), events.last())
    }
}

/// The fault that an extraction stopped at, where it did.
pub open spec fn fault_of(course: Course) -> Option<Failure> {
    match course.phase {
        Phase::Discard(failure) => Some(failure),
        Phase::Failed(failure) => Some(failure),
        _ => None,
    }
}

/// An extraction that something went wrong with never gets into the cache: the
/// first fault is the one reported, whatever comes after it.
pub proof fn law_fault_is_final(course: Course, events: Seq<Event>)
    requires
        fault_of(course) is Some,
    ensures
        fault_of(course_behind(course, events)) == fault_of(course),
    decreases events.len(),
{
    if events.len() > 0 {
        law_fault_is_final(course, events.drop_last());
    }
}

/// No step of an extraction fails in silence: one that fails before the jar is
/// in the cache leaves a fault, which is an archive's.
pub proof fn law_failing_is_a_fault(course: Course, cause: Seq<char>)
    requires
        !(course.phase is Done),
        fault_of(course) is None,
    ensures
        fault_of(course_failed(course, cause)) matches Some(failure) && failure is Archive,
{
}

/// An extracted jar never grows beyond what an artifact may hold.
pub proof fn law_jar_is_bounded(from: Extract<'_>, events: Seq<Event>)
    ensures
        course_behind(fresh_course(from), events).content.len() <= fetch::MAX_ARTIFACT_BYTES,
    decreases events.len(),
{
    if events.len() > 0 {
        law_jar_is_bounded(from, events.drop_last());
    }
}

/// Whether the digests of the AAR and of what the extraction holds in the end
/// were recorded within the events.
pub open spec fn is_recorded(start: Course, events: Seq<Event>) -> bool {
    exists|k: int|
        0 <= k < events.len() && events[k] is Done && (#[trigger] course_behind(
            start,
            events.take(k),
        )).phase is Record && course_behind(start, events.take(k)).content == course_behind(
            start,
            events,
        ).content
}

/// A jar is moved into the cache only where the digests that belong to it have
/// been recorded.
pub proof fn law_digest_is_recorded_first(start: Course, events: Seq<Event>)
    requires
        start.phase is Open,
        ({
            let phase = course_behind(start, events).phase;
            phase is Rename || phase is Done
        }),
    ensures
        is_recorded(start, events),
    decreases events.len(),
{
    let n = events.len() as int;
    assert(n > 0);
    let before = course_behind(start, events.drop_last());
    assert(events.take(n - 1) == events.drop_last());
    if before.phase is Record {
        assert(events[n - 1] is Done);
        assert(course_behind(start, events.take(n - 1)).phase is Record);
    } else {
        law_digest_is_recorded_first(start, events.drop_last());
        let k = choose|k: int|
            0 <= k < n - 1 && events.drop_last()[k] is Done && (#[trigger] course_behind(
                start,
                events.drop_last().take(k),
            )).phase is Record && course_behind(start, events.drop_last().take(k)).content
                == before.content;
        assert(events.drop_last().take(k) == events.take(k));
        assert(events[k] is Done);
        assert(course_behind(start, events.take(k)).phase is Record);
    }
}

/// The events of reading and appending chunks without a fault.
pub open spec fn reading(chunks: Seq<Seq<u8>>) -> Seq<Event>
    decreases chunks.len(),
{
    if chunks.len() == 0 {
        seq![Event::Done, Event::Done, Event::Done, Event::Done, Event::Done]
    } else {
        reading(chunks.drop_last()).push(Event::Read(chunks.last())).push(Event::Done)
    }
}

/// The events of an extraction without a fault.
pub open spec fn smooth(chunks: Seq<Seq<u8>>) -> Seq<Event> {
    reading(chunks).push(Event::Read(Seq::empty())).push(Event::Done).push(Event::Done).push(
        Event::Done,
    )
}

proof fn lemma_pushed(course: Course, events: Seq<Event>, event: Event)
    ensures
        course_behind(course, events.push(event)) == course_after(
            course_behind(course, events),
            event,
        ),
{
    assert(events.push(event).drop_last() == events);
}

proof fn lemma_reading(start: Course, chunks: Seq<Seq<u8>>)
    requires
        start.phase is Open,
        start.content == Seq::<u8>::empty(),
        forall|i: int| 0 <= i < chunks.len() ==> #[trigger] chunks[i].len() > 0,
        transfer::joined(chunks).len() <= fetch::MAX_ARTIFACT_BYTES,
    ensures
        course_behind(start, reading(chunks)) == (Course {
            content: transfer::joined(chunks),
            phase: Phase::Read,
            ..start
        }),
    decreases chunks.len(),
{
    if chunks.len() == 0 {
        let one = Seq::<Event>::empty().push(Event::Done);
        let two = one.push(Event::Done);
        let three = two.push(Event::Done);
        let four = three.push(Event::Done);
        lemma_pushed(start, Seq::empty(), Event::Done);
        lemma_pushed(start, one, Event::Done);
        lemma_pushed(start, two, Event::Done);
        lemma_pushed(start, three, Event::Done);
        lemma_pushed(start, four, Event::Done);
        assert(four.push(Event::Done) == reading(chunks));
    } else {
        lemma_reading(start, chunks.drop_last());
        let before = reading(chunks.drop_last());
        lemma_pushed(start, before, Event::Read(chunks.last()));
        lemma_pushed(start, before.push(Event::Read(chunks.last())), Event::Done);
    }
}

/// A jar that is to be extracted, that fits, and that nothing goes wrong with,
/// arrives whole: it is in the cache, with all of its chunks in order.
pub proof fn law_jar_arrives(from: Extract<'_>, chunks: Seq<Seq<u8>>)
    requires
        !is_current(from),
        forall|i: int| 0 <= i < chunks.len() ==> #[trigger] chunks[i].len() > 0,
        transfer::joined(chunks).len() <= fetch::MAX_ARTIFACT_BYTES,
    ensures
        course_behind(fresh_course(from), smooth(chunks)) == (Course {
            content: transfer::joined(chunks),
            phase: Phase::Done,
            ..fresh_course(from)
        }),
{
    let start = fresh_course(from);
    lemma_reading(start, chunks);
    let read = reading(chunks);
    let end = read.push(Event::Read(Seq::empty()));
    lemma_pushed(start, read, Event::Read(Seq::empty()));
    lemma_pushed(start, end, Event::Done);
    lemma_pushed(start, end.push(Event::Done), Event::Done);
    lemma_pushed(start, end.push(Event::Done).push(Event::Done), Event::Done);
}

/// A jar that was extracted is used again while it and the AAR stay as they
/// are: with what was recorded for it, there is nothing to do.
pub proof fn law_extracted_jar_is_reused(from: Extract<'_>, content: Seq<u8>)
    requires
        from.jar_content matches Some(hasher) && hasher.message() == content,
        text::opt_text(from.recorded) == Some(
            fetch::seal_text(text::opt_text(from.aar_digest), content),
        ),
    ensures
        fresh_course(from).phase is Done,
{
}

/// A corrupted jar is extracted again: one whose digest is no longer that of
/// `content`, which the record was made for.
pub proof fn law_corrupted_jar_is_extracted(from: Extract<'_>, content: Seq<u8>)
    requires
        text::opt_text(from.recorded) == Some(
            fetch::seal_text(text::opt_text(from.aar_digest), content),
        ),
        from.jar_content matches Some(hasher) ==> digest::sha256(hasher.message())
            != digest::sha256(content),
    ensures
        fresh_course(from).phase is Open,
{
    if let Some(hasher) = from.jar_content {
        let now = text::hex_text(digest::sha256(hasher.message()));
        let then = text::hex_text(digest::sha256(content));
        let front = match text::opt_text(from.aar_digest) {
            Some(digest) => digest,
            None => Seq::empty(),
        } + "\n"@;
        if is_current(from) {
            assert(now == (front + now).skip(front.len() as int));
            assert(then == (front + then).skip(front.len() as int));
            text::lemma_hex_apart(digest::sha256(hasher.message()), digest::sha256(content));
        }
    }
}

/// A jar is extracted again when the AAR changes, and when the jar is gone.
pub proof fn law_changed_archive_is_extracted(
    from: Extract<'_>,
    aar_digest: Seq<char>,
    content: Seq<u8>,
)
    requires
        text::opt_text(from.recorded) == Some(fetch::seal_text(Some(aar_digest), content)),
        from.jar_content is None || (from.jar_content->0.message() == content && text::opt_text(
            from.aar_digest,
        ) is Some && text::opt_text(from.aar_digest) != Some(aar_digest)),
    ensures
        fresh_course(from).phase is Open,
{
    if is_current(from) {
        let now = text::opt_text(from.aar_digest)->0;
        let back = "\n"@ + text::hex_text(digest::sha256(content));
        assert(now + back == fetch::seal_text(Some(now), content));
        assert(aar_digest + back == fetch::seal_text(Some(aar_digest), content));
        assert(now == (now + back).take(now.len() as int));
        assert(aar_digest == (aar_digest + back).take(aar_digest.len() as int));
    }
}

} // verus!
