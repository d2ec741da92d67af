//! Moving artifacts into the cache.
//!
//! A download writes a partial file, then records the digest beside the place
//! the file is going to, and only then moves the file there. What goes wrong on
//! the way removes the partial file and puts back the digest that stood there,
//! so the cache is left as it was and a broken artifact can never be mistaken
//! for a cached one. This module decides what is to be done next; doing it is up
//! to the caller, who tells how it went.

use vstd::prelude::*;
use crate::digest;
use crate::maven::fetch;
use crate::maven::fetch::Download;
use crate::text;

verus! {

/// What a download does at present.
pub enum Phase {
    /// Create the directory of the cached file.
    MakeDir,
    /// Create the partial file.
    Create,
    /// Read the next chunk of the body.
    Read,
    /// Append this chunk to the partial file.
    Append(Seq<u8>),
    /// Record the digest.
    Record,
    /// Move the partial file into place.
    Rename,
    /// Put back the digest that was there before, because of this.
    Restore(Seq<char>),
    /// Remove the partial file, because of this.
    Discard(Seq<char>),
    /// Nothing: the file is in the cache.
    Done,
    /// Nothing: it failed because of this.
    Failed(Seq<char>),
}

/// How far a download has come.
#[verifier::ext_equal]
pub struct Course {
    /// The file it goes to.
    pub file: Seq<char>,
    /// How much may come.
    pub cap: Option<u64>,
    /// What the digest file held before, where there was one.
    pub held: Option<Seq<char>>,
    /// What has come.
    pub content: Seq<u8>,
    /// What is done at present.
    pub phase: Phase,
}

/// A download that has not started.
pub open spec fn fresh_course(
    file: Seq<char>,
    cap: Option<u64>,
    held: Option<Seq<char>>,
) -> Course {
    Course { file, cap, held, content: Seq::empty(), phase: Phase::MakeDir }
}

/// The file that a download goes through.
pub open spec fn part_text(file: Seq<char>) -> Seq<char> {
    file + ".part"@
}

/// The file that a digest is recorded in.
pub open spec fn sha_text(file: Seq<char>) -> Seq<char> {
    file + ".sha256"@
}

/// The course when what was to be done is done.
pub open spec fn course_done(course: Course) -> Course {
    let phase = match course.phase {
        Phase::MakeDir => Phase::Create,
        Phase::Create => Phase::Read,
        Phase::Append(_) => Phase::Read,
        Phase::Record => Phase::Rename,
        Phase::Rename => Phase::Done,
        Phase::Restore(message) => Phase::Discard(message),
        Phase::Discard(message) => Phase::Failed(message),
        other => other,
    };
    Course { phase, ..course }
}

/// The course when what was to be done failed because of `cause`. From the
/// recording on there is a digest to put back.
pub open spec fn course_failed(course: Course, cause: Seq<char>) -> Course {
    let part = part_text(course.file);
    let phase = match course.phase {
        Phase::MakeDir => Phase::Discard(
            "creating cache directory '"@ + text::dir_text(course.file) + "'"@,
        ),
        Phase::Create => Phase::Discard("creating '"@ + part + "': "@ + cause),
        Phase::Read => Phase::Discard("reading download: "@ + cause),
        Phase::Append(_) => Phase::Discard("writing '"@ + part + "': "@ + cause),
        Phase::Record => Phase::Restore(
            "recording '"@ + sha_text(course.file) + "': "@ + cause,
        ),
        Phase::Rename => Phase::Restore("moving '"@ + part + "': "@ + cause),
        Phase::Restore(message) => Phase::Discard(message),
        Phase::Discard(message) => Phase::Failed(message),
        other => other,
    };
    Course { phase, ..course }
}

/// The course when a chunk was read. An empty one is the end of the body.
pub open spec fn course_fed(course: Course, chunk: Seq<u8>) -> Course {
    if !(course.phase is Read) {
        course
    } else if chunk.len() == 0 {
        Course { phase: Phase::Record, ..course }
    } else if fits(course.cap, course.content.len() + chunk.len()) {
        Course { content: course.content + chunk, phase: Phase::Append(chunk), ..course }
    } else {
        Course {
            phase: Phase::Discard(
                "artifact exceeds the "@ + text::decimal_text(course.cap->0 as nat)
                    + " byte limit"@,
            ),
            ..course
        }
    }
}

/// Whether a body may be as large as `size`.
pub open spec fn fits(cap: Option<u64>, size: nat) -> bool {
    cap matches Some(cap) ==> size <= cap
}

/// What a download needs next, or how it ended.
#[derive(Debug, PartialEq, Eq)]
pub enum TransferStep {
    /// Create this directory and those above it.
    MakeDir(String),
    /// Create this partial file.
    Create(String),
    /// Read the next chunk of the body.
    Read,
    /// Append the chunk to the partial file.
    Append,
    /// Write this file.
    Record {
        /// The file.
        path: String,
        /// Its content.
        digest: String,
    },
    /// Move a file.
    Rename {
        /// The file.
        from: String,
        /// Where it goes.
        to: String,
    },
    /// Put a file back as it was.
    Restore {
        /// The file.
        path: String,
        /// What it held; where that is nothing, it is removed.
        held: Option<String>,
    },
    /// Remove this partial file, whether or not it exists.
    Discard(String),
    /// Nothing: the file is in the cache.
    Done,
    /// Nothing: the download failed.
    Failed(String),
}

/// Whether a step is the next one of a download.
pub open spec fn is_transfer_step(step: TransferStep, course: Course) -> bool {
    match course.phase {
        Phase::MakeDir => step matches TransferStep::MakeDir(dir) && dir@ == text::dir_text(
            course.file,
        ),
        Phase::Create => step matches TransferStep::Create(path) && path@ == part_text(course.file),
        Phase::Read => step is Read,
        Phase::Append(_) => step is Append,
        Phase::Record => step matches TransferStep::Record { path, digest } && path@ == sha_text(
            course.file,
        ) && digest@ == text::hex_text(digest::sha256(course.content)),
        Phase::Rename => step matches TransferStep::Rename { from, to } && from@ == part_text(
            course.file,
        ) && to@ == course.file,
        Phase::Restore(_) => step matches TransferStep::Restore { path, held } && path@ == sha_text(
            course.file,
        ) && text::opt_text(held) == course.held,
        Phase::Discard(_) => step matches TransferStep::Discard(path) && path@ == part_text(
            course.file,
        ),
        Phase::Done => step is Done,
        Phase::Failed(message) => step matches TransferStep::Failed(error) && error@ == message,
    }
}

enum Stage {
    MakeDir,
    Create,
    Read,
    Append(Ghost<Seq<u8>>),
    Record,
    Rename,
    Restore(String),
    Discard(String),
    Done,
    Failed(String),
}

impl Stage {
    spec fn phase(self) -> Phase {
        match self {
            Stage::MakeDir => Phase::MakeDir,
            Stage::Create => Phase::Create,
            Stage::Read => Phase::Read,
            Stage::Append(chunk) => Phase::Append(chunk@),
            Stage::Record => Phase::Record,
            Stage::Rename => Phase::Rename,
            Stage::Restore(message) => Phase::Restore(message@),
            Stage::Discard(message) => Phase::Discard(message@),
            Stage::Done => Phase::Done,
            Stage::Failed(message) => Phase::Failed(message@),
        }
    }
}

/// The body of a download: coming, or all there with its digest.
enum Body {
    Coming(Download),
    Complete(String),
}

/// A download on its way into the cache.
pub struct Transfer {
    file: String,
    cap: Option<u64>,
    held: Option<String>,
    body: Body,
    content: Ghost<Seq<u8>>,
    stage: Stage,
}

impl View for Transfer {
    type V = Course;

    closed spec fn view(&self) -> Course {
        Course {
            file: self.file@,
            cap: self.cap,
            held: text::opt_text(self.held),
            content: self.content@,
            phase: self.stage.phase(),
        }
    }
}

impl Transfer {
    /// Whether what has come is accounted for.
    pub closed spec fn wf(&self) -> bool {
        match self.body {
            Body::Coming(download) => {
                &&& download.wf()
                &&& download.content() == self.content@
                &&& download.limit() == self.cap
                &&& !(self.stage is Record || self.stage is Rename || self.stage is Restore)
                &&& !(self.stage is Done)
            },
            Body::Complete(recorded) => {
                &&& recorded@ == text::hex_text(digest::sha256(self.content@))
                &&& !(self.stage is MakeDir || self.stage is Create)
                &&& !(self.stage is Read || self.stage is Append)
            },
        }
    }

    /// A download that goes to the file `file`, of at most `cap` bytes where
    /// there is a cap. The file that its digest goes to holds `held`, where it
    /// is there.
    pub fn new(file: &str, cap: Option<u64>, held: Option<String>) -> (transfer: Transfer)
        ensures
            transfer.wf(),
            transfer@ == fresh_course(file@, cap, text::opt_text(held)),
    {
        Transfer {
            file: file.to_owned(),
            cap,
            held,
            body: Body::Coming(Download::new(cap)),
            content: Ghost(Seq::empty()),
            stage: Stage::MakeDir,
        }
    }

    /// What has to be done next.
    pub fn step(&self) -> (step: TransferStep)
        requires
            self.wf(),
        ensures
            is_transfer_step(step, self@),
    {
        match &self.stage {
            Stage::MakeDir => TransferStep::MakeDir(text::dir_of(&self.file)),
            Stage::Create => TransferStep::Create(fetch::part_path(&self.file)),
            Stage::Read => TransferStep::Read,
            Stage::Append(_) => TransferStep::Append,
            Stage::Record => match &self.body {
                Body::Complete(recorded) => TransferStep::Record {
                    path: fetch::sha_path(&self.file),
                    digest: recorded.clone(),
                },
                Body::Coming(_) => TransferStep::Read,
            },
            Stage::Rename => TransferStep::Rename {
                from: fetch::part_path(&self.file),
                to: self.file.clone(),
            },
            Stage::Restore(_) => TransferStep::Restore {
                path: fetch::sha_path(&self.file),
                held: match &self.held {
                    Some(held) => Some(held.clone()),
                    None => None,
                },
            },
            Stage::Discard(_) => TransferStep::Discard(fetch::part_path(&self.file)),
            Stage::Done => TransferStep::Done,
            Stage::Failed(message) => TransferStep::Failed(message.clone()),
        }
    }

    /// What was to be done is done.
    pub fn succeed(self) -> (next: Transfer)
        requires
            self.wf(),
        ensures
            next.wf(),
            next@ == course_done(self@),
    {
        let mut next = self;
        next.stage = match next.stage {
            Stage::MakeDir => Stage::Create,
            Stage::Create => Stage::Read,
            Stage::Append(_) => Stage::Read,
            Stage::Record => Stage::Rename,
            Stage::Rename => Stage::Done,
            Stage::Restore(message) => Stage::Discard(message),
            Stage::Discard(message) => Stage::Failed(message),
            other => other,
        };
        next
    }

    /// What was to be done failed because of `cause`.
    pub fn fail(self, cause: &str) -> (next: Transfer)
        requires
            self.wf(),
        ensures
            next.wf(),
            next@ == course_failed(self@, cause@),
    {
        let mut next = self;
        let part = fetch::part_path(&next.file);
        next.stage = match next.stage {
            Stage::MakeDir => Stage::Discard(
                "creating cache directory '".to_owned().concat(&text::dir_of(&next.file)).concat(
                    "'",
                ),
            ),
            Stage::Create => Stage::Discard(
                "creating '".to_owned().concat(&part).concat("': ").concat(cause),
            ),
            Stage::Read => Stage::Discard("reading download: ".to_owned().concat(cause)),
            Stage::Append(_) => Stage::Discard(
                "writing '".to_owned().concat(&part).concat("': ").concat(cause),
            ),
            Stage::Record => Stage::Restore(
                "recording '".to_owned().concat(&fetch::sha_path(&next.file)).concat("': ").concat(
                    cause,
                ),
            ),
            Stage::Rename => Stage::Restore(
                "moving '".to_owned().concat(&part).concat("': ").concat(cause),
            ),
            Stage::Restore(message) => Stage::Discard(message),
            Stage::Discard(message) => Stage::Failed(message),
            other => other,
        };
        next
    }

    /// How much has come.
    pub fn size(&self) -> (size: u64)
        requires
            self.wf(),
            self@.phase is Read,
        ensures
            size == self@.content.len(),
    {
        match &self.body {
            Body::Coming(download) => download.size(),
            Body::Complete(_) => 0,
        }
    }

    /// A chunk of the body was read; an empty one is the end of the body.
    pub fn receive(self, chunk: &[u8]) -> (next: Transfer)
        requires
            self.wf(),
            self@.content.len() + chunk@.len() <= digest::MAX_MESSAGE,
        ensures
            next.wf(),
            next@ == course_fed(self@, chunk@),
    {
        let Transfer { file, cap, held, body, content, stage } = self;
        match (stage, body) {
            (Stage::Read, Body::Coming(mut download)) => {
                if chunk.len() == 0 {
                    let body = Body::Complete(download.finish());
                    return Transfer { file, cap, held, body, content, stage: Stage::Record };
                }
                match download.accept(chunk) {
                    Ok(_) => Transfer {
                        file,
                        cap,
                        held,
                        body: Body::Coming(download),
                        content: Ghost(content@ + chunk@),
                        stage: Stage::Append(Ghost(chunk@)),
                    },
                    Err(message) => Transfer {
                        file,
                        cap,
                        held,
                        body: Body::Coming(download),
                        content,
                        stage: Stage::Discard(message),
                    },
                }
            },
            (stage, body) => Transfer { file, cap, held, body, content, stage },
        }
    }
}

/// What the caller of a transfer tells of the work it was given.
pub enum Event {
    /// It is done.
    Done,
    /// It failed because of this.
    Failed(Seq<char>),
    /// It read this chunk.
    Read(Seq<u8>),
}

/// The course behind one event.
pub open spec fn course_after(course: Course, event: Event) -> Course {
    match event {
        Event::Done => course_done(course),
        Event::Failed(cause) => course_failed(course, cause),
        Event::Read(chunk) => course_fed(course, chunk),
    }
}

/// The course behind a row of events.
pub open spec fn course_behind(course: Course, events: Seq<Event>) -> Course
    decreases events.len(),
{
    if events.len() == 0 {
        course
    } else {
        course_after(course_behind(course, events.drop_last()), events.last())
    }
}

/// The fault that a download stopped at, where it did.
pub open spec fn fault_of(course: Course) -> Option<Seq<char>> {
    match course.phase {
        Phase::Restore(message) => Some(message),
        Phase::Discard(message) => Some(message),
        Phase::Failed(message) => Some(message),
        _ => None,
    }
}

/// A download that something went wrong with never gets into the cache: the
/// first fault is the one reported, whatever comes after it, and the file is
/// never moved into place.
pub proof fn law_fault_is_final(course: Course, events: Seq<Event>)
    requires
        fault_of(course) is Some,
    ensures
        fault_of(course_behind(course, events)) == fault_of(course),
    decreases events.len(),
{
    if events.len() > 0 {
        law_fault_is_final(course, events.drop_last());
    }
}

/// No step of a download fails in silence: one that fails before the file is in
/// the cache leaves a fault.
pub proof fn law_failing_is_a_fault(course: Course, cause: Seq<char>)
    requires
        !(course.phase is Done),
    ensures
        fault_of(course_failed(course, cause)) is Some,
{
}

/// A download never holds more than its cap allows.
pub proof fn law_cap_holds(
    file: Seq<char>,
    cap: Option<u64>,
    held: Option<Seq<char>>,
    events: Seq<Event>,
)
    ensures
        fits(cap, course_behind(fresh_course(file, cap, held), events).content.len()),
        course_behind(fresh_course(file, cap, held), events).cap == cap,
        course_behind(fresh_course(file, cap, held), events).file == file,
    decreases events.len(),
{
    if events.len() > 0 {
        law_cap_holds(file, cap, held, events.drop_last());
    }
}

/// Whether the digest of what the download holds in the end was recorded within
/// the first `events`.
pub open spec fn is_recorded(start: Course, events: Seq<Event>) -> bool {
    exists|k: int|
        0 <= k < events.len() && events[k] is Done && (#[trigger] course_behind(
            start,
            events.take(k),
        )).phase is Record && course_behind(start, events.take(k)).content == course_behind(
            start,
            events,
        ).content
}

/// A file is moved into the cache only where the digest of all its content has
/// been recorded.
pub proof fn law_digest_is_recorded_first(
    file: Seq<char>,
    cap: Option<u64>,
    held: Option<Seq<char>>,
    events: Seq<Event>,
)
    requires
        ({
            let phase = course_behind(fresh_course(file, cap, held), events).phase;
            phase is Rename || phase is Done
        }),
    ensures
        is_recorded(fresh_course(file, cap, held), events),
    decreases events.len(),
{
    let start = fresh_course(file, cap, held);
    let n = events.len() as int;
    assert(n > 0);
    let before = course_behind(start, events.drop_last());
    assert(events.take(n - 1) == events.drop_last());
    if before.phase is Record {
        assert(events[n - 1] is Done);
        assert(course_behind(start, events.take(n - 1)).phase is Record);
    } else {
        law_digest_is_recorded_first(file, cap, held, events.drop_last());
        let k = choose|k: int|
            0 <= k < n - 1 && events.drop_last()[k] is Done && (#[trigger] course_behind(
                start,
                events.drop_last().take(k),
            )).phase is Record && course_behind(start, events.drop_last().take(k)).content
                == before.content;
        assert(events.drop_last().take(k) == events.take(k));
        assert(events[k] is Done);
        assert(course_behind(start, events.take(k)).phase is Record);
    }
}

/// What a body is made of.
pub open spec fn joined(chunks: Seq<Seq<u8>>) -> Seq<u8>
    decreases chunks.len(),
{
    if chunks.len() == 0 {
        Seq::empty()
    } else {
        joined(chunks.drop_last()) + chunks.last()
    }
}

/// The events of reading and appending chunks without a fault.
pub open spec fn reading(chunks: Seq<Seq<u8>>) -> Seq<Event>
    decreases chunks.len(),
{
    if chunks.len() == 0 {
        seq![Event::Done, Event::Done]
    } else {
        reading(chunks.drop_last()).push(Event::Read(chunks.last())).push(Event::Done)
    }
}

/// The events of a download without a fault.
pub open spec fn smooth(chunks: Seq<Seq<u8>>) -> Seq<Event> {
    reading(chunks).push(Event::Read(Seq::empty())).push(Event::Done).push(Event::Done)
}

proof fn lemma_pushed(course: Course, events: Seq<Event>, event: Event)
    ensures
        course_behind(course, events.push(event)) == course_after(
            course_behind(course, events),
            event,
        ),
{
    assert(events.push(event).drop_last() == events);
}

proof fn lemma_reading(
    file: Seq<char>,
    cap: Option<u64>,
    held: Option<Seq<char>>,
    chunks: Seq<Seq<u8>>,
)
    requires
        forall|i: int| 0 <= i < chunks.len() ==> #[trigger] chunks[i].len() > 0,
        fits(cap, joined(chunks).len()),
    ensures
        course_behind(fresh_course(file, cap, held), reading(chunks)) == (Course {
            file,
            cap,
            held,
            content: joined(chunks),
            phase: Phase::Read,
        }),
    decreases chunks.len(),
{
    let start = fresh_course(file, cap, held);
    if chunks.len() == 0 {
        let one = Seq::<Event>::empty().push(Event::Done);
        lemma_pushed(start, Seq::empty(), Event::Done);
        lemma_pushed(start, one, Event::Done);
        assert(one.push(Event::Done) == reading(chunks));
    } else {
        lemma_reading(file, cap, held, chunks.drop_last());
        let before = reading(chunks.drop_last());
        lemma_pushed(start, before, Event::Read(chunks.last()));
        lemma_pushed(start, before.push(Event::Read(chunks.last())), Event::Done);
    }
}

/// A body that fits, and that nothing goes wrong with, arrives whole: its file
/// is in the cache, with all of its chunks in order.
pub proof fn law_body_arrives(
    file: Seq<char>,
    cap: Option<u64>,
    held: Option<Seq<char>>,
    chunks: Seq<Seq<u8>>,
)
    requires
        forall|i: int| 0 <= i < chunks.len() ==> #[trigger] chunks[i].len() > 0,
        fits(cap, joined(chunks).len()),
    ensures
        course_behind(fresh_course(file, cap, held), smooth(chunks)) == (Course {
            file,
            cap,
            held,
            content: joined(chunks),
            phase: Phase::Done,
        }),
{
    let start = fresh_course(file, cap, held);
    lemma_reading(file, cap, held, chunks);
    let read = reading(chunks);
    let end = read.push(Event::Read(Seq::empty()));
    lemma_pushed(start, read, Event::Read(Seq::empty()));
    lemma_pushed(start, end, Event::Done);
    lemma_pushed(start, end.push(Event::Done), Event::Done);
}

/// The files that a download has to do with, and what they hold.
#[verifier::ext_equal]
pub struct Shelf {
    /// The cached file.
    pub file: Option<Seq<u8>>,
    /// The digest recorded for it.
    pub digest: Option<Seq<char>>,
    /// The partial file.
    pub part: Option<Seq<u8>>,
}

/// The files behind a step that was done.
pub open spec fn shelf_done(course: Course, shelf: Shelf) -> Shelf {
    match course.phase {
        Phase::Create => Shelf { part: Some(Seq::empty()), ..shelf },
        Phase::Append(chunk) => Shelf {
            part: match shelf.part {
                Some(part) => Some(part + chunk),
                None => None,
            },
            ..shelf
        },
        Phase::Record => Shelf {
            digest: Some(text::hex_text(digest::sha256(course.content))),
            ..shelf
        },
        Phase::Rename => Shelf { file: shelf.part, part: None, ..shelf },
        Phase::Restore(_) => Shelf { digest: course.held, ..shelf },
        Phase::Discard(_) => Shelf { part: None, ..shelf },
        _ => shelf,
    }
}

/// What files may hold behind a step that failed: a file that was to be written
/// or removed may hold anything, all else is as it was. Moving a file is done or
/// not done.
pub open spec fn may_be_left(course: Course, before: Shelf, after: Shelf) -> bool {
    match course.phase {
        Phase::Create | Phase::Append(_) | Phase::Discard(_) => after == (Shelf {
            part: after.part,
            ..before
        }),
        Phase::Record | Phase::Restore(_) => after == (Shelf { digest: after.digest, ..before }),
        _ => after == before,
    }
}

/// Whether an event may turn the files from one state into the other.
pub open spec fn may_turn(course: Course, event: Event, before: Shelf, after: Shelf) -> bool {
    match event {
        Event::Done => after == shelf_done(course, before),
        Event::Failed(_) => may_be_left(course, before, after),
        Event::Read(_) => after == before,
    }
}

/// Whether the files may have held `shelves[0]`, `shelves[1]` and so on before,
/// behind the first event, and so on.
pub open spec fn is_history(start: Course, events: Seq<Event>, shelves: Seq<Shelf>) -> bool {
    &&& shelves.len() == events.len() + 1
    &&& forall|i: int|
        0 <= i < events.len() ==> may_turn(
            #[trigger] course_behind(start, events.take(i)),
            events[i],
            shelves[i],
            shelves[i + 1],
        )
}

/// Whether cleaning up went well wherever it was needed.
pub open spec fn cleans_up(start: Course, events: Seq<Event>) -> bool {
    forall|i: int|
        0 <= i < events.len() && events[i] is Failed ==> {
            let phase = (#[trigger] course_behind(start, events.take(i))).phase;
            !(phase is Restore || phase is Discard)
        }
}

/// What the files hold in a phase: the cached file is as it was until the move,
/// the partial file holds what has been appended, and the digest is as it was
/// but between the recording and what follows a failure of it.
spec fn holds(course: Course, first: Shelf, shelf: Shelf) -> bool {
    let recorded = Some(text::hex_text(digest::sha256(course.content)));
    match course.phase {
        Phase::MakeDir | Phase::Create => {
            &&& shelf.file == first.file
            &&& shelf.digest == first.digest
            &&& course.content == Seq::<u8>::empty()
        },
        Phase::Read => shelf == (Shelf { part: Some(course.content), ..first }),
        Phase::Append(chunk) => {
            &&& shelf.file == first.file
            &&& shelf.digest == first.digest
            &&& shelf.part matches Some(part) && part + chunk == course.content
        },
        Phase::Record => shelf == (Shelf { part: Some(course.content), ..first }),
        Phase::Rename => shelf == (Shelf {
            part: Some(course.content),
            digest: recorded,
            ..first
        }),
        Phase::Restore(_) => shelf.file == first.file,
        Phase::Discard(_) => shelf.file == first.file && shelf.digest == first.digest,
        Phase::Failed(_) => shelf == (Shelf { part: None, ..first }),
        Phase::Done => shelf == (Shelf {
            file: Some(course.content),
            digest: recorded,
            part: None,
        }),
    }
}

proof fn lemma_holds(
    file: Seq<char>,
    cap: Option<u64>,
    events: Seq<Event>,
    shelves: Seq<Shelf>,
)
    requires
        shelves.len() > 0,
        is_history(fresh_course(file, cap, shelves[0].digest), events, shelves),
        cleans_up(fresh_course(file, cap, shelves[0].digest), events),
    ensures
        holds(
            course_behind(fresh_course(file, cap, shelves[0].digest), events),
            shelves[0],
            shelves.last(),
        ),
        course_behind(fresh_course(file, cap, shelves[0].digest), events).held
            == shelves[0].digest,
    decreases events.len(),
{
    let start = fresh_course(file, cap, shelves[0].digest);
    let n = events.len() as int;
    if n > 0 {
        let earlier = events.drop_last();
        let past = shelves.drop_last();
        assert(past[0] == shelves[0]);
        assert forall|i: int| 0 <= i < earlier.len() implies may_turn(
            #[trigger] course_behind(start, earlier.take(i)),
            earlier[i],
            past[i],
            past[i + 1],
        ) by {
            assert(earlier.take(i) == events.take(i));
            assert(may_turn(
                course_behind(start, events.take(i)),
                events[i],
                shelves[i],
                shelves[i + 1],
            ));
        }
        assert forall|i: int| 0 <= i < earlier.len() && earlier[i] is Failed implies {
            let phase = (#[trigger] course_behind(start, earlier.take(i))).phase;
            !(phase is Restore || phase is Discard)
        } by {
            assert(earlier.take(i) == events.take(i));
            assert(events[i] is Failed);
        }
        lemma_holds(file, cap, earlier, past);
        assert(events.take(n - 1) == earlier);
        let course = course_behind(start, earlier);
        assert(may_turn(
            course_behind(start, events.take(n - 1)),
            events[n - 1],
            shelves[n - 1],
            shelves[n],
        ));
        assert(holds(course_after(course, events[n - 1]), shelves[0], shelves[n]));
    }
}

/// A download that failed leaves the cache as it was: the cached file and the
/// digest recorded for it are those from before, and there is no partial file.
/// This is where cleaning up went well.
pub proof fn law_failure_leaves_the_cache(
    file: Seq<char>,
    cap: Option<u64>,
    events: Seq<Event>,
    shelves: Seq<Shelf>,
)
    requires
        shelves.len() > 0,
        is_history(fresh_course(file, cap, shelves[0].digest), events, shelves),
        cleans_up(fresh_course(file, cap, shelves[0].digest), events),
        course_behind(fresh_course(file, cap, shelves[0].digest), events).phase is Failed,
    ensures
        shelves.last() == (Shelf { part: None, ..shelves[0] }),
{
    lemma_holds(file, cap, events, shelves);
}

/// A download that is done has put what came into the cache, with its digest
/// recorded, and left no partial file.
pub proof fn law_success_fills_the_cache(
    file: Seq<char>,
    cap: Option<u64>,
    events: Seq<Event>,
    shelves: Seq<Shelf>,
)
    requires
        shelves.len() > 0,
        is_history(fresh_course(file, cap, shelves[0].digest), events, shelves),
        course_behind(fresh_course(file, cap, shelves[0].digest), events).phase is Done,
    ensures
        shelves.last() == ({
            let content = course_behind(
                fresh_course(file, cap, shelves[0].digest),
                events,
            ).content;
            Shelf {
                file: Some(content),
                digest: Some(text::hex_text(digest::sha256(content))),
                part: None,
            }
        }),
{
    let start = fresh_course(file, cap, shelves[0].digest);
    assert forall|i: int| 0 <= i < events.len() && events[i] is Failed implies {
        let phase = (#[trigger] course_behind(start, events.take(i))).phase;
        !(phase is Restore || phase is Discard)
    } by {
        lemma_fault_shows(start, events, i);
    }
    lemma_holds(file, cap, events, shelves);
}

proof fn lemma_fault_shows(start: Course, events: Seq<Event>, i: int)
    requires
        0 <= i <= events.len(),
        fault_of(course_behind(start, events)) is None,
    ensures
        fault_of(course_behind(start, events.take(i))) is None,
    decreases events.len(),
{
    if i < events.len() {
        assert(events.drop_last().take(i) == events.take(i));
        lemma_fault_shows(start, events.drop_last(), i);
    } else {
        assert(events.take(i) == events);
    }
}

} // verus!
