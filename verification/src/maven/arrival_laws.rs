//! How much an artifact may hold, which files it goes through, and what is left
//! where it does not arrive.

use vstd::prelude::*;
use crate::digest;
use crate::maven::extraction;
use crate::maven::extraction::{Extract, ExtractionStep};
use crate::maven::fetch;
use crate::maven::transfer;
use crate::maven::transfer::{Course, Phase, TransferStep};
use crate::text;
use crate::text_laws;

verus! {

/// A download takes all that its cap allows, to the last byte, and without a cap
/// anything.
pub proof fn law_bodies_within_the_cap_arrive(
    file: Seq<char>,
    cap: Option<u64>,
    held: Option<Seq<char>>,
    chunks: Seq<Seq<u8>>,
)
    requires
        forall|i: int| 0 <= i < chunks.len() ==> #[trigger] chunks[i].len() > 0,
        cap is None || transfer::joined(chunks).len() <= cap->0,
    ensures
        ({
            let end = transfer::course_behind(
                transfer::fresh_course(file, cap, held),
                transfer::smooth(chunks),
            );
            end.phase is Done && end.content == transfer::joined(chunks) && end.file == file
        }),
{
    transfer::law_body_arrives(file, cap, held, chunks);
}

/// The first chunk that goes beyond the cap ends a download, and nothing of it is
/// taken.
pub proof fn law_bodies_beyond_the_cap_fail(course: Course, cap: u64, chunk: Seq<u8>)
    requires
        course.phase is Read,
        course.cap == Some(cap),
        chunk.len() > 0,
        course.content.len() + chunk.len() > cap,
    ensures
        transfer::course_fed(course, chunk).phase is Discard,
        transfer::course_fed(course, chunk).content == course.content,
        transfer::fault_of(transfer::course_fed(course, chunk)) is Some,
{
}

/// A jar may hold 256 MiB, to the last byte; a chunk that goes beyond ends its
/// extraction.
pub proof fn law_jars_may_hold_so_much(course: extraction::Course, chunk: Seq<u8>)
    requires
        course.phase is Read,
        chunk.len() > 0,
    ensures
        course.content.len() + chunk.len() <= 256 * 1024 * 1024 ==> {
            &&& extraction::course_fed(course, chunk).phase is Append
            &&& extraction::course_fed(course, chunk).content == course.content + chunk
        },
        course.content.len() + chunk.len() > 256 * 1024 * 1024 ==> {
            &&& extraction::course_fed(course, chunk).phase is Discard
            &&& extraction::course_fed(course, chunk).content == course.content
        },
        fetch::MAX_ARTIFACT_BYTES == 256 * 1024 * 1024,
{
}

/// Where an extraction fails after its partial file may have been created, that
/// file is discarded before the failure is reported; before that there is nothing
/// to discard.
pub proof fn law_partial_jars_are_discarded(course: extraction::Course, cause: Seq<char>)
    ensures
        course.phase is Create || course.phase is Read || course.phase is Append
            || course.phase is Sync || course.phase is Record || course.phase is Rename ==> {
            let failed = extraction::course_failed(course, cause);
            &&& failed.phase matches extraction::Phase::Discard(failure)
            &&& extraction::course_done(failed).phase == extraction::Phase::Failed(failure)
            &&& extraction::course_failed(failed, cause).phase == extraction::Phase::Failed(
                failure,
            )
        },
        course.phase is Open || course.phase is Archive || course.phase is Find
            || course.phase is MakeDir ==> extraction::course_failed(course, cause).phase is Failed,
{
}

/// Where a download fails, its partial file is discarded before the failure is
/// reported; where the digest may have been replaced, that is put back before.
pub proof fn law_partial_bodies_are_discarded(course: Course, cause: Seq<char>)
    ensures
        course.phase is MakeDir || course.phase is Create || course.phase is Read
            || course.phase is Append ==> {
            let failed = transfer::course_failed(course, cause);
            &&& failed.phase matches Phase::Discard(message)
            &&& transfer::course_done(failed).phase == Phase::Failed(message)
            &&& transfer::course_failed(failed, cause).phase == Phase::Failed(message)
        },
        course.phase is Record || course.phase is Rename ==> {
            let failed = transfer::course_failed(course, cause);
            &&& failed.phase matches Phase::Restore(message)
            &&& transfer::course_done(failed).phase == Phase::Discard(message)
            &&& transfer::course_failed(failed, cause).phase == Phase::Discard(message)
        },
{
}

/// What a download does to files: it writes a partial file beside the cached one,
/// records the digest of all it took beside that, and moves the partial file to
/// the cached one. Nothing else is written, and only the partial file is
/// discarded.
pub proof fn law_downloads_go_through_a_partial_file(step: TransferStep, course: Course)
    requires
        transfer::is_transfer_step(step, course),
    ensures
        match step {
            TransferStep::Create(path) => path@ == course.file + seq!['.', 'p', 'a', 'r', 't'],
            TransferStep::Record { path, digest } => path@ == course.file + ".sha256"@ && digest@
                == text::hex_text(digest::sha256(course.content)),
            TransferStep::Rename { from, to } => from@ == course.file + seq![
                '.',
                'p',
                'a',
                'r',
                't',
            ] && to@ == course.file,
            TransferStep::Restore { path, held } => path@ == course.file + ".sha256"@
                && text::opt_text(held) == course.held,
            TransferStep::Discard(path) => path@ == course.file + seq!['.', 'p', 'a', 'r', 't'],
            TransferStep::MakeDir(dir) => dir@ == text::dir_text(course.file),
            TransferStep::Done => course.phase is Done,
            TransferStep::Failed(error) => course.phase == Phase::Failed(error@),
            TransferStep::Read => course.phase is Read,
            TransferStep::Append => course.phase is Append,
        },
{
    reveal_strlit(".part");
    assert(".part"@ =~= seq!['.', 'p', 'a', 'r', 't']);
}

/// What an extraction does to files: it takes `classes.jar` out of the AAR into a
/// partial file, records the digests of the AAR and of the jar beside the jar, and
/// moves the partial file to the jar. Only the partial file is discarded.
pub proof fn law_extractions_go_through_a_partial_file(
    step: ExtractionStep,
    course: extraction::Course,
)
    requires
        extraction::is_step(step, course),
    ensures
        match step {
            ExtractionStep::Open(path) => path@ == course.aar,
            ExtractionStep::Find(name) => name@ == "classes.jar"@,
            ExtractionStep::MakeDir(dir) => dir@ == text::dir_text(course.jar),
            ExtractionStep::Create(path) => path@ == course.part,
            ExtractionStep::Record { path, digest } => path@ == course.jar + ".sha256"@ && digest@
                == (match course.digest {
                Some(aar) => aar,
                None => Seq::empty(),
            }) + seq!['\n'] + text::hex_text(digest::sha256(course.content)),
            ExtractionStep::Rename { from, to } => from@ == course.part && to@ == course.jar,
            ExtractionStep::Discard(path) => path@ == course.part,
            ExtractionStep::Done(path) => path@ == course.jar && course.phase is Done,
            ExtractionStep::Failed(error) => course.phase == extraction::Phase::Failed(error@),
            ExtractionStep::Archive => course.phase is Archive,
            ExtractionStep::Read => course.phase is Read,
            ExtractionStep::Append => course.phase is Append,
            ExtractionStep::Sync => course.phase is Sync,
        },
{
    reveal_strlit("\n");
    assert("\n"@ =~= seq!['\n']);
}

/// Two extractions of a jar use different partial files where their processes or
/// their numbers differ.
pub proof fn law_extractions_do_not_meet(a: Extract<'_>, b: Extract<'_>)
    requires
        a.jar@ == b.jar@,
        extraction::fresh_course(a).part == extraction::fresh_course(b).part,
    ensures
        a.process == b.process,
        a.nonce == b.nonce,
{
    reveal_strlit("-");
    reveal_strlit(".part-");
    let x = text::decimal_text(a.process as nat);
    let y = text::decimal_text(b.process as nat);
    let u = text::decimal_text(a.nonce as nat);
    let v = text::decimal_text(b.nonce as nat);
    text_laws::law_numbers_read_back(a.process as nat);
    text_laws::law_numbers_read_back(b.process as nat);
    text_laws::law_numbers_read_back(a.nonce as nat);
    text_laws::law_numbers_read_back(b.nonce as nat);
    let start = a.jar@ + ".part-"@;
    let one = start + (x + "-"@ + u);
    let two = start + (y + "-"@ + v);
    assert(extraction::fresh_course(a).part =~= one);
    assert(extraction::fresh_course(b).part =~= two);
    assert(one.skip(start.len() as int) =~= x + "-"@ + u);
    assert(two.skip(start.len() as int) =~= y + "-"@ + v);
    let s = x + "-"@ + u;
    let t = y + "-"@ + v;
    assert(s == t);
    if x.len() < y.len() {
        assert(s[x.len() as int] == '-');
        assert(t[x.len() as int] == y[x.len() as int]);
        assert(text::is_digit(y[x.len() as int]));
    }
    if y.len() < x.len() {
        assert(t[y.len() as int] == '-');
        assert(s[y.len() as int] == x[y.len() as int]);
        assert(text::is_digit(x[y.len() as int]));
    }
    assert(x =~= s.take(x.len() as int));
    assert(y =~= t.take(y.len() as int));
    assert(u =~= s.skip(x.len() as int + 1));
    assert(v =~= t.skip(y.len() as int + 1));
}

} // verus!
