//! Where artifacts come from and when a cached one may be reused.
//!
//! Artifacts are cached under the resolver's cache directory in the layout of
//! a Maven repository. The SHA-256 digest of each is recorded beside it, and a
//! cached artifact is reused only where its content still has that digest.

use vstd::prelude::*;
use crate::digest;
use crate::digest::Hasher;
use crate::maven;
use crate::maven::{Dependency, Failure, Gav, MavenRepo, ResolveError};
use crate::maven::graph;
use crate::text;

verus! {

/// The largest artifact a download accepts, in bytes: a guard against a
/// repository streaming garbage instead of an artifact.
pub const MAX_ARTIFACT_BYTES: u64 = 268_435_456;

/// The address a repository starts at.
pub open spec fn base_text(repo: MavenRepo) -> Seq<char> {
    match repo {
        MavenRepo::Google => maven::GOOGLE_MAVEN@,
        MavenRepo::Central => maven::MAVEN_CENTRAL@,
        MavenRepo::Custom(url) => url@,
    }
}

/// The address of a path in a repository.
pub open spec fn url_text(repo: MavenRepo, path: Seq<char>) -> Seq<char> {
    let base = base_text(repo);
    if base.len() > 0 && base.last() == '/' {
        base + path
    } else {
        base + "/"@ + path
    }
}

impl MavenRepo {
    /// The address the repository starts at.
    pub fn base(&self) -> (base: &str)
        ensures
            base@ == base_text(*self),
    {
        match self {
            MavenRepo::Google => maven::GOOGLE_MAVEN,
            MavenRepo::Central => maven::MAVEN_CENTRAL,
            MavenRepo::Custom(url) => url.as_str(),
        }
    }

    /// The address of the repository-relative path `rel_path`.
    pub fn url_for(&self, rel_path: &str) -> (url: String)
        ensures
            url@ == url_text(*self, rel_path@),
    {
        let base = self.base();
        let n: usize = base.unicode_len();
        if n > 0 && base.get_char(n - 1) == '/' {
            base.to_owned().concat(rel_path)
        } else {
            base.to_owned().concat("/").concat(rel_path)
        }
    }
}

/// The directory and the file stem of a coordinate's files:
/// `group/artifact/version/artifact-version`.
pub open spec fn stem_text(gav: Gav) -> Seq<char> {
    text::replace_text(gav.ga.group, '.', '/') + "/"@ + gav.ga.artifact + "/"@ + gav.version + "/"@
        + gav.ga.artifact + "-"@ + gav.version
}

/// The repository-relative path of a coordinate's file.
pub open spec fn artifact_text(gav: Gav, extension: Seq<char>) -> Seq<char> {
    stem_text(gav) + "."@ + extension
}

/// The path, below the cache directory, of the jar extracted from an AAR.
pub open spec fn classes_text(gav: Gav) -> Seq<char> {
    stem_text(gav) + "-classes.jar"@
}

fn stem(coordinate: &Dependency) -> (s: String)
    ensures
        s@ == stem_text(coordinate@),
{
    text::replace(&coordinate.group, '.', '/').concat("/").concat(&coordinate.artifact).concat(
        "/",
    ).concat(&coordinate.version).concat("/").concat(&coordinate.artifact).concat("-").concat(
        &coordinate.version,
    )
}

/// The repository-relative path of a coordinate's file with the given
/// extension.
pub fn artifact_path(coordinate: &Dependency, extension: &str) -> (path: String)
    ensures
        path@ == artifact_text(coordinate@, extension@),
{
    stem(coordinate).concat(".").concat(extension)
}

/// The path, below the cache directory, of the jar extracted from an AAR.
pub fn classes_path(coordinate: &Dependency) -> (path: String)
    ensures
        path@ == classes_text(coordinate@),
{
    stem(coordinate).concat("-classes.jar")
}

/// The file that the digest of `path` is recorded in.
pub fn sha_path(path: &str) -> (sha: String)
    ensures
        sha@ == path@ + ".sha256"@,
{
    path.to_owned().concat(".sha256")
}

/// The file that a download of `path` goes through.
pub fn part_path(path: &str) -> (part: String)
    ensures
        part@ == path@ + ".part"@,
{
    path.to_owned().concat(".part")
}

/// The file that an extraction of `path` goes through, which no other process
/// and no other extraction of this process uses.
pub fn extraction_part_path(path: &str, process: u32, nonce: u64) -> (part: String)
    ensures
        part@ == path@ + ".part-"@ + text::decimal_text(process as nat) + "-"@ + text::decimal_text(
            nonce as nat,
        ),
{
    path.to_owned().concat(".part-").concat(&text::decimal(process as u64)).concat("-").concat(
        &text::decimal(nonce),
    )
}

/// The cache directory of a user, or one below the current directory where
/// there is no home directory.
pub open spec fn default_cache_text(home: Option<Seq<char>>) -> Seq<char> {
    let start = match home {
        Some(home) => text::path_text(home, ".cache"@),
        None => ".cache"@,
    };
    text::path_text(text::path_text(start, "uliab"@), "modules"@)
}

/// The default cache location: `~/.cache/uliab/modules`.
pub fn default_cache_dir(home: Option<&str>) -> (dir: String)
    ensures
        dir@ == default_cache_text(text::opt_str(home)),
{
    let start = match home {
        Some(home) => text::join_path(home, ".cache"),
        None => ".cache".to_owned(),
    };
    text::join_path(&text::join_path(&start, "uliab"), "modules")
}

/// What an address names.
#[derive(Debug, PartialEq, Eq)]
pub enum Source {
    /// A file of this machine, by its path.
    File(String),
    /// A resource on the network, by its URL.
    Http(String),
}

/// What a [`Source`] holds.
pub enum Place {
    /// A file.
    File(Seq<char>),
    /// A resource on the network.
    Http(Seq<char>),
}

impl View for Source {
    type V = Place;

    open spec fn view(&self) -> Place {
        match *self {
            Source::File(path) => Place::File(path@),
            Source::Http(url) => Place::Http(url@),
        }
    }
}

/// A `file://` address and one without a scheme name a file; any other is
/// fetched over HTTP.
pub open spec fn place_of(url: Seq<char>) -> Place {
    if "file://"@.is_prefix_of(url) {
        Place::File(url.skip("file://"@.len() as int))
    } else if !text::has_text(url, "://"@) {
        Place::File(url)
    } else {
        Place::Http(url)
    }
}

/// What an address names.
pub fn source_of(url: &str) -> (source: Source)
    ensures
        source@ == place_of(url@),
{
    if text::starts_with(url, "file://") {
        let n: usize = "file://".unicode_len();
        let rest = url.substring_char(n, url.unicode_len());
        assert(rest@ == url@.skip("file://"@.len() as int));
        Source::File(rest.to_owned())
    } else if !text::contains(url, "://") {
        Source::File(url.to_owned())
    } else {
        Source::Http(url.to_owned())
    }
}

/// How one attempt to fetch an artifact from one repository ended.
#[derive(Debug, PartialEq, Eq)]
pub enum Attempt {
    /// The artifact is in the cache.
    Fetched,
    /// The repository does not have it.
    Miss,
    /// Something went wrong.
    Fail(String),
}

/// What an answer with an HTTP error status means: 404 is a miss, any other
/// code a failure.
pub fn status_attempt(code: u16) -> (attempt: Attempt)
    ensures
        match attempt {
            Attempt::Fetched => false,
            Attempt::Miss => code == 404,
            Attempt::Fail(message) => code != 404 && message@ == "HTTP "@ + text::decimal_text(
                code as nat,
            ),
        },
{
    if code == 404 {
        Attempt::Miss
    } else {
        Attempt::Fail("HTTP ".to_owned().concat(&text::decimal(code as u64)))
    }
}

/// What to do after a number of attempts to fetch an artifact.
#[derive(Debug, PartialEq, Eq)]
pub enum FetchStep {
    /// Nothing more: the artifact is in the cache.
    Done,
    /// Try the next repository, where the artifact has this source.
    Try(Source),
    /// Give up.
    Failed(ResolveError),
}

/// What a [`FetchStep`] holds.
pub enum NextFetch {
    /// Nothing more.
    Done,
    /// Try this place.
    Try(Place),
    /// Give up.
    Failed(Failure),
}

impl View for FetchStep {
    type V = NextFetch;

    open spec fn view(&self) -> NextFetch {
        match *self {
            FetchStep::Done => NextFetch::Done,
            FetchStep::Try(source) => NextFetch::Try(source@),
            FetchStep::Failed(error) => NextFetch::Failed(error@),
        }
    }
}

/// The message of the first attempt that failed.
pub open spec fn first_failure(attempts: Seq<Attempt>) -> Option<Seq<char>>
    decreases attempts.len(),
{
    if attempts.len() == 0 {
        None
    } else {
        match attempts.first() {
            Attempt::Fail(message) => Some(message@),
            _ => first_failure(attempts.drop_first()),
        }
    }
}

/// Repositories are tried in order until one has the artifact. Where none
/// has, the first failure is reported, and an artifact that every repository
/// lacks is not found.
pub open spec fn next_fetch(
    repos: Seq<MavenRepo>,
    gav: Gav,
    extension: Seq<char>,
    attempts: Seq<Attempt>,
) -> NextFetch {
    if attempts.contains(Attempt::Fetched) {
        NextFetch::Done
    } else if attempts.len() < repos.len() {
        NextFetch::Try(
            place_of(url_text(repos[attempts.len() as int], artifact_text(gav, extension))),
        )
    } else {
        NextFetch::Failed(
            match first_failure(attempts) {
                Some(message) => Failure::Fetch { artifact: maven::gav_text(gav), message },
                None => Failure::NotFound { artifact: maven::gav_text(gav) },
            },
        )
    }
}

/// Decides what to do next to fetch a coordinate's file with the given
/// extension, after `attempts` on the first repositories.
pub fn fetch_from_repos(
    repos: &Vec<MavenRepo>,
    coordinate: &Dependency,
    extension: &str,
    attempts: &Vec<Attempt>,
) -> (step: FetchStep)
    ensures
        step@ == next_fetch(repos@, coordinate@, extension@, attempts@),
{
    let mut failure: Option<String> = None;
    let mut i: usize = 0;
    assert(attempts@.skip(0) == attempts@);
    while i < attempts.len()
        invariant
            i <= attempts.len(),
            forall|j: int| 0 <= j < i ==> #[trigger] attempts@[j] != Attempt::Fetched,
            match failure {
                Some(message) => first_failure(attempts@) == Some(message@),
                None => first_failure(attempts@) == first_failure(attempts@.skip(i as int)),
            },
        decreases attempts.len() - i,
    {
        assert(attempts@.skip(i as int).drop_first() == attempts@.skip(i + 1));
        match &attempts[i] {
            Attempt::Fetched => {
                assert(attempts@.contains(Attempt::Fetched));
                return FetchStep::Done;
            },
            Attempt::Miss => {},
            Attempt::Fail(message) => {
                if failure.is_none() {
                    failure = Some(message.clone());
                }
            },
        }
        i += 1;
    }
    if attempts.len() < repos.len() {
        let path = artifact_path(coordinate, extension);
        return FetchStep::Try(source_of(&repos[attempts.len()].url_for(&path)));
    }
    let artifact = graph::gav_string(coordinate);
    FetchStep::Failed(
        match failure {
            Some(message) => ResolveError::Fetch { artifact, message },
            None => ResolveError::NotFound { artifact },
        },
    )
}

/// The digest that a recorded text holds, where it holds one.
pub open spec fn recorded(content: Option<Seq<char>>) -> Option<Seq<char>> {
    match content {
        Some(content) => if text::trim_text(content).len() > 0 {
            Some(text::trim_text(content))
        } else {
            None
        },
        None => None,
    }
}

/// The digest recorded for a file, given what its digest file holds.
pub fn recorded_digest(content: Option<&str>) -> (digest: Option<String>)
    ensures
        text::opt_text(digest) == recorded(text::opt_str(content)),
{
    match content {
        Some(content) => {
            let digest = text::trim(content);
            if digest.as_str().is_empty() {
                None
            } else {
                Some(digest)
            }
        },
        None => None,
    }
}

/// Whether a cached file is intact: its content, which `hasher` has taken in,
/// has the digest recorded in `recorded`.
pub fn is_intact(hasher: Hasher, recorded: &str) -> (intact: bool)
    requires
        hasher.message().len() <= digest::MAX_MESSAGE,
    ensures
        intact == (text::trim_text(recorded@) == text::hex_text(
            digest::sha256(hasher.message()),
        )),
{
    text::str_eq(&text::trim(recorded), &text::hex(&hasher.finish()))
}

/// What is recorded beside a jar that was extracted from an AAR: the digest of
/// the AAR, where it has one, and on the next line that of the jar itself.
pub open spec fn seal_text(aar_digest: Option<Seq<char>>, jar: Seq<u8>) -> Seq<char> {
    let aar = match aar_digest {
        Some(digest) => digest,
        None => Seq::empty(),
    };
    aar + "\n"@ + text::hex_text(digest::sha256(jar))
}

/// What to record beside a jar, which `jar` has taken in.
pub fn seal(aar_digest: &Option<String>, jar: Hasher) -> (seal: String)
    requires
        jar.message().len() <= digest::MAX_MESSAGE,
    ensures
        seal@ == seal_text(text::opt_text(*aar_digest), jar.message()),
{
    let aar = match aar_digest {
        Some(digest) => digest.clone(),
        None => String::new(),
    };
    aar.concat("\n").concat(&text::hex(&jar.finish()))
}

/// Whether the jar extracted from an AAR can be reused: it is there, and what is
/// recorded for it is what belongs to the AAR as it is now and to what the jar
/// holds, which `jar` has taken in.
pub fn reuses_extraction(
    jar: Option<Hasher>,
    recorded: &Option<String>,
    aar_digest: &Option<String>,
) -> (reuses: bool)
    requires
        jar matches Some(hasher) ==> hasher.message().len() <= digest::MAX_MESSAGE,
    ensures
        reuses == (jar matches Some(hasher) && text::opt_text(*recorded) == Some(
            seal_text(text::opt_text(*aar_digest), hasher.message()),
        )),
{
    match (jar, recorded) {
        (Some(hasher), Some(text)) => text::str_eq(text, &seal(aar_digest, hasher)),
        _ => false,
    }
}

/// What was being done with an archive when it failed.
#[derive(Debug, Clone, Copy, PartialEq, Eq, Structural)]
pub enum ArchiveWork {
    /// Opening a file.
    Opening,
    /// Reading a file.
    Reading,
    /// Looking for `classes.jar`.
    Finding,
    /// Creating a file or directory.
    Creating,
    /// Writing a file.
    Writing,
    /// Recording a digest.
    Recording,
    /// Moving a file into place.
    Finishing,
}

/// How the work is named in front of the file it is done on.
pub open spec fn work_text(work: ArchiveWork) -> Seq<char> {
    match work {
        ArchiveWork::Opening => "opening "@,
        ArchiveWork::Reading => "reading "@,
        ArchiveWork::Finding => "no classes.jar in "@,
        ArchiveWork::Creating => "creating "@,
        ArchiveWork::Writing => "writing "@,
        ArchiveWork::Recording => "recording "@,
        ArchiveWork::Finishing => "finishing "@,
    }
}

/// The error of work on an archive that failed at `path` because of `cause`.
pub fn archive_error(
    coordinate: &Dependency,
    work: ArchiveWork,
    path: &str,
    cause: &str,
) -> (error: ResolveError)
    ensures
        error@ == (Failure::Archive {
            artifact: maven::gav_text(coordinate@),
            message: work_text(work) + path@ + ": "@ + cause@,
        }),
{
    let what = match work {
        ArchiveWork::Opening => "opening ",
        ArchiveWork::Reading => "reading ",
        ArchiveWork::Finding => "no classes.jar in ",
        ArchiveWork::Creating => "creating ",
        ArchiveWork::Writing => "writing ",
        ArchiveWork::Recording => "recording ",
        ArchiveWork::Finishing => "finishing ",
    };
    ResolveError::Archive {
        artifact: graph::gav_string(coordinate),
        message: what.to_owned().concat(path).concat(": ").concat(cause),
    }
}

/// Accounts for `more` bytes copied out of the archive at `aar_path` behind
/// `copied` others: gives the new total, or an error where it is larger than
/// an artifact may be.
pub fn extend_extraction(
    coordinate: &Dependency,
    aar_path: &str,
    copied: u64,
    more: u64,
) -> (total: Result<u64, ResolveError>)
    requires
        copied <= MAX_ARTIFACT_BYTES,
    ensures
        match total {
            Ok(n) => n == copied + more && n <= MAX_ARTIFACT_BYTES,
            Err(error) => copied + more > MAX_ARTIFACT_BYTES && error@ == (Failure::Archive {
                artifact: maven::gav_text(coordinate@),
                message: "classes.jar in "@ + aar_path@ + " exceeds the "@ + text::decimal_text(
                    MAX_ARTIFACT_BYTES as nat,
                ) + " byte limit"@,
            }),
        },
{
    if more > MAX_ARTIFACT_BYTES - copied {
        Err(
            ResolveError::Archive {
                artifact: graph::gav_string(coordinate),
                message: "classes.jar in ".to_owned().concat(aar_path).concat(
                    " exceeds the ",
                ).concat(&text::decimal(MAX_ARTIFACT_BYTES)).concat(" byte limit"),
            },
        )
    } else {
        Ok(copied + more)
    }
}

/// A download in progress: how much has come, how much may come, and the
/// digest in the making.
pub struct Download {
    hasher: Hasher,
    total: u64,
    cap: Option<u64>,
}

impl Download {
    /// What has been taken in.
    pub closed spec fn content(&self) -> Seq<u8> {
        self.hasher.message()
    }

    /// How much may come.
    pub closed spec fn limit(&self) -> Option<u64> {
        self.cap
    }

    /// Whether the size that is kept is that of the content.
    pub closed spec fn wf(&self) -> bool {
        self.total == self.hasher.message().len()
    }

    /// A download of at most `cap` bytes, where there is a cap.
    pub fn new(cap: Option<u64>) -> (download: Download)
        ensures
            download.wf(),
            download.content() == Seq::<u8>::empty(),
            download.limit() == cap,
    {
        Download { hasher: Hasher::new(), total: 0, cap }
    }

    /// How much has come.
    pub fn size(&self) -> (size: u64)
        requires
            self.wf(),
        ensures
            size == self.content().len(),
    {
        self.total
    }

    /// Takes in the next chunk of a body.
    ///
    /// # Errors
    ///
    /// Returns a description, and takes in nothing, when the body is larger
    /// than the cap.
    pub fn accept(&mut self, chunk: &[u8]) -> (result: Result<(), String>)
        requires
            old(self).wf(),
            old(self).content().len() + chunk@.len() <= digest::MAX_MESSAGE,
        ensures
            final(self).wf(),
            final(self).limit() == old(self).limit(),
            match result {
                Ok(_) => {
                    &&& final(self).content() == old(self).content() + chunk@
                    &&& old(self).limit() matches Some(cap) ==> old(self).content().len()
                        + chunk@.len() <= cap
                },
                Err(message) => {
                    &&& final(self).content() == old(self).content()
                    &&& old(self).limit() matches Some(cap) && old(self).content().len()
                        + chunk@.len() > cap && message@ == "artifact exceeds the "@
                        + text::decimal_text(cap as nat) + " byte limit"@
                },
            },
    {
        let total: u64 = self.total + chunk.len() as u64;
        if let Some(cap) = self.cap {
            if total > cap {
                return Err(
                    "artifact exceeds the ".to_owned().concat(&text::decimal(cap)).concat(
                        " byte limit",
                    ),
                );
            }
        }
        self.hasher.update(chunk);
        self.total = total;
        Ok(())
    }

    /// The digest to record for what has come.
    pub fn finish(self) -> (recorded: String)
        requires
            self.wf(),
            self.content().len() <= digest::MAX_MESSAGE,
        ensures
            recorded@ == text::hex_text(digest::sha256(self.content())),
    {
        text::hex(&self.hasher.finish())
    }
}

proof fn lemma_digit_no_space(value: nat)
    requires
        value < 16,
    ensures
        !text::is_space(text::digit_char(value)),
{
    reveal_strlit("0123456789abcdef");
    let digits = "0123456789abcdef"@;
    assert(digits[0] == '0' && digits[1] == '1' && digits[2] == '2' && digits[3] == '3');
    assert(digits[4] == '4' && digits[5] == '5' && digits[6] == '6' && digits[7] == '7');
    assert(digits[8] == '8' && digits[9] == '9' && digits[10] == 'a' && digits[11] == 'b');
    assert(digits[12] == 'c' && digits[13] == 'd' && digits[14] == 'e' && digits[15] == 'f');
}

proof fn lemma_hex_no_space(bytes: Seq<u8>)
    ensures
        forall|i: int|
            0 <= i < text::hex_text(bytes).len() ==> !text::is_space(
                #[trigger] text::hex_text(bytes)[i],
            ),
    decreases bytes.len(),
{
    if bytes.len() > 0 {
        lemma_hex_no_space(bytes.drop_last());
        let last = bytes.last() as nat;
        lemma_digit_no_space(last / 16);
        lemma_digit_no_space(last % 16);
        let before = text::hex_text(bytes.drop_last());
        let all = text::hex_text(bytes);
        assert(all == before.push(text::digit_char(last / 16)).push(text::digit_char(last % 16)));
        assert forall|i: int| 0 <= i < all.len() implies !text::is_space(#[trigger] all[i]) by {
            if i < before.len() {
                assert(all[i] == before[i]);
            }
        }
    }
}

/// A download that is recorded and read back is found intact: the digest that
/// [`Download::finish`] gives passes [`is_intact`] on the same content, also
/// with white space around it.
pub proof fn law_recorded_download_is_intact(content: Seq<u8>)
    ensures
        text::trim_text(text::hex_text(digest::sha256(content))) == text::hex_text(
            digest::sha256(content),
        ),
{
    lemma_hex_no_space(digest::sha256(content));
}

} // verus!
