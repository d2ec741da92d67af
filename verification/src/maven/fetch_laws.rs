//! Where artifacts are looked for, and what comes of it.

use vstd::prelude::*;
use crate::maven;
use crate::maven::{Failure, Gav, MavenRepo};
use crate::maven::fetch;
use crate::maven::fetch::{Attempt, NextFetch, Place};
use crate::text;
use crate::text_laws;

verus! {

proof fn lemma_replaced(s: Seq<char>)
    requires
        text_laws::lacks(s, '/'),
    ensures
        text::split_text(text::replace_text(s, '.', '/'), '/') == text::split_text(s, '.'),
    decreases s.len(),
{
    let replaced = text::replace_text(s, '.', '/');
    if s.len() > 0 {
        let rest = s.drop_last();
        assert forall|i: int| 0 <= i < rest.len() implies #[trigger] rest[i] != '/' by {
            assert(rest[i] == s[i]);
        }
        lemma_replaced(rest);
        assert(s.last() == s[s.len() - 1]);
        assert(replaced.drop_last() =~= text::replace_text(rest, '.', '/'));
    }
}

/// An artifact lies in the directories that its group, its name and its version
/// give, the parts of the group one below the other; the file is named after the
/// artifact and its version.
pub proof fn law_artifacts_lie_below_their_group(gav: Gav, extension: Seq<char>)
    requires
        text_laws::lacks(gav.ga.group, '/'),
        text_laws::lacks(gav.ga.artifact, '/'),
        text_laws::lacks(gav.version, '/'),
        text_laws::lacks(extension, '/'),
    ensures
        text::split_text(fetch::artifact_text(gav, extension), '/') == text::split_text(
            gav.ga.group,
            '.',
        ) + seq![
            gav.ga.artifact,
            gav.version,
            gav.ga.artifact + seq!['-'] + gav.version + seq!['.'] + extension,
        ],
        text::split_text(fetch::classes_text(gav), '/') == text::split_text(gav.ga.group, '.')
            + seq![
            gav.ga.artifact,
            gav.version,
            gav.ga.artifact + seq!['-'] + gav.version + "-classes.jar"@,
        ],
{
    reveal_strlit("/");
    reveal_strlit("-");
    reveal_strlit(".");
    reveal_strlit("-classes.jar");
    assert("/"@ =~= seq!['/']);
    assert("-"@ =~= seq!['-']);
    assert("."@ =~= seq!['.']);
    let file = gav.ga.artifact + seq!['-'] + gav.version + seq!['.'] + extension;
    let classes = gav.ga.artifact + seq!['-'] + gav.version + "-classes.jar"@;
    let group = text::replace_text(gav.ga.group, '.', '/');
    lemma_replaced(gav.ga.group);
    lemma_below(group, gav.ga.artifact, gav.version, file);
    lemma_below(group, gav.ga.artifact, gav.version, classes);
    assert(fetch::artifact_text(gav, extension) =~= below(
        group,
        gav.ga.artifact,
        gav.version,
        file,
    ));
    assert(fetch::classes_text(gav) =~= below(group, gav.ga.artifact, gav.version, classes));
}

/// A path of four parts.
spec fn below(a: Seq<char>, b: Seq<char>, c: Seq<char>, d: Seq<char>) -> Seq<char> {
    a + seq!['/'] + (b + seq!['/'] + (c + seq!['/'] + d))
}

proof fn lemma_below(a: Seq<char>, b: Seq<char>, c: Seq<char>, d: Seq<char>)
    requires
        text_laws::lacks(b, '/'),
        text_laws::lacks(c, '/'),
        text_laws::lacks(d, '/'),
    ensures
        text::split_text(below(a, b, c, d), '/') == text::split_text(a, '/') + seq![b, c, d],
{
    text_laws::law_separators_part_pieces(d, d, '/');
    text_laws::law_separators_part_pieces(c, d, '/');
    text_laws::law_separators_part_pieces(b, c + seq!['/'] + d, '/');
    text_laws::law_separators_part_pieces(a, b + seq!['/'] + (c + seq!['/'] + d), '/');
    assert(text::split_text(below(a, b, c, d), '/') =~= text::split_text(a, '/') + seq![b, c, d]);
}

/// Whether an attempt got the artifact.
pub open spec fn got_it(attempt: Attempt) -> bool {
    attempt is Fetched
}

/// The address a repository starts at.
pub open spec fn starts_at(repo: MavenRepo, base: Seq<char>) -> bool {
    match repo {
        MavenRepo::Google => base == "https://dl.google.com/dl/android/maven2"@,
        MavenRepo::Central => base == "https://repo1.maven.org/maven2"@,
        MavenRepo::Custom(url) => base == url@,
    }
}

/// The repositories are tried one after the other, each once, for the artifact
/// below the address it starts at, until one has it.
pub proof fn law_repositories_are_tried_in_turn(
    repos: Seq<MavenRepo>,
    gav: Gav,
    extension: Seq<char>,
    attempts: Seq<Attempt>,
    base: Seq<char>,
)
    requires
        attempts.len() < repos.len(),
        forall|i: int| 0 <= i < attempts.len() ==> !got_it(#[trigger] attempts[i]),
        starts_at(repos[attempts.len() as int], base + seq!['/']) || starts_at(
            repos[attempts.len() as int],
            base,
        ) && (base.len() > 0 ==> base.last() != '/'),
    ensures
        fetch::next_fetch(repos, gav, extension, attempts) == NextFetch::Try(
            fetch::place_of(base + seq!['/'] + fetch::artifact_text(gav, extension)),
        ),
{
    reveal_strlit("/");
    assert("/"@ =~= seq!['/']);
    assert(!attempts.contains(Attempt::Fetched)) by {
        if attempts.contains(Attempt::Fetched) {
            let i = choose|i: int| 0 <= i < attempts.len() && attempts[i] == Attempt::Fetched;
            assert(got_it(attempts[i]));
        }
    }
    assert((base + seq!['/']).last() == '/');
}

/// An address with another scheme than `file` is asked over the network, one
/// without a scheme is a path, and one with that scheme is the path behind it.
pub proof fn law_addresses_name_places(scheme: Seq<char>, rest: Seq<char>)
    ensures
        fetch::place_of("file://"@ + rest) == Place::File(rest),
        scheme.len() < 4 || scheme.take(4) != "file"@ ==> fetch::place_of(scheme + "://"@ + rest)
            == Place::Http(scheme + "://"@ + rest),
        text_laws::lacks(rest, ':') ==> fetch::place_of(rest) == Place::File(rest),
{
    reveal_strlit("file://");
    reveal_strlit("file");
    reveal_strlit("://");
    let url = scheme + "://"@ + rest;
    let file = "file://"@ + rest;
    assert("file://"@.len() == 7);
    assert(file.skip(7) =~= rest);
    assert("file://"@ =~= file.subrange(0, 7));
    assert("file://"@.is_prefix_of(file));
    let at = scheme.len() as int;
    assert(url.subrange(at, at + 3) =~= "://"@);
    assert(text::occurs_at(url, "://"@, at));
    if "file://"@.is_prefix_of(url) {
        assert("file://"@ =~= url.subrange(0, 7));
        assert forall|i: int| 0 <= i < 7 implies url[i] == "file://"@[i] by {
            assert(url.subrange(0, 7)[i] == url[i]);
        }
        if scheme.len() >= 4 {
            assert(scheme.take(4) =~= "file"@) by {
                assert forall|i: int| 0 <= i < 4 implies scheme[i] == "file"@[i] by {
                    assert(url[i] == scheme[i]);
                }
            }
        } else {
            assert(url[at] == "://"@[0]);
        }
    }
    if text_laws::lacks(rest, ':') {
        if text::has_text(rest, "://"@) {
            let i = choose|i: int| text::occurs_at(rest, "://"@, i);
            assert(rest.subrange(i, i + 3)[0] == rest[i]);
        }
        if "file://"@.is_prefix_of(rest) {
            assert("file://"@ =~= rest.subrange(0, 7));
            assert(rest.subrange(0, 7)[4] == rest[4]);
        }
    }
}

/// Once a repository had the artifact, nothing more is tried.
pub proof fn law_nothing_is_tried_after_success(
    repos: Seq<MavenRepo>,
    gav: Gav,
    extension: Seq<char>,
    attempts: Seq<Attempt>,
    i: int,
)
    requires
        0 <= i < attempts.len(),
        got_it(attempts[i]),
    ensures
        fetch::next_fetch(repos, gav, extension, attempts) == NextFetch::Done,
{
    assert(attempts[i] == Attempt::Fetched);
}

proof fn lemma_first_failure(attempts: Seq<Attempt>, n: int)
    requires
        0 <= n <= attempts.len(),
        forall|i: int| 0 <= i < n ==> !(#[trigger] attempts[i] is Fail),
    ensures
        n < attempts.len() ==> (attempts[n] matches Attempt::Fail(message)
            ==> fetch::first_failure(attempts) == Some(message@)),
        n == attempts.len() ==> fetch::first_failure(attempts) is None,
    decreases n,
{
    if n > 0 {
        let rest = attempts.drop_first();
        assert forall|i: int| 0 <= i < n - 1 implies !(#[trigger] rest[i] is Fail) by {
            assert(rest[i] == attempts[i + 1]);
        }
        assert(!(attempts[0] is Fail));
        lemma_first_failure(rest, n - 1);
        if n < attempts.len() {
            assert(rest[n - 1] == attempts[n]);
        }
    }
}

/// Where no repository had the artifact, the first that failed to answer is
/// reported; it counts as missing only where each one answered that it is.
pub proof fn law_first_failure_is_reported(
    repos: Seq<MavenRepo>,
    gav: Gav,
    extension: Seq<char>,
    attempts: Seq<Attempt>,
    n: int,
)
    requires
        attempts.len() == repos.len(),
        forall|i: int| 0 <= i < attempts.len() ==> !got_it(#[trigger] attempts[i]),
        0 <= n <= attempts.len(),
        forall|i: int| 0 <= i < n ==> #[trigger] attempts[i] is Miss,
        n < attempts.len() ==> attempts[n] is Fail,
    ensures
        match fetch::next_fetch(repos, gav, extension, attempts) {
            NextFetch::Failed(Failure::NotFound { artifact }) => n == attempts.len() && artifact
                == maven::gav_text(gav),
            NextFetch::Failed(Failure::Fetch { artifact, message }) => n < attempts.len()
                && artifact == maven::gav_text(gav) && (attempts[n] matches Attempt::Fail(cause)
                && message == cause@),
            _ => false,
        },
{
    assert(!attempts.contains(Attempt::Fetched)) by {
        if attempts.contains(Attempt::Fetched) {
            let i = choose|i: int| 0 <= i < attempts.len() && attempts[i] == Attempt::Fetched;
            assert(got_it(attempts[i]));
        }
    }
    lemma_first_failure(attempts, n);
}

/// The white space around a recorded digest does not count, and nothing but
/// white space records none.
pub proof fn law_recorded_digests_are_trimmed(
    before: Seq<char>,
    digest: Seq<char>,
    behind: Seq<char>,
)
    requires
        text::all_space(before),
        text::all_space(behind),
        digest.len() > 0 ==> !text::is_space(digest.first()) && !text::is_space(digest.last()),
    ensures
        fetch::recorded(Some(before + digest + behind)) == if digest.len() > 0 {
            Some(digest)
        } else {
            None
        },
        fetch::recorded(None) is None,
{
    text_laws::law_space_around_does_not_count(before, digest, behind);
}

/// The cache of modules lies below the home directory, where that is known.
pub proof fn law_cache_lies_below_home(home: Seq<char>)
    requires
        home.len() > 0,
        home.last() != '/',
    ensures
        fetch::default_cache_text(Some(home)) == home + "/.cache/uliab/modules"@,
        fetch::default_cache_text(None) == ".cache/uliab/modules"@,
{
    reveal_strlit(".cache");
    reveal_strlit("uliab");
    reveal_strlit("modules");
    reveal_strlit("/.cache/uliab/modules");
    reveal_strlit(".cache/uliab/modules");
    let slash = seq!['/'];
    let start = home + slash + ".cache"@;
    text_laws::law_relative_paths_are_appended(home, ".cache"@);
    assert(start.last() == ".cache"@[5]);
    text_laws::law_relative_paths_are_appended(start, "uliab"@);
    assert((start + slash + "uliab"@).last() == "uliab"@[4]);
    text_laws::law_relative_paths_are_appended(start + slash + "uliab"@, "modules"@);
    assert(start + slash + "uliab"@ + slash + "modules"@ =~= home + "/.cache/uliab/modules"@);
    text_laws::law_relative_paths_are_appended(".cache"@, "uliab"@);
    assert((".cache"@ + slash + "uliab"@).last() == "uliab"@[4]);
    text_laws::law_relative_paths_are_appended(".cache"@ + slash + "uliab"@, "modules"@);
    assert(".cache"@ + slash + "uliab"@ + slash + "modules"@ =~= ".cache/uliab/modules"@);
}

} // verus!
