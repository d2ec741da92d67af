//! The ordering of Maven versions.
//!
//! A version is a list of tokens: maximal runs of digits and maximal runs of
//! other characters, with `.`, `-`, `_` and `+` separating runs. Two versions
//! compare token by token; where one list ends first, the other's tokens
//! compare with the release they would be padded by.

use vstd::prelude::*;
use core::cmp::Ordering;
use crate::text;
use crate::text::Relation;

verus! {

/// A token of a version: a number, or any other run of characters.
pub enum Token {
    /// A run of digits, by its value.
    Num(int),
    /// A run of other characters.
    Str(Seq<char>),
}

/// What has been read of a version: the finished tokens and the run that is
/// still open.
pub struct Scan {
    /// The tokens before the open run.
    pub done: Seq<Token>,
    /// The open run; empty where there is none.
    pub run: Seq<char>,
}

/// Whether a character separates tokens.
pub open spec fn is_separator(c: char) -> bool {
    c == '.' || c == '-' || c == '_' || c == '+'
}

/// The token a finished run stands for.
pub open spec fn token_of(run: Seq<char>) -> Token {
    if text::is_digit(run[0]) {
        Token::Num(text::digits_value(run) as int)
    } else {
        Token::Str(run)
    }
}

/// The tokens of a reading once its open run is closed.
pub open spec fn closed(scan: Scan) -> Seq<Token> {
    if scan.run.len() == 0 {
        scan.done
    } else {
        scan.done.push(token_of(scan.run))
    }
}

/// What has been read after all of `s`.
pub open spec fn scan_of(s: Seq<char>) -> Scan
    decreases s.len(),
{
    if s.len() == 0 {
        Scan { done: Seq::<Token>::empty(), run: Seq::<char>::empty() }
    } else {
        let before = scan_of(s.drop_last());
        let c = s.last();
        if is_separator(c) {
            Scan { done: closed(before), run: Seq::<char>::empty() }
        } else if before.run.len() > 0 && text::is_digit(before.run[0]) != text::is_digit(c) {
            Scan { done: closed(before), run: seq![c] }
        } else {
            Scan { done: before.done, run: before.run.push(c) }
        }
    }
}

/// The tokens of a version.
pub open spec fn tokens_of(version: Seq<char>) -> Seq<Token> {
    closed(scan_of(version))
}

/// The rank of a release among the known qualifiers.
pub const RELEASE_RANK: i32 = 5;

/// The rank of a known qualifier, whatever the case of its letters; lower
/// ranks are older.
pub open spec fn rank_of(qualifier: Seq<char>) -> Option<i32> {
    let name = text::lower_text(qualifier);
    if name == "alpha"@ || name == "a"@ {
        Some(0)
    } else if name == "beta"@ || name == "b"@ {
        Some(1)
    } else if name == "milestone"@ || name == "m"@ {
        Some(2)
    } else if name == "rc"@ || name == "cr"@ {
        Some(3)
    } else if name == "snapshot"@ {
        Some(4)
    } else if name == ""@ || name == "final"@ || name == "release"@ || name == "ga"@ {
        Some(RELEASE_RANK)
    } else if name == "sp"@ {
        Some(6)
    } else {
        None
    }
}

/// Two tokens: numbers by value, a number above any qualifier, known
/// qualifiers by rank and below unknown ones, and otherwise as texts.
pub open spec fn compare_pair(left: Token, right: Token) -> Relation {
    match (left, right) {
        (Token::Num(a), Token::Num(b)) => text::compare_int(a, b),
        (Token::Num(_), Token::Str(_)) => Relation::Greater,
        (Token::Str(_), Token::Num(_)) => Relation::Less,
        (Token::Str(a), Token::Str(b)) => match (rank_of(a), rank_of(b)) {
            (Some(x), Some(y)) => if x == y {
                text::compare_text(a, b)
            } else {
                text::compare_int(x as int, y as int)
            },
            (Some(_), None) => Relation::Less,
            (None, Some(_)) => Relation::Greater,
            (None, None) => text::compare_text(a, b),
        },
    }
}

/// A token against a missing counterpart, which stands for the release.
pub open spec fn compare_release(token: Token) -> Relation {
    match token {
        Token::Num(value) => text::compare_int(value, 0),
        Token::Str(qualifier) => match rank_of(qualifier) {
            Some(rank) => text::compare_int(rank as int, RELEASE_RANK as int),
            None => Relation::Greater,
        },
    }
}

/// Two token lists by their first position that differs.
pub open spec fn compare_lists(a: Seq<Token>, b: Seq<Token>) -> Relation
    decreases a.len() + b.len(),
{
    if a.len() == 0 && b.len() == 0 {
        Relation::Equal
    } else {
        let here = if a.len() == 0 {
            text::flip(compare_release(b.first()))
        } else if b.len() == 0 {
            compare_release(a.first())
        } else {
            compare_pair(a.first(), b.first())
        };
        if here != Relation::Equal {
            here
        } else {
            compare_lists(
                if a.len() == 0 {
                    a
                } else {
                    a.drop_first()
                },
                if b.len() == 0 {
                    b
                } else {
                    b.drop_first()
                },
            )
        }
    }
}

/// How two versions compare.
pub open spec fn version_relation(a: Seq<char>, b: Seq<char>) -> Relation {
    compare_lists(tokens_of(a), tokens_of(b))
}

/// The standard library's name for a relation.
pub open spec fn ordering_of(relation: Relation) -> Ordering {
    match relation {
        Relation::Less => Ordering::Less,
        Relation::Equal => Ordering::Equal,
        Relation::Greater => Ordering::Greater,
    }
}

#[derive(Debug, PartialEq, Eq)]
enum VersionToken {
    Num(Vec<char>),
    Str(String),
}

impl VersionToken {
    spec fn token(self) -> Token {
        match self {
            VersionToken::Num(run) => Token::Num(text::digits_value(run@) as int),
            VersionToken::Str(text) => Token::Str(text@),
        }
    }

    spec fn wf(self) -> bool {
        self matches VersionToken::Num(run) ==> text::all_digits(run@)
    }
}

spec fn tokens(list: Seq<VersionToken>) -> Seq<Token> {
    Seq::new(list.len(), |i: int| list[i].token())
}

spec fn all_wf(list: Seq<VersionToken>) -> bool {
    forall|i: int| 0 <= i < list.len() ==> (#[trigger] list[i]).wf()
}

/// Whether the characters of a run are all digits or all not, none of them a
/// separator.
spec fn one_kind(run: Seq<char>) -> bool {
    forall|i: int|
        0 <= i < run.len() ==> text::is_digit(#[trigger] run[i]) == text::is_digit(run[0])
}

/// Closes the open run, if there is one.
fn close_run(done: &mut Vec<VersionToken>, run: &Vec<char>)
    requires
        one_kind(run@),
        all_wf(old(done)@),
    ensures
        all_wf(final(done)@),
        tokens(final(done)@) == closed((Scan { done: tokens(old(done)@), run: run@ })),
{
    if run.len() == 0 {
        return ;
    }
    let ghost before = done@;
    if '0' <= run[0] && run[0] <= '9' {
        assert(text::all_digits(run@)) by {
            assert forall|i: int| 0 <= i < run@.len() implies text::is_digit(#[trigger] run@[i]) by {
                assert(text::is_digit(run@[i]) == text::is_digit(run@[0]));
            }
        }
        let token = VersionToken::Num(run.clone());
        done.push(token);
        assert(token.token() == token_of(run@));
        assert(tokens(done@) == tokens(before).push(token_of(run@)));
    } else {
        let text = text::from_chars(run, 0, run.len());
        assert(text@ == run@);
        let token = VersionToken::Str(text);
        done.push(token);
        assert(token.token() == token_of(run@));
        assert(tokens(done@) == tokens(before).push(token_of(run@)));
    }
}

/// The tokens of a version.
fn split_tokens(version: &str) -> (list: Vec<VersionToken>)
    ensures
        all_wf(list@),
        tokens(list@) == tokens_of(version@),
{
    let chars = text::chars_of(version);
    let mut done: Vec<VersionToken> = Vec::new();
    let mut run: Vec<char> = Vec::new();
    let mut i: usize = 0;
    assert(tokens(done@) == Seq::<Token>::empty());
    assert(chars@.take(0).len() == 0);
    while i < chars.len()
        invariant
            i <= chars.len(),
            one_kind(run@),
            all_wf(done@),
            scan_of(chars@.take(i as int)) == (Scan { done: tokens(done@), run: run@ }),
        decreases chars.len() - i,
    {
        let c = chars[i];
        assert(chars@.take(i + 1).drop_last() == chars@.take(i as int));
        let digit = '0' <= c && c <= '9';
        if c == '.' || c == '-' || c == '_' || c == '+' {
            close_run(&mut done, &run);
            run = Vec::new();
        } else {
            if run.len() > 0 && digit != ('0' <= run[0] && run[0] <= '9') {
                close_run(&mut done, &run);
                run = Vec::new();
            }
            let ghost before = run@;
            run.push(c);
            assert(run@ == before.push(c));
            assert(before.len() == 0 ==> run@ == seq![c]);
        }
        i += 1;
    }
    assert(chars@.take(i as int) == version@);
    close_run(&mut done, &run);
    done
}

fn qualifier_rank(qualifier: &str) -> (rank: Option<i32>)
    ensures
        rank == rank_of(qualifier@),
{
    let name = text::to_lower(qualifier);
    if text::str_eq(&name, "alpha") || text::str_eq(&name, "a") {
        Some(0)
    } else if text::str_eq(&name, "beta") || text::str_eq(&name, "b") {
        Some(1)
    } else if text::str_eq(&name, "milestone") || text::str_eq(&name, "m") {
        Some(2)
    } else if text::str_eq(&name, "rc") || text::str_eq(&name, "cr") {
        Some(3)
    } else if text::str_eq(&name, "snapshot") {
        Some(4)
    } else if text::str_eq(&name, "") || text::str_eq(&name, "final") || text::str_eq(&name, "release") || text::str_eq(
        &name,
        "ga",
    ) {
        Some(RELEASE_RANK)
    } else if text::str_eq(&name, "sp") {
        Some(6)
    } else {
        None
    }
}

fn compare_ranks(a: i32, b: i32) -> (relation: Relation)
    ensures
        relation == text::compare_int(a as int, b as int),
{
    if a < b {
        Relation::Less
    } else if a > b {
        Relation::Greater
    } else {
        Relation::Equal
    }
}

fn reverse(relation: Relation) -> (reversed: Relation)
    ensures
        reversed == text::flip(relation),
{
    match relation {
        Relation::Less => Relation::Greater,
        Relation::Equal => Relation::Equal,
        Relation::Greater => Relation::Less,
    }
}

fn compare_token(left: &VersionToken, right: &VersionToken) -> (relation: Relation)
    requires
        left.wf(),
        right.wf(),
    ensures
        relation == compare_pair(left.token(), right.token()),
{
    match (left, right) {
        (VersionToken::Num(a), VersionToken::Num(b)) => text::compare_digits(a, b),
        (VersionToken::Num(_), VersionToken::Str(_)) => Relation::Greater,
        (VersionToken::Str(_), VersionToken::Num(_)) => Relation::Less,
        (VersionToken::Str(a), VersionToken::Str(b)) => match (
            qualifier_rank(a),
            qualifier_rank(b),
        ) {
            (Some(x), Some(y)) => if x == y {
                text::compare_str(a, b)
            } else {
                compare_ranks(x, y)
            },
            (Some(_), None) => Relation::Less,
            (None, Some(_)) => Relation::Greater,
            (None, None) => text::compare_str(a, b),
        },
    }
}

fn compare_with_release(token: &VersionToken) -> (relation: Relation)
    requires
        token.wf(),
    ensures
        relation == compare_release(token.token()),
{
    match token {
        VersionToken::Num(run) => text::compare_digits(run, &Vec::new()),
        VersionToken::Str(qualifier) => match qualifier_rank(qualifier) {
            Some(rank) => compare_ranks(rank, RELEASE_RANK),
            None => Relation::Greater,
        },
    }
}

fn compare_tokens(a: &Vec<VersionToken>, b: &Vec<VersionToken>) -> (relation: Relation)
    requires
        all_wf(a@),
        all_wf(b@),
    ensures
        relation == compare_lists(tokens(a@), tokens(b@)),
{
    let length: usize = if a.len() < b.len() {
        b.len()
    } else {
        a.len()
    };
    let mut i: usize = 0;
    let ghost x = tokens(a@);
    let ghost y = tokens(b@);
    assert(rest(x, 0) == x && rest(y, 0) == y);
    while i < length
        invariant
            all_wf(a@),
            all_wf(b@),
            x == tokens(a@),
            y == tokens(b@),
            i <= length,
            length == if a@.len() < b@.len() {
                b@.len()
            } else {
                a@.len()
            },
            compare_lists(x, y) == compare_lists(rest(x, i as int), rest(y, i as int)),
        decreases length - i,
    {
        let here = if i >= a.len() {
            reverse(compare_with_release(&b[i]))
        } else if i >= b.len() {
            compare_with_release(&a[i])
        } else {
            compare_token(&a[i], &b[i])
        };
        if here != Relation::Equal {
            return here;
        }
        proof {
            if i < x.len() {
                assert(rest(x, i as int).drop_first() == rest(x, i + 1));
            }
            if i < y.len() {
                assert(rest(y, i as int).drop_first() == rest(y, i + 1));
            }
        }
        i += 1;
    }
    Relation::Equal
}

/// The elements from position `n` on, none where there are fewer.
spec fn rest(list: Seq<Token>, n: int) -> Seq<Token> {
    if n >= list.len() {
        Seq::<Token>::empty()
    } else {
        list.skip(n)
    }
}

/// How two Maven versions compare.
pub fn relate_versions(a: &str, b: &str) -> (relation: Relation)
    ensures
        relation == version_relation(a@, b@),
{
    compare_tokens(&split_tokens(a), &split_tokens(b))
}

/// Compares two Maven versions under Maven's ordering.
///
/// Versions are split on `.` and `-` (plus `_` and `+`, which Maven treats
/// as separators) into numeric and string segments; numeric segments
/// compare by value and string segments by qualifier rank, where the known
/// qualifiers order `alpha < beta < milestone < rc < snapshot < release <
/// sp`, unknown qualifiers sort above the known set and then
/// lexicographically, and a numeric segment outranks any qualifier. Missing
/// trailing segments compare as the release: `"1.0" == "1.0.0"`,
/// `"1.0-snapshot" < "1.0"`, `"2.10.0" > "2.1.0"`.
pub fn compare_maven_versions(a: &str, b: &str) -> (ordering: Ordering)
    ensures
        ordering == ordering_of(version_relation(a@, b@)),
{
    match relate_versions(a, b) {
        Relation::Less => Ordering::Less,
        Relation::Equal => Ordering::Equal,
        Relation::Greater => Ordering::Greater,
    }
}

proof fn lemma_pair_flip(a: Token, b: Token)
    ensures
        compare_pair(b, a) == text::flip(compare_pair(a, b)),
{
    if let (Token::Str(x), Token::Str(y)) = (a, b) {
        text::lemma_compare_flip(x, y);
    }
}

pub proof fn lemma_pair_reflexive(a: Token)
    ensures
        compare_pair(a, a) == Relation::Equal,
{
    if let Token::Str(x) = a {
        text::lemma_compare_reflexive(x);
    }
}

proof fn lemma_pair_transitive(a: Token, b: Token, c: Token)
    requires
        compare_pair(a, b) != Relation::Greater,
        compare_pair(b, c) != Relation::Greater,
    ensures
        compare_pair(a, c) != Relation::Greater,
        compare_pair(a, c) == Relation::Equal ==> compare_pair(a, b) == Relation::Equal
            && compare_pair(b, c) == Relation::Equal,
{
    match (a, b, c) {
        (Token::Str(x), Token::Str(y), Token::Str(z)) => {
            text::lemma_compare_flip(x, y);
            text::lemma_compare_flip(y, z);
            text::lemma_compare_flip(x, z);
            if text::compare_text(x, y) == Relation::Equal {
                text::lemma_compare_equal(x, y);
            } else if text::compare_text(y, z) == Relation::Equal {
                text::lemma_compare_equal(y, z);
            } else if text::compare_text(x, y) == Relation::Less && text::compare_text(y, z) == Relation::Less {
                text::lemma_compare_transitive(x, y, z);
            }
            if text::compare_text(x, z) == Relation::Equal {
                text::lemma_compare_equal(x, z);
            }
        },
        _ => {},
    }
}

proof fn lemma_lists_reflexive(a: Seq<Token>)
    ensures
        compare_lists(a, a) == Relation::Equal,
    decreases a.len(),
{
    if a.len() > 0 {
        lemma_pair_reflexive(a.first());
        lemma_lists_reflexive(a.drop_first());
    }
}

proof fn lemma_lists_flip(a: Seq<Token>, b: Seq<Token>)
    ensures
        compare_lists(b, a) == text::flip(compare_lists(a, b)),
    decreases a.len() + b.len(),
{
    if a.len() > 0 && b.len() > 0 {
        lemma_pair_flip(a.first(), b.first());
        lemma_lists_flip(a.drop_first(), b.drop_first());
    } else if a.len() > 0 {
        lemma_lists_flip(a.drop_first(), b);
    } else if b.len() > 0 {
        lemma_lists_flip(a, b.drop_first());
    }
}

/// Whether a token compares with a missing counterpart as it does with zero:
/// numbers do, and the qualifiers of pre-releases.
pub open spec fn is_plain(token: Token) -> bool {
    match token {
        Token::Num(_) => true,
        Token::Str(qualifier) => rank_of(qualifier) matches Some(rank) && rank < RELEASE_RANK,
    }
}

/// Whether the tokens of one list that have no counterpart in the other are
/// all plain.
pub open spec fn extends_plainly(list: Seq<Token>, other: Seq<Token>) -> bool {
    forall|i: int| other.len() <= i < list.len() ==> is_plain(#[trigger] list[i])
}

/// The token at the front of a list, zero where the list is empty.
spec fn front(list: Seq<Token>) -> Token {
    if list.len() == 0 {
        Token::Num(0)
    } else {
        list.first()
    }
}

spec fn behind(list: Seq<Token>) -> Seq<Token> {
    if list.len() == 0 {
        list
    } else {
        list.drop_first()
    }
}

proof fn lemma_lists_step(a: Seq<Token>, b: Seq<Token>)
    requires
        extends_plainly(a, b),
        extends_plainly(b, a),
    ensures
        extends_plainly(behind(a), behind(b)),
        extends_plainly(behind(b), behind(a)),
        compare_lists(a, b) == if compare_pair(front(a), front(b)) != Relation::Equal {
            compare_pair(front(a), front(b))
        } else {
            compare_lists(behind(a), behind(b))
        },
{
    if a.len() > b.len() {
        assert(is_plain(a[b.len() as int]));
    }
    if b.len() > a.len() {
        assert(is_plain(b[a.len() as int]));
    }
    assert forall|i: int| behind(b).len() <= i < behind(a).len() implies is_plain(
        #[trigger] behind(a)[i],
    ) by {
        assert(is_plain(a[i + 1]));
    }
    assert forall|i: int| behind(a).len() <= i < behind(b).len() implies is_plain(
        #[trigger] behind(b)[i],
    ) by {
        assert(is_plain(b[i + 1]));
    }
}

proof fn lemma_lists_transitive(a: Seq<Token>, b: Seq<Token>, c: Seq<Token>)
    requires
        extends_plainly(a, b) && extends_plainly(b, a),
        extends_plainly(b, c) && extends_plainly(c, b),
        extends_plainly(a, c) && extends_plainly(c, a),
        compare_lists(a, b) != Relation::Greater,
        compare_lists(b, c) != Relation::Greater,
    ensures
        compare_lists(a, c) != Relation::Greater,
    decreases a.len() + b.len() + c.len(),
{
    lemma_lists_step(a, b);
    lemma_lists_step(b, c);
    lemma_lists_step(a, c);
    if a.len() + b.len() + c.len() > 0 {
        lemma_pair_transitive(front(a), front(b), front(c));
        if compare_pair(front(a), front(c)) == Relation::Equal {
            lemma_lists_transitive(behind(a), behind(b), behind(c));
        }
    }
}

/// A version compares as equal with itself.
pub proof fn law_reflexive(a: Seq<char>)
    ensures
        version_relation(a, a) == Relation::Equal,
{
    lemma_lists_reflexive(tokens_of(a));
}

/// Swapping two versions flips their relation.
pub proof fn law_swapped(a: Seq<char>, b: Seq<char>)
    ensures
        version_relation(b, a) == text::flip(version_relation(a, b)),
{
    lemma_lists_flip(tokens_of(a), tokens_of(b));
}

/// The order is transitive among versions that differ in length by numbers and
/// pre-release qualifiers only. A service pack or an unknown qualifier behind
/// the end of another version breaks it: `1-sp` comes before `1.0`, which is
/// `1`, and yet behind `1`.
pub proof fn law_transitive(a: Seq<char>, b: Seq<char>, c: Seq<char>)
    requires
        extends_plainly(tokens_of(a), tokens_of(b)),
        extends_plainly(tokens_of(b), tokens_of(a)),
        extends_plainly(tokens_of(b), tokens_of(c)),
        extends_plainly(tokens_of(c), tokens_of(b)),
        extends_plainly(tokens_of(a), tokens_of(c)),
        extends_plainly(tokens_of(c), tokens_of(a)),
        version_relation(a, b) != Relation::Greater,
        version_relation(b, c) != Relation::Greater,
    ensures
        version_relation(a, c) != Relation::Greater,
{
    lemma_lists_transitive(tokens_of(a), tokens_of(b), tokens_of(c));
}

proof fn lemma_padded(a: Seq<Token>)
    ensures
        compare_lists(a, a.push(Token::Num(0))) == Relation::Equal,
    decreases a.len(),
{
    let b = a.push(Token::Num(0));
    if a.len() > 0 {
        lemma_pair_reflexive(a.first());
        lemma_padded(a.drop_first());
        assert(b.drop_first() == a.drop_first().push(Token::Num(0)));
    } else {
        assert(b.drop_first() == Seq::<Token>::empty());
        assert(compare_lists(a, b.drop_first()) == Relation::Equal);
    }
}

/// A trailing zero segment changes nothing: `1.0` is `1.0.0`.
pub proof fn law_trailing_zero(version: Seq<char>)
    ensures
        version_relation(version, version + ".0"@) == Relation::Equal,
{
    reveal_strlit(".0");
    let dotted = version.push('.');
    let padded = version + ".0"@;
    assert(padded == dotted.push('0'));
    assert(dotted.drop_last() == version);
    assert(padded.drop_last() == dotted);
    assert(scan_of(dotted) == (Scan { done: tokens_of(version), run: Seq::<char>::empty() }));
    assert(scan_of(padded).run == seq!['0']);
    assert(seq!['0'].drop_last() == Seq::<char>::empty());
    assert(text::digits_value(Seq::<char>::empty()) == 0);
    assert(seq!['0'].last() == '0');
    assert(text::digits_value(seq!['0']) == 0);
    assert(tokens_of(padded) == tokens_of(version).push(Token::Num(0)));
    lemma_padded(tokens_of(version));
}

/// A release is newer than any of its pre-releases and older than its
/// service packs: appending a known qualifier moves a version by the
/// qualifier's rank.
pub proof fn law_qualified(version: Seq<char>, qualifier: Seq<char>)
    requires
        rank_of(qualifier) is Some,
        qualifier.len() > 0,
        forall|i: int|
            0 <= i < qualifier.len() ==> !text::is_digit(#[trigger] qualifier[i]) && !is_separator(
                qualifier[i],
            ),
    ensures
        version_relation(version.push('-') + qualifier, version) == text::compare_int(
            rank_of(qualifier)->0 as int,
            RELEASE_RANK as int,
        ),
{
    let base = version.push('-');
    lemma_scan_run(base, qualifier, qualifier.len() as int);
    assert(qualifier.take(qualifier.len() as int) == qualifier);
    assert(base.drop_last() == version);
    let full = base + qualifier;
    assert(tokens_of(full) == tokens_of(version).push(Token::Str(qualifier)));
    lemma_qualified(tokens_of(version), qualifier);
}

pub proof fn lemma_scan_run(base: Seq<char>, run: Seq<char>, n: int)
    requires
        base.len() > 0,
        is_separator(base.last()),
        0 <= n <= run.len(),
        forall|i: int|
            0 <= i < run.len() ==> !text::is_digit(#[trigger] run[i]) && !is_separator(run[i]),
    ensures
        scan_of(base + run.take(n)) == (Scan {
            done: tokens_of(base.drop_last()),
            run: run.take(n),
        }),
    decreases n,
{
    if n == 0 {
        assert(base + run.take(0) == base);
        assert(run.take(0) == Seq::<char>::empty());
    } else {
        lemma_scan_run(base, run, n - 1);
        let whole = base + run.take(n);
        assert(whole.drop_last() == base + run.take(n - 1));
        assert(whole.last() == run[n - 1]);
        assert(run.take(n) == run.take(n - 1).push(run[n - 1]));
        if n > 1 {
            assert(run.take(n - 1)[0] == run[0]);
        }
    }
}

proof fn lemma_qualified(a: Seq<Token>, qualifier: Seq<char>)
    requires
        rank_of(qualifier) is Some,
    ensures
        compare_lists(a.push(Token::Str(qualifier)), a) == text::compare_int(
            rank_of(qualifier)->0 as int,
            RELEASE_RANK as int,
        ),
    decreases a.len(),
{
    let b = a.push(Token::Str(qualifier));
    if a.len() > 0 {
        lemma_pair_reflexive(a.first());
        lemma_qualified(a.drop_first(), qualifier);
        assert(b.drop_first() == a.drop_first().push(Token::Str(qualifier)));
    } else {
        assert(b.drop_first() == Seq::<Token>::empty());
        assert(compare_lists(b.drop_first(), a) == Relation::Equal);
    }
}

} // verus!
