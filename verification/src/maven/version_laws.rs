//! The order of Maven versions, told by how versions are written.

use vstd::prelude::*;
use crate::maven::version;
use crate::maven::version::{Scan, Token};
use crate::text;
use crate::text::Relation;

verus! {

/// The names of the known qualifiers, from the oldest to the newest. Those of
/// one line are names of the same.
pub open spec fn qualifier_names() -> Seq<Seq<Seq<char>>> {
    seq![
        seq!["alpha"@, "a"@],
        seq!["beta"@, "b"@],
        seq!["milestone"@, "m"@],
        seq!["rc"@, "cr"@],
        seq!["snapshot"@],
        seq!["final"@, "release"@, "ga"@],
        seq!["sp"@],
    ]
}

/// Whether a text is a name of the qualifier at a position of
/// [`qualifier_names`], in letters of either case.
pub open spec fn is_named(name: Seq<char>, i: int) -> bool {
    0 <= i < 7 && qualifier_names()[i].contains(text::lower_text(name))
}

/// A version with a qualifier and a number behind it, such as `1.2-rc3`; the
/// number may be missing.
pub open spec fn qualified(version: Seq<char>, name: Seq<char>, number: Seq<char>) -> Seq<char> {
    version + "-"@ + name + number
}

/// Whether a text is a run of characters that are neither digits nor
/// separators.
pub open spec fn is_word(run: Seq<char>) -> bool {
    run.len() > 0 && forall|i: int|
        0 <= i < run.len() ==> !('0' <= #[trigger] run[i] <= '9') && run[i] != '.' && run[i] != '-'
            && run[i] != '_' && run[i] != '+'
}

proof fn lemma_literals()
    ensures
        "alpha"@.len() == 5,
        "a"@.len() == 1 && "a"@[0] == 'a',
        "beta"@.len() == 4,
        "b"@.len() == 1 && "b"@[0] == 'b',
        "milestone"@.len() == 9,
        "m"@.len() == 1 && "m"@[0] == 'm',
        "rc"@.len() == 2 && "rc"@[0] == 'r' && "rc"@[1] == 'c',
        "cr"@.len() == 2 && "cr"@[0] == 'c' && "cr"@[1] == 'r',
        "snapshot"@.len() == 8,
        "final"@.len() == 5 && "final"@[0] == 'f',
        "alpha"@[0] == 'a',
        "release"@.len() == 7,
        "ga"@.len() == 2 && "ga"@[0] == 'g' && "ga"@[1] == 'a',
        "sp"@.len() == 2 && "sp"@[0] == 's' && "sp"@[1] == 'p',
        ""@.len() == 0,
{
    reveal_strlit("alpha");
    reveal_strlit("a");
    reveal_strlit("beta");
    reveal_strlit("b");
    reveal_strlit("milestone");
    reveal_strlit("m");
    reveal_strlit("rc");
    reveal_strlit("cr");
    reveal_strlit("snapshot");
    reveal_strlit("final");
    reveal_strlit("release");
    reveal_strlit("ga");
    reveal_strlit("sp");
    reveal_strlit("");
}

/// The names on each line, one by one.
proof fn lemma_names(i: int, name: Seq<char>)
    requires
        0 <= i < 7,
        qualifier_names()[i].contains(name),
    ensures
        i == 0 ==> name == "alpha"@ || name == "a"@,
        i == 1 ==> name == "beta"@ || name == "b"@,
        i == 2 ==> name == "milestone"@ || name == "m"@,
        i == 3 ==> name == "rc"@ || name == "cr"@,
        i == 4 ==> name == "snapshot"@,
        i == 5 ==> name == "final"@ || name == "release"@ || name == "ga"@,
        i == 6 ==> name == "sp"@,
{
    let line = qualifier_names()[i];
    let k = choose|k: int| 0 <= k < line.len() && line[k] == name;
    assert(line[k] == name);
}

proof fn lemma_letters(name: Seq<char>)
    requires
        name == "alpha"@ || name == "a"@ || name == "beta"@ || name == "b"@ || name
            == "milestone"@ || name == "m"@ || name == "rc"@ || name == "cr"@ || name
            == "snapshot"@ || name == "final"@ || name == "release"@ || name == "ga"@ || name
            == "sp"@,
    ensures
        name.len() > 0,
        forall|i: int| 0 <= i < name.len() ==> 'a' <= #[trigger] name[i] <= 'z',
{
    reveal_strlit("alpha");
    reveal_strlit("a");
    reveal_strlit("beta");
    reveal_strlit("b");
    reveal_strlit("milestone");
    reveal_strlit("m");
    reveal_strlit("rc");
    reveal_strlit("cr");
    reveal_strlit("snapshot");
    reveal_strlit("final");
    reveal_strlit("release");
    reveal_strlit("ga");
    reveal_strlit("sp");
}

proof fn lemma_rank(name: Seq<char>, i: int)
    requires
        is_named(name, i),
    ensures
        version::rank_of(name) == Some(i as i32),
        is_word(name),
{
    let low = text::lower_text(name);
    lemma_names(i, low);
    lemma_literals();
    lemma_letters(low);
    assert(name.len() == low.len());
    assert forall|k: int| 0 <= k < name.len() implies !('0' <= #[trigger] name[k] <= '9') && name[k]
        != '.' && name[k] != '-' && name[k] != '_' && name[k] != '+' by {
        assert('a' <= low[k] <= 'z');
        assert(low[k] == text::lower_char(name[k]));
    }
}

/// The tokens of a version with a word and digits behind it.
proof fn lemma_qualified_tokens(version: Seq<char>, name: Seq<char>, number: Seq<char>)
    requires
        is_word(name),
        text::all_digits(number),
    ensures
        version::tokens_of(qualified(version, name, number)) == version::tokens_of(version)
            + if number.len() == 0 {
            seq![Token::Str(name)]
        } else {
            seq![Token::Str(name), Token::Num(text::digits_value(number) as int)]
        },
{
    reveal_strlit("-");
    let base = version.push('-');
    assert(version + "-"@ =~= base);
    assert(base.drop_last() == version);
    assert forall|i: int| 0 <= i < name.len() implies !text::is_digit(#[trigger] name[i])
        && !version::is_separator(name[i]) by {}
    version::lemma_scan_run(base, name, name.len() as int);
    assert(name.take(name.len() as int) == name);
    lemma_digits_scanned(base + name, number, number.len() as int);
    assert(number.take(number.len() as int) == number);
    let before = version::tokens_of(version);
    if number.len() == 0 {
        assert(qualified(version, name, number) =~= base + name);
        assert(before.push(Token::Str(name)) =~= before + seq![Token::Str(name)]);
    } else {
        assert(text::is_digit(number[0]));
        let value = Token::Num(text::digits_value(number) as int);
        assert(before.push(Token::Str(name)).push(value) =~= before + seq![
            Token::Str(name),
            value,
        ]);
    }
}

proof fn lemma_digits_scanned(base: Seq<char>, digits: Seq<char>, n: int)
    requires
        text::all_digits(digits),
        0 <= n <= digits.len(),
        base.len() > 0,
        version::scan_of(base).run.len() == 0 || !text::is_digit(version::scan_of(base).run[0]),
    ensures
        n == 0 ==> base + digits.take(n) == base,
        n > 0 ==> version::scan_of(base + digits.take(n)) == (Scan {
            done: version::closed(version::scan_of(base)),
            run: digits.take(n),
        }),
    decreases n,
{
    if n == 0 {
        assert(base + digits.take(0) =~= base);
    } else {
        lemma_digits_scanned(base, digits, n - 1);
        let whole = base + digits.take(n);
        assert(whole.drop_last() =~= base + digits.take(n - 1));
        assert(whole.last() == digits[n - 1]);
        assert(text::is_digit(digits[n - 1]));
        assert(digits.take(n) =~= digits.take(n - 1).push(digits[n - 1]));
        if n == 1 {
            assert(digits.take(1) =~= seq![digits[0]]);
            assert(digits.take(0) =~= Seq::<char>::empty());
        } else {
            assert(digits.take(n - 1)[0] == digits[0]);
            assert(text::is_digit(digits[0]));
        }
    }
}

/// The tokens of a version with a separator and digits behind it.
proof fn lemma_numbered_tokens(version: Seq<char>, separator: char, number: Seq<char>)
    requires
        separator == '.' || separator == '-' || separator == '_' || separator == '+',
        number.len() > 0,
        text::all_digits(number),
    ensures
        version::tokens_of(version.push(separator) + number) == version::tokens_of(version) + seq![
            Token::Num(text::digits_value(number) as int),
        ],
{
    let base = version.push(separator);
    assert(base.drop_last() == version);
    lemma_digits_scanned(base, number, number.len() as int);
    assert(number.take(number.len() as int) == number);
    assert(text::is_digit(number[0]));
    let before = version::tokens_of(version);
    let value = Token::Num(text::digits_value(number) as int);
    assert(before.push(value) =~= before + seq![value]);
}

proof fn lemma_common_front(a: Seq<Token>, s: Seq<Token>, t: Seq<Token>)
    ensures
        version::compare_lists(a + s, a + t) == version::compare_lists(s, t),
    decreases a.len(),
{
    if a.len() == 0 {
        assert(a + s =~= s);
        assert(a + t =~= t);
    } else {
        version::lemma_pair_reflexive(a.first());
        assert((a + s).drop_first() =~= a.drop_first() + s);
        assert((a + t).drop_first() =~= a.drop_first() + t);
        assert((a + s).first() == a.first());
        assert((a + t).first() == a.first());
        lemma_common_front(a.drop_first(), s, t);
    }
}

proof fn lemma_front_decides(s: Seq<Token>, t: Seq<Token>)
    requires
        s.len() > 0,
        t.len() > 0,
    ensures
        version::compare_lists(s, t) == if version::compare_pair(s[0], t[0]) != Relation::Equal {
            version::compare_pair(s[0], t[0])
        } else {
            version::compare_lists(s.drop_first(), t.drop_first())
        },
{
}

/// The known qualifiers are ordered by what they stand for: `alpha` before
/// `beta`, before `milestone`, before `rc`, before `snapshot`, before the
/// release, before `sp`, under each of their names, in letters of either case,
/// with any number behind them or none.
pub proof fn law_qualifiers_are_ordered(
    version: Seq<char>,
    i: int,
    older: Seq<char>,
    x: Seq<char>,
    j: int,
    newer: Seq<char>,
    y: Seq<char>,
)
    requires
        is_named(older, i),
        is_named(newer, j),
        i < j,
        text::all_digits(x),
        text::all_digits(y),
    ensures
        version::version_relation(qualified(version, older, x), qualified(version, newer, y))
            == Relation::Less,
        version::version_relation(qualified(version, newer, y), qualified(version, older, x))
            == Relation::Greater,
{
    lemma_rank(older, i);
    lemma_rank(newer, j);
    lemma_qualified_tokens(version, older, x);
    lemma_qualified_tokens(version, newer, y);
    let a = version::tokens_of(version);
    let s = if x.len() == 0 {
        seq![Token::Str(older)]
    } else {
        seq![Token::Str(older), Token::Num(text::digits_value(x) as int)]
    };
    let t = if y.len() == 0 {
        seq![Token::Str(newer)]
    } else {
        seq![Token::Str(newer), Token::Num(text::digits_value(y) as int)]
    };
    lemma_common_front(a, s, t);
    lemma_common_front(a, t, s);
    lemma_front_decides(s, t);
    lemma_front_decides(t, s);
}

/// A version is newer than its pre-releases, whatever number they have, the
/// same as under the names of a release, and older than its service packs.
pub proof fn law_release_among_its_qualifiers(
    version: Seq<char>,
    i: int,
    name: Seq<char>,
    x: Seq<char>,
)
    requires
        is_named(name, i),
        text::all_digits(x),
    ensures
        i < 5 ==> version::version_relation(qualified(version, name, x), version)
            == Relation::Less,
        i == 5 && x.len() == 0 ==> version::version_relation(
            qualified(version, name, x),
            version,
        ) == Relation::Equal,
        i == 6 ==> version::version_relation(qualified(version, name, x), version)
            == Relation::Greater,
{
    lemma_rank(name, i);
    lemma_qualified_tokens(version, name, x);
    let a = version::tokens_of(version);
    let s = if x.len() == 0 {
        seq![Token::Str(name)]
    } else {
        seq![Token::Str(name), Token::Num(text::digits_value(x) as int)]
    };
    let none = Seq::<Token>::empty();
    lemma_common_front(a, s, none);
    assert(a + none =~= a);
    if x.len() == 0 {
        assert(s.drop_first() =~= none);
        assert(version::compare_lists(none, none) == Relation::Equal);
    }
}

/// Behind the same qualifier the numbers decide, by their value: `rc9` comes
/// before `rc10`, and `rc1` is `rc01`. No number is older than any but zero.
pub proof fn law_numbered_qualifiers(
    version: Seq<char>,
    name: Seq<char>,
    x: Seq<char>,
    y: Seq<char>,
)
    requires
        is_word(name),
        text::all_digits(x),
        text::all_digits(y),
    ensures
        version::version_relation(qualified(version, name, x), qualified(version, name, y))
            == text::compare_int(
            text::digits_value(x) as int,
            text::digits_value(y) as int,
        ),
{
    lemma_qualified_tokens(version, name, x);
    lemma_qualified_tokens(version, name, y);
    let a = version::tokens_of(version).push(Token::Str(name));
    let none = Seq::<Token>::empty();
    let s = if x.len() == 0 {
        none
    } else {
        seq![Token::Num(text::digits_value(x) as int)]
    };
    let t = if y.len() == 0 {
        none
    } else {
        seq![Token::Num(text::digits_value(y) as int)]
    };
    assert(version::tokens_of(qualified(version, name, x)) =~= a + s);
    assert(version::tokens_of(qualified(version, name, y)) =~= a + t);
    lemma_common_front(a, s, t);
    lemma_numbers(s, t);
}

/// Two lists of at most one number each.
proof fn lemma_numbers(s: Seq<Token>, t: Seq<Token>)
    requires
        s.len() <= 1,
        t.len() <= 1,
        s.len() == 1 ==> s[0] is Num && s[0]->Num_0 >= 0,
        t.len() == 1 ==> t[0] is Num && t[0]->Num_0 >= 0,
    ensures
        version::compare_lists(s, t) == text::compare_int(
            if s.len() == 1 {
                s[0]->Num_0
            } else {
                0
            },
            if t.len() == 1 {
                t[0]->Num_0
            } else {
                0
            },
        ),
{
    let none = Seq::<Token>::empty();
    assert(version::compare_lists(none, none) == Relation::Equal);
    if s.len() == 1 {
        assert(s.drop_first() =~= none);
    } else {
        assert(s =~= none);
    }
    if t.len() == 1 {
        assert(t.drop_first() =~= none);
    } else {
        assert(t =~= none);
    }
}

/// Numeric segments compare by value, whichever separator stands before them:
/// `2.10` is newer than `2.9`, and `1.2` is `1-2`.
pub proof fn law_numbers_compare_by_value(
    version: Seq<char>,
    c: char,
    x: Seq<char>,
    d: char,
    y: Seq<char>,
)
    requires
        c == '.' || c == '-' || c == '_' || c == '+',
        d == '.' || d == '-' || d == '_' || d == '+',
        x.len() > 0 && text::all_digits(x),
        y.len() > 0 && text::all_digits(y),
    ensures
        version::version_relation(version.push(c) + x, version.push(d) + y) == text::compare_int(
            text::digits_value(x) as int,
            text::digits_value(y) as int,
        ),
{
    lemma_numbered_tokens(version, c, x);
    lemma_numbered_tokens(version, d, y);
    let s = seq![Token::Num(text::digits_value(x) as int)];
    let t = seq![Token::Num(text::digits_value(y) as int)];
    lemma_common_front(version::tokens_of(version), s, t);
    lemma_numbers(s, t);
}

/// A numeric segment outranks any qualifier: `1.1` is newer than `1-rc`, and
/// also than `1-sp` and `1-custom`.
pub proof fn law_numbers_outrank_qualifiers(
    version: Seq<char>,
    x: Seq<char>,
    name: Seq<char>,
    y: Seq<char>,
)
    requires
        x.len() > 0 && text::all_digits(x),
        is_word(name),
        text::all_digits(y),
    ensures
        version::version_relation(version.push('.') + x, qualified(version, name, y))
            == Relation::Greater,
        version::version_relation(qualified(version, name, y), version.push('.') + x)
            == Relation::Less,
{
    lemma_numbered_tokens(version, '.', x);
    lemma_qualified_tokens(version, name, y);
    let a = version::tokens_of(version);
    let s = seq![Token::Num(text::digits_value(x) as int)];
    let t = if y.len() == 0 {
        seq![Token::Str(name)]
    } else {
        seq![Token::Str(name), Token::Num(text::digits_value(y) as int)]
    };
    lemma_common_front(a, s, t);
    lemma_common_front(a, t, s);
    lemma_front_decides(s, t);
    lemma_front_decides(t, s);
}

/// Whether a word is no name of a known qualifier.
pub open spec fn is_unknown(name: Seq<char>) -> bool {
    is_word(name) && forall|i: int| 0 <= i < 7 ==> !(#[trigger] is_named(name, i))
}

proof fn lemma_unknown(name: Seq<char>)
    requires
        is_unknown(name),
    ensures
        version::rank_of(name) is None,
{
    let low = text::lower_text(name);
    lemma_literals();
    assert(low.len() > 0);
    let all = qualifier_names();
    assert(all[0][0] == "alpha"@ && all[0][1] == "a"@ && all[1][0] == "beta"@ && all[1][1] == "b"@);
    assert(all[2][0] == "milestone"@ && all[2][1] == "m"@ && all[3][0] == "rc"@ && all[3][1]
        == "cr"@);
    assert(all[4][0] == "snapshot"@ && all[5][0] == "final"@ && all[5][1] == "release"@
        && all[5][2] == "ga"@ && all[6][0] == "sp"@);
    assert(!is_named(name, 0) && !is_named(name, 1) && !is_named(name, 2) && !is_named(name, 3)
        && !is_named(name, 4) && !is_named(name, 5) && !is_named(name, 6));
}

/// Unknown qualifiers come behind all known ones and behind the release, and
/// among each other as texts.
pub proof fn law_unknown_qualifiers_come_last(
    version: Seq<char>,
    i: int,
    known: Seq<char>,
    x: Seq<char>,
    name: Seq<char>,
    y: Seq<char>,
    other: Seq<char>,
    z: Seq<char>,
)
    requires
        is_named(known, i),
        is_unknown(name),
        is_unknown(other),
        text::all_digits(x),
        text::all_digits(y),
        text::all_digits(z),
    ensures
        version::version_relation(qualified(version, known, x), qualified(version, name, y))
            == Relation::Less,
        version::version_relation(qualified(version, name, y), version) == Relation::Greater,
        name != other ==> version::version_relation(
            qualified(version, name, y),
            qualified(version, other, z),
        ) == text::compare_text(name, other),
{
    lemma_rank(known, i);
    lemma_unknown(name);
    lemma_unknown(other);
    lemma_qualified_tokens(version, known, x);
    lemma_qualified_tokens(version, name, y);
    lemma_qualified_tokens(version, other, z);
    let a = version::tokens_of(version);
    let r = if x.len() == 0 {
        seq![Token::Str(known)]
    } else {
        seq![Token::Str(known), Token::Num(text::digits_value(x) as int)]
    };
    let s = if y.len() == 0 {
        seq![Token::Str(name)]
    } else {
        seq![Token::Str(name), Token::Num(text::digits_value(y) as int)]
    };
    let t = if z.len() == 0 {
        seq![Token::Str(other)]
    } else {
        seq![Token::Str(other), Token::Num(text::digits_value(z) as int)]
    };
    let none = Seq::<Token>::empty();
    lemma_common_front(a, r, s);
    lemma_common_front(a, s, t);
    lemma_common_front(a, s, none);
    assert(a + none =~= a);
    lemma_front_decides(r, s);
    lemma_front_decides(s, t);
    if name != other && text::compare_text(name, other) == Relation::Equal {
        text::lemma_compare_equal(name, other);
    }
}

/// Earlier segments decide before later ones: where versions of as many
/// segments differ, nothing behind them changes which is newer.
pub proof fn law_earlier_segments_decide(
    a: Seq<char>,
    b: Seq<char>,
    x: Seq<char>,
    y: Seq<char>,
)
    requires
        version::tokens_of(a).len() == version::tokens_of(b).len(),
        version::version_relation(a, b) != Relation::Equal,
        x.len() > 0 && text::all_digits(x),
        y.len() > 0 && text::all_digits(y),
    ensures
        version::version_relation(a.push('.') + x, b.push('.') + y) == version::version_relation(
            a,
            b,
        ),
{
    lemma_numbered_tokens(a, '.', x);
    lemma_numbered_tokens(b, '.', y);
    lemma_early(
        version::tokens_of(a),
        version::tokens_of(b),
        seq![Token::Num(text::digits_value(x) as int)],
        seq![Token::Num(text::digits_value(y) as int)],
    );
}

proof fn lemma_early(a: Seq<Token>, b: Seq<Token>, s: Seq<Token>, t: Seq<Token>)
    requires
        a.len() == b.len(),
        version::compare_lists(a, b) != Relation::Equal,
    ensures
        version::compare_lists(a + s, b + t) == version::compare_lists(a, b),
    decreases a.len(),
{
    if a.len() > 0 {
        assert((a + s).first() == a.first() && (b + t).first() == b.first());
        assert((a + s).drop_first() =~= a.drop_first() + s);
        assert((b + t).drop_first() =~= b.drop_first() + t);
        if version::compare_pair(a.first(), b.first()) == Relation::Equal {
            lemma_early(a.drop_first(), b.drop_first(), s, t);
        }
    }
}

/// Whether a text is empty or starts with a separator.
pub open spec fn goes_on(s: Seq<char>) -> bool {
    s.len() == 0 || s[0] == '.' || s[0] == '-' || s[0] == '_' || s[0] == '+'
}

proof fn lemma_scan_goes_on(version: Seq<char>, rest: Seq<char>)
    requires
        rest.len() > 0,
        goes_on(rest),
    ensures
        version::scan_of(version + rest) == (Scan {
            done: version::tokens_of(version) + version::scan_of(rest).done,
            run: version::scan_of(rest).run,
        }),
    decreases rest.len(),
{
    let whole = version + rest;
    let before = rest.drop_last();
    let none = Seq::<Token>::empty();
    assert(whole.drop_last() =~= version + before);
    assert(whole.last() == rest.last());
    if before.len() == 0 {
        assert(version + before =~= version);
        assert(before =~= Seq::<char>::empty());
        assert(rest.last() == rest[0]);
        assert(version::closed(version::scan_of(before)) == none);
        assert(version::tokens_of(version) + none =~= version::tokens_of(version));
    } else {
        assert(before[0] == rest[0]);
        lemma_scan_goes_on(version, before);
        let inner = version::scan_of(before);
        if inner.run.len() > 0 {
            let token = version::token_of(inner.run);
            assert((version::tokens_of(version) + inner.done).push(token) =~= version::tokens_of(
                version,
            ) + inner.done.push(token));
        }
    }
}

proof fn lemma_tokens_go_on(version: Seq<char>, rest: Seq<char>)
    requires
        goes_on(rest),
    ensures
        version::tokens_of(version + rest) == version::tokens_of(version) + version::tokens_of(
            rest,
        ),
{
    if rest.len() == 0 {
        assert(version + rest =~= version);
        assert(version::tokens_of(rest) =~= Seq::<Token>::empty());
        assert(version::tokens_of(version) + version::tokens_of(rest) =~= version::tokens_of(
            version,
        ));
    } else {
        lemma_scan_goes_on(version, rest);
        let inner = version::scan_of(rest);
        if inner.run.len() > 0 {
            let token = version::token_of(inner.run);
            assert((version::tokens_of(version) + inner.done).push(token) =~= version::tokens_of(
                version,
            ) + inner.done.push(token));
        }
    }
}

/// The first number that differs decides, whatever stands behind it: `1.10` is
/// newer than `1.9.5`, and `2.1-rc1` than `2.0.7`.
pub proof fn law_first_difference_decides(
    version: Seq<char>,
    x: Seq<char>,
    behind: Seq<char>,
    y: Seq<char>,
    other: Seq<char>,
)
    requires
        x.len() > 0 && text::all_digits(x),
        y.len() > 0 && text::all_digits(y),
        text::digits_value(x) != text::digits_value(y),
        goes_on(behind),
        goes_on(other),
    ensures
        version::version_relation(
            version.push('.') + x + behind,
            version.push('.') + y + other,
        ) == text::compare_int(text::digits_value(x) as int, text::digits_value(y) as int),
{
    let a = version::tokens_of(version);
    let s = seq![Token::Num(text::digits_value(x) as int)];
    let t = seq![Token::Num(text::digits_value(y) as int)];
    let more = version::tokens_of(behind);
    let rest = version::tokens_of(other);
    lemma_numbered_tokens(version, '.', x);
    lemma_numbered_tokens(version, '.', y);
    lemma_tokens_go_on(version.push('.') + x, behind);
    lemma_tokens_go_on(version.push('.') + y, other);
    assert(a + s + more =~= a + (s + more));
    assert(a + t + rest =~= a + (t + rest));
    lemma_common_front(a, s + more, t + rest);
    lemma_front_decides(s + more, t + rest);
}

/// A version is as new as with zeros behind it, and older than with any other
/// number.
pub proof fn law_missing_numbers_are_zero(version: Seq<char>, c: char, x: Seq<char>)
    requires
        c == '.' || c == '-' || c == '_' || c == '+',
        x.len() > 0 && text::all_digits(x),
    ensures
        version::version_relation(version.push(c) + x, version) == text::compare_int(
            text::digits_value(x) as int,
            0,
        ),
{
    lemma_numbered_tokens(version, c, x);
    let a = version::tokens_of(version);
    let none = Seq::<Token>::empty();
    let s = seq![Token::Num(text::digits_value(x) as int)];
    assert(a + none =~= a);
    lemma_common_front(a, s, none);
    assert(s.drop_first() =~= none);
    assert(version::compare_lists(none, none) == Relation::Equal);
}

/// Two names of one qualifier compare as texts where they differ.
pub proof fn law_names_of_one_qualifier(
    version: Seq<char>,
    i: int,
    name: Seq<char>,
    x: Seq<char>,
    other: Seq<char>,
    y: Seq<char>,
)
    requires
        is_named(name, i),
        is_named(other, i),
        name != other,
        text::all_digits(x),
        text::all_digits(y),
    ensures
        version::version_relation(qualified(version, name, x), qualified(version, other, y))
            == text::compare_text(name, other),
{
    lemma_rank(name, i);
    lemma_rank(other, i);
    lemma_qualified_tokens(version, name, x);
    lemma_qualified_tokens(version, other, y);
    let a = version::tokens_of(version);
    let s = if x.len() == 0 {
        seq![Token::Str(name)]
    } else {
        seq![Token::Str(name), Token::Num(text::digits_value(x) as int)]
    };
    let t = if y.len() == 0 {
        seq![Token::Str(other)]
    } else {
        seq![Token::Str(other), Token::Num(text::digits_value(y) as int)]
    };
    lemma_common_front(a, s, t);
    lemma_front_decides(s, t);
    if text::compare_text(name, other) == Relation::Equal {
        text::lemma_compare_equal(name, other);
    }
}

/// A word right behind a number is a qualifier, with or without a separator
/// before it: `1rc` is `1-rc`.
pub proof fn law_words_part_from_numbers(version: Seq<char>, x: Seq<char>, name: Seq<char>)
    requires
        x.len() > 0 && text::all_digits(x),
        is_word(name),
    ensures
        version::version_relation(
            version.push('.') + x + name,
            qualified(version.push('.') + x, name, Seq::empty()),
        ) == Relation::Equal,
{
    let base = version.push('.') + x;
    let none = Seq::<char>::empty();
    lemma_numbered_tokens(version, '.', x);
    lemma_qualified_tokens(base, name, none);
    lemma_word_scanned(version, x, name, name.len() as int);
    assert(name.take(name.len() as int) =~= name);
    assert(!text::is_digit(name[0]));
    let before = version::tokens_of(base);
    assert(before.push(Token::Str(name)) =~= before + seq![Token::Str(name)]);
    lemma_common_front(before.push(Token::Str(name)), Seq::empty(), Seq::empty());
    assert(before.push(Token::Str(name)) + Seq::<Token>::empty() =~= before.push(Token::Str(name)));
    assert(version::compare_lists(Seq::empty(), Seq::empty()) == Relation::Equal);
}

proof fn lemma_word_scanned(version: Seq<char>, x: Seq<char>, name: Seq<char>, n: int)
    requires
        x.len() > 0 && text::all_digits(x),
        is_word(name),
        0 < n <= name.len(),
    ensures
        version::scan_of(version.push('.') + x + name.take(n)) == (Scan {
            done: version::tokens_of(version.push('.') + x),
            run: name.take(n),
        }),
    decreases n,
{
    let dotted = version.push('.');
    let base = dotted + x;
    let whole = base + name.take(n);
    assert(whole.drop_last() =~= base + name.take(n - 1));
    assert(whole.last() == name[n - 1]);
    assert(!text::is_digit(name[n - 1]) && !version::is_separator(name[n - 1]));
    assert(name.take(n) =~= name.take(n - 1).push(name[n - 1]));
    if n == 1 {
        assert(base + name.take(0) =~= base);
        assert(dotted.drop_last() =~= version);
        lemma_digits_scanned(dotted, x, x.len() as int);
        assert(x.take(x.len() as int) =~= x);
        assert(text::is_digit(x[0]));
        assert(name.take(1) =~= seq![name[0]]);
    } else {
        lemma_word_scanned(version, x, name, n - 1);
        assert(name.take(n - 1)[0] == name[0]);
        assert(!text::is_digit(name[0]));
    }
}

} // verus!
