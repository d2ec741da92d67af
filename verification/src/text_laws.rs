//! What splitting, trimming, comparing and writing texts does to them.

use vstd::prelude::*;
use crate::text;
use crate::text::Relation;

verus! {

/// Whether a character does not occur in a text.
pub open spec fn lacks(s: Seq<char>, c: char) -> bool {
    forall|i: int| 0 <= i < s.len() ==> #[trigger] s[i] != c
}

/// A text without the separator is one piece, and a separator parts the pieces
/// before it from those behind it.
pub proof fn law_separators_part_pieces(a: Seq<char>, b: Seq<char>, separator: char)
    ensures
        lacks(a, separator) ==> text::split_text(a, separator) == seq![a],
        text::split_text(a + seq![separator] + b, separator) == text::split_text(a, separator)
            + text::split_text(b, separator),
    decreases a.len() + b.len(),
{
    if lacks(a, separator) && a.len() > 0 {
        let rest = a.drop_last();
        assert forall|i: int| 0 <= i < rest.len() implies #[trigger] rest[i] != separator by {
            assert(rest[i] == a[i]);
        }
        law_separators_part_pieces(rest, Seq::empty(), separator);
        assert(a.last() == a[a.len() - 1]);
        assert(rest.push(a.last()) =~= a);
        assert(text::split_text(a, separator) =~= seq![a]);
    } else if a.len() == 0 {
        assert(a =~= Seq::<char>::empty());
    }
    let whole = a + seq![separator] + b;
    let first = text::split_text(a, separator);
    if b.len() == 0 {
        assert(whole.drop_last() =~= a);
        assert(whole.last() == separator);
        assert(text::split_text(whole, separator) =~= first + text::split_text(b, separator));
    } else {
        let rest = b.drop_last();
        law_separators_part_pieces(a, rest, separator);
        assert(whole.drop_last() =~= a + seq![separator] + rest);
        assert(whole.last() == b.last());
        text::lemma_split_some(rest, separator);
        let before = text::split_text(rest, separator);
        assert((first + before).last() == before.last());
        assert((first + before).drop_last() =~= first + before.drop_last());
        assert(text::split_text(whole, separator) =~= first + text::split_text(b, separator));
    }
}

/// The separator occurs in no piece.
pub proof fn law_pieces_lack_the_separator(s: Seq<char>, separator: char, i: int)
    requires
        0 <= i < text::split_text(s, separator).len(),
    ensures
        lacks(text::split_text(s, separator)[i], separator),
    decreases s.len(),
{
    let pieces = text::split_text(s, separator);
    if s.len() > 0 {
        text::lemma_split_some(s.drop_last(), separator);
        let before = text::split_text(s.drop_last(), separator);
        if i < before.len() {
            law_pieces_lack_the_separator(s.drop_last(), separator, i);
        }
        if i < before.len() - 1 {
            assert(pieces[i] == before[i]);
        }
    }
}

/// White space around a text does not count: what is left starts and ends with
/// what stands between it.
pub proof fn law_space_around_does_not_count(before: Seq<char>, core: Seq<char>, behind: Seq<char>)
    requires
        text::all_space(before),
        text::all_space(behind),
        core.len() > 0 ==> !text::is_space(core.first()) && !text::is_space(core.last()),
    ensures
        text::trim_text(before + core + behind) == core,
    decreases before.len() + behind.len(),
{
    let s = before + core + behind;
    if before.len() > 0 {
        let rest = before.drop_first();
        assert forall|i: int| 0 <= i < rest.len() implies text::is_space(#[trigger] rest[i]) by {
            assert(rest[i] == before[i + 1]);
        }
        law_space_around_does_not_count(rest, core, behind);
        assert(s.first() == before[0]);
        assert(s.drop_first() =~= rest + core + behind);
    } else if core.len() == 0 {
        if behind.len() > 0 {
            let rest = behind.drop_first();
            assert forall|i: int| 0 <= i < rest.len() implies text::is_space(
                #[trigger] rest[i],
            ) by {
                assert(rest[i] == behind[i + 1]);
            }
            law_space_around_does_not_count(before, core, rest);
            assert(s.first() == behind[0]);
            assert(s.drop_first() =~= before + core + rest);
        } else {
            assert(s =~= core);
        }
    } else if behind.len() > 0 {
        let rest = behind.drop_last();
        assert forall|i: int| 0 <= i < rest.len() implies text::is_space(#[trigger] rest[i]) by {
            assert(rest[i] == behind[i]);
        }
        law_space_around_does_not_count(before, core, rest);
        assert(s.first() == core.first());
        assert(s.last() == behind[behind.len() - 1]);
        assert(s.drop_last() =~= before + core + rest);
    } else {
        assert(s =~= core);
    }
}

/// Texts compare by the first place at which they differ; a text comes before
/// what it starts.
pub proof fn law_first_difference_decides(
    common: Seq<char>,
    x: char,
    a: Seq<char>,
    y: char,
    b: Seq<char>,
)
    ensures
        x < y ==> text::compare_text(common + seq![x] + a, common + seq![y] + b) == Relation::Less,
        x > y ==> text::compare_text(common + seq![x] + a, common + seq![y] + b)
            == Relation::Greater,
        text::compare_text(common, common + seq![y] + b) == Relation::Less,
        text::compare_text(common + seq![x] + a, common) == Relation::Greater,
        text::compare_text(common, common) == Relation::Equal,
    decreases common.len(),
{
    let left = common + seq![x] + a;
    let right = common + seq![y] + b;
    if common.len() > 0 {
        let rest = common.drop_first();
        law_first_difference_decides(rest, x, a, y, b);
        assert(left.first() == common[0] && right.first() == common[0]);
        assert(left.drop_first() =~= rest + seq![x] + a);
        assert(right.drop_first() =~= rest + seq![y] + b);
    } else {
        assert(left.first() == x && right.first() == y);
    }
}

/// A number written in base ten reads as the number, in digits, with no zero in
/// front of another digit.
pub proof fn law_numbers_read_back(n: nat)
    ensures
        text::all_digits(text::decimal_text(n)),
        text::digits_value(text::decimal_text(n)) == n,
        text::decimal_text(n).len() > 0,
        n > 0 ==> text::decimal_text(n)[0] != '0',
        n < 10 ==> text::decimal_text(n).len() == 1,
    decreases n,
{
    reveal_strlit("0123456789abcdef");
    let s = text::decimal_text(n);
    let digit = text::digit_char(n % 10);
    assert(digit as nat == '0' as nat + n % 10 && text::is_digit(digit));
    if n < 10 {
        assert(s =~= seq![digit]);
        assert(s.drop_last() =~= Seq::<char>::empty());
        assert(text::digits_value(s.drop_last()) == 0);
    } else {
        law_numbers_read_back(n / 10);
        let before = text::decimal_text(n / 10);
        assert(s.drop_last() =~= before);
        assert(s.last() == digit);
        assert(s[0] == before[0]);
    }
}

/// Bytes are written as two digits each, the higher one first.
pub proof fn law_bytes_are_pairs_of_digits(bytes: Seq<u8>, i: int)
    requires
        0 <= i < bytes.len(),
    ensures
        text::hex_text(bytes).len() == 2 * bytes.len(),
        text::hex_text(bytes)[2 * i] == "0123456789abcdef"@[bytes[i] as int / 16],
        text::hex_text(bytes)[2 * i + 1] == "0123456789abcdef"@[bytes[i] as int % 16],
    decreases bytes.len(),
{
    let before = bytes.drop_last();
    lemma_hex_len(before);
    if i < before.len() {
        law_bytes_are_pairs_of_digits(before, i);
    }
}

proof fn lemma_hex_len(bytes: Seq<u8>)
    ensures
        text::hex_text(bytes).len() == 2 * bytes.len(),
    decreases bytes.len(),
{
    if bytes.len() > 0 {
        lemma_hex_len(bytes.drop_last());
    }
}

/// A relative path is looked for in the base, an absolute one by itself; a base
/// may end in a slash or not.
pub proof fn law_relative_paths_are_appended(base: Seq<char>, path: Seq<char>)
    requires
        path.len() > 0,
    ensures
        path[0] == '/' ==> text::path_text(base, path) == path,
        path[0] != '/' && base.len() > 0 && base.last() != '/' ==> text::path_text(base, path)
            == base + seq!['/'] + path,
        path[0] != '/' ==> text::path_text(base + seq!['/'], path) == base + seq!['/'] + path,
        text::path_text(Seq::empty(), path) == path,
{
    assert((base + seq!['/']).last() == '/');
    assert(base.push('/') =~= base + seq!['/']);
}

/// The directory of a path is what stands before the name of the file.
pub proof fn law_directories_hold_their_files(dir: Seq<char>, name: Seq<char>)
    requires
        lacks(name, '/'),
    ensures
        dir.len() > 0 ==> text::dir_text(dir + seq!['/'] + name) == dir,
        text::dir_text(seq!['/'] + name) == seq!['/'],
        text::dir_text(name) == Seq::<char>::empty(),
    decreases name.len(),
{
    let path = dir + seq!['/'] + name;
    let top = seq!['/'] + name;
    if name.len() == 0 {
        assert(path.last() == '/');
        assert(path.drop_last() =~= dir);
        assert(top =~= seq!['/']);
        assert(name =~= Seq::<char>::empty());
    } else {
        let rest = name.drop_last();
        assert forall|i: int| 0 <= i < rest.len() implies #[trigger] rest[i] != '/' by {
            assert(rest[i] == name[i]);
        }
        law_directories_hold_their_files(dir, rest);
        assert(name.last() == name[name.len() - 1]);
        assert(path.last() == name.last() && top.last() == name.last());
        assert(path.drop_last() =~= dir + seq!['/'] + rest);
        assert(top.drop_last() =~= seq!['/'] + rest);
    }
}

proof fn lemma_components_add(a: Seq<Seq<char>>, b: Seq<Seq<char>>, n: int)
    requires
        0 <= n <= b.len(),
        a.len() > 0,
    ensures
        text::components(a + b, a.len() + n) == text::components(a, a.len() as int) + later(b, n),
    decreases n,
{
    reveal_strlit(".");
    assert("."@ =~= seq!['.']);
    if n > 0 {
        lemma_components_add(a, b, n - 1);
        assert((a + b)[a.len() + n - 1] == b[n - 1]);
        let first = text::components(a, a.len() as int);
        assert((first + later(b, n - 1)).push(b[n - 1]) =~= first + later(b, n - 1).push(b[n - 1]));
    } else {
        lemma_components_front(a, b, a.len() as int);
        assert(text::components(a, a.len() as int) + later(b, 0) =~= text::components(
            a,
            a.len() as int,
        ));
    }
}

proof fn lemma_components_front(a: Seq<Seq<char>>, b: Seq<Seq<char>>, n: int)
    requires
        0 <= n <= a.len(),
    ensures
        text::components(a + b, n) == text::components(a, n),
    decreases n,
{
    if n > 0 {
        lemma_components_front(a, b, n - 1);
        assert((a + b)[n - 1] == a[n - 1]);
    }
}

/// The components among the first `n` pieces behind the start of a path: those
/// that are neither empty nor a dot.
pub open spec fn later(pieces: Seq<Seq<char>>, n: int) -> Seq<Seq<char>>
    decreases n,
{
    if n <= 0 {
        Seq::empty()
    } else if pieces[n - 1].len() == 0 || pieces[n - 1] == seq!['.'] {
        later(pieces, n - 1)
    } else {
        later(pieces, n - 1).push(pieces[n - 1])
    }
}

proof fn lemma_later_behind(piece: Seq<char>, pieces: Seq<Seq<char>>, n: int)
    requires
        0 <= n <= pieces.len(),
        piece.len() == 0 || piece == seq!['.'],
    ensures
        later(seq![piece] + pieces, n + 1) == later(pieces, n),
    decreases n,
{
    let all = seq![piece] + pieces;
    assert(all[n] == if n == 0 {
        piece
    } else {
        pieces[n - 1]
    });
    if n > 0 {
        lemma_later_behind(piece, pieces, n - 1);
    } else {
        assert(later(all, 0) =~= Seq::<Seq<char>>::empty());
    }
}

/// Paths are the same whatever number of slashes parts two names, and whether or
/// not a dot stands between them.
pub proof fn law_empty_steps_do_not_count(a: Seq<char>, b: Seq<char>)
    requires
        a.len() > 0,
    ensures
        text::same_path(a + seq!['/'] + b, a + seq!['/'] + (seq!['/'] + b)),
        text::same_path(a + seq!['/'] + b, a + seq!['/'] + (seq!['.', '/'] + b)),
{
    reveal_strlit(".");
    assert("."@ =~= seq!['.']);
    let nothing = Seq::<char>::empty();
    let dot = seq!['.'];
    law_separators_part_pieces(a, b, '/');
    law_separators_part_pieces(a, seq!['/'] + b, '/');
    law_separators_part_pieces(a, seq!['.', '/'] + b, '/');
    law_separators_part_pieces(nothing, b, '/');
    law_separators_part_pieces(dot, b, '/');
    assert(nothing + seq!['/'] + b =~= seq!['/'] + b);
    assert(dot + seq!['/'] + b =~= seq!['.', '/'] + b);
    text::lemma_split_some(a, '/');
    let first = text::split_text(a, '/');
    let rest = text::split_text(b, '/');
    let n = rest.len() as int;
    lemma_components_add(first, rest, n);
    lemma_components_add(first, seq![nothing] + rest, n + 1);
    lemma_components_add(first, seq![dot] + rest, n + 1);
    lemma_later_behind(nothing, rest, n);
    lemma_later_behind(dot, rest, n);
}

} // verus!
