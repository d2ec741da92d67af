//! Text helpers: every function is specified on the sequence of characters a
//! string holds.

use vstd::prelude::*;
use vstd::string::*;

verus! {

/// `String::push` appends one character at the end of the string.
pub assume_specification[ String::push ](s: &mut String, c: char)
    ensures
        final(s)@ == old(s)@.push(c),
;

/// The outcome of a three-way comparison.
#[derive(Debug, Clone, Copy, PartialEq, Eq, Structural)]
pub enum Relation {
    /// The left side comes first.
    Less,
    /// Neither side comes first.
    Equal,
    /// The right side comes first.
    Greater,
}

/// The characters of each string of a list.
pub open spec fn texts(list: Seq<String>) -> Seq<Seq<char>> {
    Seq::new(list.len(), |i: int| list[i]@)
}

/// An optional string as optional text.
pub open spec fn opt_text(value: Option<String>) -> Option<Seq<char>> {
    match value {
        Some(text) => Some(text@),
        None => None,
    }
}

/// An optional string slice as optional text.
pub open spec fn opt_str(value: Option<&str>) -> Option<Seq<char>> {
    match value {
        Some(text) => Some(text@),
        None => None,
    }
}

/// The first position at which `pattern` occurs in `s`, if it occurs.
pub open spec fn occurs_at(s: Seq<char>, pattern: Seq<char>, at: int) -> bool {
    &&& 0 <= at
    &&& at + pattern.len() <= s.len()
    &&& s.subrange(at, at + pattern.len()) == pattern
}

/// Whether `pattern` occurs anywhere in `s`.
pub open spec fn has_text(s: Seq<char>, pattern: Seq<char>) -> bool {
    exists|at: int| occurs_at(s, pattern, at)
}

/// The pieces of `s` between the occurrences of `separator`; there is always
/// one piece more than there are separators.
pub open spec fn split_text(s: Seq<char>, separator: char) -> Seq<Seq<char>>
    decreases s.len(),
{
    if s.len() == 0 {
        seq![Seq::<char>::empty()]
    } else {
        let before = split_text(s.drop_last(), separator);
        if s.last() == separator {
            before.push(Seq::<char>::empty())
        } else {
            before.drop_last().push(before.last().push(s.last()))
        }
    }
}

/// The pieces of a list, with `separator` between neighbours.
pub open spec fn join_text(parts: Seq<Seq<char>>, separator: Seq<char>) -> Seq<char>
    decreases parts.len(),
{
    if parts.len() == 0 {
        Seq::<char>::empty()
    } else if parts.len() == 1 {
        parts[0]
    } else {
        join_text(parts.drop_last(), separator) + separator + parts.last()
    }
}

/// `s` with every occurrence of the character `from` replaced by `to`.
pub open spec fn replace_text(s: Seq<char>, from: char, to: char) -> Seq<char> {
    Seq::new(
        s.len(),
        |i: int|
            if s[i] == from {
                to
            } else {
                s[i]
            },
    )
}

/// The characters with Unicode's `White_Space` property.
pub open spec fn is_space(c: char) -> bool {
    ||| '\u{9}' <= c <= '\u{d}'
    ||| c == '\u{20}'
    ||| c == '\u{85}'
    ||| c == '\u{a0}'
    ||| c == '\u{1680}'
    ||| '\u{2000}' <= c <= '\u{200a}'
    ||| c == '\u{2028}'
    ||| c == '\u{2029}'
    ||| c == '\u{202f}'
    ||| c == '\u{205f}'
    ||| c == '\u{3000}'
}

/// Whether every character of `s` is white space.
pub open spec fn all_space(s: Seq<char>) -> bool {
    forall|i: int| 0 <= i < s.len() ==> is_space(#[trigger] s[i])
}

/// `s` without its leading and trailing white space.
pub open spec fn trim_text(s: Seq<char>) -> Seq<char>
    decreases s.len(),
{
    if s.len() == 0 {
        s
    } else if is_space(s.first()) {
        trim_text(s.drop_first())
    } else if is_space(s.last()) {
        trim_text(s.drop_last())
    } else {
        s
    }
}

/// Whether `c` is one of the ten ASCII digits.
pub open spec fn is_digit(c: char) -> bool {
    '0' <= c <= '9'
}

/// Whether every character of `s` is an ASCII digit.
pub open spec fn all_digits(s: Seq<char>) -> bool {
    forall|i: int| 0 <= i < s.len() ==> is_digit(#[trigger] s[i])
}

/// The number a sequence of ASCII digits writes in base ten.
pub open spec fn digits_value(s: Seq<char>) -> nat
    decreases s.len(),
{
    if s.len() == 0 {
        0
    } else {
        digits_value(s.drop_last()) * 10 + (s.last() as nat - '0' as nat) as nat
    }
}

/// The ASCII digit of a number below sixteen, in lower case.
pub open spec fn digit_char(value: nat) -> char {
    "0123456789abcdef"@[value as int]
}

/// A number written in base ten without leading zeros.
pub open spec fn decimal_text(value: nat) -> Seq<char>
    decreases value,
{
    if value < 10 {
        seq![digit_char(value)]
    } else {
        decimal_text(value / 10).push(digit_char(value % 10))
    }
}

/// Bytes written as two lower-case hexadecimal digits each.
pub open spec fn hex_text(bytes: Seq<u8>) -> Seq<char>
    decreases bytes.len(),
{
    if bytes.len() == 0 {
        Seq::<char>::empty()
    } else {
        let last = bytes.last() as nat;
        hex_text(bytes.drop_last()).push(digit_char(last / 16)).push(digit_char(last % 16))
    }
}

/// The ASCII letter `c` in lower case, any other character unchanged.
pub open spec fn lower_char(c: char) -> char {
    if 'A' <= c <= 'Z' {
        ((c as u32 + 32) as u32) as char
    } else {
        c
    }
}

/// `s` with its ASCII letters in lower case.
pub open spec fn lower_text(s: Seq<char>) -> Seq<char> {
    Seq::new(s.len(), |i: int| lower_char(s[i]))
}

/// Texts compare by their first differing character, and a proper prefix
/// comes before what it is a prefix of.
pub open spec fn compare_text(a: Seq<char>, b: Seq<char>) -> Relation
    decreases a.len(),
{
    if a.len() == 0 && b.len() == 0 {
        Relation::Equal
    } else if a.len() == 0 {
        Relation::Less
    } else if b.len() == 0 {
        Relation::Greater
    } else if a.first() < b.first() {
        Relation::Less
    } else if a.first() > b.first() {
        Relation::Greater
    } else {
        compare_text(a.drop_first(), b.drop_first())
    }
}

/// The relation seen from the other side.
pub open spec fn flip(relation: Relation) -> Relation {
    match relation {
        Relation::Less => Relation::Greater,
        Relation::Equal => Relation::Equal,
        Relation::Greater => Relation::Less,
    }
}

/// A path is absolute when it starts at the root. Paths are those of a Unix
/// system: their parts are separated by `/`, and there are no drives.
pub open spec fn is_absolute_text(path: Seq<char>) -> bool {
    path.len() > 0 && path[0] == '/'
}

/// `relative` seen from the directory `base`: an absolute path stands by
/// itself, any other is appended behind a `/`.
pub open spec fn path_text(base: Seq<char>, relative: Seq<char>) -> Seq<char> {
    if is_absolute_text(relative) || base.len() == 0 {
        relative
    } else if base.last() == '/' {
        base + relative
    } else {
        base.push('/') + relative
    }
}

/// The components among the first `n` pieces of a path: those that are not
/// empty, a `.` only where the path starts with it.
pub open spec fn components(pieces: Seq<Seq<char>>, n: int) -> Seq<Seq<char>>
    decreases n,
{
    if n <= 0 {
        Seq::empty()
    } else {
        let before = components(pieces, n - 1);
        let piece = pieces[n - 1];
        if piece.len() == 0 || (n > 1 && piece == "."@) {
            before
        } else {
            before.push(piece)
        }
    }
}

/// The components of a path.
pub open spec fn path_components(path: Seq<char>) -> Seq<Seq<char>> {
    let pieces = split_text(path, '/');
    components(pieces, pieces.len() as int)
}

/// Two paths are the same when both or neither start at the root and they have
/// the same components: `a//b` is `a/b`.
pub open spec fn same_path(a: Seq<char>, b: Seq<char>) -> bool {
    is_absolute_text(a) == is_absolute_text(b) && path_components(a) == path_components(b)
}

/// Whether a path is among those of a list.
pub open spec fn has_path(list: Seq<Seq<char>>, path: Seq<char>) -> bool {
    exists|i: int| 0 <= i < list.len() && same_path(#[trigger] list[i], path)
}

/// The directory part of a path: what stands before its last `/`, the root for
/// a path in the root.
pub open spec fn dir_text(path: Seq<char>) -> Seq<char>
    decreases path.len(),
{
    if path.len() == 0 {
        path
    } else if path.last() == '/' {
        if path.len() == 1 {
            path
        } else {
            path.drop_last()
        }
    } else {
        dir_text(path.drop_last())
    }
}

/// Numbers compare by value.
pub open spec fn compare_int(a: int, b: int) -> Relation {
    if a < b {
        Relation::Less
    } else if a > b {
        Relation::Greater
    } else {
        Relation::Equal
    }
}

/// Different bytes are written differently in hexadecimal.
pub proof fn lemma_hex_apart(a: Seq<u8>, b: Seq<u8>)
    requires
        hex_text(a) == hex_text(b),
    ensures
        a == b,
    decreases a.len(),
{
    let x = hex_text(a);
    let y = hex_text(b);
    if a.len() > 0 && b.len() > 0 {
        let p = a.last() as nat;
        let q = b.last() as nat;
        assert(x.last() == digit_char(p % 16));
        assert(y.last() == digit_char(q % 16));
        assert(x[x.len() - 2] == digit_char(p / 16));
        assert(y[y.len() - 2] == digit_char(q / 16));
        lemma_digit_apart(p % 16, q % 16);
        lemma_digit_apart(p / 16, q / 16);
        assert(hex_text(a.drop_last()) == x.drop_last().drop_last());
        assert(hex_text(b.drop_last()) == y.drop_last().drop_last());
        lemma_hex_apart(a.drop_last(), b.drop_last());
        assert(a == a.drop_last().push(a.last()));
        assert(b == b.drop_last().push(b.last()));
    } else {
        assert(a.len() > 0 ==> x.len() > 0);
        assert(b.len() > 0 ==> y.len() > 0);
        assert(a == b);
    }
}

proof fn lemma_digit_apart(a: nat, b: nat)
    requires
        a < 16,
        b < 16,
        digit_char(a) == digit_char(b),
    ensures
        a == b,
{
    reveal_strlit("0123456789abcdef");
    let digits = "0123456789abcdef"@;
    assert(digits[0] == '0' && digits[1] == '1' && digits[2] == '2' && digits[3] == '3');
    assert(digits[4] == '4' && digits[5] == '5' && digits[6] == '6' && digits[7] == '7');
    assert(digits[8] == '8' && digits[9] == '9' && digits[10] == 'a' && digits[11] == 'b');
    assert(digits[12] == 'c' && digits[13] == 'd' && digits[14] == 'e' && digits[15] == 'f');
}

/// Comparing a text with itself finds no difference.
pub proof fn lemma_compare_reflexive(a: Seq<char>)
    ensures
        compare_text(a, a) == Relation::Equal,
    decreases a.len(),
{
    if a.len() > 0 {
        lemma_compare_reflexive(a.drop_first());
    }
}

/// Only equal texts compare as equal.
pub proof fn lemma_compare_equal(a: Seq<char>, b: Seq<char>)
    requires
        compare_text(a, b) == Relation::Equal,
    ensures
        a == b,
    decreases a.len(),
{
    if a.len() > 0 && b.len() > 0 {
        lemma_compare_equal(a.drop_first(), b.drop_first());
        assert(a == seq![a.first()] + a.drop_first());
        assert(b == seq![b.first()] + b.drop_first());
    } else {
        assert(a == b);
    }
}

/// Swapping the texts flips the relation.
pub proof fn lemma_compare_flip(a: Seq<char>, b: Seq<char>)
    ensures
        compare_text(b, a) == flip(compare_text(a, b)),
    decreases a.len(),
{
    if a.len() > 0 && b.len() > 0 {
        lemma_compare_flip(a.drop_first(), b.drop_first());
    }
}

/// What comes before a text that comes before a third, comes before the third.
pub proof fn lemma_compare_transitive(a: Seq<char>, b: Seq<char>, c: Seq<char>)
    requires
        compare_text(a, b) == Relation::Less,
        compare_text(b, c) == Relation::Less,
    ensures
        compare_text(a, c) == Relation::Less,
    decreases a.len(),
{
    if a.len() > 0 && b.len() > 0 && c.len() > 0 {
        if a.first() == b.first() && b.first() == c.first() {
            lemma_compare_transitive(a.drop_first(), b.drop_first(), c.drop_first());
        }
    }
}

/// Splitting always gives a piece.
pub proof fn lemma_split_some(s: Seq<char>, separator: char)
    ensures
        split_text(s, separator).len() >= 1,
    decreases s.len(),
{
    if s.len() > 0 {
        lemma_split_some(s.drop_last(), separator);
    }
}

/// Joining the pieces of a text with the separator gives the text back.
pub proof fn law_split_joins(s: Seq<char>, separator: char)
    ensures
        join_text(split_text(s, separator), seq![separator]) == s,
    decreases s.len(),
{
    let pieces = split_text(s, separator);
    let between = seq![separator];
    if s.len() == 0 {
        assert(pieces[0] == s);
    } else {
        let rest = s.drop_last();
        let before = split_text(rest, separator);
        law_split_joins(rest, separator);
        lemma_split_some(rest, separator);
        if s.last() == separator {
            assert(pieces.drop_last() == before);
            assert(rest + between + Seq::<char>::empty() == s);
        } else {
            let grown = before.last().push(s.last());
            assert(pieces.drop_last() == before.drop_last());
            assert(pieces.last() == grown);
            if before.len() == 1 {
                assert(before.last() == rest);
                assert(grown == s);
            } else {
                let front = join_text(before.drop_last(), between) + between;
                assert(front + before.last() == rest);
                assert(front + grown == (front + before.last()).push(s.last()));
                assert(rest.push(s.last()) == s);
            }
        }
    }
}

/// The characters of a string, one element each.
pub fn chars_of(s: &str) -> (v: Vec<char>)
    ensures
        v@ == s@,
{
    let mut v: Vec<char> = Vec::new();
    for c in it: s.chars()
        invariant
            v@ == s@.take(it.index() as int),
            it.seq() == s@,
    {
        v.push(c);
        assert(s@.take(it.index() as int + 1) == s@.take(it.index() as int).push(c));
    }
    assert(s@.take(s@.len() as int) == s@);
    v
}

/// Whether two strings hold the same characters.
pub fn str_eq(a: &str, b: &str) -> (same: bool)
    ensures
        same == (a@ == b@),
{
    let x = a.as_bytes();
    let y = b.as_bytes();
    proof {
        vstd::utf8::encode_utf8_decode_utf8(a@);
        vstd::utf8::encode_utf8_decode_utf8(b@);
    }
    if x.len() != y.len() {
        return false;
    }
    let mut i: usize = 0;
    while i < x.len()
        invariant
            x@ == a.spec_bytes(),
            y@ == b.spec_bytes(),
            x@.len() == y@.len(),
            i <= x@.len(),
            x@.take(i as int) == y@.take(i as int),
        decreases x.len() - i,
    {
        if x[i] != y[i] {
            return false;
        }
        assert(x@.take(i + 1) == x@.take(i as int).push(x@[i as int]));
        assert(y@.take(i + 1) == y@.take(i as int).push(y@[i as int]));
        i += 1;
    }
    assert(x@.take(i as int) == x@ && y@.take(i as int) == y@);
    true
}

/// The string of a run of characters.
pub fn from_chars(chars: &Vec<char>, from: usize, to: usize) -> (s: String)
    requires
        from <= to <= chars.len(),
    ensures
        s@ == chars@.subrange(from as int, to as int),
{
    let mut s = String::new();
    let mut i: usize = from;
    while i < to
        invariant
            from <= i <= to <= chars.len(),
            s@ == chars@.subrange(from as int, i as int),
        decreases to - i,
    {
        s.push(chars[i]);
        assert(chars@.subrange(from as int, i + 1) == chars@.subrange(from as int, i as int).push(
            chars@[i as int],
        ));
        i += 1;
    }
    s
}

/// Whether `s` begins with `prefix`.
pub fn starts_with(s: &str, prefix: &str) -> (yes: bool)
    ensures
        yes == prefix@.is_prefix_of(s@),
{
    let n: usize = prefix.unicode_len();
    if s.unicode_len() < n {
        return false;
    }
    let head = s.substring_char(0, n);
    assert(head@ == s@.subrange(0, n as int));
    str_eq(head, prefix)
}

/// Whether `s` ends with `suffix`.
pub fn ends_with(s: &str, suffix: &str) -> (yes: bool)
    ensures
        yes == suffix@.is_suffix_of(s@),
{
    let n: usize = suffix.unicode_len();
    let m: usize = s.unicode_len();
    if m < n {
        return false;
    }
    let tail = s.substring_char(m - n, m);
    str_eq(tail, suffix)
}

/// The first position at which `pattern` occurs in `s`.
pub fn find(s: &str, pattern: &str) -> (at: Option<usize>)
    ensures
        match at {
            Some(i) => occurs_at(s@, pattern@, i as int) && forall|j: int|
                0 <= j < i ==> !occurs_at(s@, pattern@, j),
            None => !has_text(s@, pattern@),
        },
{
    let n: usize = pattern.unicode_len();
    let m: usize = s.unicode_len();
    if m < n {
        return None;
    }
    let mut i: usize = 0;
    while i < m - n
        invariant
            n == pattern@.len(),
            m == s@.len(),
            i <= m - n,
            forall|j: int| 0 <= j < i ==> !occurs_at(s@, pattern@, j),
        decreases m - n - i,
    {
        if str_eq(s.substring_char(i, i + n), pattern) {
            return Some(i);
        }
        i += 1;
    }
    if str_eq(s.substring_char(i, i + n), pattern) {
        Some(i)
    } else {
        None
    }
}

/// Whether `pattern` occurs in `s`.
pub fn contains(s: &str, pattern: &str) -> (yes: bool)
    ensures
        yes == has_text(s@, pattern@),
{
    match find(s, pattern) {
        Some(_) => true,
        None => false,
    }
}

/// The pieces of `s` between occurrences of `separator`.
pub fn split(s: &str, separator: char) -> (parts: Vec<String>)
    ensures
        texts(parts@) == split_text(s@, separator),
        parts@.len() >= 1,
{
    let chars = chars_of(s);
    let mut parts: Vec<String> = Vec::new();
    let mut piece = String::new();
    let mut i: usize = 0;
    assert(texts(parts@).push(piece@) == split_text(chars@.take(0), separator)) by {
        assert(piece@ == Seq::<char>::empty());
    }
    while i < chars.len()
        invariant
            i <= chars.len(),
            texts(parts@).push(piece@) == split_text(chars@.take(i as int), separator),
        decreases chars.len() - i,
    {
        assert(chars@.take(i + 1).drop_last() == chars@.take(i as int));
        let ghost before = texts(parts@).push(piece@);
        if chars[i] == separator {
            let done = piece;
            piece = String::new();
            let ghost old_parts = parts@;
            parts.push(done);
            assert(texts(parts@) == before);
        } else {
            assert(before.drop_last() == texts(parts@));
            piece.push(chars[i]);
        }
        i += 1;
    }
    assert(chars@.take(i as int) == s@);
    let ghost before = texts(parts@).push(piece@);
    parts.push(piece);
    assert(texts(parts@) == before);
    parts
}

/// `s` with every `from` replaced by `to`.
pub fn replace(s: &str, from: char, to: char) -> (replaced: String)
    ensures
        replaced@ == replace_text(s@, from, to),
{
    let mut out = String::new();
    for c in it: s.chars()
        invariant
            it.seq() == s@,
            out@ == replace_text(s@.take(it.index() as int), from, to),
    {
        let ghost i = it.index() as int;
        assert(s@.take(i + 1) == s@.take(i).push(c));
        if c == from {
            out.push(to);
        } else {
            out.push(c);
        }
        assert(out@ == replace_text(s@.take(i + 1), from, to));
    }
    assert(s@.take(s@.len() as int) == s@);
    out
}

/// Whether a character is white space.
pub fn is_space_char(c: char) -> (yes: bool)
    ensures
        yes == is_space(c),
{
    ('\u{9}' <= c && c <= '\u{d}') || c == '\u{20}' || c == '\u{85}' || c == '\u{a0}' || c
        == '\u{1680}' || ('\u{2000}' <= c && c <= '\u{200a}') || c == '\u{2028}' || c == '\u{2029}'
        || c == '\u{202f}' || c == '\u{205f}' || c == '\u{3000}'
}

/// `s` without leading and trailing white space.
pub fn trim(s: &str) -> (trimmed: String)
    ensures
        trimmed@ == trim_text(s@),
{
    let chars = chars_of(s);
    let mut from: usize = 0;
    let mut to: usize = chars.len();
    assert(chars@.subrange(0, to as int) == s@);
    while from < to && is_space_char(chars[from])
        invariant
            from <= to,
            to == chars.len(),
            chars@ == s@,
            trim_text(s@) == trim_text(chars@.subrange(from as int, to as int)),
        decreases to - from,
    {
        assert(chars@.subrange(from as int, to as int).drop_first() == chars@.subrange(
            from + 1,
            to as int,
        ));
        from += 1;
    }
    while from < to && is_space_char(chars[to - 1])
        invariant
            from <= to,
            to <= chars.len(),
            chars@ == s@,
            from < to ==> !is_space(chars@[from as int]),
            trim_text(s@) == trim_text(chars@.subrange(from as int, to as int)),
        decreases to - from,
    {
        assert(chars@.subrange(from as int, to as int).drop_last() == chars@.subrange(
            from as int,
            to - 1,
        ));
        to -= 1;
    }
    from_chars(&chars, from, to)
}

/// Whether `s` holds nothing but white space.
pub fn is_blank(s: &str) -> (yes: bool)
    ensures
        yes == all_space(s@),
{
    for c in it: s.chars()
        invariant
            it.seq() == s@,
            forall|i: int| 0 <= i < it.index() ==> is_space(#[trigger] s@[i]),
    {
        if !is_space_char(c) {
            assert(!is_space(s@[it.index() as int]));
            return false;
        }
    }
    true
}

/// The digit character of a number below sixteen.
pub fn digit(value: u8) -> (c: char)
    requires
        value < 16,
    ensures
        c == digit_char(value as nat),
{
    proof {
        reveal_strlit("0123456789abcdef");
    }
    "0123456789abcdef".get_char(value as usize)
}

/// A number in base ten.
pub fn decimal(value: u64) -> (s: String)
    ensures
        s@ == decimal_text(value as nat),
    decreases value,
{
    if value < 10 {
        let mut s = String::new();
        s.push(digit(value as u8));
        assert(s@ == seq![digit_char(value as nat)]);
        s
    } else {
        let mut s = decimal(value / 10);
        s.push(digit((value % 10) as u8));
        s
    }
}

/// The digit at position `i` of a run that zeros fill up to `n` digits.
spec fn padded(run: Seq<char>, n: int, i: int) -> char {
    if i < n - run.len() {
        '0'
    } else {
        run[i - (n - run.len())]
    }
}

/// The value of the first `i` digits of a run that zeros fill up to `n` digits.
spec fn head_value(run: Seq<char>, n: int, i: int) -> int
    decreases i,
{
    if i <= 0 {
        0
    } else {
        head_value(run, n, i - 1) * 10 + (padded(run, n, i - 1) as int - '0' as int)
    }
}

proof fn lemma_head_value(run: Seq<char>, n: int, i: int)
    requires
        all_digits(run),
        run.len() <= n,
        0 <= i <= n,
    ensures
        head_value(run, n, i) == if i <= n - run.len() {
            0
        } else {
            digits_value(run.take(i - (n - run.len()))) as int
        },
    decreases i,
{
    if i > 0 {
        lemma_head_value(run, n, i - 1);
        let k = i - (n - run.len());
        if k > 0 {
            assert(run.take(k).drop_last() == run.take(k - 1));
            assert(run.take(k).last() == run[k - 1]);
            assert(is_digit(run[k - 1]));
            assert(digits_value(run.take(k)) == digits_value(run.take(k - 1)) * 10 + (
            run[k - 1] as nat - '0' as nat) as nat);
            if k == 1 {
                assert(run.take(0) == Seq::<char>::empty());
                assert(digits_value(run.take(0)) == 0);
            }
        }
    }
}

/// Compares two runs of digits by value, however many digits they have.
pub fn compare_digits(a: &Vec<char>, b: &Vec<char>) -> (relation: Relation)
    requires
        all_digits(a@),
        all_digits(b@),
    ensures
        relation == compare_int(
            digits_value(a@) as int,
            digits_value(b@) as int,
        ),
{
    let n: usize = if a.len() < b.len() {
        b.len()
    } else {
        a.len()
    };
    let mut relation = Relation::Equal;
    let mut i: usize = 0;
    while i < n
        invariant
            all_digits(a@),
            all_digits(b@),
            a@.len() <= n,
            b@.len() <= n,
            i <= n,
            relation == compare_int(
                head_value(a@, n as int, i as int),
                head_value(b@, n as int, i as int),
            ),
        decreases n - i,
    {
        let left = if i < n - a.len() {
            '0'
        } else {
            a[i - (n - a.len())]
        };
        let right = if i < n - b.len() {
            '0'
        } else {
            b[i - (n - b.len())]
        };
        assert(left == padded(a@, n as int, i as int) && is_digit(left));
        assert(right == padded(b@, n as int, i as int) && is_digit(right));
        if relation == Relation::Equal {
            relation = if left < right {
                Relation::Less
            } else if right < left {
                Relation::Greater
            } else {
                Relation::Equal
            };
        }
        i += 1;
    }
    proof {
        lemma_head_value(a@, n as int, n as int);
        lemma_head_value(b@, n as int, n as int);
        assert(a@.take(a@.len() as int) == a@);
        assert(b@.take(b@.len() as int) == b@);
    }
    relation
}

/// Bytes in hexadecimal.
pub fn hex(bytes: &[u8]) -> (s: String)
    ensures
        s@ == hex_text(bytes@),
{
    let mut s = String::new();
    let mut i: usize = 0;
    while i < bytes.len()
        invariant
            i <= bytes.len(),
            s@ == hex_text(bytes@.take(i as int)),
        decreases bytes.len() - i,
    {
        assert(bytes@.take(i + 1).drop_last() == bytes@.take(i as int));
        s.push(digit(bytes[i] / 16));
        s.push(digit(bytes[i] % 16));
        i += 1;
    }
    assert(bytes@.take(i as int) == bytes@);
    s
}

/// Compares two strings by their characters.
pub fn compare_str(a: &str, b: &str) -> (relation: Relation)
    ensures
        relation == compare_text(a@, b@),
{
    let x = chars_of(a);
    let y = chars_of(b);
    let mut i: usize = 0;
    assert(x@.skip(0) == a@ && y@.skip(0) == b@);
    while i < x.len() && i < y.len()
        invariant
            i <= x.len(),
            i <= y.len(),
            compare_text(a@, b@) == compare_text(x@.skip(i as int), y@.skip(i as int)),
        decreases x.len() - i,
    {
        if x[i] < y[i] {
            return Relation::Less;
        }
        if y[i] < x[i] {
            return Relation::Greater;
        }
        assert(x@.skip(i as int).drop_first() == x@.skip(i + 1));
        assert(y@.skip(i as int).drop_first() == y@.skip(i + 1));
        i += 1;
    }
    if i < y.len() {
        Relation::Less
    } else if i < x.len() {
        Relation::Greater
    } else {
        Relation::Equal
    }
}

/// Whether a path is absolute.
pub fn is_absolute(path: &str) -> (yes: bool)
    ensures
        yes == is_absolute_text(path@),
{
    path.unicode_len() > 0 && path.get_char(0) == '/'
}

/// `relative` seen from the directory `base`.
pub fn join_path(base: &str, relative: &str) -> (path: String)
    ensures
        path@ == path_text(base@, relative@),
{
    let n: usize = base.unicode_len();
    if is_absolute(relative) || n == 0 {
        return relative.to_owned();
    }
    let mut path = base.to_owned();
    if base.get_char(n - 1) != '/' {
        path.push('/');
    }
    path.append(relative);
    path
}

fn components_of(path: &str) -> (list: Vec<String>)
    ensures
        texts(list@) == path_components(path@),
{
    let pieces = split(path, '/');
    let ghost all = texts(pieces@);
    let mut list: Vec<String> = Vec::new();
    let mut i: usize = 0;
    assert(texts(list@) == components(all, 0));
    while i < pieces.len()
        invariant
            all == texts(pieces@),
            i <= pieces@.len(),
            texts(list@) == components(all, i as int),
        decreases pieces.len() - i,
    {
        let piece = &pieces[i];
        assert(all[i as int] == piece@);
        if !(piece.as_str().is_empty() || (i > 0 && str_eq(piece, "."))) {
            let ghost before = list@;
            list.push(piece.clone());
            assert(texts(list@) == texts(before).push(piece@));
        }
        i += 1;
    }
    list
}

fn same_texts(a: &Vec<String>, b: &Vec<String>) -> (same: bool)
    ensures
        same == (texts(a@) == texts(b@)),
{
    if a.len() != b.len() {
        assert(texts(a@).len() != texts(b@).len());
        return false;
    }
    let mut i: usize = 0;
    while i < a.len()
        invariant
            a@.len() == b@.len(),
            i <= a@.len(),
            forall|j: int| 0 <= j < i ==> (#[trigger] a@[j])@ == b@[j]@,
        decreases a.len() - i,
    {
        if !str_eq(&a[i], &b[i]) {
            assert(texts(a@)[i as int] != texts(b@)[i as int]);
            return false;
        }
        i += 1;
    }
    assert(texts(a@) == texts(b@));
    true
}

/// Whether two paths are the same.
pub fn is_same_path(a: &str, b: &str) -> (same: bool)
    ensures
        same == same_path(a@, b@),
{
    is_absolute(a) == is_absolute(b) && same_texts(&components_of(a), &components_of(b))
}

/// Whether a path is among those of a list.
pub fn is_path_among(list: &Vec<String>, path: &str) -> (yes: bool)
    ensures
        yes == has_path(texts(list@), path@),
{
    let ghost all = texts(list@);
    let mut i: usize = 0;
    while i < list.len()
        invariant
            all == texts(list@),
            i <= list@.len(),
            forall|j: int| 0 <= j < i ==> !same_path(#[trigger] all[j], path@),
        decreases list.len() - i,
    {
        assert(all[i as int] == list@[i as int]@);
        if is_same_path(&list[i], path) {
            return true;
        }
        i += 1;
    }
    false
}

/// The directory part of a path.
pub fn dir_of(path: &str) -> (dir: String)
    ensures
        dir@ == dir_text(path@),
{
    let chars = chars_of(path);
    let mut n: usize = chars.len();
    assert(chars@.take(n as int) == path@);
    while n > 0 && chars[n - 1] != '/'
        invariant
            n <= chars@.len(),
            dir_text(path@) == dir_text(chars@.take(n as int)),
        decreases n,
    {
        assert(chars@.take(n as int).drop_last() == chars@.take(n - 1));
        n -= 1;
    }
    if n > 1 {
        assert(chars@.take(n as int).drop_last() == chars@.take(n - 1));
        n -= 1;
    }
    let dir = from_chars(&chars, 0, n);
    assert(dir@ == chars@.take(n as int));
    dir
}

/// A string in lower case, as far as its letters are ASCII.
pub fn to_lower(s: &str) -> (lower: String)
    ensures
        lower@ == lower_text(s@),
{
    let mut out = String::new();
    for c in it: s.chars()
        invariant
            it.seq() == s@,
            out@ == lower_text(s@.take(it.index() as int)),
    {
        let ghost i = it.index() as int;
        assert(s@.take(i + 1) == s@.take(i).push(c));
        out.push(lower(c));
        assert(out@ == lower_text(s@.take(i + 1)));
    }
    assert(s@.take(s@.len() as int) == s@);
    out
}

/// The ASCII letter `c` in lower case, any other character unchanged.
pub fn lower(c: char) -> (low: char)
    ensures
        low == lower_char(c),
{
    if 'A' <= c && c <= 'Z' {
        ((c as u8) + 32) as char
    } else {
        c
    }
}

/// Appends copies of the strings of `more` to `list`.
pub fn extend_texts(list: &mut Vec<String>, more: &Vec<String>)
    ensures
        texts(final(list)@) == texts(old(list)@) + texts(more@),
{
    let mut i: usize = 0;
    let ghost before = list@;
    while i < more.len()
        invariant
            i <= more.len(),
            texts(list@) == texts(before) + texts(more@.take(i as int)),
        decreases more.len() - i,
    {
        assert(more@.take(i + 1) == more@.take(i as int).push(more@[i as int]));
        let ghost prior = list@;
        list.push(more[i].clone());
        assert(texts(list@) == texts(prior).push(more@[i as int]@));
        assert(texts(more@.take(i + 1)) == texts(more@.take(i as int)).push(more@[i as int]@));
        i += 1;
    }
    assert(more@.take(i as int) == more@);
}

/// A copy of a list of strings.
pub fn copy_texts(list: &Vec<String>) -> (copied: Vec<String>)
    ensures
        texts(copied@) == texts(list@),
{
    let mut copied: Vec<String> = Vec::new();
    extend_texts(&mut copied, list);
    assert(texts(copied@) == texts(list@));
    copied
}

/// The position of the first string equal to `wanted`.
pub fn position(list: &Vec<String>, wanted: &str) -> (at: Option<usize>)
    ensures
        match at {
            Some(i) => i < list@.len() && list@[i as int]@ == wanted@ && forall|j: int|
                0 <= j < i ==> #[trigger] list@[j]@ != wanted@,
            None => !texts(list@).contains(wanted@),
        },
{
    let mut i: usize = 0;
    while i < list.len()
        invariant
            i <= list.len(),
            forall|j: int| 0 <= j < i ==> #[trigger] list@[j]@ != wanted@,
        decreases list.len() - i,
    {
        if str_eq(&list[i], wanted) {
            return Some(i);
        }
        i += 1;
    }
    proof {
        if texts(list@).contains(wanted@) {
            let j = choose|j: int| 0 <= j < texts(list@).len() && texts(list@)[j] == wanted@;
            assert(list@[j]@ == wanted@);
        }
    }
    None
}

/// The strings of a list, with `separator` between neighbours.
pub fn join(parts: &Vec<String>, separator: &str) -> (joined: String)
    ensures
        joined@ == join_text(texts(parts@), separator@),
{
    let mut joined = String::new();
    let mut i: usize = 0;
    while i < parts.len()
        invariant
            i <= parts.len(),
            joined@ == join_text(texts(parts@).take(i as int), separator@),
        decreases parts.len() - i,
    {
        assert(texts(parts@).take(i + 1).drop_last() == texts(parts@).take(i as int));
        if i > 0 {
            joined.append(separator);
        }
        joined.append(&parts[i]);
        assert(i == 0 ==> joined@ == parts@[0]@);
        i += 1;
    }
    assert(texts(parts@).take(i as int) == texts(parts@));
    joined
}

} // verus!
