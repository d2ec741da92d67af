//! Documents show in their text: two with the same text are the same.

use vstd::prelude::*;
use crate::json;
use crate::json::Json;
use crate::text;
use crate::text_laws;
use crate::text_map::TextMap;

verus! {

/// Whether two documents hold the same.
pub open spec fn same_json(a: Json, b: Json) -> bool
    decreases a,
{
    match (a, b) {
        (Json::Bool(x), Json::Bool(y)) => x == y,
        (Json::Int(x), Json::Int(y)) => x == y,
        (Json::Float(x), Json::Float(y)) => x@ == y@,
        (Json::Str(x), Json::Str(y)) => x@ == y@,
        (Json::Array(x), Json::Array(y)) => x@.len() == y@.len() && forall|i: int|
            0 <= i < x@.len() ==> same_json(#[trigger] x@[i], y@[i]),
        (Json::Object(x), Json::Object(y)) => x.entries@.len() == y.entries@.len() && forall|i: int|
            0 <= i < x.entries@.len() ==> (#[trigger] x.entries@[i]).0@ == y.entries@[i].0@
                && same_json(x.entries@[i].1, y.entries@[i].1),
        _ => false,
    }
}

/// Whether a character closes what stands before it: a comma or a closing
/// bracket.
pub open spec fn closes(c: char) -> bool {
    c == ',' || c == ']' || c == '}'
}

/// Whether a text is that of a floating-point number: digits, with a point or an
/// exponent among them.
pub open spec fn is_float_text(s: Seq<char>) -> bool {
    &&& s.len() > 0
    &&& s[0] == '-' || '0' <= s[0] <= '9'
    &&& forall|i: int|
        0 <= i < s.len() ==> '0' <= #[trigger] s[i] <= '9' || s[i] == '-' || s[i] == '+' || s[i]
            == '.' || s[i] == 'e' || s[i] == 'E'
    &&& exists|i: int|
        0 <= i < s.len() && (#[trigger] s[i] == '.' || s[i] == 'e' || s[i] == 'E')
}

/// Whether every floating-point number of a document is written as one.
pub open spec fn is_written(json: Json) -> bool
    decreases json,
{
    match json {
        Json::Float(number) => is_float_text(number@),
        Json::Array(items) => forall|i: int|
            0 <= i < items@.len() ==> is_written(#[trigger] items@[i]),
        Json::Object(map) => forall|i: int|
            0 <= i < map.entries@.len() ==> is_written((#[trigger] map.entries@[i]).1),
        _ => true,
    }
}

/// Whether a text is empty or starts with a closing character.
spec fn ends(s: Seq<char>) -> bool {
    s.len() == 0 || closes(s[0])
}

spec fn never_closes(s: Seq<char>) -> bool {
    forall|i: int| 0 <= i < s.len() ==> !closes(#[trigger] s[i])
}

proof fn lemma_run(p: Seq<char>, x: Seq<char>, q: Seq<char>, y: Seq<char>)
    requires
        p + x == q + y,
        never_closes(p),
        never_closes(q),
        ends(x),
        ends(y),
    ensures
        p == q,
        x == y,
{
    let whole = p + x;
    if p.len() < q.len() {
        assert(whole[p.len() as int] == q[p.len() as int]);
        assert((p + x).len() == (q + y).len());
        assert(whole[p.len() as int] == x[0]);
        assert(false);
    }
    if q.len() < p.len() {
        assert((q + y)[q.len() as int] == y[0]);
        assert(whole[q.len() as int] == p[q.len() as int]);
        assert(false);
    }
    lemma_cut(p, x, q, y);
}

proof fn lemma_cut(p: Seq<char>, x: Seq<char>, q: Seq<char>, y: Seq<char>)
    requires
        p + x == q + y,
        p.len() == q.len(),
    ensures
        p == q,
        x == y,
{
    assert(p =~= (p + x).take(p.len() as int));
    assert(q =~= (q + y).take(q.len() as int));
    assert(x =~= (p + x).skip(p.len() as int));
    assert(y =~= (q + y).skip(q.len() as int));
}

proof fn lemma_hex_two(b: u8)
    ensures
        text::hex_text(seq![b]).len() == 2,
{
    assert(seq![b].drop_last() =~= Seq::<u8>::empty());
    assert(text::hex_text(Seq::<u8>::empty()) =~= Seq::<char>::empty());
}

/// What a character is written as tells it from any other.
proof fn lemma_char(c: char, x: Seq<char>, d: char, y: Seq<char>)
    requires
        json::char_text(c) + x == json::char_text(d) + y,
    ensures
        c == d,
        x == y,
{
    let p = json::char_text(c);
    let q = json::char_text(d);
    let whole = p + x;
    assert(whole[0] == p[0] && whole[0] == q[0]);
    assert(p.len() > 1 ==> whole[1] == p[1]);
    assert(q.len() > 1 ==> whole[1] == q[1]);
    lemma_hex_two(c as u8);
    lemma_hex_two(d as u8);
    assert(p.len() == q.len());
    lemma_cut(p, x, q, y);
    if p.len() == 6 {
        assert(text::hex_text(seq![c as u8]) =~= p.skip(4));
        assert(text::hex_text(seq![d as u8]) =~= q.skip(4));
        text::lemma_hex_apart(seq![c as u8], seq![d as u8]);
        assert(seq![c as u8][0] == seq![d as u8][0]);
        assert(c as u8 as u32 == c as u32);
        assert(d as u8 as u32 == d as u32);
    }
}

proof fn lemma_escaped_front(s: Seq<char>)
    requires
        s.len() > 0,
    ensures
        json::escaped(s) == json::char_text(s[0]) + json::escaped(s.drop_first()),
    decreases s.len(),
{
    let before = s.drop_last();
    let rest = s.drop_first();
    if before.len() == 0 {
        assert(json::escaped(before) =~= Seq::<char>::empty());
        assert(json::escaped(rest) =~= Seq::<char>::empty());
        assert(s.last() == s[0]);
        assert(json::escaped(s) =~= json::char_text(s[0]) + json::escaped(rest));
    } else {
        lemma_escaped_front(before);
        assert(before[0] == s[0]);
        assert(before.drop_first() =~= rest.drop_last());
        assert(rest.last() == s.last());
        assert(json::escaped(s) =~= json::char_text(s[0]) + json::escaped(rest));
    }
}

/// What stands between quotes tells a text from any other.
proof fn lemma_escaped(s: Seq<char>, x: Seq<char>, t: Seq<char>, y: Seq<char>)
    requires
        json::escaped(s) + (seq!['"'] + x) == json::escaped(t) + (seq!['"'] + y),
    ensures
        s == t,
        x == y,
    decreases s.len(),
{
    let more = seq!['"'] + x;
    let other = seq!['"'] + y;
    let whole = json::escaped(s) + more;
    if s.len() > 0 {
        lemma_escaped_front(s);
        assert(whole[0] == json::char_text(s[0])[0]);
        assert(whole[0] != '"');
    } else {
        assert(json::escaped(s) =~= Seq::<char>::empty());
        assert(whole[0] == '"');
    }
    if t.len() > 0 {
        lemma_escaped_front(t);
        assert((json::escaped(t) + other)[0] == json::char_text(t[0])[0]);
        assert((json::escaped(t) + other)[0] != '"');
    } else {
        assert(json::escaped(t) =~= Seq::<char>::empty());
        assert((json::escaped(t) + other)[0] == '"');
    }
    if s.len() > 0 {
        let u = json::escaped(s.drop_first()) + more;
        let v = json::escaped(t.drop_first()) + other;
        assert(json::char_text(s[0]) + u =~= whole);
        assert(json::char_text(t[0]) + v =~= json::escaped(t) + other);
        lemma_char(s[0], u, t[0], v);
        lemma_escaped(s.drop_first(), x, t.drop_first(), y);
        assert(s =~= seq![s[0]] + s.drop_first());
        assert(t =~= seq![t[0]] + t.drop_first());
    } else {
        assert(whole =~= more);
        assert(json::escaped(t) + other =~= other);
        lemma_cut(seq!['"'], x, seq!['"'], y);
        assert(s =~= t);
    }
}

proof fn lemma_quoted(s: Seq<char>, x: Seq<char>, t: Seq<char>, y: Seq<char>)
    requires
        json::quoted(s) + x == json::quoted(t) + y,
    ensures
        s == t,
        x == y,
{
    let u = json::escaped(s) + (seq!['"'] + x);
    let v = json::escaped(t) + (seq!['"'] + y);
    assert(json::quoted(s) + x =~= seq!['"'] + u);
    assert(json::quoted(t) + y =~= seq!['"'] + v);
    lemma_cut(seq!['"'], u, seq!['"'], v);
    lemma_escaped(s, x, t, y);
}

proof fn lemma_int(value: int)
    ensures
        json::int_text(value).len() > 0,
        json::int_text(value)[0] == '-' || '0' <= json::int_text(value)[0] <= '9',
        value < 0 <==> json::int_text(value)[0] == '-',
        never_closes(json::int_text(value)),
        !is_float_text(json::int_text(value)),
{
    reveal_strlit("-");
    let n = if value < 0 {
        (-value) as nat
    } else {
        value as nat
    };
    text_laws::law_numbers_read_back(n);
    let digits = text::decimal_text(n);
    let s = json::int_text(value);
    assert(text::is_digit(digits[0]));
    assert forall|i: int| 0 <= i < s.len() implies !closes(#[trigger] s[i]) && s[i] != '.' && s[i]
        != 'e' && s[i] != 'E' by {
        if value < 0 {
            if i > 0 {
                assert(s[i] == digits[i - 1]);
                assert(text::is_digit(digits[i - 1]));
            }
        } else {
            assert(text::is_digit(digits[i]));
        }
    }
}

proof fn lemma_ints(a: int, b: int)
    requires
        json::int_text(a) == json::int_text(b),
    ensures
        a == b,
{
    reveal_strlit("-");
    lemma_int(a);
    lemma_int(b);
    if a < 0 {
        text_laws::law_numbers_read_back((-a) as nat);
        text_laws::law_numbers_read_back((-b) as nat);
        lemma_cut(
            "-"@,
            text::decimal_text((-a) as nat),
            "-"@,
            text::decimal_text((-b) as nat),
        );
    } else {
        text_laws::law_numbers_read_back(a as nat);
        text_laws::law_numbers_read_back(b as nat);
    }
}

/// The character that the text of a document starts with tells what it is.
spec fn starts_as(json: Json, c: char) -> bool {
    match json {
        Json::Bool(true) => c == 't',
        Json::Bool(false) => c == 'f',
        Json::Int(_) => c == '-' || '0' <= c <= '9',
        Json::Float(_) => c == '-' || '0' <= c <= '9',
        Json::Str(_) => c == '"',
        Json::Array(_) => c == '[',
        Json::Object(_) => c == '{',
    }
}

proof fn lemma_start(json: Json)
    requires
        is_written(json),
    ensures
        json::json_text(json).len() > 0,
        starts_as(json, json::json_text(json)[0]),
{
    reveal_strlit("true");
    reveal_strlit("false");
    reveal_strlit("[");
    reveal_strlit("{");
    if let Json::Int(value) = json {
        lemma_int(value as int);
    }
}

proof fn lemma_document(a: Json, x: Seq<char>, b: Json, y: Seq<char>)
    requires
        is_written(a),
        is_written(b),
        ends(x),
        ends(y),
        json::json_text(a) + x == json::json_text(b) + y,
    ensures
        same_json(a, b),
        x == y,
    decreases a, 0int,
{
    let p = json::json_text(a);
    let q = json::json_text(b);
    lemma_start(a);
    lemma_start(b);
    assert((p + x)[0] == p[0] && (q + y)[0] == q[0]);
    match (a, b) {
        (Json::Bool(_), Json::Bool(_)) => {
            reveal_strlit("true");
            reveal_strlit("false");
            lemma_cut(p, x, q, y);
        },
        (Json::Int(m), Json::Int(n)) => {
            lemma_int(m as int);
            lemma_int(n as int);
            lemma_run(p, x, q, y);
            lemma_ints(m as int, n as int);
        },
        (Json::Float(m), Json::Float(n)) => {
            assert(never_closes(p) && never_closes(q));
            lemma_run(p, x, q, y);
        },
        (Json::Int(m), Json::Float(n)) => {
            lemma_int(m as int);
            assert(never_closes(q));
            lemma_run(p, x, q, y);
        },
        (Json::Float(m), Json::Int(n)) => {
            lemma_int(n as int);
            assert(never_closes(p));
            lemma_run(p, x, q, y);
        },
        (Json::Str(s), Json::Str(t)) => {
            lemma_quoted(s@, x, t@, y);
        },
        (Json::Array(s), Json::Array(t)) => {
            reveal_strlit("[");
            let u = json::items_text(s@, 0) + ("]"@ + x);
            let v = json::items_text(t@, 0) + ("]"@ + y);
            assert(p + x =~= "["@ + u);
            assert(q + y =~= "["@ + v);
            lemma_cut("["@, u, "["@, v);
            lemma_items(s@, x, t@, y, 0);
        },
        (Json::Object(s), Json::Object(t)) => {
            reveal_strlit("{");
            let u = json::members_text(s.entries@, 0) + ("}"@ + x);
            let v = json::members_text(t.entries@, 0) + ("}"@ + y);
            assert(p + x =~= "{"@ + u);
            assert(q + y =~= "{"@ + v);
            lemma_cut("{"@, u, "{"@, v);
            lemma_members(s.entries@, x, t.entries@, y, 0);
        },
        _ => {},
    }
}

proof fn lemma_items_end(items: Seq<Json>, x: Seq<char>, from: int)
    requires
        0 < from,
    ensures
        ends(json::items_text(items, from) + ("]"@ + x)),
{
    reveal_strlit("]");
    reveal_strlit(",");
    let s = json::items_text(items, from) + ("]"@ + x);
    if from < items.len() {
        assert(s[0] == ',');
    } else {
        assert(s[0] == ']');
    }
}

proof fn lemma_items(a: Seq<Json>, x: Seq<char>, b: Seq<Json>, y: Seq<char>, from: int)
    requires
        0 <= from,
        from <= a.len() || from <= b.len(),
        forall|i: int| 0 <= i < a.len() ==> is_written(#[trigger] a[i]),
        forall|i: int| 0 <= i < b.len() ==> is_written(#[trigger] b[i]),
        ends(x),
        ends(y),
        json::items_text(a, from) + ("]"@ + x) == json::items_text(b, from) + ("]"@ + y),
    ensures
        x == y,
        from <= a.len() && from <= b.len() ==> a.len() == b.len(),
        forall|i: int| from <= i < a.len() ==> i < b.len() && same_json(#[trigger] a[i], b[i]),
    decreases a, a.len() - from,
{
    reveal_strlit("]");
    reveal_strlit(",");
    reveal_strlit("");
    let whole = json::items_text(a, from) + ("]"@ + x);
    let other = json::items_text(b, from) + ("]"@ + y);
    let comma = if from == 0 {
        ""@
    } else {
        ","@
    };
    if from < a.len() {
        assert(is_written(a[from]));
        lemma_start(a[from]);
        let rest = json::items_text(a, from + 1) + ("]"@ + x);
        assert(whole =~= comma + (json::json_text(a[from]) + rest));
        if from == 0 {
            assert(whole[0] == json::json_text(a[from])[0]);
        } else {
            assert(whole[0] == ',');
        }
        assert(whole[0] != ']');
    } else {
        assert(whole =~= "]"@ + x);
        assert(whole[0] == ']');
    }
    if from < b.len() {
        assert(is_written(b[from]));
        lemma_start(b[from]);
        let rest = json::items_text(b, from + 1) + ("]"@ + y);
        assert(other =~= comma + (json::json_text(b[from]) + rest));
        if from == 0 {
            assert(other[0] == json::json_text(b[from])[0]);
        } else {
            assert(other[0] == ',');
        }
        assert(other[0] != ']');
    } else {
        assert(other =~= "]"@ + y);
        assert(other[0] == ']');
    }
    if from < a.len() {
        let u = json::items_text(a, from + 1) + ("]"@ + x);
        let v = json::items_text(b, from + 1) + ("]"@ + y);
        lemma_cut(comma, json::json_text(a[from]) + u, comma, json::json_text(b[from]) + v);
        lemma_items_end(a, x, from + 1);
        lemma_items_end(b, y, from + 1);
        assert(decreases_to!(a => a[from]));
        lemma_document(a[from], u, b[from], v);
        lemma_items(a, x, b, y, from + 1);
    } else {
        lemma_cut("]"@, x, "]"@, y);
    }
}

proof fn lemma_members_end(entries: Seq<(String, Json)>, x: Seq<char>, from: int)
    requires
        0 < from,
    ensures
        ends(json::members_text(entries, from) + ("}"@ + x)),
{
    reveal_strlit("}");
    reveal_strlit(",");
    let s = json::members_text(entries, from) + ("}"@ + x);
    if from < entries.len() {
        assert(s[0] == ',');
    } else {
        assert(s[0] == '}');
    }
}

proof fn lemma_members(
    a: Seq<(String, Json)>,
    x: Seq<char>,
    b: Seq<(String, Json)>,
    y: Seq<char>,
    from: int,
)
    requires
        0 <= from,
        from <= a.len() || from <= b.len(),
        forall|i: int| 0 <= i < a.len() ==> is_written((#[trigger] a[i]).1),
        forall|i: int| 0 <= i < b.len() ==> is_written((#[trigger] b[i]).1),
        ends(x),
        ends(y),
        json::members_text(a, from) + ("}"@ + x) == json::members_text(b, from) + ("}"@ + y),
    ensures
        x == y,
        from <= a.len() && from <= b.len() ==> a.len() == b.len(),
        forall|i: int|
            from <= i < a.len() ==> i < b.len() && (#[trigger] a[i]).0@ == b[i].0@ && same_json(
                a[i].1,
                b[i].1,
            ),
    decreases a, a.len() - from,
{
    reveal_strlit("}");
    reveal_strlit(",");
    reveal_strlit("");
    reveal_strlit(":");
    let whole = json::members_text(a, from) + ("}"@ + x);
    let other = json::members_text(b, from) + ("}"@ + y);
    let comma = if from == 0 {
        ""@
    } else {
        ","@
    };
    let u = json::members_text(a, from + 1) + ("}"@ + x);
    let v = json::members_text(b, from + 1) + ("}"@ + y);
    if from < a.len() {
        let inner = json::quoted(a[from].0@) + (":"@ + (json::json_text(a[from].1) + u));
        assert(whole =~= comma + inner);
        assert(inner[0] == '"');
        assert(whole[0] != '}');
    } else {
        assert(whole =~= "}"@ + x);
        assert(whole[0] == '}');
    }
    if from < b.len() {
        let inner = json::quoted(b[from].0@) + (":"@ + (json::json_text(b[from].1) + v));
        assert(other =~= comma + inner);
        assert(inner[0] == '"');
        assert(other[0] != '}');
    } else {
        assert(other =~= "}"@ + y);
        assert(other[0] == '}');
    }
    if from < a.len() {
        let s = json::json_text(a[from].1) + u;
        let t = json::json_text(b[from].1) + v;
        lemma_cut(
            comma,
            json::quoted(a[from].0@) + (":"@ + s),
            comma,
            json::quoted(b[from].0@) + (":"@ + t),
        );
        lemma_quoted(a[from].0@, ":"@ + s, b[from].0@, ":"@ + t);
        lemma_cut(":"@, s, ":"@, t);
        lemma_members_end(a, x, from + 1);
        lemma_members_end(b, y, from + 1);
        assert(decreases_to!(a => a[from]));
        lemma_document(a[from].1, u, b[from].1, v);
        lemma_members(a, x, b, y, from + 1);
    } else {
        lemma_cut("}"@, x, "}"@, y);
    }
}

/// Documents show in their text: two that are written alike hold the same. So no
/// part of a configuration can change without its text changing.
pub proof fn law_documents_show_in_their_text(a: Json, b: Json)
    requires
        is_written(a),
        is_written(b),
        json::json_text(a) == json::json_text(b),
    ensures
        same_json(a, b),
{
    let none = Seq::<char>::empty();
    assert(json::json_text(a) + none =~= json::json_text(a));
    assert(json::json_text(b) + none =~= json::json_text(b));
    lemma_document(a, none, b, none);
}

/// Objects show in their text, with every key and every value.
pub proof fn law_objects_show_in_their_text(a: TextMap<Json>, b: TextMap<Json>)
    requires
        is_written(Json::Object(a)),
        is_written(Json::Object(b)),
        json::object_text(a) == json::object_text(b),
    ensures
        a.entries@.len() == b.entries@.len(),
        forall|i: int|
            0 <= i < a.entries@.len() ==> (#[trigger] a.entries@[i]).0@ == b.entries@[i].0@
                && same_json(a.entries@[i].1, b.entries@[i].1),
{
    law_documents_show_in_their_text(Json::Object(a), Json::Object(b));
}

} // verus!
