//! Whatever a task's run depends on shows in the message whose digest is its
//! fingerprint.

use vstd::prelude::*;
use crate::task::fingerprint;
use crate::task::fingerprint::{FingerprintContext, InputState, ToolFile, TreeFile};
use crate::task::Task;
use crate::text;
use crate::text::Relation;
use crate::text_laws;

verus! {

/// Whether a text holds no NUL character, as no path does.
pub open spec fn has_no_nul(s: Seq<char>) -> bool {
    forall|i: int| 0 <= i < s.len() ==> #[trigger] s[i] != '\u{0}'
}

/// Whether a digest, where there is one, has the length of a SHA-256 digest.
pub open spec fn is_sized(digest: Option<Vec<u8>>) -> bool {
    digest matches Some(bytes) ==> bytes@.len() == 32
}

/// Whether the digests and the paths of an input are digests and paths.
pub open spec fn is_sound(input: InputState) -> bool {
    match input {
        InputState::Tree(tree) => forall|k: int|
            0 <= k < tree.files.entries@.len() ==> is_sized(
                (#[trigger] tree.files.entries@[k]).1.digest,
            ) && has_no_nul(tree.files.entries@[k].1.path@),
        InputState::Content(digest) => digest@.len() == 32,
        InputState::Absent => true,
    }
}

/// Whether two files are the same: they have the same path and content, or
/// neither can be read.
pub open spec fn is_same_file(a: TreeFile, b: TreeFile) -> bool {
    match (a.digest, b.digest) {
        (Some(x), Some(y)) => a.path@ == b.path@ && x@ == y@,
        (None, None) => true,
        _ => false,
    }
}

/// Whether two inputs hold the same.
pub open spec fn is_same_input(a: InputState, b: InputState) -> bool {
    match (a, b) {
        (InputState::Tree(x), InputState::Tree(y)) => x.files.entries@.len()
            == y.files.entries@.len() && forall|k: int|
            0 <= k < x.files.entries@.len() ==> is_same_file(
                (#[trigger] x.files.entries@[k]).1,
                y.files.entries@[k].1,
            ),
        (InputState::Content(x), InputState::Content(y)) => x@ == y@,
        (InputState::Absent, InputState::Absent) => true,
        _ => false,
    }
}

/// Whether two inputs differ at most in the content of files: both are files,
/// or absent, or trees of the same files, readable alike.
pub open spec fn is_same_layout(a: InputState, b: InputState) -> bool {
    match (a, b) {
        (InputState::Tree(x), InputState::Tree(y)) => x.files.entries@.len()
            == y.files.entries@.len() && forall|k: int|
            0 <= k < x.files.entries@.len() ==> ((#[trigger] x.files.entries@[k]).1.digest is Some)
                == (y.files.entries@[k].1.digest is Some) && x.files.entries@[k].1.path@
                == y.files.entries@[k].1.path@,
        (InputState::Content(_), InputState::Content(_)) => true,
        (InputState::Absent, InputState::Absent) => true,
        _ => false,
    }
}

spec fn has_no_zero(bytes: Seq<u8>) -> bool {
    forall|i: int| 0 <= i < bytes.len() ==> #[trigger] bytes[i] != 0
}

proof fn lemma_scalar_bytes(c: u32)
    requires
        c != 0,
        vstd::utf8::is_scalar(c),
    ensures
        has_no_zero(vstd::utf8::encode_scalar(c)),
{
    if vstd::utf8::has_width_1_encoding(c) {
        assert((c & 0x7F) as u8 != 0) by (bit_vector)
            requires
                0 < c <= 0x7F,
        ;
    }
    assert(0xC0u8 | ((c >> 6) & 0x1F) as u8 != 0) by (bit_vector);
    assert(0xE0u8 | ((c >> 12) & 0x0F) as u8 != 0) by (bit_vector);
    assert(0xF0u8 | ((c >> 18) & 0x7) as u8 != 0) by (bit_vector);
    assert(0x80u8 | (c & 0x3F) as u8 != 0) by (bit_vector);
    assert(0x80u8 | ((c >> 6) & 0x3F) as u8 != 0) by (bit_vector);
    assert(0x80u8 | ((c >> 12) & 0x3F) as u8 != 0) by (bit_vector);
}

proof fn lemma_no_zero(s: Seq<char>)
    requires
        has_no_nul(s),
    ensures
        has_no_zero(fingerprint::utf8(s)),
    decreases s.len(),
{
    if s.len() > 0 {
        let rest = s.drop_first();
        assert forall|i: int| 0 <= i < rest.len() implies #[trigger] rest[i] != '\u{0}' by {
            assert(s[i + 1] != '\u{0}');
        }
        lemma_no_zero(rest);
        assert(s[0] != '\u{0}');
        let c = s[0];
        vstd::utf8::char_is_scalar(c);
        if c as u32 == 0 {
            vstd::utf8::char_u32_cast(c, 0u32);
            vstd::utf8::char_u32_cast('\u{0}', 0u32);
        }
        lemma_scalar_bytes(c as u32);
    }
}

/// What stands before the first zero byte is determined by the whole.
proof fn lemma_up_to_zero(p: Seq<u8>, q: Seq<u8>, x: Seq<u8>, y: Seq<u8>)
    requires
        has_no_zero(p),
        has_no_zero(q),
        p + seq![0u8] + x == q + seq![0u8] + y,
    ensures
        p == q,
        x == y,
{
    let whole = p + seq![0u8] + x;
    assert(whole[p.len() as int] == 0);
    assert((q + seq![0u8] + y)[q.len() as int] == 0);
    if p.len() < q.len() {
        assert(whole[p.len() as int] == q[p.len() as int]);
    }
    if q.len() < p.len() {
        assert(whole[q.len() as int] == p[q.len() as int]);
    }
    assert(p =~= whole.take(p.len() as int));
    assert(q =~= whole.take(q.len() as int));
    assert(x =~= whole.skip(p.len() as int + 1));
    assert(y =~= whole.skip(q.len() as int + 1));
}

proof fn lemma_same_text(a: Seq<char>, b: Seq<char>)
    requires
        fingerprint::utf8(a) == fingerprint::utf8(b),
    ensures
        a == b,
{
    vstd::utf8::encode_utf8_decode_utf8(a);
    vstd::utf8::encode_utf8_decode_utf8(b);
}

/// The front of some bytes that is what a file adds is determined by the whole.
proof fn lemma_file(a: TreeFile, b: TreeFile, x: Seq<u8>, y: Seq<u8>)
    requires
        is_sized(a.digest) && has_no_nul(a.path@),
        is_sized(b.digest) && has_no_nul(b.path@),
        fingerprint::file_bytes(a) + x == fingerprint::file_bytes(b) + y,
    ensures
        is_same_file(a, b),
        x == y,
{
    let f = fingerprint::file_bytes(a);
    let g = fingerprint::file_bytes(b);
    let whole = f + x;
    assert(whole[0] == f[0]);
    assert(whole[0] == g[0]);
    match (a.digest, b.digest) {
        (Some(d), Some(e)) => {
            let p = fingerprint::utf8(a.path@);
            let q = fingerprint::utf8(b.path@);
            lemma_no_zero(a.path@);
            lemma_no_zero(b.path@);
            assert(p + seq![0u8] + (d@ + x) =~= whole.skip(1));
            assert(q + seq![0u8] + (e@ + y) =~= (g + y).skip(1));
            lemma_up_to_zero(p, q, d@ + x, e@ + y);
            lemma_same_text(a.path@, b.path@);
            let rest = d@ + x;
            assert(d@ =~= rest.take(32));
            assert(e@ =~= (e@ + y).take(32));
            assert(x =~= rest.skip(32));
            assert(y =~= (e@ + y).skip(32));
        },
        (None, None) => {
            assert(x =~= whole.skip(1));
            assert(y =~= (g + y).skip(1));
        },
        _ => {},
    }
}

proof fn lemma_first_file(entries: Seq<(String, TreeFile)>, n: int)
    requires
        0 < n <= entries.len(),
    ensures
        fingerprint::tree_bytes(entries, n) == fingerprint::file_bytes(entries[0].1)
            + fingerprint::tree_bytes(entries.drop_first(), n - 1),
    decreases n,
{
    let rest = entries.drop_first();
    if n == 1 {
        assert(fingerprint::tree_bytes(entries, 0) =~= Seq::<u8>::empty());
        assert(fingerprint::tree_bytes(rest, 0) =~= Seq::<u8>::empty());
        assert(fingerprint::tree_bytes(entries, 1) =~= fingerprint::file_bytes(entries[0].1));
        assert(fingerprint::tree_bytes(entries, 1) =~= fingerprint::file_bytes(entries[0].1)
            + fingerprint::tree_bytes(rest, 0));
    } else {
        lemma_first_file(entries, n - 1);
        assert(rest[n - 2] == entries[n - 1]);
        assert(fingerprint::tree_bytes(entries, n) =~= fingerprint::file_bytes(entries[0].1) + (
        fingerprint::tree_bytes(rest, n - 2) + fingerprint::file_bytes(entries[n - 1].1)));
    }
}

spec fn are_files(entries: Seq<(String, TreeFile)>) -> bool {
    forall|k: int|
        0 <= k < entries.len() ==> is_sized((#[trigger] entries[k]).1.digest) && has_no_nul(
            entries[k].1.path@,
        )
}

proof fn lemma_trees(a: Seq<(String, TreeFile)>, b: Seq<(String, TreeFile)>)
    requires
        are_files(a),
        are_files(b),
        fingerprint::tree_bytes(a, a.len() as int) == fingerprint::tree_bytes(b, b.len() as int),
    ensures
        a.len() == b.len(),
        forall|k: int| 0 <= k < a.len() ==> is_same_file((#[trigger] a[k]).1, b[k].1),
    decreases a.len(),
{
    if a.len() > 0 {
        lemma_first_file(a, a.len() as int);
    }
    if b.len() > 0 {
        lemma_first_file(b, b.len() as int);
    }
    if a.len() > 0 && b.len() > 0 {
        let x = a.drop_first();
        let y = b.drop_first();
        assert(is_sized(a[0].1.digest) && is_sized(b[0].1.digest));
        lemma_file(
            a[0].1,
            b[0].1,
            fingerprint::tree_bytes(x, x.len() as int),
            fingerprint::tree_bytes(y, y.len() as int),
        );
        assert forall|k: int| 0 <= k < x.len() implies is_sized((#[trigger] x[k]).1.digest)
            && has_no_nul(x[k].1.path@) by {
            assert(is_sized(a[k + 1].1.digest));
        }
        assert forall|k: int| 0 <= k < y.len() implies is_sized((#[trigger] y[k]).1.digest)
            && has_no_nul(y[k].1.path@) by {
            assert(is_sized(b[k + 1].1.digest));
        }
        lemma_trees(x, y);
        assert forall|k: int| 0 <= k < a.len() implies is_same_file(
            (#[trigger] a[k]).1,
            b[k].1,
        ) by {
            if k > 0 {
                assert(is_same_file(x[k - 1].1, y[k - 1].1));
            }
        }
    }
}

/// What an input adds to the message determines what it holds.
proof fn lemma_input(a: InputState, b: InputState)
    requires
        is_sound(a),
        is_sound(b),
        fingerprint::input_bytes(a) == fingerprint::input_bytes(b),
    ensures
        is_same_input(a, b),
{
    let f = fingerprint::input_bytes(a);
    let g = fingerprint::input_bytes(b);
    assert(f[0] == g[0]);
    match (a, b) {
        (InputState::Tree(x), InputState::Tree(y)) => {
            let s = x.files.entries@;
            let t = y.files.entries@;
            assert(fingerprint::tree_bytes(s, s.len() as int) =~= f.skip(1));
            assert(fingerprint::tree_bytes(t, t.len() as int) =~= g.skip(1));
            lemma_trees(s, t);
        },
        (InputState::Content(x), InputState::Content(y)) => {
            assert(x@ =~= f.skip(1));
            assert(y@ =~= g.skip(1));
        },
        _ => {},
    }
}

proof fn lemma_tree_length(a: Seq<(String, TreeFile)>, b: Seq<(String, TreeFile)>, n: int)
    requires
        are_files(a),
        are_files(b),
        0 <= n <= a.len(),
        a.len() == b.len(),
        forall|k: int|
            0 <= k < a.len() ==> ((#[trigger] a[k]).1.digest is Some) == (b[k].1.digest is Some)
                && a[k].1.path@ == b[k].1.path@,
    ensures
        fingerprint::tree_bytes(a, n).len() == fingerprint::tree_bytes(b, n).len(),
    decreases n,
{
    if n > 0 {
        lemma_tree_length(a, b, n - 1);
        assert(is_sized(a[n - 1].1.digest) && is_sized(b[n - 1].1.digest));
        assert(a[n - 1].1.path@ == b[n - 1].1.path@);
    }
}

proof fn lemma_length(a: InputState, b: InputState)
    requires
        is_sound(a),
        is_sound(b),
        is_same_layout(a, b),
    ensures
        fingerprint::input_bytes(a).len() == fingerprint::input_bytes(b).len(),
{
    if let (InputState::Tree(x), InputState::Tree(y)) = (a, b) {
        let s = x.files.entries@;
        lemma_tree_length(s, y.files.entries@, s.len() as int);
    }
}

spec fn same_size(a: Seq<InputState>, b: Seq<InputState>, i: int) -> bool {
    fingerprint::input_bytes(a[i]).len() == fingerprint::input_bytes(b[i]).len()
}

/// The lengths of what the inputs from `from` to `to` add.
proof fn lemma_lengths(a: Seq<InputState>, b: Seq<InputState>, from: int, to: int)
    requires
        0 <= from <= to,
        forall|i: int| from <= i < to ==> #[trigger] same_size(a, b, i),
    ensures
        fingerprint::inputs_bytes(a, to).len() - fingerprint::inputs_bytes(a, from).len()
            == fingerprint::inputs_bytes(b, to).len() - fingerprint::inputs_bytes(b, from).len(),
    decreases to - from,
{
    if from < to {
        lemma_lengths(a, b, from, to - 1);
        assert(same_size(a, b, to - 1));
    }
}

proof fn lemma_inputs(a: Seq<InputState>, b: Seq<InputState>, n: int)
    requires
        0 <= n <= a.len(),
        a.len() == b.len(),
        forall|i: int| 0 <= i < n ==> #[trigger] same_size(a, b, i),
        fingerprint::inputs_bytes(a, n) == fingerprint::inputs_bytes(b, n),
    ensures
        forall|i: int|
            0 <= i < n ==> fingerprint::input_bytes(#[trigger] a[i]) == fingerprint::input_bytes(
                b[i],
            ),
    decreases n,
{
    if n > 0 {
        let f = fingerprint::inputs_bytes(a, n - 1);
        let g = fingerprint::inputs_bytes(b, n - 1);
        let whole = fingerprint::inputs_bytes(a, n);
        lemma_lengths(a, b, 0, n - 1);
        assert(f =~= whole.take(f.len() as int));
        assert(g =~= whole.take(g.len() as int));
        assert(same_size(a, b, n - 1));
        assert(fingerprint::input_bytes(a[n - 1]) =~= whole.skip(f.len() as int));
        assert(fingerprint::input_bytes(b[n - 1]) =~= whole.skip(g.len() as int));
        lemma_inputs(a, b, n - 1);
    }
}

/// What the inputs of a task hold shows in the message: with task, context and
/// tool as they were, any change to them changes it. The content of any number
/// of files may change, and besides one input, at position `p`, may become
/// anything else: files added to its tree, taken away, renamed or no longer
/// readable, or the input no longer there. What a file that cannot be read is
/// called is the one thing that does not show.
pub proof fn law_inputs_show_in_the_message(
    task: Task,
    ctx: FingerprintContext,
    a: Seq<InputState>,
    b: Seq<InputState>,
    tool: Option<ToolFile>,
    p: int,
)
    requires
        a.len() == b.len(),
        forall|i: int| 0 <= i < a.len() ==> is_sound(#[trigger] a[i]) && is_sound(b[i]),
        forall|i: int| 0 <= i < a.len() && i != p ==> is_same_layout(#[trigger] a[i], b[i]),
        exists|i: int| 0 <= i < a.len() && !is_same_input(#[trigger] a[i], b[i]),
    ensures
        fingerprint::message_of(task, ctx, a, tool) != fingerprint::message_of(task, ctx, b, tool),
{
    let n = a.len() as int;
    let m = fingerprint::message_of(task, ctx, a, tool);
    let o = fingerprint::message_of(task, ctx, b, tool);
    if m == o {
        let head = fingerprint::utf8(ctx.plugin_version@) + seq![0u8] + fingerprint::utf8(
            ctx.config_hash@,
        ) + seq![0u8];
        let tail = seq![0u8] + fingerprint::utf8(fingerprint::action_text(task.action)) + if task.action is RunTool {
            fingerprint::tool_bytes(tool)
        } else {
            Seq::<u8>::empty()
        };
        let f = fingerprint::inputs_bytes(a, n);
        let g = fingerprint::inputs_bytes(b, n);
        assert(m =~= head + f + tail);
        assert(o =~= head + g + tail);
        assert(f.len() == g.len());
        assert(f =~= m.subrange(head.len() as int, (head.len() + f.len()) as int));
        assert(g =~= o.subrange(head.len() as int, (head.len() + g.len()) as int));
        assert forall|i: int| 0 <= i < n && i != p implies #[trigger] same_size(a, b, i) by {
            assert(is_sound(a[i]));
            lemma_length(a[i], b[i]);
        }
        if 0 <= p < n {
            lemma_lengths(a, b, 0, p);
            lemma_lengths(a, b, p + 1, n);
            assert(fingerprint::inputs_bytes(a, 0).len() == fingerprint::inputs_bytes(b, 0).len());
            assert(same_size(a, b, p));
        }
        lemma_inputs(a, b, n);
        let i = choose|i: int| 0 <= i < a.len() && !is_same_input(#[trigger] a[i], b[i]);
        assert(fingerprint::input_bytes(a[i]) == fingerprint::input_bytes(b[i]));
        assert(is_sound(a[i]));
        lemma_input(a[i], b[i]);
    }
}

/// The versions of the plugins and the hash of the configuration show in the
/// message: another context gives another message.
pub proof fn law_context_shows_in_the_message(
    task: Task,
    a: FingerprintContext,
    b: FingerprintContext,
    inputs: Seq<InputState>,
    tool: Option<ToolFile>,
)
    requires
        has_no_nul(a.plugin_version@) && has_no_nul(a.config_hash@),
        has_no_nul(b.plugin_version@) && has_no_nul(b.config_hash@),
        a.plugin_version@ != b.plugin_version@ || a.config_hash@ != b.config_hash@,
    ensures
        fingerprint::message_of(task, a, inputs, tool) != fingerprint::message_of(
            task,
            b,
            inputs,
            tool,
        ),
{
    let m = fingerprint::message_of(task, a, inputs, tool);
    let o = fingerprint::message_of(task, b, inputs, tool);
    if m == o {
        let p = fingerprint::utf8(a.plugin_version@);
        let q = fingerprint::utf8(b.plugin_version@);
        let r = fingerprint::utf8(a.config_hash@);
        let s = fingerprint::utf8(b.config_hash@);
        let rest = fingerprint::inputs_bytes(inputs, inputs.len() as int) + seq![0u8]
            + fingerprint::utf8(fingerprint::action_text(task.action)) + if task.action is RunTool {
            fingerprint::tool_bytes(tool)
        } else {
            Seq::<u8>::empty()
        };
        lemma_no_zero(a.plugin_version@);
        lemma_no_zero(b.plugin_version@);
        lemma_no_zero(a.config_hash@);
        lemma_no_zero(b.config_hash@);
        assert(m =~= p + seq![0u8] + (r + seq![0u8] + rest));
        assert(o =~= q + seq![0u8] + (s + seq![0u8] + rest));
        lemma_up_to_zero(p, q, r + seq![0u8] + rest, s + seq![0u8] + rest);
        lemma_up_to_zero(r, s, rest, rest);
        lemma_same_text(a.plugin_version@, b.plugin_version@);
        lemma_same_text(a.config_hash@, b.config_hash@);
    }
}

/// Whether two tool files are the same: both are missing, or both are at the
/// same place with the same content, or unreadable alike.
pub open spec fn is_same_tool(a: Option<ToolFile>, b: Option<ToolFile>) -> bool {
    match (a, b) {
        (Some(x), Some(y)) => x.path@ == y.path@ && match (x.digest, y.digest) {
            (Some(d), Some(e)) => d@ == e@,
            (None, None) => true,
            _ => false,
        },
        (None, None) => true,
        _ => false,
    }
}

/// The file that a tool runs shows in the message of a task that runs one:
/// another install, at another place or with other content, gives another
/// message.
pub proof fn law_tool_shows_in_the_message(
    task: Task,
    ctx: FingerprintContext,
    inputs: Seq<InputState>,
    a: Option<ToolFile>,
    b: Option<ToolFile>,
)
    requires
        task.action is RunTool,
        a matches Some(file) ==> has_no_nul(file.path@) && is_sized(file.digest),
        b matches Some(file) ==> has_no_nul(file.path@) && is_sized(file.digest),
        !is_same_tool(a, b),
    ensures
        fingerprint::message_of(task, ctx, inputs, a) != fingerprint::message_of(
            task,
            ctx,
            inputs,
            b,
        ),
{
    let m = fingerprint::message_of(task, ctx, inputs, a);
    let o = fingerprint::message_of(task, ctx, inputs, b);
    if m == o {
        let head = fingerprint::utf8(ctx.plugin_version@) + seq![0u8] + fingerprint::utf8(
            ctx.config_hash@,
        ) + seq![0u8] + fingerprint::inputs_bytes(inputs, inputs.len() as int) + seq![0u8]
            + fingerprint::utf8(fingerprint::action_text(task.action));
        let f = fingerprint::tool_bytes(a);
        let g = fingerprint::tool_bytes(b);
        assert(f =~= m.skip(head.len() as int));
        assert(g =~= o.skip(head.len() as int));
        match (a, b) {
            (Some(x), Some(y)) => {
                let p = fingerprint::utf8(x.path@);
                let q = fingerprint::utf8(y.path@);
                let d = match x.digest {
                    Some(digest) => digest@,
                    None => seq![0u8],
                };
                let e = match y.digest {
                    Some(digest) => digest@,
                    None => seq![0u8],
                };
                lemma_no_zero(x.path@);
                lemma_no_zero(y.path@);
                assert(p + seq![0u8] + d =~= f.skip(1));
                assert(q + seq![0u8] + e =~= g.skip(1));
                lemma_up_to_zero(p, q, d, e);
                lemma_same_text(x.path@, y.path@);
            },
            (Some(x), None) => {
                lemma_unresolved();
                assert(f[0] == 3 && g[0] == 'u' as u8);
            },
            (None, Some(y)) => {
                lemma_unresolved();
                assert(g[0] == 3 && f[0] == 'u' as u8);
            },
            (None, None) => {},
        }
    }
}

proof fn lemma_unresolved()
    ensures
        fingerprint::utf8("unresolved-tool"@).len() > 0,
        fingerprint::utf8("unresolved-tool"@)[0] == 'u' as u8,
{
    reveal_strlit("unresolved-tool");
    fingerprint::lemma_first_byte("unresolved-tool"@, 'u');
}

/// The files of a tree stand in the order of their paths, part by part: what lies
/// in a directory comes before what only starts with its name.
pub proof fn law_trees_are_ordered_by_parts(
    dir: Seq<char>,
    inside: Seq<char>,
    c: char,
    behind: Seq<char>,
)
    requires
        c != '/',
        '\u{0}' < c,
    ensures
        text::compare_text(
            fingerprint::sort_key(dir + seq!['/'] + inside),
            fingerprint::sort_key(dir + seq![c] + behind),
        ) == Relation::Less,
{
    let common = fingerprint::sort_key(dir);
    let low = fingerprint::sort_key(inside);
    let high = fingerprint::sort_key(behind);
    assert(fingerprint::sort_key(dir + seq!['/'] + inside) =~= common + seq!['\u{0}'] + low);
    assert(fingerprint::sort_key(dir + seq![c] + behind) =~= common + seq![c] + high);
    text_laws::law_first_difference_decides(common, '\u{0}', low, c, high);
}

/// Paths without the null character have different places where they differ.
pub proof fn law_files_have_their_own_places(a: Seq<char>, b: Seq<char>)
    requires
        text_laws::lacks(a, '\u{0}'),
        text_laws::lacks(b, '\u{0}'),
        fingerprint::sort_key(a) == fingerprint::sort_key(b),
    ensures
        a == b,
{
    let x = fingerprint::sort_key(a);
    let y = fingerprint::sort_key(b);
    assert(a.len() == x.len() && b.len() == y.len());
    assert forall|i: int| 0 <= i < a.len() implies a[i] == b[i] by {
        assert(x[i] == y[i]);
        assert(a[i] != '\u{0}' && b[i] != '\u{0}');
    }
    assert(a =~= b);
}

proof fn lemma_inputs_start(inputs: Seq<InputState>, k: int, n: int)
    requires
        0 <= k <= n <= inputs.len(),
    ensures
        fingerprint::inputs_bytes(inputs, k).len() <= fingerprint::inputs_bytes(inputs, n).len(),
        fingerprint::inputs_bytes(inputs, n).take(
            fingerprint::inputs_bytes(inputs, k).len() as int,
        ) == fingerprint::inputs_bytes(inputs, k),
    decreases n - k,
{
    let whole = fingerprint::inputs_bytes(inputs, n);
    let start = fingerprint::inputs_bytes(inputs, k);
    if k < n {
        lemma_inputs_start(inputs, k, n - 1);
        let before = fingerprint::inputs_bytes(inputs, n - 1);
        assert(whole.take(start.len() as int) =~= before.take(start.len() as int));
    } else {
        assert(whole.take(start.len() as int) =~= start);
    }
}

/// The first byte of what is hashed of an input tells what it is.
proof fn lemma_tags(input: InputState)
    requires
        is_sound(input),
    ensures
        fingerprint::input_bytes(input).len() > 0,
        input is Absent ==> fingerprint::input_bytes(input)[0] == 0
            && fingerprint::input_bytes(input).len() == 1,
        input is Content ==> fingerprint::input_bytes(input)[0] == 1
            && fingerprint::input_bytes(input).len() == 33,
        input is Tree ==> fingerprint::input_bytes(input)[0] == 2,
{
}

proof fn lemma_files(a: Seq<InputState>, b: Seq<InputState>, n: int, i: int)
    requires
        a.len() == n && b.len() == n,
        0 <= i <= n,
        forall|j: int| 0 <= j < n ==> is_sound(#[trigger] a[j]) && is_sound(b[j]),
        forall|j: int| 0 <= j < n - 1 ==> !(#[trigger] a[j] is Tree) && !(b[j] is Tree),
        fingerprint::inputs_bytes(a, n) == fingerprint::inputs_bytes(b, n),
        fingerprint::inputs_bytes(a, i) == fingerprint::inputs_bytes(b, i),
    ensures
        forall|j: int|
            i <= j < n ==> fingerprint::input_bytes(#[trigger] a[j]) == fingerprint::input_bytes(
                b[j],
            ),
    decreases n - i,
{
    if i < n {
        let whole = fingerprint::inputs_bytes(a, n);
        let start = fingerprint::inputs_bytes(a, i);
        let f = fingerprint::inputs_bytes(a, i + 1);
        let g = fingerprint::inputs_bytes(b, i + 1);
        let x = fingerprint::input_bytes(a[i]);
        let y = fingerprint::input_bytes(b[i]);
        lemma_inputs_start(a, i + 1, n);
        lemma_inputs_start(b, i + 1, n);
        assert(is_sound(a[i]));
        lemma_tags(a[i]);
        lemma_tags(b[i]);
        let at = start.len() as int;
        assert(whole.take(f.len() as int)[at] == x[0]);
        assert(whole.take(g.len() as int)[at] == y[0]);
        if i < n - 1 {
            assert(!(a[i] is Tree) && !(b[i] is Tree));
            assert(x.len() == y.len());
        } else {
            assert(f == whole && g == whole);
        }
        assert(f == g);
        assert(x =~= f.skip(at));
        assert(y =~= g.skip(at));
        lemma_files(a, b, n, i + 1);
    }
}

/// Which inputs are there, and what those that are hold, shows in the message:
/// where the inputs before the last are files, or not there, any change to any
/// number of them changes it, and any change to the last.
pub proof fn law_all_changes_show_in_the_message(
    task: Task,
    ctx: FingerprintContext,
    a: Seq<InputState>,
    b: Seq<InputState>,
    tool: Option<ToolFile>,
)
    requires
        a.len() == b.len(),
        forall|i: int| 0 <= i < a.len() ==> is_sound(#[trigger] a[i]) && is_sound(b[i]),
        forall|i: int| 0 <= i < a.len() - 1 ==> !(#[trigger] a[i] is Tree) && !(b[i] is Tree),
        exists|i: int| 0 <= i < a.len() && !is_same_input(#[trigger] a[i], b[i]),
    ensures
        fingerprint::message_of(task, ctx, a, tool) != fingerprint::message_of(task, ctx, b, tool),
{
    let n = a.len() as int;
    let m = fingerprint::message_of(task, ctx, a, tool);
    let o = fingerprint::message_of(task, ctx, b, tool);
    if m == o {
        let head = fingerprint::utf8(ctx.plugin_version@) + seq![0u8] + fingerprint::utf8(
            ctx.config_hash@,
        ) + seq![0u8];
        let tail = seq![0u8] + fingerprint::utf8(fingerprint::action_text(task.action)) + if task.action is RunTool {
            fingerprint::tool_bytes(tool)
        } else {
            Seq::<u8>::empty()
        };
        let f = fingerprint::inputs_bytes(a, n);
        let g = fingerprint::inputs_bytes(b, n);
        assert(m =~= head + f + tail);
        assert(o =~= head + g + tail);
        assert(f.len() == g.len());
        assert(f =~= m.subrange(head.len() as int, (head.len() + f.len()) as int));
        assert(g =~= o.subrange(head.len() as int, (head.len() + g.len()) as int));
        lemma_files(a, b, n, 0);
        let i = choose|i: int| 0 <= i < a.len() && !is_same_input(#[trigger] a[i], b[i]);
        assert(fingerprint::input_bytes(a[i]) == fingerprint::input_bytes(b[i]));
        assert(is_sound(a[i]));
        lemma_input(a[i], b[i]);
    }
}

} // verus!
