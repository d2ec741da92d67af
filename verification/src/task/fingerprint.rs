//! What a task's run depends on, as a digest.
//!
//! The fingerprint of a task is the SHA-256 digest of a message made of the
//! plugin version, the configuration hash, what its declared inputs hold, a
//! rendering of its action and, for an action that runs a tool, the file that
//! runs and what it holds.

use vstd::prelude::*;
use crate::digest;
use crate::text_map;
use crate::text_map::TextMap;
use crate::task;
use crate::task::{Task, TaskAction};
use crate::text;

verus! {

/// Inputs to a task's fingerprint beyond its own input files: the plugin
/// version that registered the task and a caller-computed, content-addressed
/// hash of the configuration the task came from.
#[derive(Debug, PartialEq, Eq)]
pub struct FingerprintContext {
    /// Version of the plugin the task was registered by.
    pub plugin_version: String,
    /// Hash of the resolved module config and `.ulb` sources the task
    /// depends on.
    pub config_hash: String,
}

/// A file of a directory tree.
#[derive(Debug, PartialEq, Eq)]
pub struct TreeFile {
    /// The path below the directory, its parts separated by `/`.
    pub path: String,
    /// The SHA-256 digest of the content; `None` where the file cannot be
    /// read.
    pub digest: Option<Vec<u8>>,
}

/// The files of a directory tree, in the order of their paths: paths compare
/// part by part.
#[derive(Debug, PartialEq, Eq)]
pub struct FileTree {
    /// The files, by [`sort_key`].
    pub files: TextMap<TreeFile>,
}

/// The text that orders paths part by part: the separators count less than
/// any character of a name.
pub open spec fn sort_key(path: Seq<char>) -> Seq<char> {
    text::replace_text(path, '/', '\u{0}')
}

impl FileTree {
    /// Whether the files are in order, each under its own key.
    pub open spec fn wf(&self) -> bool {
        self.files.wf()
    }

    /// An empty tree.
    pub fn new() -> (tree: FileTree)
        ensures
            tree.wf(),
            tree.files@ == Map::<Seq<char>, TreeFile>::empty(),
    {
        FileTree { files: TextMap::new() }
    }

    /// Adds a file.
    pub fn add(&mut self, file: TreeFile)
        requires
            old(self).wf(),
        ensures
            final(self).wf(),
            final(self).files@ == old(self).files@.insert(sort_key(file.path@), file),
    {
        let key = text::replace(&file.path, '/', '\u{0}');
        self.files.insert(key, file);
    }
}

/// What a declared input holds when a task is scheduled.
#[derive(Debug, PartialEq, Eq)]
pub enum InputState {
    /// A directory with these files.
    Tree(FileTree),
    /// A file whose content has this SHA-256 digest.
    Content(Vec<u8>),
    /// Nothing that can be read.
    Absent,
}

/// The file that an action's tool runs.
#[derive(Debug, PartialEq, Eq)]
pub struct ToolFile {
    /// The path of the file.
    pub path: String,
    /// The SHA-256 digest of its content; `None` where it cannot be read.
    pub digest: Option<Vec<u8>>,
}

/// The bytes of a text in UTF-8.
pub open spec fn utf8(s: Seq<char>) -> Seq<u8> {
    vstd::utf8::encode_utf8(s)
}

/// What a file of a tree adds to the message.
pub open spec fn file_bytes(file: TreeFile) -> Seq<u8> {
    match file.digest {
        Some(digest) => seq![1u8] + utf8(file.path@) + seq![0u8] + digest@,
        None => seq![0u8],
    }
}

/// What the first `n` files of a tree add to the message.
pub open spec fn tree_bytes(entries: Seq<(String, TreeFile)>, n: int) -> Seq<u8>
    decreases n,
{
    if n <= 0 {
        Seq::empty()
    } else {
        tree_bytes(entries, n - 1) + file_bytes(entries[n - 1].1)
    }
}

/// What an input adds to the message.
pub open spec fn input_bytes(input: InputState) -> Seq<u8> {
    match input {
        InputState::Tree(tree) => seq![2u8] + tree_bytes(
            tree.files.entries@,
            tree.files.entries@.len() as int,
        ),
        InputState::Content(digest) => seq![1u8] + digest@,
        InputState::Absent => seq![0u8],
    }
}

/// What the first `n` inputs add to the message.
pub open spec fn inputs_bytes(inputs: Seq<InputState>, n: int) -> Seq<u8>
    decreases n,
{
    if n <= 0 {
        Seq::empty()
    } else {
        inputs_bytes(inputs, n - 1) + input_bytes(inputs[n - 1])
    }
}

/// A text behind its length, so that its end shows whatever it holds.
pub open spec fn sized_text(s: Seq<char>) -> Seq<char> {
    text::decimal_text(s.len()) + ":"@ + s
}

/// Texts behind their lengths, with a bracket behind the last.
pub open spec fn list_text(list: Seq<Seq<char>>) -> Seq<char>
    decreases list.len(),
{
    if list.len() == 0 {
        "]"@
    } else {
        sized_text(list.first()) + list_text(list.drop_first())
    }
}

/// A canonical rendering of an action.
pub open spec fn action_text(action: TaskAction) -> Seq<char> {
    match action {
        TaskAction::Copy { from, to } => "copy "@ + (sized_text(from@) + sized_text(to@)),
        TaskAction::WriteFile { to, contents } => "write "@ + (sized_text(to@) + sized_text(
            contents@,
        )),
        TaskAction::RunTool { tool, args, cwd } => "tool "@ + (sized_text(task::tool_name(tool)) + (
        sized_text(cwd@) + list_text(text::texts(args@)))),
    }
}

/// What the file an action runs adds to the message.
pub open spec fn tool_bytes(tool: Option<ToolFile>) -> Seq<u8> {
    match tool {
        Some(file) => seq![3u8] + utf8(file.path@) + seq![0u8] + match file.digest {
            Some(digest) => digest@,
            None => seq![0u8],
        },
        None => utf8("unresolved-tool"@),
    }
}

/// The message whose digest is a task's fingerprint.
pub open spec fn message_of(
    task: Task,
    ctx: FingerprintContext,
    inputs: Seq<InputState>,
    tool: Option<ToolFile>,
) -> Seq<u8> {
    let head = utf8(ctx.plugin_version@) + seq![0u8] + utf8(ctx.config_hash@) + seq![0u8]
        + inputs_bytes(inputs, inputs.len() as int) + seq![0u8] + utf8(action_text(task.action));
    if task.action is RunTool {
        head + tool_bytes(tool)
    } else {
        head
    }
}

fn sized(s: &str) -> (sized: String)
    ensures
        sized@ == sized_text(s@),
{
    text::decimal(s.unicode_len() as u64).concat(":").concat(s)
}

fn sized_list(list: &Vec<String>) -> (s: String)
    ensures
        s@ == list_text(text::texts(list@)),
{
    let ghost all = text::texts(list@);
    let mut s = String::new();
    let mut i: usize = 0;
    assert(all.skip(0) == all);
    assert(s@ + list_text(all) == list_text(all));
    while i < list.len()
        invariant
            all == text::texts(list@),
            i <= list@.len(),
            s@ + list_text(all.skip(i as int)) == list_text(all),
        decreases list.len() - i,
    {
        let piece = sized(&list[i]);
        assert(all.skip(i as int).drop_first() == all.skip(i + 1));
        assert(s@ + (piece@ + list_text(all.skip(i + 1))) == (s@ + piece@) + list_text(
            all.skip(i + 1),
        ));
        s = s.concat(&piece);
        i += 1;
    }
    s.concat("]")
}

/// A canonical rendering of an action, stable across runs so equal actions
/// hash equally, and different for different actions.
pub fn render_action(action: &TaskAction) -> (s: String)
    ensures
        s@ == action_text(*action),
{
    match action {
        TaskAction::Copy { from, to } => "copy ".to_owned().concat(&sized(from).concat(&sized(to))),
        TaskAction::WriteFile { to, contents } => "write ".to_owned().concat(
            &sized(to).concat(&sized(contents)),
        ),
        TaskAction::RunTool { tool, args, cwd } => "tool ".to_owned().concat(
            &sized(tool.as_str()).concat(&sized(cwd).concat(&sized_list(args))),
        ),
    }
}

fn add_bytes(message: &mut Vec<u8>, bytes: &[u8])
    ensures
        final(message)@ == old(message)@ + bytes@,
{
    let ghost before = message@;
    let mut i: usize = 0;
    assert(before + bytes@.take(0) == before);
    while i < bytes.len()
        invariant
            i <= bytes@.len(),
            message@ == before + bytes@.take(i as int),
        decreases bytes.len() - i,
    {
        message.push(bytes[i]);
        assert(before + bytes@.take(i + 1) == (before + bytes@.take(i as int)).push(
            bytes@[i as int],
        ));
        i += 1;
    }
    assert(bytes@.take(i as int) == bytes@);
}

fn add_text(message: &mut Vec<u8>, s: &str)
    ensures
        final(message)@ == old(message)@ + utf8(s@),
{
    add_bytes(message, s.as_bytes());
}

fn add_byte(message: &mut Vec<u8>, byte: u8)
    ensures
        final(message)@ == old(message)@ + seq![byte],
{
    let ghost before = message@;
    message.push(byte);
    assert(message@ == before + seq![byte]);
}

fn add_file(message: &mut Vec<u8>, file: &TreeFile)
    ensures
        final(message)@ == old(message)@ + file_bytes(*file),
{
    let ghost before = message@;
    match &file.digest {
        Some(digest) => {
            add_byte(message, 1);
            add_text(message, &file.path);
            add_byte(message, 0);
            add_bytes(message, digest);
            assert(message@ == before + (seq![1u8] + utf8(file.path@) + seq![0u8] + digest@));
        },
        None => add_byte(message, 0),
    }
}

fn add_input(message: &mut Vec<u8>, input: &InputState)
    ensures
        final(message)@ == old(message)@ + input_bytes(*input),
{
    let ghost before = message@;
    match input {
        InputState::Tree(tree) => {
            add_byte(message, 2);
            let entries = &tree.files.entries;
            let mut i: usize = 0;
            assert(message@ == before + (seq![2u8] + tree_bytes(entries@, 0)));
            while i < entries.len()
                invariant
                    i <= entries@.len(),
                    message@ == before + (seq![2u8] + tree_bytes(entries@, i as int)),
                decreases entries.len() - i,
            {
                let ghost was = message@;
                add_file(message, &entries[i].1);
                assert(was + file_bytes(entries@[i as int].1) == before + (seq![2u8] + (tree_bytes(
                    entries@,
                    i as int,
                ) + file_bytes(entries@[i as int].1))));
                i += 1;
            }
        },
        InputState::Content(digest) => {
            add_byte(message, 1);
            add_bytes(message, digest);
            assert(message@ == before + (seq![1u8] + digest@));
        },
        InputState::Absent => add_byte(message, 0),
    }
}

fn add_tool(message: &mut Vec<u8>, tool: &Option<ToolFile>)
    ensures
        final(message)@ == old(message)@ + tool_bytes(*tool),
{
    let ghost before = message@;
    match tool {
        Some(file) => {
            add_byte(message, 3);
            add_text(message, &file.path);
            add_byte(message, 0);
            match &file.digest {
                Some(digest) => {
                    add_bytes(message, digest);
                    assert(message@ == before + (seq![3u8] + utf8(file.path@) + seq![0u8]
                        + digest@));
                },
                None => {
                    add_byte(message, 0);
                    assert(message@ == before + (seq![3u8] + utf8(file.path@) + seq![0u8]
                        + seq![0u8]));
                },
            }
        },
        None => add_text(message, "unresolved-tool"),
    }
}

/// The message whose digest is the fingerprint of `task`: `inputs` is what its
/// declared inputs hold, in order, and `tool` the file that its action's tool
/// runs.
pub fn fingerprint_message(
    task: &Task,
    ctx: &FingerprintContext,
    inputs: &Vec<InputState>,
    tool: &Option<ToolFile>,
) -> (message: Vec<u8>)
    ensures
        message@ == message_of(*task, *ctx, inputs@, *tool),
{
    let mut message: Vec<u8> = Vec::new();
    add_text(&mut message, &ctx.plugin_version);
    assert(message@ == utf8(ctx.plugin_version@));
    add_byte(&mut message, 0);
    add_text(&mut message, &ctx.config_hash);
    add_byte(&mut message, 0);
    let ghost head = message@;
    let mut i: usize = 0;
    assert(head + inputs_bytes(inputs@, 0) == head);
    while i < inputs.len()
        invariant
            i <= inputs@.len(),
            message@ == head + inputs_bytes(inputs@, i as int),
        decreases inputs.len() - i,
    {
        let ghost was = message@;
        add_input(&mut message, &inputs[i]);
        assert(was + input_bytes(inputs@[i as int]) == head + (inputs_bytes(inputs@, i as int)
            + input_bytes(inputs@[i as int])));
        i += 1;
    }
    add_byte(&mut message, 0);
    add_text(&mut message, &render_action(&task.action));
    if let TaskAction::RunTool { .. } = &task.action {
        add_tool(&mut message, tool);
    }
    message
}

/// Content-addressed fingerprint of a task's inputs: the plugin version, the
/// configuration hash, the contents of each declared input file (missing
/// inputs hash as absent), a directory input hashed as its tree of relative
/// paths and file contents, a rendering of the action itself so a changed
/// action forces a rerun, and, for `run-tool` actions, the resolved
/// executable's path and content digest so a switched tool install
/// invalidates the task.
pub fn fingerprint(
    task: &Task,
    ctx: &FingerprintContext,
    inputs: &Vec<InputState>,
    tool: &Option<ToolFile>,
) -> (hex: String)
    requires
        message_of(*task, *ctx, inputs@, *tool).len() <= digest::MAX_MESSAGE,
    ensures
        hex@ == text::hex_text(digest::sha256(message_of(*task, *ctx, inputs@, *tool))),
{
    digest::hex_digest(&fingerprint_message(task, ctx, inputs, tool))
}

proof fn lemma_tree_bytes(a: Seq<(String, TreeFile)>, b: Seq<(String, TreeFile)>, n: int)
    requires
        0 <= n <= a.len(),
        a.len() == b.len(),
        forall|i: int| 0 <= i < a.len() ==> (#[trigger] a[i]).1 == b[i].1,
    ensures
        tree_bytes(a, n) == tree_bytes(b, n),
    decreases n,
{
    if n > 0 {
        lemma_tree_bytes(a, b, n - 1);
        assert(a[n - 1].1 == b[n - 1].1);
    }
}

/// The order in which the files of a directory are found does not matter: two
/// trees with the same files add the same to the message.
pub proof fn law_file_order_is_irrelevant(a: FileTree, b: FileTree)
    requires
        a.wf(),
        b.wf(),
        a.files@ == b.files@,
    ensures
        input_bytes(InputState::Tree(a)) == input_bytes(InputState::Tree(b)),
{
    text_map::law_order_is_canonical(a.files, b.files);
    lemma_tree_bytes(a.files.entries@, b.files.entries@, a.files.entries@.len() as int);
}

proof fn lemma_digit_char(value: nat)
    requires
        value < 10,
    ensures
        text::is_digit(text::digit_char(value)),
        text::digit_char(value) as nat - '0' as nat == value,
{
    reveal_strlit("0123456789abcdef");
    let digits = "0123456789abcdef"@;
    assert(digits[0] == '0' && digits[1] == '1' && digits[2] == '2' && digits[3] == '3');
    assert(digits[4] == '4' && digits[5] == '5' && digits[6] == '6' && digits[7] == '7');
    assert(digits[8] == '8' && digits[9] == '9');
}

proof fn lemma_decimal(value: nat)
    ensures
        text::decimal_text(value).len() > 0,
        text::all_digits(text::decimal_text(value)),
        text::digits_value(text::decimal_text(value)) == value,
    decreases value,
{
    let s = text::decimal_text(value);
    lemma_digit_char(value % 10);
    if value < 10 {
        assert(s.drop_last() == Seq::<char>::empty());
        assert(s.last() == text::digit_char(value));
        assert(text::digits_value(s.drop_last()) == 0);
    } else {
        lemma_decimal(value / 10);
        assert(s.last() == text::digit_char(value % 10));
        let before = text::decimal_text(value / 10);
        assert(s.drop_last() == before);
        assert forall|i: int| 0 <= i < s.len() implies text::is_digit(#[trigger] s[i]) by {
            if i < before.len() {
                assert(text::is_digit(before[i]));
            }
        }
    }
}

/// The front of a text that is a text behind its length is determined by the
/// whole.
proof fn lemma_sized(a: Seq<char>, b: Seq<char>, x: Seq<char>, y: Seq<char>)
    requires
        sized_text(a) + x == sized_text(b) + y,
    ensures
        a == b,
        x == y,
{
    reveal_strlit(":");
    let m = text::decimal_text(a.len());
    let n = text::decimal_text(b.len());
    let whole = sized_text(a) + x;
    lemma_decimal(a.len());
    lemma_decimal(b.len());
    assert(whole == m + (":"@ + a + x));
    assert(whole == n + (":"@ + b + y));
    assert(whole[m.len() as int] == ':');
    assert(whole[n.len() as int] == ':');
    if m.len() < n.len() {
        assert(whole[m.len() as int] == n[m.len() as int]);
        assert(text::is_digit(n[m.len() as int]));
    }
    if n.len() < m.len() {
        assert(whole[n.len() as int] == m[n.len() as int]);
        assert(text::is_digit(m[n.len() as int]));
    }
    assert(m == whole.take(m.len() as int));
    assert(n == whole.take(n.len() as int));
    assert(a.len() == b.len());
    let at: int = m.len() as int + 1;
    assert(a == whole.subrange(at, at + a.len()));
    assert(b == whole.subrange(at, at + b.len()));
    assert(x == whole.skip(at + a.len()));
    assert(y == whole.skip(at + b.len()));
}

proof fn lemma_list(a: Seq<Seq<char>>, b: Seq<Seq<char>>, x: Seq<char>, y: Seq<char>)
    requires
        list_text(a) + x == list_text(b) + y,
    ensures
        a == b,
        x == y,
    decreases a.len() + b.len(),
{
    reveal_strlit("]");
    if a.len() > 0 && b.len() > 0 {
        let p = list_text(a.drop_first()) + x;
        let q = list_text(b.drop_first()) + y;
        assert(list_text(a) + x == sized_text(a.first()) + p);
        assert(list_text(b) + y == sized_text(b.first()) + q);
        lemma_sized(a.first(), b.first(), p, q);
        lemma_list(a.drop_first(), b.drop_first(), x, y);
        assert(a == seq![a.first()] + a.drop_first());
        assert(b == seq![b.first()] + b.drop_first());
    } else if a.len() > 0 {
        lemma_list_start(a, x);
        assert((list_text(b) + y)[0] == ']');
    } else if b.len() > 0 {
        lemma_list_start(b, y);
        assert((list_text(a) + x)[0] == ']');
    } else {
        assert(x == (list_text(a) + x).skip(1));
        assert(y == (list_text(b) + y).skip(1));
        assert(a == b);
    }
}

proof fn lemma_list_start(list: Seq<Seq<char>>, x: Seq<char>)
    requires
        list.len() > 0,
    ensures
        text::is_digit((list_text(list) + x)[0]),
{
    let first = text::decimal_text(list.first().len());
    lemma_decimal(list.first().len());
    assert((list_text(list) + x)[0] == first[0]);
    assert(text::is_digit(first[0]));
}

/// Whether two actions are the same.
pub open spec fn same_action(a: TaskAction, b: TaskAction) -> bool {
    match (a, b) {
        (TaskAction::Copy { from, to }, TaskAction::Copy { from: other_from, to: other_to }) => from@
            == other_from@ && to@ == other_to@,
        (
            TaskAction::WriteFile { to, contents },
            TaskAction::WriteFile { to: other_to, contents: other },
        ) => to@ == other_to@ && contents@ == other@,
        (
            TaskAction::RunTool { tool, args, cwd },
            TaskAction::RunTool { tool: other_tool, args: other_args, cwd: other_cwd },
        ) => tool == other_tool && text::texts(args@) == text::texts(other_args@) && cwd@
            == other_cwd@,
        _ => false,
    }
}

/// The word that an action's rendering starts with, and what follows it.
spec fn parts_of(action: TaskAction) -> (Seq<char>, Seq<char>) {
    match action {
        TaskAction::Copy { from, to } => ("copy "@, sized_text(from@) + sized_text(to@)),
        TaskAction::WriteFile { to, contents } => (
            "write "@,
            sized_text(to@) + sized_text(contents@),
        ),
        TaskAction::RunTool { tool, args, cwd } => (
            "tool "@,
            sized_text(task::tool_name(tool)) + (sized_text(cwd@) + list_text(text::texts(args@))),
        ),
    }
}

/// Two texts behind their lengths are determined by the whole.
proof fn lemma_two_sized(
    a: (Seq<char>, Seq<char>),
    b: (Seq<char>, Seq<char>),
    x: Seq<char>,
    y: Seq<char>,
)
    requires
        sized_text(a.0) + sized_text(a.1) + x == sized_text(b.0) + sized_text(b.1) + y,
    ensures
        a == b,
        x == y,
{
    let p = sized_text(a.1) + x;
    let q = sized_text(b.1) + y;
    assert(sized_text(a.0) + sized_text(a.1) + x == sized_text(a.0) + p);
    assert(sized_text(b.0) + sized_text(b.1) + y == sized_text(b.0) + q);
    lemma_sized(a.0, b.0, p, q);
    lemma_sized(a.1, b.1, x, y);
}

/// What an action's rendering holds behind its first word determines it.
proof fn lemma_parts(a: TaskAction, b: TaskAction, x: Seq<char>, y: Seq<char>)
    requires
        (a is Copy) == (b is Copy),
        (a is WriteFile) == (b is WriteFile),
        parts_of(a).1 + x == parts_of(b).1 + y,
    ensures
        same_action(a, b),
        x == y,
{
    match (a, b) {
        (TaskAction::Copy { from, to }, TaskAction::Copy { from: other_from, to: other_to }) => {
            lemma_two_sized((from@, to@), (other_from@, other_to@), x, y);
        },
        (
            TaskAction::WriteFile { to, contents },
            TaskAction::WriteFile { to: other_to, contents: other },
        ) => {
            lemma_two_sized((to@, contents@), (other_to@, other@), x, y);
        },
        (
            TaskAction::RunTool { tool, args, cwd },
            TaskAction::RunTool { tool: other_tool, args: other_args, cwd: other_cwd },
        ) => {
            let m = task::tool_name(tool);
            let n = task::tool_name(other_tool);
            let l = list_text(text::texts(args@));
            let k = list_text(text::texts(other_args@));
            assert(parts_of(a).1 + x == sized_text(m) + sized_text(cwd@) + (l + x));
            assert(parts_of(b).1 + y == sized_text(n) + sized_text(other_cwd@) + (k + y));
            lemma_two_sized((m, cwd@), (n, other_cwd@), l + x, k + y);
            lemma_list(text::texts(args@), text::texts(other_args@), x, y);
            task::law_tool_names_differ(tool, other_tool);
        },
        _ => {},
    }
}

/// Different actions are rendered differently, also with anything behind the
/// rendering, so that a changed action shows in the message.
pub proof fn law_actions_render_apart(a: TaskAction, b: TaskAction, x: Seq<char>, y: Seq<char>)
    requires
        action_text(a) + x == action_text(b) + y,
    ensures
        same_action(a, b),
        x == y,
{
    reveal_strlit("copy ");
    reveal_strlit("write ");
    reveal_strlit("tool ");
    let whole = action_text(a) + x;
    let (p, s) = parts_of(a);
    let (q, t) = parts_of(b);
    assert(action_text(a) == p + s);
    assert(action_text(b) == q + t);
    assert(whole[0] == p[0]);
    assert(whole[0] == q[0]);
    assert(p.len() == q.len());
    assert(s + x == whole.skip(p.len() as int));
    assert(t + y == whole.skip(q.len() as int));
    lemma_parts(a, b, x, y);
}

/// A changed action changes the message, so that its task runs again: with all
/// else as it was, different actions have different messages.
pub proof fn law_actions_show_in_the_message(
    a: Task,
    b: Task,
    ctx: FingerprintContext,
    inputs: Seq<InputState>,
    tool: Option<ToolFile>,
)
    requires
        !same_action(a.action, b.action),
    ensures
        message_of(a, ctx, inputs, tool) != message_of(b, ctx, inputs, tool),
{
    let x = action_text(a.action);
    let y = action_text(b.action);
    let head = utf8(ctx.plugin_version@) + seq![0u8] + utf8(ctx.config_hash@) + seq![0u8]
        + inputs_bytes(inputs, inputs.len() as int) + seq![0u8];
    let m = message_of(a, ctx, inputs, tool);
    let n = message_of(b, ctx, inputs, tool);
    let none = Seq::<char>::empty();
    let tail = tool_bytes(tool);
    vstd::utf8::encode_utf8_decode_utf8(x);
    vstd::utf8::encode_utf8_decode_utf8(y);
    if m == n {
        if (a.action is RunTool) == (b.action is RunTool) {
            let size = if a.action is RunTool {
                m.len() - tail.len()
            } else {
                m.len() as int
            };
            assert(utf8(x) == m.subrange(head.len() as int, size));
            assert(utf8(y) == n.subrange(head.len() as int, size));
            assert(x + none == x && y + none == y);
            law_actions_render_apart(a.action, b.action, none, none);
        } else {
            reveal_strlit("copy ");
            reveal_strlit("write ");
            reveal_strlit("tool ");
            let p = parts_of(a.action).0[0];
            let q = parts_of(b.action).0[0];
            assert(x[0] == p && y[0] == q);
            lemma_first_byte(x, p);
            lemma_first_byte(y, q);
            assert(m[head.len() as int] == utf8(x)[0]);
            assert(n[head.len() as int] == utf8(y)[0]);
        }
    }
}

pub proof fn lemma_first_byte(s: Seq<char>, c: char)
    requires
        s.len() > 0,
        s[0] == c,
        c <= '\u{7f}',
    ensures
        utf8(s).len() > 0,
        utf8(s)[0] == c as u8,
{
    let code = c as u32;
    assert(vstd::utf8::leading_byte_width_1(code) == code as u8) by (bit_vector)
        requires
            code < 128,
    ;
    assert(code as u8 == c as u8);
}

} // verus!
