//! What running a task's action comes down to.

use vstd::prelude::*;
use crate::task;
use crate::task::{AllowlistedTool, Task, TaskAction};
use crate::task::engine::Executor;
use crate::text;

verus! {

/// Whether a tool ships in an Android SDK `build-tools` directory, which the
/// action names as its first argument.
pub open spec fn is_build_tool(tool: AllowlistedTool) -> bool {
    tool == AllowlistedTool::Aapt2 || tool == AllowlistedTool::Apksigner
}

/// The file names a build tool may have in its directory.
pub open spec fn build_tool_names(tool: AllowlistedTool, windows: bool) -> Seq<Seq<char>> {
    if tool == AllowlistedTool::Aapt2 {
        if windows {
            seq!["aapt2.exe"@]
        } else {
            seq!["aapt2"@]
        }
    } else if windows {
        seq!["apksigner.bat"@, "apksigner.exe"@]
    } else {
        seq!["apksigner"@]
    }
}

/// Paths of files with the given names in a directory.
pub open spec fn in_dir(dir: Seq<char>, names: Seq<Seq<char>>) -> Seq<Seq<char>> {
    Seq::new(names.len(), |i: int| text::path_text(dir, names[i]))
}

/// The files that may be the build tool in the directory `dir`, the first that
/// exists being it.
pub fn build_tool_candidates(tool: AllowlistedTool, dir: &str, windows: bool) -> (paths: Vec<
    String,
>)
    ensures
        text::texts(paths@) == in_dir(dir@, build_tool_names(tool, windows)),
{
    let mut paths: Vec<String> = Vec::new();
    if tool == AllowlistedTool::Aapt2 {
        if windows {
            paths.push(text::join_path(dir, "aapt2.exe"));
        } else {
            paths.push(text::join_path(dir, "aapt2"));
        }
    } else if windows {
        paths.push(text::join_path(dir, "apksigner.bat"));
        paths.push(text::join_path(dir, "apksigner.exe"));
    } else {
        paths.push(text::join_path(dir, "apksigner"));
    }
    assert(text::texts(paths@) == in_dir(dir@, build_tool_names(tool, windows)));
    paths
}

/// The extensions that a search for an executable tries where extensions mark
/// them, given the entries of the variable that lists them; the entries'
/// leading dots are not part of them.
pub open spec fn extensions_of(entries: Seq<Seq<char>>) -> Seq<Seq<char>>
    decreases entries.len(),
{
    if entries.len() == 0 {
        Seq::empty()
    } else {
        let before = extensions_of(entries.drop_last());
        let extension = undotted(entries.last());
        if extension.len() > 0 {
            before.push(extension)
        } else {
            before
        }
    }
}

/// A text without its leading dots.
pub open spec fn undotted(s: Seq<char>) -> Seq<char>
    decreases s.len(),
{
    if s.len() > 0 && s[0] == '.' {
        undotted(s.drop_first())
    } else {
        s
    }
}

fn strip_dots(s: &str) -> (stripped: String)
    ensures
        stripped@ == undotted(s@),
{
    let chars = text::chars_of(s);
    let mut i: usize = 0;
    assert(chars@.skip(0) == s@);
    while i < chars.len() && chars[i] == '.'
        invariant
            i <= chars@.len(),
            undotted(s@) == undotted(chars@.skip(i as int)),
        decreases chars.len() - i,
    {
        assert(chars@.skip(i as int).drop_first() == chars@.skip(i + 1));
        i += 1;
    }
    let rest = text::from_chars(&chars, i, chars.len());
    assert(rest@ == chars@.skip(i as int));
    rest
}

/// The extensions that a search for an executable tries, given the entries of
/// the variable that lists them.
pub fn path_extensions(entries: &Vec<String>) -> (extensions: Vec<String>)
    ensures
        text::texts(extensions@) == extensions_of(text::texts(entries@)),
{
    let ghost all = text::texts(entries@);
    let mut extensions: Vec<String> = Vec::new();
    let mut i: usize = 0;
    assert(text::texts(extensions@) == extensions_of(all.take(0)));
    while i < entries.len()
        invariant
            all == text::texts(entries@),
            i <= entries@.len(),
            text::texts(extensions@) == extensions_of(all.take(i as int)),
        decreases entries.len() - i,
    {
        assert(all.take(i + 1).drop_last() == all.take(i as int));
        let extension = strip_dots(&entries[i]);
        if !extension.as_str().is_empty() {
            let ghost was = extensions@;
            extensions.push(extension);
            assert(text::texts(extensions@) == text::texts(was).push(extension@));
        }
        i += 1;
    }
    assert(all.take(i as int) == all);
    extensions
}

/// The extensions tried where no variable lists them.
pub fn default_extensions() -> (extensions: Vec<String>)
    ensures
        text::texts(extensions@) == seq!["EXE"@, "BAT"@, "CMD"@],
{
    let extensions = vec!["EXE".to_owned(), "BAT".to_owned(), "CMD".to_owned()];
    assert(text::texts(extensions@) == seq!["EXE"@, "BAT"@, "CMD"@]);
    extensions
}

/// The file names an executable may have.
pub open spec fn executable_names(name: Seq<char>, extensions: Option<Seq<Seq<char>>>) -> Seq<
    Seq<char>,
> {
    match extensions {
        Some(list) => Seq::new(list.len(), |i: int| name + "."@ + list[i]),
        None => seq![name],
    }
}

/// The files that may be the executable `name`, directory by directory.
pub open spec fn on_path(
    name: Seq<char>,
    dirs: Seq<Seq<char>>,
    extensions: Option<Seq<Seq<char>>>,
) -> Seq<Seq<char>>
    decreases dirs.len(),
{
    if dirs.len() == 0 {
        Seq::empty()
    } else {
        on_path(name, dirs.drop_last(), extensions) + in_dir(
            dirs.last(),
            executable_names(name, extensions),
        )
    }
}

/// An optional list of strings as a specification value.
pub open spec fn opt_texts(list: Option<Vec<String>>) -> Option<Seq<Seq<char>>> {
    match list {
        Some(list) => Some(text::texts(list@)),
        None => None,
    }
}

fn names_of(name: &str, extensions: &Option<Vec<String>>) -> (names: Vec<String>)
    ensures
        text::texts(names@) == executable_names(name@, opt_texts(*extensions)),
{
    let mut names: Vec<String> = Vec::new();
    match extensions {
        Some(list) => {
            let mut i: usize = 0;
            while i < list.len()
                invariant
                    i <= list@.len(),
                    names@.len() == i,
                    forall|j: int| 0 <= j < i ==> (#[trigger] names@[j])@ == name@ + "."@ + list@[j]@,
                decreases list.len() - i,
            {
                names.push(name.to_owned().concat(".").concat(&list[i]));
                i += 1;
            }
        },
        None => names.push(name.to_owned()),
    }
    assert(text::texts(names@) == executable_names(name@, opt_texts(*extensions)));
    names
}

/// The files that may be the executable `name`, in the order in which the
/// directories are searched; `extensions` is what marks executables, where
/// something does.
pub fn path_candidates(name: &str, dirs: &Vec<String>, extensions: &Option<Vec<String>>) -> (paths:
    Vec<String>)
    ensures
        text::texts(paths@) == on_path(name@, text::texts(dirs@), opt_texts(*extensions)),
{
    let names = names_of(name, extensions);
    let ghost all = text::texts(dirs@);
    let ghost wanted = text::texts(names@);
    let mut paths: Vec<String> = Vec::new();
    let mut i: usize = 0;
    assert(text::texts(paths@) == on_path(name@, all.take(0), opt_texts(*extensions)));
    while i < dirs.len()
        invariant
            all == text::texts(dirs@),
            wanted == text::texts(names@),
            wanted == executable_names(name@, opt_texts(*extensions)),
            i <= dirs@.len(),
            text::texts(paths@) == on_path(name@, all.take(i as int), opt_texts(*extensions)),
        decreases dirs.len() - i,
    {
        assert(all.take(i + 1).drop_last() == all.take(i as int));
        let ghost before = text::texts(paths@);
        let mut j: usize = 0;
        assert(before + in_dir(all[i as int], wanted).take(0) == before);
        while j < names.len()
            invariant
                all == text::texts(dirs@),
                wanted == text::texts(names@),
                i < dirs@.len(),
                j <= names@.len(),
                text::texts(paths@) == before + in_dir(all[i as int], wanted).take(j as int),
            decreases names.len() - j,
        {
            let ghost was = paths@;
            let path = text::join_path(&dirs[i], &names[j]);
            paths.push(path);
            assert(text::texts(paths@) == text::texts(was).push(path@));
            assert(in_dir(all[i as int], wanted).take(j + 1) == in_dir(all[i as int], wanted).take(
                j as int,
            ).push(path@));
            assert((before + in_dir(all[i as int], wanted).take(j as int)).push(path@) == before
                + in_dir(all[i as int], wanted).take(j + 1));
            j += 1;
        }
        assert(in_dir(all[i as int], wanted).take(j as int) == in_dir(all[i as int], wanted));
        i += 1;
    }
    assert(all.take(i as int) == all);
    paths
}

/// The first candidate that can be used.
pub open spec fn first_usable(
    candidates: Seq<Seq<char>>,
    usable: Seq<bool>,
    from: int,
) -> Option<Seq<char>>
    decreases candidates.len() - from,
{
    if from >= candidates.len() || from >= usable.len() {
        None
    } else if usable[from] {
        Some(candidates[from])
    } else {
        first_usable(candidates, usable, from + 1)
    }
}

/// Picks the first of `candidates` that `usable` marks.
pub fn pick(candidates: &Vec<String>, usable: &Vec<bool>) -> (found: Option<String>)
    ensures
        text::opt_text(found) == first_usable(text::texts(candidates@), usable@, 0),
{
    let mut i: usize = 0;
    while i < candidates.len() && i < usable.len()
        invariant
            i <= candidates@.len(),
            i <= usable@.len(),
            first_usable(text::texts(candidates@), usable@, 0) == first_usable(
                text::texts(candidates@),
                usable@,
                i as int,
            ),
        decreases candidates.len() - i,
    {
        if usable[i] {
            return Some(candidates[i].clone());
        }
        i += 1;
    }
    None
}

/// Searches `dirs` for the first executable matching `name`, returning its
/// path, or `None` when no candidate exists: `usable` says of each of
/// [`path_candidates`] whether it is an executable file.
pub fn resolve_on_path(
    name: &str,
    dirs: &Vec<String>,
    extensions: &Option<Vec<String>>,
    usable: &Vec<bool>,
) -> (found: Option<String>)
    ensures
        text::opt_text(found) == first_usable(
            on_path(name@, text::texts(dirs@), opt_texts(*extensions)),
            usable@,
            0,
        ),
{
    pick(&path_candidates(name, dirs, extensions), usable)
}

/// What a tool invocation comes down to: the binary and its arguments.
pub struct Invoked {
    /// The binary.
    pub binary: Seq<char>,
    /// The arguments.
    pub args: Seq<Seq<char>>,
}

/// The binary a tool action runs and the arguments it gets, or why it cannot
/// run. Most tools run by their name. A build tool runs from the directory
/// that is its first argument, which is not passed on; `found` is the file
/// that was found there.
pub open spec fn invocation(
    tool: AllowlistedTool,
    args: Seq<Seq<char>>,
    found: Option<Seq<char>>,
    windows: bool,
) -> Result<Invoked, Seq<char>> {
    if !is_build_tool(tool) {
        Ok(Invoked { binary: task::tool_name(tool), args })
    } else if args.len() == 0 {
        Err(
            "tool '"@ + task::tool_name(tool)
                + "' requires the build-tools directory as its first argument"@,
        )
    } else {
        match found {
            Some(binary) => Ok(Invoked { binary, args: args.drop_first() }),
            None => if tool == AllowlistedTool::Aapt2 {
                Err(
                    "aapt2 binary '"@ + text::path_text(
                        args[0],
                        build_tool_names(tool, windows)[0],
                    ) + "' does not exist"@,
                )
            } else {
                Err(
                    "apksigner binary not found in '"@ + args[0] + "' (looked for "@ + if windows {
                        "apksigner.bat, apksigner.exe"@
                    } else {
                        "apksigner"@
                    } + ")"@,
                )
            },
        }
    }
}

/// A tool invocation, or why there is none, as a specification value.
pub open spec fn invoked_result(result: Result<(String, Vec<String>), String>) -> Result<
    Invoked,
    Seq<char>,
> {
    match result {
        Ok((binary, args)) => Ok(Invoked { binary: binary@, args: text::texts(args@) }),
        Err(message) => Err(message@),
    }
}

/// Resolves the binary a `run-tool` action invokes, paired with the
/// arguments that belong to it.
///
/// Most tools run by their bare name on the `PATH`. `aapt2`/`apksigner` ship
/// inside an Android SDK `build-tools` directory rather than on the `PATH`,
/// so the action carries that directory as its first argument and the host
/// resolves `<dir>/<binary>`, stripping the directory from the arguments the
/// tool actually receives.
pub fn resolve_tool(
    tool: AllowlistedTool,
    args: &Vec<String>,
    found: Option<&str>,
    windows: bool,
) -> (result: Result<(String, Vec<String>), String>)
    ensures
        invoked_result(result) == invocation(
            tool,
            text::texts(args@),
            text::opt_str(found),
            windows,
        ),
{
    if tool != AllowlistedTool::Aapt2 && tool != AllowlistedTool::Apksigner {
        return Ok((tool.as_str().to_owned(), text::copy_texts(args)));
    }
    if args.len() == 0 {
        return Err(
            "tool '".to_owned().concat(tool.as_str()).concat(
                "' requires the build-tools directory as its first argument",
            ),
        );
    }
    match found {
        Some(binary) => {
            let ghost all = text::texts(args@);
            let mut rest: Vec<String> = Vec::new();
            let mut i: usize = 1;
            assert(text::texts(rest@) == all.subrange(1, 1));
            while i < args.len()
                invariant
                    all == text::texts(args@),
                    1 <= i <= args@.len(),
                    text::texts(rest@) == all.subrange(1, i as int),
                decreases args.len() - i,
            {
                let ghost was = rest@;
                rest.push(args[i].clone());
                assert(text::texts(rest@) == text::texts(was).push(all[i as int]));
                assert(all.subrange(1, i + 1) == all.subrange(1, i as int).push(all[i as int]));
                i += 1;
            }
            assert(all.drop_first() == all.subrange(1, i as int));
            Ok((binary.to_owned(), rest))
        },
        None => {
            if tool == AllowlistedTool::Aapt2 {
                let candidates = build_tool_candidates(tool, &args[0], windows);
                assert(build_tool_names(tool, windows).len() == 1);
                assert(text::texts(candidates@).len() == candidates@.len());
                assert(text::texts(candidates@)[0] == candidates@[0]@);
                Err(
                    "aapt2 binary '".to_owned().concat(&candidates[0]).concat("' does not exist"),
                )
            } else {
                let looked = if windows {
                    "apksigner.bat, apksigner.exe"
                } else {
                    "apksigner"
                };
                Err(
                    "apksigner binary not found in '".to_owned().concat(&args[0]).concat(
                        "' (looked for ",
                    ).concat(looked).concat(")"),
                )
            }
        },
    }
}

/// Work that an action asks for, once it is allowed.
#[derive(Debug, PartialEq, Eq)]
pub enum Work {
    /// Copy a file.
    Copy {
        /// Source file.
        from: String,
        /// Destination file.
        to: String,
    },
    /// Write a file.
    Write {
        /// Destination file.
        to: String,
        /// Its contents.
        contents: String,
    },
    /// Run a binary.
    Run {
        /// The binary.
        binary: String,
        /// Its arguments.
        args: Vec<String>,
        /// Its working directory.
        cwd: String,
    },
}

/// What [`Work`] holds.
pub enum Job {
    /// Copy a file.
    Copy {
        /// Source file.
        from: Seq<char>,
        /// Destination file.
        to: Seq<char>,
    },
    /// Write a file.
    Write {
        /// Destination file.
        to: Seq<char>,
        /// Its contents.
        contents: Seq<char>,
    },
    /// Run a binary.
    Run {
        /// The binary and its arguments.
        invoked: Invoked,
        /// Its working directory.
        cwd: Seq<char>,
    },
}

impl View for Work {
    type V = Job;

    open spec fn view(&self) -> Job {
        match *self {
            Work::Copy { from, to } => Job::Copy { from: from@, to: to@ },
            Work::Write { to, contents } => Job::Write { to: to@, contents: contents@ },
            Work::Run { binary, args, cwd } => Job::Run {
                invoked: Invoked { binary: binary@, args: text::texts(args@) },
                cwd: cwd@,
            },
        }
    }
}

/// The work an action asks for, or why it is refused: a tool has to be on the
/// allowlist and has to be found.
pub open spec fn job_of(
    tools: Seq<AllowlistedTool>,
    action: TaskAction,
    found: Option<Seq<char>>,
    windows: bool,
) -> Result<Job, Seq<char>> {
    match action {
        TaskAction::Copy { from, to } => Ok(Job::Copy { from: from@, to: to@ }),
        TaskAction::WriteFile { to, contents } => Ok(
            Job::Write { to: to@, contents: contents@ },
        ),
        TaskAction::RunTool { tool, args, cwd } => if !tools.contains(tool) {
            Err("tool '"@ + task::tool_name(tool) + "' is not on the allowlist"@)
        } else {
            match invocation(tool, text::texts(args@), found, windows) {
                Ok(invoked) => Ok(Job::Run { invoked, cwd: cwd@ }),
                Err(message) => Err(message),
            }
        },
    }
}

/// Work, or why there is none, as a specification value.
pub open spec fn work_result(result: Result<Work, String>) -> Result<Job, Seq<char>> {
    match result {
        Ok(work) => Ok(work@),
        Err(message) => Err(message@),
    }
}

impl Executor {
    /// The work that an action asks for. `found` is the file that was found
    /// for a build tool.
    ///
    /// # Errors
    ///
    /// Returns a description when the action's tool is not on the allowlist
    /// or cannot be found.
    pub fn prepare(&self, action: &TaskAction, found: Option<&str>, windows: bool) -> (result:
        Result<Work, String>)
        ensures
            work_result(result) == job_of(self.tools@, *action, text::opt_str(found), windows),
    {
        match action {
            TaskAction::Copy { from, to } => Ok(
                Work::Copy { from: from.clone(), to: to.clone() },
            ),
            TaskAction::WriteFile { to, contents } => Ok(
                Work::Write { to: to.clone(), contents: contents.clone() },
            ),
            TaskAction::RunTool { tool, args, cwd } => {
                if !self.allows(*tool) {
                    return Err(
                        "tool '".to_owned().concat(tool.as_str()).concat(
                            "' is not on the allowlist",
                        ),
                    );
                }
                match resolve_tool(*tool, args, found, windows) {
                    Ok((binary, rest)) => Ok(
                        Work::Run { binary, args: rest, cwd: cwd.clone() },
                    ),
                    Err(message) => Err(message),
                }
            },
        }
    }
}

/// The first output, from `from` on, that does not exist.
pub open spec fn first_missing(exists: Seq<bool>, from: int) -> int
    decreases exists.len() - from,
{
    if from >= exists.len() || !exists[from] {
        from
    } else {
        first_missing(exists, from + 1)
    }
}

/// What is said of a declared output that does not exist.
pub open spec fn missing_output(name: Seq<char>, output: Seq<char>) -> Seq<char> {
    "task '"@ + name + "' declared output '"@ + output
        + "' but it does not exist after the action ran"@
}

/// Verifies that every declared output of `task` exists after its action
/// ran, given whether each does. A tool that exits 0 yet writes none of its
/// declared outputs (a misconfigured compiler, a path mismatch) is reported
/// as a task failure rather than a silent success: recording the task
/// up-to-date would leave the missing artifact to hash as absent the next
/// time a dependent reads it.
pub fn verify_outputs(task: &Task, exists: &Vec<bool>) -> (result: Result<(), String>)
    requires
        exists@.len() == task.outputs@.len(),
    ensures
        match result {
            Ok(_) => forall|i: int| 0 <= i < exists@.len() ==> #[trigger] exists@[i],
            Err(message) => {
                let at = first_missing(exists@, 0);
                at < exists@.len() && message@ == missing_output(
                    task.name@,
                    task.outputs@[at]@,
                )
            },
        },
{
    let mut i: usize = 0;
    while i < exists.len()
        invariant
            exists@.len() == task.outputs@.len(),
            i <= exists@.len(),
            first_missing(exists@, 0) == first_missing(exists@, i as int),
            forall|j: int| 0 <= j < i ==> #[trigger] exists@[j],
        decreases exists.len() - i,
    {
        if !exists[i] {
            return Err(
                "task '".to_owned().concat(&task.name).concat("' declared output '").concat(
                    &task.outputs[i],
                ).concat("' but it does not exist after the action ran"),
            );
        }
        i += 1;
    }
    Ok(())
}

/// What is said of a file to copy that does not exist.
pub fn missing_source(from: &str) -> (s: String)
    ensures
        s@ == "copy source '"@ + from@ + "' does not exist"@,
{
    "copy source '".to_owned().concat(from).concat("' does not exist")
}

/// What is said of a copy that failed because of `cause`.
pub fn copy_failure(from: &str, to: &str, cause: &str) -> (s: String)
    ensures
        s@ == "copy "@ + from@ + " -> "@ + to@ + ": "@ + cause@,
{
    "copy ".to_owned().concat(from).concat(" -> ").concat(to).concat(": ").concat(cause)
}

/// What is said of a binary that ended without success.
pub fn exit_failure(binary: &str, status: &str, stdout: &str, stderr: &str) -> (s: String)
    ensures
        s@ == "'"@ + binary@ + "' exited with "@ + status@ + ": stdout: "@ + stdout@
            + " stderr: "@ + stderr@,
{
    "'".to_owned().concat(binary).concat("' exited with ").concat(status).concat(
        ": stdout: ",
    ).concat(stdout).concat(" stderr: ").concat(stderr)
}

/// Only allowlisted tools run: an action whose tool is not on the list is
/// refused, whatever was found for it.
pub proof fn law_only_allowlisted_tools_run(
    tools: Seq<AllowlistedTool>,
    action: TaskAction,
    found: Option<Seq<char>>,
    windows: bool,
)
    ensures
        job_of(tools, action, found, windows) matches Ok(Job::Run { .. }) ==> action matches TaskAction::RunTool {
            tool,
            args: _,
            cwd: _,
        } && tools.contains(tool),
{
}

} // verus!
