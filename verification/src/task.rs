//! Build tasks: what a task is, how tasks depend on each other, and how a
//! build runs them incrementally.
//!
//! Tasks are the unit of work a plugin registers during configuration: a name
//! scoped to the module that registered it, declared input and output files,
//! `dependsOn` edges to sibling tasks in the same module, and a closed action.
//! [`graph`] partitions tasks into waves that can run concurrently,
//! [`fingerprint`] computes what a task's run depends on, and [`engine`]
//! decides which tasks of a build have to run.

use vstd::prelude::*;
use crate::text;

pub mod action;
pub mod action_laws;
pub mod engine;
pub mod engine_laws;
pub mod fingerprint;
pub mod fingerprint_laws;
pub mod graph;
pub mod graph_laws;
pub mod wave_laws;

pub use crate::task::engine::{BuildResult, BuildRun, Executor, FingerprintStore, TaskFailure};
pub use crate::task::fingerprint::FingerprintContext;
pub use crate::task::graph::{GraphError, TaskGraph};

verus! {

/// One of the small tools the core allowlists for `run_tool` actions. The set
/// is closed and core-owned; a plugin declares which tools it needs and the
/// host refuses to load a plugin that requests anything outside it.
#[derive(Debug, Clone, Copy, PartialEq, Eq, Hash, Structural)]
pub enum AllowlistedTool {
    /// `cp`: copy a file.
    Copy,
    /// `cat`: write a file to standard output.
    Cat,
    /// `mkdir`: create a directory.
    Mkdir,
    /// `echo`: write a line to standard output.
    Echo,
    /// `javac`: compile Java sources.
    Javac,
    /// `kotlinc`: compile Kotlin sources.
    Kotlinc,
    /// `jar`: archive class files.
    Jar,
    /// `java`: run a compiled JVM program.
    Java,
    /// `aapt2`: Android asset packaging tool. The binary is not on the
    /// `PATH`; it lives under an Android SDK `build-tools` directory, so
    /// the action names that directory as its first argument and the host
    /// resolves `<dir>/aapt2` for it.
    Aapt2,
    /// `apksigner`: APK signing tool. Like `aapt2`, the binary lives
    /// under an Android SDK `build-tools` directory and the action carries
    /// that directory as its first argument.
    Apksigner,
}

/// The binary a tool invokes.
pub open spec fn tool_name(tool: AllowlistedTool) -> Seq<char> {
    match tool {
        AllowlistedTool::Copy => "cp"@,
        AllowlistedTool::Cat => "cat"@,
        AllowlistedTool::Mkdir => "mkdir"@,
        AllowlistedTool::Echo => "echo"@,
        AllowlistedTool::Javac => "javac"@,
        AllowlistedTool::Kotlinc => "kotlinc"@,
        AllowlistedTool::Jar => "jar"@,
        AllowlistedTool::Java => "java"@,
        AllowlistedTool::Aapt2 => "aapt2"@,
        AllowlistedTool::Apksigner => "apksigner"@,
    }
}

impl AllowlistedTool {
    /// The binary the tool invokes.
    #[must_use]
    pub fn as_str(&self) -> (name: &'static str)
        ensures
            name@ == tool_name(*self),
    {
        match self {
            AllowlistedTool::Copy => "cp",
            AllowlistedTool::Cat => "cat",
            AllowlistedTool::Mkdir => "mkdir",
            AllowlistedTool::Echo => "echo",
            AllowlistedTool::Javac => "javac",
            AllowlistedTool::Kotlinc => "kotlinc",
            AllowlistedTool::Jar => "jar",
            AllowlistedTool::Java => "java",
            AllowlistedTool::Aapt2 => "aapt2",
            AllowlistedTool::Apksigner => "apksigner",
        }
    }

    /// Resolves a tool by its binary name, or `None` when the name is not
    /// allowlisted.
    #[must_use]
    pub fn parse(name: &str) -> (tool: Option<AllowlistedTool>)
        ensures
            match tool {
                Some(tool) => tool_name(tool) == name@,
                None => forall|tool: AllowlistedTool| #[trigger] tool_name(tool) != name@,
            },
    {
        if text::str_eq(name, "cp") {
            Some(AllowlistedTool::Copy)
        } else if text::str_eq(name, "cat") {
            Some(AllowlistedTool::Cat)
        } else if text::str_eq(name, "mkdir") {
            Some(AllowlistedTool::Mkdir)
        } else if text::str_eq(name, "echo") {
            Some(AllowlistedTool::Echo)
        } else if text::str_eq(name, "javac") {
            Some(AllowlistedTool::Javac)
        } else if text::str_eq(name, "kotlinc") {
            Some(AllowlistedTool::Kotlinc)
        } else if text::str_eq(name, "jar") {
            Some(AllowlistedTool::Jar)
        } else if text::str_eq(name, "java") {
            Some(AllowlistedTool::Java)
        } else if text::str_eq(name, "aapt2") {
            Some(AllowlistedTool::Aapt2)
        } else if text::str_eq(name, "apksigner") {
            Some(AllowlistedTool::Apksigner)
        } else {
            None
        }
    }
}

/// Different tools have different names, so that a tool is the one its name is
/// parsed to.
pub proof fn law_tool_names_differ(a: AllowlistedTool, b: AllowlistedTool)
    requires
        tool_name(a) == tool_name(b),
    ensures
        a == b,
{
    reveal_strlit("cp");
    reveal_strlit("cat");
    reveal_strlit("mkdir");
    reveal_strlit("echo");
    reveal_strlit("javac");
    reveal_strlit("kotlinc");
    reveal_strlit("jar");
    reveal_strlit("java");
    reveal_strlit("aapt2");
    reveal_strlit("apksigner");
    assert("cp"@.len() == 2 && "cat"@.len() == 3 && "jar"@.len() == 3 && "echo"@.len() == 4
        && "java"@.len() == 4 && "mkdir"@.len() == 5 && "javac"@.len() == 5 && "aapt2"@.len() == 5
        && "kotlinc"@.len() == 7 && "apksigner"@.len() == 9);
    assert("cat"@[0] == 'c' && "jar"@[0] == 'j');
    assert("echo"@[0] == 'e' && "java"@[0] == 'j');
    assert("mkdir"@[0] == 'm' && "javac"@[0] == 'j' && "aapt2"@[0] == 'a');
}

/// The closed set of actions a task may perform. A task carries exactly one
/// action; there is no way to chain several in a single task.
#[derive(Debug, PartialEq, Eq)]
pub enum TaskAction {
    /// Copy one file to another, creating the destination directory if it
    /// does not exist.
    Copy {
        /// Source file.
        from: String,
        /// Destination file.
        to: String,
    },
    /// Write a file with fixed contents, creating the destination directory
    /// if it does not exist. The contents are part of the task's fingerprint,
    /// so changing them re-runs the task.
    WriteFile {
        /// Destination file.
        to: String,
        /// Exact contents to write.
        contents: String,
    },
    /// Run an allowlisted tool with arguments in a working directory.
    RunTool {
        /// The tool to invoke; it must be on the executor's allowlist.
        tool: AllowlistedTool,
        /// Arguments passed to the tool, in order.
        args: Vec<String>,
        /// Working directory for the invocation.
        cwd: String,
    },
}

/// A unit of work registered by a plugin during configuration.
///
/// A task is identified by its `module` and `name`; `depends_on` names
/// refer to sibling tasks in the same module.
#[derive(Debug, PartialEq, Eq)]
pub struct Task {
    /// Task name, e.g. `compileReleaseKotlin`.
    pub name: String,
    /// Module that registered the task; part of the task's identity.
    pub module: String,
    /// Files whose contents feed the task's fingerprint. A declared
    /// input may not exist yet when the task is scheduled: it is then
    /// fingerprinted as absent and will run.
    pub inputs: Vec<String>,
    /// Files or directories the task is expected to produce. After a
    /// successful run each declared output has to exist; a task that
    /// succeeds yet writes none of its outputs is a failure, so a
    /// silently-missing artifact is never recorded up-to-date and hashed as
    /// absent downstream.
    pub outputs: Vec<String>,
    /// Names of tasks in the same module that must succeed before this one
    /// runs. References an undefined task at schedule time.
    pub depends_on: Vec<String>,
    /// What running it does.
    pub action: TaskAction,
}

impl Task {
    /// Builds a task with no dependencies.
    pub fn leaf(
        name: &str,
        module: &str,
        inputs: Vec<String>,
        outputs: Vec<String>,
        action: TaskAction,
    ) -> (task: Task)
        ensures
            task.name@ == name@,
            task.module@ == module@,
            task.inputs == inputs,
            task.outputs == outputs,
            task.depends_on@.len() == 0,
            task.action == action,
    {
        Task {
            name: name.to_owned(),
            module: module.to_owned(),
            inputs,
            outputs,
            depends_on: Vec::new(),
            action,
        }
    }
}

/// The plugin and the task that a dependency on another plugin's task names:
/// `plugin_name:task_name`, both not empty and without a further colon.
pub open spec fn cross_ref(dep: Seq<char>) -> Option<(Seq<char>, Seq<char>)> {
    let parts = text::split_text(dep, ':');
    if parts.len() == 2 && parts[0].len() > 0 && parts[1].len() > 0 {
        Some((parts[0], parts[1]))
    } else {
        None
    }
}

/// A pair of strings as a specification value.
pub open spec fn opt_pair(pair: Option<(&str, &str)>) -> Option<(Seq<char>, Seq<char>)> {
    match pair {
        Some((a, b)) => Some((a@, b@)),
        None => None,
    }
}

/// Splits a dependency string into `(plugin_name, task_name)` when it
/// uses the cross-plugin format `"plugin_name:task_name"` (single colon).
///
/// Task names and plugin names are not allowed to contain colons; a part
/// that still carries one means the string is not a well-formed
/// cross-plugin reference, and `None` is returned so it surfaces later as
/// a resolution error instead of being split at the wrong colon. Returns
/// `None` for bare same-module dependency references.
#[must_use]
pub fn split_cross_plugin_ref(dep: &str) -> (parts: Option<(&str, &str)>)
    ensures
        opt_pair(parts) == cross_ref(dep@),
{
    let pieces = text::split(dep, ':');
    let ghost all = text::texts(pieces@);
    if pieces.len() != 2 {
        return None;
    }
    let n: usize = pieces[0].as_str().unicode_len();
    let m: usize = dep.unicode_len();
    proof {
        text::law_split_joins(dep@, ':');
        assert(all.drop_last().len() == 1 && all.drop_last()[0] == all[0]);
        assert(text::join_text(all.drop_last(), seq![':']) == all[0]);
        assert(text::join_text(all, seq![':']) == all[0] + seq![':'] + all[1]);
        assert(all[0] == pieces@[0]@ && all[1] == pieces@[1]@);
        assert(dep@ == all[0] + seq![':'] + all[1]);
    }
    if n == 0 || m == n + 1 {
        return None;
    }
    let plugin_name = dep.substring_char(0, n);
    let task_name = dep.substring_char(n + 1, m);
    assert(plugin_name@ == all[0]);
    assert(task_name@ == all[1]);
    Some((plugin_name, task_name))
}

} // verus!
