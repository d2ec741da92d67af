//! What running an action comes down to.

use vstd::prelude::*;
use crate::task;
use crate::task::{AllowlistedTool, TaskAction};
use crate::task::action;
use crate::task::action::{Invoked, Job};
use crate::text;

verus! {

/// Copies and writes are done as declared, whatever tools are allowed.
pub proof fn law_copies_and_writes_are_done_as_declared(
    tools: Seq<AllowlistedTool>,
    from: String,
    to: String,
    contents: String,
    found: Option<Seq<char>>,
    windows: bool,
)
    ensures
        action::job_of(tools, TaskAction::Copy { from, to }, found, windows) == Ok::<Job, Seq<char>>(
            Job::Copy { from: from@, to: to@ },
        ),
        action::job_of(tools, TaskAction::WriteFile { to, contents }, found, windows) == Ok::<
            Job,
            Seq<char>,
        >(Job::Write { to: to@, contents: contents@ }),
{
}

/// An allowed tool that does not ship with the Android SDK runs by its name, with
/// the arguments as they are, in the declared directory.
pub proof fn law_tools_run_by_name(
    tools: Seq<AllowlistedTool>,
    tool: AllowlistedTool,
    args: Vec<String>,
    cwd: String,
    found: Option<Seq<char>>,
    windows: bool,
)
    requires
        tools.contains(tool),
        tool != AllowlistedTool::Aapt2,
        tool != AllowlistedTool::Apksigner,
    ensures
        action::job_of(tools, TaskAction::RunTool { tool, args, cwd }, found, windows) == Ok::<
            Job,
            Seq<char>,
        >(
            Job::Run {
                invoked: Invoked { binary: task::tool_name(tool), args: text::texts(args@) },
                cwd: cwd@,
            },
        ),
{
}

/// An allowed tool of the Android SDK runs as the file that was found in the
/// directory its first argument names, and gets the arguments behind that. It
/// does not run where no directory is named or nothing was found.
pub proof fn law_sdk_tools_run_from_their_directory(
    tools: Seq<AllowlistedTool>,
    tool: AllowlistedTool,
    args: Vec<String>,
    cwd: String,
    found: Option<Seq<char>>,
    windows: bool,
)
    requires
        tools.contains(tool),
        tool == AllowlistedTool::Aapt2 || tool == AllowlistedTool::Apksigner,
    ensures
        match action::job_of(tools, TaskAction::RunTool { tool, args, cwd }, found, windows) {
            Ok(job) => args@.len() > 0 && found is Some && job == (Job::Run {
                invoked: Invoked {
                    binary: found->0,
                    args: Seq::new((args@.len() - 1) as nat, |i: int| args@[i + 1]@),
                },
                cwd: cwd@,
            }),
            Err(_) => args@.len() == 0 || found is None,
        },
{
    if args@.len() > 0 {
        assert(text::texts(args@).drop_first() =~= Seq::new(
            (args@.len() - 1) as nat,
            |i: int| args@[i + 1]@,
        ));
    }
}

/// A tool of the Android SDK is looked for under its own name in the directory
/// that was named, on Windows with the extension of an executable.
pub proof fn law_sdk_tools_have_their_names(dir: Seq<char>)
    requires
        dir.len() > 0,
        dir.last() != '/',
    ensures
        action::in_dir(dir, action::build_tool_names(AllowlistedTool::Aapt2, false)) == seq![
            dir + "/aapt2"@,
        ],
        action::in_dir(dir, action::build_tool_names(AllowlistedTool::Aapt2, true)) == seq![
            dir + "/aapt2.exe"@,
        ],
        action::in_dir(dir, action::build_tool_names(AllowlistedTool::Apksigner, false)) == seq![
            dir + "/apksigner"@,
        ],
        action::in_dir(dir, action::build_tool_names(AllowlistedTool::Apksigner, true)) == seq![
            dir + "/apksigner.bat"@,
            dir + "/apksigner.exe"@,
        ],
{
    reveal_strlit("aapt2");
    reveal_strlit("/aapt2");
    reveal_strlit("aapt2.exe");
    reveal_strlit("/aapt2.exe");
    reveal_strlit("apksigner");
    reveal_strlit("/apksigner");
    reveal_strlit("apksigner.bat");
    reveal_strlit("/apksigner.bat");
    reveal_strlit("apksigner.exe");
    reveal_strlit("/apksigner.exe");
    assert(dir.push('/') + "aapt2"@ =~= dir + "/aapt2"@);
    assert(dir.push('/') + "aapt2.exe"@ =~= dir + "/aapt2.exe"@);
    assert(dir.push('/') + "apksigner"@ =~= dir + "/apksigner"@);
    assert(dir.push('/') + "apksigner.bat"@ =~= dir + "/apksigner.bat"@);
    assert(dir.push('/') + "apksigner.exe"@ =~= dir + "/apksigner.exe"@);
    assert(action::in_dir(dir, action::build_tool_names(AllowlistedTool::Aapt2, false)) =~= seq![
        dir + "/aapt2"@,
    ]);
    assert(action::in_dir(dir, action::build_tool_names(AllowlistedTool::Aapt2, true)) =~= seq![
        dir + "/aapt2.exe"@,
    ]);
    assert(action::in_dir(dir, action::build_tool_names(AllowlistedTool::Apksigner, false)) =~= seq![
        dir + "/apksigner"@,
    ]);
    assert(action::in_dir(dir, action::build_tool_names(AllowlistedTool::Apksigner, true)) =~= seq![
        dir + "/apksigner.bat"@,
        dir + "/apksigner.exe"@,
    ]);
}

/// The candidate that is picked can be used, and none before it can. None is
/// picked only where none can be used.
pub proof fn law_first_usable_is_picked(candidates: Seq<Seq<char>>, usable: Seq<bool>, from: int)
    requires
        candidates.len() == usable.len(),
        0 <= from <= usable.len(),
    ensures
        match action::first_usable(candidates, usable, from) {
            Some(path) => exists|i: int|
                from <= i < usable.len() && #[trigger] usable[i] && path == candidates[i]
                    && forall|h: int| from <= h < i ==> !#[trigger] usable[h],
            None => forall|i: int| from <= i < usable.len() ==> !#[trigger] usable[i],
        },
    decreases usable.len() - from,
{
    if from < usable.len() {
        if usable[from] {
            assert(candidates[from] == action::first_usable(candidates, usable, from)->0);
        } else {
            law_first_usable_is_picked(candidates, usable, from + 1);
        }
    }
}

/// The path of a file in a directory.
pub open spec fn file_in(dir: Seq<char>, name: Seq<char>) -> Seq<char> {
    dir + seq!['/'] + name
}

/// An executable without an extension is looked for once in each directory, in
/// the order in which they are listed.
pub proof fn law_directories_are_searched_in_order(name: Seq<char>, dirs: Seq<Seq<char>>)
    requires
        name.len() > 0 && name[0] != '/',
        forall|i: int| 0 <= i < dirs.len() ==> (#[trigger] dirs[i]).len() > 0 && dirs[i].last() != '/',
    ensures
        action::on_path(name, dirs, None).len() == dirs.len(),
        forall|i: int|
            0 <= i < dirs.len() ==> #[trigger] action::on_path(name, dirs, None)[i] == file_in(
                dirs[i],
                name,
            ),
    decreases dirs.len(),
{
    if dirs.len() > 0 {
        let before = dirs.drop_last();
        assert forall|i: int| 0 <= i < before.len() implies (#[trigger] before[i]).len() > 0
            && before[i].last() != '/' by {
            assert(before[i] == dirs[i]);
        }
        law_directories_are_searched_in_order(name, before);
        let here = action::in_dir(dirs.last(), action::executable_names(name, None));
        assert(here.len() == 1);
        assert(dirs[dirs.len() - 1] == dirs.last());
        assert(here[0] == text::path_text(dirs.last(), name));
        assert(dirs.last().push('/') + name =~= file_in(dirs.last(), name));
        assert forall|i: int| 0 <= i < dirs.len() implies #[trigger] action::on_path(
            name,
            dirs,
            None,
        )[i] == file_in(dirs[i], name) by {
            if i < before.len() {
                assert(action::on_path(name, dirs, None)[i] == action::on_path(name, before, None)[i]);
                assert(before[i] == dirs[i]);
            }
        }
    }
}

/// Where extensions mark executables, each directory is searched for the name
/// with each of them, in the order in which they are listed, before the next
/// directory is.
pub proof fn law_extensions_are_tried_in_order(
    name: Seq<char>,
    dirs: Seq<Seq<char>>,
    extensions: Seq<Seq<char>>,
    i: int,
    j: int,
)
    requires
        name.len() > 0 && name[0] != '/',
        forall|d: int| 0 <= d < dirs.len() ==> (#[trigger] dirs[d]).len() > 0 && dirs[d].last() != '/',
        0 <= i < dirs.len(),
        0 <= j < extensions.len(),
    ensures
        action::on_path(name, dirs, Some(extensions)).len() == dirs.len() * extensions.len(),
        0 <= i * extensions.len() + j < dirs.len() * extensions.len(),
        action::on_path(name, dirs, Some(extensions))[i * extensions.len() + j] == file_in(
            dirs[i],
            name + seq!['.'] + extensions[j],
        ),
    decreases dirs.len(),
{
    let e = extensions.len();
    let n = dirs.len();
    let before = dirs.drop_last();
    let names = action::executable_names(name, Some(extensions));
    let here = action::in_dir(dirs.last(), names);
    lemma_search_len(name, dirs, extensions);
    lemma_search_len(name, before, extensions);
    assert((n - 1) * e + e == n * e) by (nonlinear_arith);
    assert(i * e + j < n * e) by (nonlinear_arith)
        requires
            0 <= i < n,
            0 <= j < e,
    ;
    assert(0 <= i * e) by (nonlinear_arith)
        requires
            0 <= i,
    ;
    let all = action::on_path(name, dirs, Some(extensions));
    if i < n - 1 {
        assert forall|d: int| 0 <= d < before.len() implies (#[trigger] before[d]).len() > 0
            && before[d].last() != '/' by {
            assert(before[d] == dirs[d]);
        }
        law_extensions_are_tried_in_order(name, before, extensions, i, j);
        assert(before[i] == dirs[i]);
        assert(all[i * e + j] == action::on_path(name, before, Some(extensions))[i * e + j]);
    } else {
        reveal_strlit(".");
        assert("."@ =~= seq!['.']);
        assert(dirs[n - 1] == dirs.last());
        assert(all[i * e + j] == here[j]);
        assert(here[j] == text::path_text(dirs.last(), names[j]));
        assert(names[j] == name + seq!['.'] + extensions[j]);
        assert(names[j][0] == name[0]);
        assert(dirs.last().push('/') + names[j] =~= file_in(dirs.last(), names[j]));
    }
}

proof fn lemma_search_len(name: Seq<char>, dirs: Seq<Seq<char>>, extensions: Seq<Seq<char>>)
    ensures
        action::on_path(name, dirs, Some(extensions)).len() == dirs.len() * extensions.len(),
    decreases dirs.len(),
{
    if dirs.len() > 0 {
        lemma_search_len(name, dirs.drop_last(), extensions);
        let e = extensions.len();
        let n = dirs.len();
        assert((n - 1) * e + e == n * e) by (nonlinear_arith);
    } else {
        assert(0 * extensions.len() == 0) by (nonlinear_arith);
    }
}

/// The dots before an extension are not part of it.
pub proof fn law_leading_dots_do_not_count(dots: Seq<char>, extension: Seq<char>)
    requires
        forall|i: int| 0 <= i < dots.len() ==> #[trigger] dots[i] == '.',
        extension.len() > 0 ==> extension[0] != '.',
    ensures
        action::undotted(dots + extension) == extension,
    decreases dots.len(),
{
    let s = dots + extension;
    if dots.len() > 0 {
        law_leading_dots_do_not_count(dots.drop_first(), extension);
        assert(s[0] == '.');
        assert(s.drop_first() =~= dots.drop_first() + extension);
    } else {
        assert(s =~= extension);
    }
}

/// The extensions are those of the entries, those that are nothing but dots
/// left out.
pub proof fn law_extensions_are_those_listed(entries: Seq<Seq<char>>, extension: Seq<char>)
    ensures
        action::extensions_of(entries).contains(extension) <==> extension.len() > 0 && exists|i: int|
            0 <= i < entries.len() && extension == action::undotted(#[trigger] entries[i]),
        action::extensions_of(entries).len() <= entries.len(),
    decreases entries.len(),
{
    if entries.len() > 0 {
        let before = entries.drop_last();
        law_extensions_are_those_listed(before, extension);
        let few = action::extensions_of(before);
        let all = action::extensions_of(entries);
        let last = action::undotted(entries.last());
        assert(entries[entries.len() - 1] == entries.last());
        if few.contains(extension) {
            let i = choose|i: int| 0 <= i < few.len() && few[i] == extension;
            assert(all[i] == extension);
            let k = choose|k: int|
                0 <= k < before.len() && extension == action::undotted(#[trigger] before[k]);
            assert(entries[k] == before[k]);
        } else if last.len() > 0 {
            assert(all[few.len() as int] == last);
            if all.contains(extension) {
                let i = choose|i: int| 0 <= i < all.len() && all[i] == extension;
                assert(i == few.len());
            }
        }
        if extension.len() > 0 && exists|i: int|
            0 <= i < entries.len() && extension == action::undotted(#[trigger] entries[i]) {
            let i = choose|i: int|
                0 <= i < entries.len() && extension == action::undotted(#[trigger] entries[i]);
            if i < before.len() {
                assert(before[i] == entries[i]);
            }
        }
    }
}

/// The output that is reported does not exist, and all before it do.
pub proof fn law_first_missing_output_is_reported(exists: Seq<bool>, from: int)
    requires
        0 <= from <= exists.len(),
    ensures
        from <= action::first_missing(exists, from) <= exists.len(),
        action::first_missing(exists, from) < exists.len() ==> !exists[action::first_missing(
            exists,
            from,
        )],
        forall|i: int| from <= i < action::first_missing(exists, from) ==> #[trigger] exists[i],
    decreases exists.len() - from,
{
    if from < exists.len() && exists[from] {
        law_first_missing_output_is_reported(exists, from + 1);
    }
}

/// The extensions are tried in the order in which they are listed.
pub proof fn law_extensions_keep_their_order(entries: Seq<Seq<char>>)
    requires
        forall|i: int| 0 <= i < entries.len() ==> action::undotted(#[trigger] entries[i]).len() > 0,
    ensures
        action::extensions_of(entries).len() == entries.len(),
        forall|i: int|
            0 <= i < entries.len() ==> action::extensions_of(entries)[i] == action::undotted(
                #[trigger] entries[i],
            ),
    decreases entries.len(),
{
    if entries.len() > 0 {
        let before = entries.drop_last();
        assert forall|i: int| 0 <= i < before.len() implies action::undotted(
            #[trigger] before[i],
        ).len() > 0 by {
            assert(before[i] == entries[i]);
        }
        law_extensions_keep_their_order(before);
        assert(action::undotted(entries[entries.len() - 1]).len() > 0);
        assert forall|i: int| 0 <= i < entries.len() implies action::extensions_of(entries)[i]
            == action::undotted(#[trigger] entries[i]) by {
            if i < before.len() {
                assert(before[i] == entries[i]);
            }
        }
    }
}

} // verus!
