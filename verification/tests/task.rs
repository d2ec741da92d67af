use std::collections::BTreeMap;

use uliab::digest::Hasher;
use uliab::task::action::{
    build_tool_candidates, copy_failure, default_extensions, exit_failure, missing_source,
    path_candidates, path_extensions, pick, resolve_on_path, resolve_tool, verify_outputs, Work,
};
use uliab::task::engine::{StateFile, STATE_FORMAT};
use uliab::task::fingerprint::{
    fingerprint, fingerprint_message, render_action, FileTree, InputState, ToolFile, TreeFile,
};
use uliab::task::{
    split_cross_plugin_ref, AllowlistedTool, BuildResult, Executor, FingerprintContext,
    FingerprintStore, GraphError, Task, TaskAction, TaskGraph,
};
use uliab::text_map::TextMap;

fn copy_action(from: &str, to: &str) -> TaskAction {
    TaskAction::Copy {
        from: from.to_owned(),
        to: to.to_owned(),
    }
}

fn copy_task(name: &str, from: &str, to: &str) -> Task {
    Task::leaf(name, "app", Vec::new(), Vec::new(), copy_action(from, to))
}

fn strings(list: &[&str]) -> Vec<String> {
    list.iter().map(|s| (*s).to_owned()).collect()
}

fn after(deps: &[&str], task: Task) -> Task {
    Task {
        depends_on: strings(deps),
        ..task
    }
}

fn tool_task(
    name: &str,
    outputs: &[&str],
    tool: AllowlistedTool,
    args: &[&str],
) -> Task {
    Task::leaf(
        name,
        "app",
        vec![],
        strings(outputs),
        TaskAction::RunTool {
            tool,
            args: strings(args),
            cwd: "/root".to_owned(),
        },
    )
}

fn ctx(config_hash: &str) -> FingerprintContext {
    FingerprintContext {
        plugin_version: "0.1.0".to_owned(),
        config_hash: config_hash.to_owned(),
    }
}

fn digest(bytes: &[u8]) -> Vec<u8> {
    let mut hasher = Hasher::new();
    hasher.update(bytes);
    hasher.finish()
}

/// Files in memory.
struct Disk {
    files: BTreeMap<String, Vec<u8>>,
}

impl Disk {
    fn new(files: &[(&str, &str)]) -> Disk {
        Disk {
            files: files
                .iter()
                .map(|(path, content)| ((*path).to_owned(), content.as_bytes().to_vec()))
                .collect(),
        }
    }

    fn write(&mut self, path: &str, content: &[u8]) {
        self.files.insert(path.to_owned(), content.to_vec());
    }

    fn read(&self, path: &str) -> Option<&[u8]> {
        self.files.get(path).map(Vec::as_slice)
    }

    fn input(&self, path: &str) -> InputState {
        if let Some(content) = self.files.get(path) {
            return InputState::Content(digest(content));
        }
        let below = format!("{path}/");
        let mut tree = FileTree::new();
        for (file, content) in &self.files {
            if let Some(rest) = file.strip_prefix(&below) {
                tree.add(TreeFile {
                    path: rest.to_owned(),
                    digest: Some(digest(content)),
                });
            }
        }
        if tree.files.is_empty() {
            InputState::Absent
        } else {
            InputState::Tree(tree)
        }
    }

    fn found(&self, action: &TaskAction) -> Option<String> {
        match action {
            TaskAction::RunTool {
                tool: tool @ (AllowlistedTool::Aapt2 | AllowlistedTool::Apksigner),
                args,
                ..
            } if !args.is_empty() => {
                let candidates = build_tool_candidates(*tool, &args[0], false);
                let usable = candidates
                    .iter()
                    .map(|path| self.files.contains_key(path))
                    .collect();
                pick(&candidates, &usable)
            }
            _ => None,
        }
    }

    fn fingerprint(&self, task: &Task, ctx: &FingerprintContext) -> String {
        let inputs = task.inputs.iter().map(|path| self.input(path)).collect();
        let tool = self.found(&task.action).map(|path| ToolFile {
            digest: self.files.get(&path).map(|content| digest(content)),
            path,
        });
        fingerprint(task, ctx, &inputs, &tool)
    }

    fn run_task(&mut self, executor: &Executor, task: &Task) -> Result<(), String> {
        let found = self.found(&task.action);
        match executor.prepare(&task.action, found.as_deref(), false)? {
            Work::Copy { from, to } => match self.files.get(&from).cloned() {
                Some(content) => {
                    self.files.insert(to, content);
                }
                None => return Err(missing_source(&from)),
            },
            Work::Write { to, contents } => {
                self.files.insert(to, contents.into_bytes());
            }
            Work::Run { binary, args, .. } => {
                if binary == "cat" && !args.iter().all(|arg| self.files.contains_key(arg)) {
                    return Err(exit_failure(&binary, "exit status: 1", "", "no such file"));
                }
                self.files
                    .insert("/ran".to_owned(), format!("{binary}|{}", args.join(" ")).into_bytes());
            }
        }
        let exists = task
            .outputs
            .iter()
            .map(|path| self.files.contains_key(path))
            .collect();
        verify_outputs(task, &exists)
    }

    fn execute(
        &mut self,
        executor: &Executor,
        graph: &TaskGraph,
        ctx: &FingerprintContext,
        store: &mut FingerprintStore,
    ) -> Result<BuildResult, GraphError> {
        let mut run = executor.start(graph)?;
        while let Some(wave) = run.wave() {
            let wave = wave.clone();
            let fingerprints: Vec<String> = wave
                .iter()
                .map(|at| self.fingerprint(&graph.tasks()[*at], ctx))
                .collect();
            let outcomes = executor
                .stale(graph, store, &run, &fingerprints)
                .into_iter()
                .map(|place| self.run_task(executor, &graph.tasks()[wave[place]]))
                .collect();
            executor.execute(graph, store, &mut run, &fingerprints, &outcomes);
        }
        Ok(run.finish(graph))
    }
}

fn empty_store() -> FingerprintStore {
    FingerprintStore::load("/root/state.json".to_owned(), None)
}

#[test]
fn duplicate_registration_is_rejected() {
    let mut graph = TaskGraph::new();
    graph.register(copy_task("a", "x", "y")).unwrap();
    let error = graph
        .register(copy_task("a", "x", "y"))
        .expect_err("duplicate");
    assert!(error.contains("app::a"));
    assert_eq!(graph.len(), 1);
}

#[test]
fn same_name_in_different_modules_coexist() {
    let mut graph = TaskGraph::new();
    for module in ["one", "two"] {
        graph
            .register(Task::leaf(
                "a",
                module,
                vec![],
                vec![],
                copy_action("x", "y"),
            ))
            .unwrap();
    }
    assert_eq!(graph.len(), 2);
}

#[test]
fn waves_respect_longest_chain_and_registration_order() {
    let mut graph = TaskGraph::new();
    // chain c -> b -> a plus an independent d; registration order is
    // intentionally not topological.
    graph.register(copy_task("a", "a", "b")).unwrap();
    graph.register(copy_task("d", "d", "e")).unwrap();
    graph
        .register(after(&["a"], copy_task("b", "b", "c")))
        .unwrap();
    graph
        .register(after(&["b"], copy_task("c", "c", "d")))
        .unwrap();

    let waves = graph.waves().expect("acyclic");
    let names: Vec<Vec<String>> = waves
        .iter()
        .map(|wave| wave.iter().map(|task| task.name.clone()).collect())
        .collect();
    assert_eq!(names, vec![vec!["a", "d"], vec!["b"], vec!["c"]]);
    assert_eq!(
        graph.wave_positions().unwrap(),
        vec![vec![0, 1], vec![2], vec![3]]
    );
}

#[test]
fn cycle_reports_the_path() {
    let mut graph = TaskGraph::new();
    graph
        .register(after(&["b"], copy_task("a", "a", "b")))
        .unwrap();
    graph
        .register(after(&["a"], copy_task("b", "b", "a")))
        .unwrap();
    let error = graph.waves().expect_err("cycle");
    let GraphError::Cycle(path) = &error else {
        panic!("expected a cycle, got {error:?}");
    };
    assert_eq!(path, &["app::a".to_owned(), "app::b".to_owned()]);
    assert!(error.message().contains("app::a -> app::b -> app::a"));
}

#[test]
fn a_cycle_starts_where_it_is_entered() {
    let mut graph = TaskGraph::new();
    graph.register(after(&["b"], copy_task("a", "", ""))).unwrap();
    graph.register(after(&["c"], copy_task("b", "", ""))).unwrap();
    graph.register(after(&["b"], copy_task("c", "", ""))).unwrap();
    let error = graph.waves().expect_err("cycle");
    assert_eq!(
        error,
        GraphError::Cycle(strings(&["app::b", "app::c"]))
    );
}

#[test]
fn unknown_dependency_is_a_graph_error() {
    let mut graph = TaskGraph::new();
    graph
        .register(after(&["ghost"], copy_task("a", "a", "b")))
        .unwrap();
    let error = graph.waves().expect_err("undefined dep");
    let GraphError::UnknownDependency { task, dep } = &error else {
        panic!("expected unknown dependency, got {error:?}");
    };
    assert_eq!(task, "app::a");
    assert_eq!(dep, "app::ghost");
    assert_eq!(
        error.message(),
        "task 'app::a' depends on undefined task 'app::ghost'"
    );
}

#[test]
fn absolute_dependencies_reach_other_modules() {
    let mut graph = TaskGraph::new();
    graph
        .register(after(&["lib::jar"], copy_task("a", "", "")))
        .unwrap();
    graph
        .register(Task::leaf("jar", "lib", vec![], vec![], copy_action("", "")))
        .unwrap();
    assert_eq!(graph.wave_positions().unwrap(), vec![vec![1], vec![0]]);
    assert!(graph.get("lib", "jar").is_some());
    assert!(graph.get("lib", "a").is_none());
}

#[test]
fn fingerprint_is_deterministic_and_sensitive_to_input_and_config() {
    let mut disk = Disk::new(&[("/root/in.txt", "v1")]);
    let task = Task::leaf(
        "a",
        "app",
        strings(&["/root/in.txt"]),
        vec![],
        copy_action("/root/in.txt", "/root/out.txt"),
    );

    let first = disk.fingerprint(&task, &ctx("cfg"));
    assert_eq!(first, disk.fingerprint(&task, &ctx("cfg")));
    assert_ne!(first, disk.fingerprint(&task, &ctx("other")));

    disk.write("/root/in.txt", b"v2");
    assert_ne!(first, disk.fingerprint(&task, &ctx("cfg")));
}

fn res_task() -> Task {
    Task {
        inputs: strings(&["/root/res"]),
        ..tool_task("res", &[], AllowlistedTool::Echo, &["x"])
    }
}

#[test]
fn directory_input_fingerprint_tracks_the_tree() {
    let mut disk = Disk::new(&[
        ("/root/res/layout/activity.xml", "<a/>"),
        ("/root/res/values/strings.xml", "<r/>"),
    ]);
    let task = res_task();

    let baseline = disk.fingerprint(&task, &ctx("cfg"));
    assert_eq!(baseline, disk.fingerprint(&task, &ctx("cfg")));

    disk.write("/root/res/layout/activity.xml", b"<b/>");
    assert_ne!(baseline, disk.fingerprint(&task, &ctx("cfg")));

    disk.write("/root/res/layout/activity.xml", b"<a/>");
    let restored = disk.fingerprint(&task, &ctx("cfg"));
    assert_eq!(baseline, restored);

    disk.write("/root/res/values/extra.xml", b"<e/>");
    assert_ne!(baseline, disk.fingerprint(&task, &ctx("cfg")));

    disk.files.remove("/root/res/values/extra.xml");
    assert_eq!(baseline, disk.fingerprint(&task, &ctx("cfg")));
}

#[test]
fn files_of_a_tree_are_ordered_part_by_part() {
    let file = |path: &str| TreeFile {
        path: path.to_owned(),
        digest: None,
    };
    let mut one = FileTree::new();
    one.add(file("a-b"));
    one.add(file("a/z"));
    let mut other = FileTree::new();
    other.add(file("a/z"));
    other.add(file("a-b"));
    assert_eq!(one, other);
    assert_eq!(one.files.entries[0].1.path, "a/z");
}

#[test]
fn run_tool_fingerprint_tracks_the_resolved_binary_contents() {
    let mut disk = Disk::new(&[("/root/build-tools/36.0.0/aapt2", "#!/bin/sh\nexit 0\n")]);
    let task = tool_task(
        "compile",
        &[],
        AllowlistedTool::Aapt2,
        &["/root/build-tools/36.0.0", "link"],
    );

    let baseline = disk.fingerprint(&task, &ctx("cfg"));
    assert_eq!(baseline, disk.fingerprint(&task, &ctx("cfg")));

    // A different installed binary (an SDK/toolchain upgrade) must
    // invalidate the task even though the action is byte-for-byte equal.
    disk.write(
        "/root/build-tools/36.0.0/aapt2",
        b"#!/bin/sh\nexit 0\n# v2\n",
    );
    assert_ne!(baseline, disk.fingerprint(&task, &ctx("cfg")));
}

#[test]
fn a_fingerprint_is_the_digest_of_its_message() {
    let task = copy_task("a", "x", "y");
    let inputs = vec![InputState::Absent, InputState::Content(vec![7, 8])];
    let message = fingerprint_message(&task, &ctx("cfg"), &inputs, &None);
    let action = render_action(&task.action);
    let expected: Vec<u8> = [
        b"0.1.0\0cfg\0".as_slice(),
        &[0],
        &[1, 7, 8],
        &[0],
        action.as_bytes(),
    ]
    .concat();
    assert_eq!(message, expected);
    let hex: String = digest(&message).iter().map(|b| format!("{b:02x}")).collect();
    assert_eq!(fingerprint(&task, &ctx("cfg"), &inputs, &None), hex);
}

#[test]
fn a_tool_that_is_not_found_shows_in_the_message() {
    let task = tool_task("a", &[], AllowlistedTool::Echo, &["x"]);
    let message = fingerprint_message(&task, &ctx("cfg"), &vec![], &None);
    assert!(message.ends_with(b"unresolved-tool"));
    let file = ToolFile {
        path: "/bin/echo".to_owned(),
        digest: None,
    };
    let message = fingerprint_message(&task, &ctx("cfg"), &vec![], &Some(file));
    assert!(message.ends_with(b"\x03/bin/echo\0\0"));
}

#[test]
fn a_successful_action_that_misses_its_declared_output_fails() {
    let task = tool_task(
        "compile",
        &["/root/out/Cls.class"],
        AllowlistedTool::Echo,
        &["x"],
    );
    let error = Disk::new(&[])
        .run_task(&Executor::new(vec![AllowlistedTool::Echo]), &task)
        .expect_err("missing output");
    assert!(error.contains("declared output"));
    assert!(error.contains("Cls.class"));
}

#[test]
fn output_verification_refuses_to_record_a_missing_artifact() {
    let mut graph = TaskGraph::new();
    graph
        .register(tool_task(
            "compile",
            &["/root/out/Cls.class"],
            AllowlistedTool::Echo,
            &["x"],
        ))
        .unwrap();

    let mut disk = Disk::new(&[]);
    let mut store = empty_store();
    let executor = Executor::new(vec![AllowlistedTool::Echo]);
    let first = disk
        .execute(&executor, &graph, &ctx("cfg"), &mut store)
        .expect("schedules");
    let failure = first.failure.expect("missing output should fail");
    assert!(failure.error.contains("declared output"));

    // The missing artifact was not recorded up-to-date, so the task
    // still runs (and still fails) on the next build instead of being
    // skipped and leaving the absent output to hash as present.
    let second = disk
        .execute(&executor, &graph, &ctx("cfg"), &mut store)
        .expect("schedules");
    assert!(second.failure.is_some());
}

#[test]
fn a_copy_that_misses_its_declared_output_fails() {
    // The action succeeds but writes a different file than the
    // declared output — a path mismatch that must be a failure.
    let task = Task {
        outputs: strings(&["/root/out.txt"]),
        ..copy_task("stage", "/root/src.txt", "/root/produced.txt")
    };
    let error = Disk::new(&[("/root/src.txt", "data")])
        .run_task(&Executor::new(vec![]), &task)
        .expect_err("declared output missing");
    assert!(error.contains("declared output"));
    assert!(error.contains("out.txt"));
}

#[test]
fn the_first_missing_output_is_reported() {
    let task = Task {
        outputs: strings(&["a", "b", "c"]),
        ..copy_task("t", "x", "y")
    };
    assert_eq!(verify_outputs(&task, &vec![true, true, true]), Ok(()));
    assert_eq!(
        verify_outputs(&task, &vec![true, false, false]).unwrap_err(),
        "task 't' declared output 'b' but it does not exist after the action ran"
    );
}

#[test]
fn resolve_on_path_finds_the_executable_binary() {
    assert_eq!(
        resolve_on_path("javac", &strings(&["/root"]), &None, &vec![true]),
        Some("/root/javac".to_owned())
    );
}

#[test]
fn resolve_on_path_returns_none_for_an_absent_tool() {
    assert_eq!(
        resolve_on_path("javac", &strings(&["/root"]), &None, &vec![false]),
        None
    );
    assert_eq!(resolve_on_path("javac", &vec![], &None, &vec![]), None);
}

#[test]
fn resolve_on_path_continues_past_a_non_executable_to_a_later_executable() {
    let dirs = strings(&["/root/first", "/root/second"]);
    assert_eq!(
        resolve_on_path("javac", &dirs, &None, &vec![false, true]),
        Some("/root/second/javac".to_owned())
    );
}

#[test]
fn extensions_mark_executables_where_there_are_any() {
    let extensions = path_extensions(&strings(&[".EXE", "..BAT", ".", ""]));
    assert_eq!(extensions, strings(&["EXE", "BAT"]));
    assert_eq!(default_extensions(), strings(&["EXE", "BAT", "CMD"]));
    assert_eq!(
        path_candidates("jar", &strings(&["/a", "/b"]), &Some(extensions)),
        strings(&["/a/jar.EXE", "/a/jar.BAT", "/b/jar.EXE", "/b/jar.BAT"])
    );
    assert_eq!(
        build_tool_candidates(AllowlistedTool::Apksigner, "/bt", true),
        strings(&["/bt/apksigner.bat", "/bt/apksigner.exe"])
    );
    assert_eq!(
        build_tool_candidates(AllowlistedTool::Aapt2, "/bt", true),
        strings(&["/bt/aapt2.exe"])
    );
}

fn pseudo_random_bytes(len: usize) -> Vec<u8> {
    (0..len).map(|index| (index % 251) as u8).collect()
}

#[test]
fn streamed_digest_matches_one_shot_hashing() {
    let content = pseudo_random_bytes(1024 * 1024);
    let mut hasher = Hasher::new();
    for chunk in content.chunks(16 * 1024) {
        hasher.update(chunk);
    }
    assert_eq!(hasher.finish(), digest(&content));
}

#[test]
fn directory_fingerprint_tracks_bytes_across_chunk_boundaries() {
    let mut disk = Disk::new(&[]);
    let mut content = pseudo_random_bytes(1024 * 1024);
    disk.write("/root/res/big.bin", &content);
    let task = res_task();

    let baseline = disk.fingerprint(&task, &ctx("cfg"));
    assert_eq!(baseline, disk.fingerprint(&task, &ctx("cfg")));

    content[16 * 1024 + 7] ^= 0xff;
    disk.write("/root/res/big.bin", &content);
    assert_ne!(baseline, disk.fingerprint(&task, &ctx("cfg")));

    content[16 * 1024 + 7] ^= 0xff;
    disk.write("/root/res/big.bin", &content);
    assert_eq!(baseline, disk.fingerprint(&task, &ctx("cfg")));
}

#[test]
fn aapt2_runs_the_build_tools_binary_without_the_dir_argument() {
    let mut disk = Disk::new(&[("/root/build-tools/36.0.0/aapt2", "")]);
    let task = tool_task(
        "res",
        &[],
        AllowlistedTool::Aapt2,
        &["/root/build-tools/36.0.0", "compile", "--dir", "res"],
    );
    disk.run_task(&Executor::new(vec![AllowlistedTool::Aapt2]), &task)
        .expect("aapt2 runs");
    assert_eq!(
        disk.read("/ran").unwrap(),
        b"/root/build-tools/36.0.0/aapt2|compile --dir res"
    );
}

#[test]
fn aapt2_requires_the_build_tools_dir_as_first_argument() {
    let task = tool_task("res", &[], AllowlistedTool::Aapt2, &[]);
    let error = Executor::new(vec![AllowlistedTool::Aapt2])
        .prepare(&task.action, None, false)
        .expect_err("no dir argument");
    assert!(error.contains("build-tools directory"));
    assert_eq!(
        error,
        "tool 'aapt2' requires the build-tools directory as its first argument"
    );
}

#[test]
fn aapt2_refuses_a_missing_build_tools_dir() {
    let task = tool_task("res", &[], AllowlistedTool::Aapt2, &["/root/nowhere"]);
    let error = Disk::new(&[])
        .run_task(&Executor::new(vec![AllowlistedTool::Aapt2]), &task)
        .expect_err("missing dir");
    assert!(error.contains("does not exist"));
    assert_eq!(
        resolve_tool(AllowlistedTool::Apksigner, &strings(&["/bt"]), None, false).unwrap_err(),
        "apksigner binary not found in '/bt' (looked for apksigner)"
    );
}

#[test]
fn execute_copies_and_skips_unchanged_tasks() {
    let mut disk = Disk::new(&[("/root/in.txt", "hello")]);
    let mut graph = TaskGraph::new();
    graph
        .register(Task::leaf(
            "stage",
            "app",
            strings(&["/root/in.txt"]),
            strings(&["/root/stage.txt"]),
            copy_action("/root/in.txt", "/root/stage.txt"),
        ))
        .unwrap();
    graph
        .register(after(
            &["stage"],
            Task::leaf(
                "bundle",
                "app",
                strings(&["/root/stage.txt"]),
                strings(&["/root/out.txt"]),
                copy_action("/root/stage.txt", "/root/out.txt"),
            ),
        ))
        .unwrap();

    let executor = Executor::new(vec![]);
    let mut store = empty_store();
    let first = disk
        .execute(&executor, &graph, &ctx("cfg"), &mut store)
        .expect("schedules");
    assert_eq!((first.ran, first.up_to_date, first.skipped), (2, 0, 0));
    assert_eq!(disk.read("/root/out.txt").unwrap(), b"hello");

    let second = disk
        .execute(&executor, &graph, &ctx("cfg"), &mut store)
        .expect("schedules");
    assert_eq!((second.ran, second.up_to_date), (0, 2));

    let saved = store.save();
    let mut reloaded = FingerprintStore::load("/root/state.json".to_owned(), Some(saved));
    let third = disk
        .execute(&executor, &graph, &ctx("cfg"), &mut reloaded)
        .expect("schedules");
    assert_eq!((third.ran, third.up_to_date), (0, 2));
}

#[test]
fn changing_an_input_reruns_only_affected_tasks() {
    let mut disk = Disk::new(&[("/root/in.txt", "v1")]);
    let mut graph = TaskGraph::new();
    for name in ["a", "b"] {
        graph
            .register(Task::leaf(
                name,
                "app",
                strings(&["/root/in.txt"]),
                vec![],
                copy_action("/root/in.txt", &format!("/root/{name}.out")),
            ))
            .unwrap();
    }

    let executor = Executor::new(vec![]);
    let mut store = empty_store();
    disk.execute(&executor, &graph, &ctx("cfg"), &mut store)
        .unwrap();

    // Both tasks read in.txt; changing it must rerun both.
    disk.write("/root/in.txt", b"v2");
    let result = disk
        .execute(&executor, &graph, &ctx("cfg"), &mut store)
        .unwrap();
    assert_eq!((result.ran, result.up_to_date), (2, 0));
}

#[test]
fn dependent_reruns_when_its_dependency_reran() {
    let mut disk = Disk::new(&[("/root/in.txt", "v1")]);
    let mut graph = TaskGraph::new();
    // d reads in.txt and writes d.out; e depends on d and declares no
    // inputs, so e's fingerprint never changes.
    graph
        .register(Task::leaf(
            "d",
            "app",
            strings(&["/root/in.txt"]),
            strings(&["/root/d.out"]),
            copy_action("/root/in.txt", "/root/d.out"),
        ))
        .unwrap();
    graph
        .register(after(
            &["d"],
            Task::leaf(
                "e",
                "app",
                vec![],
                strings(&["/root/e.out"]),
                copy_action("/root/d.out", "/root/e.out"),
            ),
        ))
        .unwrap();

    let executor = Executor::new(vec![]);
    let mut store = empty_store();
    disk.execute(&executor, &graph, &ctx("cfg"), &mut store)
        .expect("schedules");

    // d's input changes: d reruns, and e must rerun too even though its
    // own fingerprint is unchanged.
    disk.write("/root/in.txt", b"v2");
    let result = disk
        .execute(&executor, &graph, &ctx("cfg"), &mut store)
        .expect("schedules");
    assert_eq!((result.ran, result.up_to_date), (2, 0));
    assert_eq!(disk.read("/root/e.out").unwrap(), b"v2");
}

#[test]
fn failure_skips_dependents_but_wave_siblings_finish() {
    let mut disk = Disk::new(&[("/root/src.txt", "x")]);
    let mut graph = TaskGraph::new();
    // a fails (missing source); c is an independent sibling in the same
    // wave and must still run; b depends on a and is skipped.
    graph
        .register(copy_task("a", "/root/missing.txt", "/root/a.out"))
        .unwrap();
    graph
        .register(copy_task("c", "/root/src.txt", "/root/c.out"))
        .unwrap();
    graph
        .register(after(
            &["a"],
            copy_task("b", "/root/src.txt", "/root/b.out"),
        ))
        .unwrap();

    let result = disk
        .execute(
            &Executor::new(vec![]),
            &graph,
            &ctx("cfg"),
            &mut empty_store(),
        )
        .expect("schedules");
    let failure = result.failure.expect("a failed");
    assert_eq!(failure.task, "app::a");
    assert_eq!(
        failure.error,
        "copy source '/root/missing.txt' does not exist"
    );
    assert_eq!((result.ran, result.up_to_date, result.skipped), (1, 0, 1));
    assert!(disk.read("/root/c.out").is_some());
    assert!(disk.read("/root/b.out").is_none());
}

#[test]
fn a_graph_that_cannot_be_scheduled_does_not_run() {
    let mut graph = TaskGraph::new();
    graph
        .register(after(&["ghost"], copy_task("a", "x", "y")))
        .unwrap();
    let result = Disk::new(&[]).execute(
        &Executor::new(vec![]),
        &graph,
        &ctx("cfg"),
        &mut empty_store(),
    );
    assert!(matches!(
        result,
        Err(GraphError::UnknownDependency { .. })
    ));
    let empty = Disk::new(&[])
        .execute(
            &Executor::new(vec![]),
            &TaskGraph::new(),
            &ctx("cfg"),
            &mut empty_store(),
        )
        .unwrap();
    assert_eq!(empty, BuildResult::default());
}

#[test]
fn run_tool_denied_when_not_allowlisted() {
    let task = tool_task("a", &[], AllowlistedTool::Cat, &["missing.txt"]);
    let error = Executor::new(vec![])
        .prepare(&task.action, None, false)
        .expect_err("denied");
    assert!(error.contains("allowlist"));
    assert_eq!(error, "tool 'cat' is not on the allowlist");
}

#[test]
fn run_tool_surfaces_nonzero_exit() {
    let task = tool_task("a", &[], AllowlistedTool::Cat, &["does-not-exist.txt"]);
    let error = Disk::new(&[])
        .run_task(&Executor::new(vec![AllowlistedTool::Cat]), &task)
        .expect_err("cat fails");
    assert!(error.contains("exited with"));
    assert_eq!(
        copy_failure("a", "b", "denied"),
        "copy a -> b: denied"
    );
}

#[test]
fn write_file_reruns_when_contents_change() {
    let disk = Disk::new(&[]);
    let to = "/root/gen/Runner.java";
    let task = |contents: &str| {
        Task::leaf(
            "gen",
            "app",
            vec![],
            strings(&[to]),
            TaskAction::WriteFile {
                to: to.to_owned(),
                contents: contents.to_owned(),
            },
        )
    };
    let first = disk.fingerprint(&task("v1"), &ctx("cfg"));
    assert_eq!(first, disk.fingerprint(&task("v1"), &ctx("cfg")));
    assert_ne!(first, disk.fingerprint(&task("v2"), &ctx("cfg")));
    assert_ne!(first, disk.fingerprint(&task("v1"), &ctx("other")));
}

#[test]
fn write_file_writes_its_contents() {
    let mut disk = Disk::new(&[]);
    let task = Task::leaf(
        "gen",
        "app",
        vec![],
        strings(&["/root/generated/Runner.java"]),
        TaskAction::WriteFile {
            to: "/root/generated/Runner.java".to_owned(),
            contents: "public final class Runner {}".to_owned(),
        },
    );
    disk.run_task(&Executor::new(vec![]), &task).expect("write ok");
    assert_eq!(
        disk.read("/root/generated/Runner.java").unwrap(),
        b"public final class Runner {}"
    );
}

#[test]
fn actions_are_rendered() {
    let write = |contents: &str| {
        render_action(&TaskAction::WriteFile {
            to: "t".to_owned(),
            contents: contents.to_owned(),
        })
    };
    assert_ne!(write("a"), write("b"));
    assert_ne!(
        render_action(&copy_action("a", "b")),
        render_action(&copy_action("b", "a"))
    );
    assert_ne!(
        render_action(&copy_action("a -> b", "c")),
        render_action(&copy_action("a", "b -> c"))
    );
    let echo = |args: &[&str]| {
        render_action(&TaskAction::RunTool {
            tool: AllowlistedTool::Echo,
            args: args.iter().map(|arg| (*arg).to_owned()).collect(),
            cwd: "/w".to_owned(),
        })
    };
    assert_ne!(echo(&["a b"]), echo(&["a", "b"]));
    assert_eq!(echo(&["a b", "c"]), "tool 4:echo2:/w3:a b1:c]");
    assert_eq!(render_action(&copy_action("a", "b")), "copy 1:a1:b");
    assert_eq!(write("xy"), "write 1:t2:xy");
}

#[test]
fn state_of_another_format_is_not_loaded() {
    let state = |format: u32| {
        let mut fingerprints = TextMap::new();
        fingerprints.insert("app::a".to_owned(), "f".to_owned());
        StateFile {
            format,
            fingerprints,
        }
    };
    let store = FingerprintStore::load("s".to_owned(), Some(state(STATE_FORMAT)));
    assert!(store.is_up_to_date("app::a", "f"));
    assert!(!store.is_up_to_date("app::a", "g"));
    assert!(!store.is_up_to_date("app::b", "f"));
    let store = FingerprintStore::load("s".to_owned(), Some(state(2)));
    assert!(!store.is_up_to_date("app::a", "f"));
    assert_eq!(store.save().format, 1);
}

#[test]
fn a_recorded_fingerprint_replaces_an_older_one() {
    let mut store = empty_store();
    store.record("app::a", "1");
    store.record("app::a", "2");
    assert!(store.is_up_to_date("app::a", "2"));
    assert!(!store.is_up_to_date("app::a", "1"));
}

#[test]
fn tools_have_names() {
    assert_eq!(AllowlistedTool::parse("cp"), Some(AllowlistedTool::Copy));
    assert_eq!(AllowlistedTool::parse("rm"), None);
    for name in [
        "cp", "cat", "mkdir", "echo", "javac", "kotlinc", "jar", "java", "aapt2", "apksigner",
    ] {
        assert_eq!(AllowlistedTool::parse(name).unwrap().as_str(), name);
    }
}

#[test]
fn split_cross_plugin_ref_parses_valid_format() {
    assert_eq!(
        split_cross_plugin_ref("ulite/fixture:stage"),
        Some(("ulite/fixture", "stage"))
    );
}

#[test]
fn split_cross_plugin_ref_returns_none_for_bare_names() {
    assert_eq!(split_cross_plugin_ref("stage"), None);
    assert_eq!(split_cross_plugin_ref("compileKotlin"), None);
}

#[test]
fn split_cross_plugin_ref_rejects_empty_parts() {
    assert_eq!(split_cross_plugin_ref(":stage"), None);
    assert_eq!(split_cross_plugin_ref("ulite/fixture:"), None);
}

#[test]
fn a_reference_has_one_colon() {
    assert_eq!(split_cross_plugin_ref("a:b:c"), None);
    assert_eq!(split_cross_plugin_ref("app::task"), None);
}

#[test]
fn strip_cross_plugin_refs_removes_cross_deps() {
    let mut graph = TaskGraph::new();
    graph
        .register(after(
            &["stage", "ulite/fixture:stage"],
            copy_task("consume", "x", "y"),
        ))
        .unwrap();
    graph.strip_cross_plugin_refs();
    let task = graph.get("app", "consume").unwrap();
    assert_eq!(task.depends_on, vec!["stage".to_owned()]);
}

#[test]
fn strip_cross_plugin_refs_preserves_bare_deps() {
    let mut graph = TaskGraph::new();
    graph
        .register(after(&["stage"], copy_task("consume", "x", "y")))
        .unwrap();
    graph.strip_cross_plugin_refs();
    let task = graph.get("app", "consume").unwrap();
    assert_eq!(task.depends_on, vec!["stage".to_owned()]);
}

#[test]
fn resolve_cross_plugin_dep_orders_tasks() {
    let mut graph = TaskGraph::new();
    graph
        .register(after(
            &["ulite/fixture:stage"],
            copy_task("consume", "app", "y"),
        ))
        .unwrap();
    graph.register(copy_task("stage", "a", "b")).unwrap();

    // Both tasks live under the same module label here, mirroring a
    // single-plugin-per-module world: the provider of any plugin's
    // reference is that module itself.
    graph
        .resolve_cross_plugin_deps(&|_consumer: &str, _plugin: &str, task: &str| {
            Some(format!("app::{task}"))
        })
        .unwrap();

    let consume = graph.get("app", "consume").unwrap();
    assert_eq!(consume.depends_on, vec!["app::stage".to_owned()]);

    let waves = graph.waves().unwrap();
    assert_eq!(waves.len(), 2, "stage in wave 0, consume in wave 1");
}

#[test]
fn resolve_rejects_undeclared_plugin() {
    let mut graph = TaskGraph::new();
    graph
        .register(after(&["ulite/unknown:task"], copy_task("a", "x", "y")))
        .unwrap();
    let error = graph
        .resolve_cross_plugin_deps(&|_: &str, _: &str, _: &str| None)
        .expect_err("unknown plugin");
    assert!(error.message().contains("ulite/unknown:task"));
}

#[test]
fn deps_before_an_unknown_one_are_resolved() {
    let mut graph = TaskGraph::new();
    let deps = ["p:known", "own", "p:ghost", "p:known"];
    graph.register(after(&["p:known"], copy_task("a", "x", "y"))).unwrap();
    graph.register(after(&deps, copy_task("b", "x", "z"))).unwrap();
    graph.register(after(&["p:known"], copy_task("c", "x", "w"))).unwrap();
    let error = graph
        .resolve_cross_plugin_deps(&|_: &str, _: &str, task: &str| {
            if task == "known" {
                Some("m::known".to_owned())
            } else {
                None
            }
        })
        .expect_err("unknown task");
    assert!(error.message().contains("p:ghost"));
    let deps_of = |name: &str| graph.get("app", name).unwrap().depends_on.clone();
    assert_eq!(deps_of("a"), vec!["m::known"]);
    assert_eq!(deps_of("b"), vec!["m::known", "own", "p:ghost", "p:known"]);
    assert_eq!(deps_of("c"), vec!["p:known"]);
}

#[test]
fn resolve_rejects_unknown_task_within_known_plugin() {
    let mut graph = TaskGraph::new();
    graph
        .register(after(&["ulite/fixture:ghost"], copy_task("a", "x", "y")))
        .unwrap();
    let error = graph
        .resolve_cross_plugin_deps(&|consumer_module: &str, _plugin: &str, task: &str| {
            // The plugin is known but only registers other tasks.
            if task == "stage" {
                Some(format!("{consumer_module}::stage"))
            } else {
                None
            }
        })
        .expect_err("unknown task");
    assert!(error.message().contains("ulite/fixture:ghost"));
}
