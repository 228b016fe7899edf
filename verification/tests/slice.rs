use repx::file_identity::{hash_file_contents, observe_path, FileObservation, FileProbe};
use repx::operation::OpType;
use repx::provenance::rewrite_path_prefix;
use repx::slice::canonicalize_output_slice;
use repx::tracer::{ProcessEvent, ProcessInstance};
use repx::workspace::OutputFile;

struct Files {
    dir: String,
    written: Vec<(String, Vec<u8>)>,
}

impl Files {
    fn new(name: &str) -> Files {
        Files { dir: format!("/tmp/repx-slice-{name}"), written: vec![] }
    }

    fn path(&self, name: &str) -> String {
        format!("{}/{name}", self.dir)
    }

    fn write(&mut self, path: &str, content: &[u8]) {
        self.written.push((path.to_string(), content.to_vec()));
    }

    fn probe(&self, path: &str) -> FileProbe {
        match self.written.iter().find(|(name, _)| name == path) {
            Some((_, content)) => FileProbe::Content(content.clone()),
            None => FileProbe::Missing,
        }
    }

    fn observe(&self, path: &str) -> FileObservation {
        observe_path(path, &self.probe(path))
    }

    fn hash(&self, path: &str) -> String {
        hash_file_contents(&self.probe(path)).unwrap()
    }
}

#[test]
fn slices_to_process_that_wrote_changed_output() {
    let mut files = Files::new("basic");

    let tool = files.path("tool");
    let input = files.path("input.txt");
    let output = files.path("output.txt");
    let unrelated = files.path("unrelated.txt");
    files.write(&tool, b"tool");
    files.write(&input, b"input");
    files.write(&output, b"output");
    files.write(&unrelated, b"unrelated");

    let output_hash = files.hash(&output);
    let events = vec![
        ProcessEvent::Exec {
            process: ProcessInstance::new(10, 0),
            observation: files.observe(&tool),
        },
        ProcessEvent::FileOpen {
            process: ProcessInstance::new(10, 0),
            path: input.clone(),
            flags: 0,
            fd: 3,
            external: false,
            observation: files.observe(&input),
        },
        ProcessEvent::FileOpen {
            process: ProcessInstance::new(10, 0),
            path: output.clone(),
            flags: 1,
            fd: 4,
            external: false,
            observation: files.observe(&output),
        },
        ProcessEvent::FileClose {
            process: ProcessInstance::new(10, 0),
            fd: 4,
            path: Some(output.clone()),
            external: false,
            observation: Some(files.observe(&output)),
        },
        ProcessEvent::FileOpen {
            process: ProcessInstance::new(11, 0),
            path: unrelated.clone(),
            flags: 1,
            fd: 5,
            external: false,
            observation: files.observe(&unrelated),
        },
        ProcessEvent::FileClose {
            process: ProcessInstance::new(11, 0),
            fd: 5,
            path: Some(unrelated.clone()),
            external: false,
            observation: Some(files.observe(&unrelated)),
        },
        ProcessEvent::Exit {
            process: ProcessInstance::new(10, 0),
            exit_code: 0,
        },
    ];

    let ops = canonicalize_output_slice(
        events,
        ProcessInstance::new(10, 0),
        &[OutputFile {
            path: output.clone(),
            hash: output_hash,
        }],
    );

    assert!(ops.iter().any(|op| op.op_type == OpType::Exec));
    assert!(ops.iter().any(|op| op.op_type == OpType::FileRead));
    assert!(ops.iter().any(|op| op.op_type == OpType::FileWrite));
    assert!(!ops.iter().any(|op| {
        op.output_hashes
            .iter()
            .any(|hash| hash == &files.hash(&unrelated))
    }));
}

#[test]
fn prefers_output_path_writer_over_same_hash_writer() {
    let mut files = Files::new("path-writer");

    let tool = files.path("tool");
    let input = files.path("input.txt");
    let output = files.path("output.txt");
    let cache = files.path("cache.txt");
    let volatile = files.path("volatile.txt");
    files.write(&tool, b"tool");
    files.write(&input, b"input");
    files.write(&output, b"same");
    files.write(&cache, b"same");
    files.write(&volatile, b"volatile");

    let output_hash = files.hash(&output);
    let volatile_hash = files.hash(&volatile);

    let events = vec![
        ProcessEvent::Exec {
            process: ProcessInstance::new(10, 0),
            observation: files.observe(&tool),
        },
        ProcessEvent::FileOpen {
            process: ProcessInstance::new(10, 0),
            path: input.clone(),
            flags: 0,
            fd: 3,
            external: false,
            observation: files.observe(&input),
        },
        ProcessEvent::FileOpen {
            process: ProcessInstance::new(10, 0),
            path: output.clone(),
            flags: 1,
            fd: 4,
            external: false,
            observation: files.observe(&output),
        },
        ProcessEvent::FileClose {
            process: ProcessInstance::new(10, 0),
            fd: 4,
            path: Some(output.clone()),
            external: false,
            observation: Some(files.observe(&output)),
        },
        ProcessEvent::Exec {
            process: ProcessInstance::new(20, 0),
            observation: files.observe(&tool),
        },
        ProcessEvent::FileOpen {
            process: ProcessInstance::new(20, 0),
            path: volatile.clone(),
            flags: 0,
            fd: 5,
            external: false,
            observation: files.observe(&volatile),
        },
        ProcessEvent::FileOpen {
            process: ProcessInstance::new(20, 0),
            path: cache.clone(),
            flags: 1,
            fd: 6,
            external: false,
            observation: files.observe(&cache),
        },
        ProcessEvent::FileClose {
            process: ProcessInstance::new(20, 0),
            fd: 6,
            path: Some(cache.clone()),
            external: false,
            observation: Some(files.observe(&cache)),
        },
    ];

    let ops = canonicalize_output_slice(
        events,
        ProcessInstance::new(10, 0),
        &[OutputFile {
            path: output.clone(),
            hash: output_hash,
        }],
    );

    assert!(!ops
        .iter()
        .any(|op| { op.input_hashes.iter().any(|hash| hash == &volatile_hash) }));
}

#[test]
fn child_output_writer_seeds_the_provenance_slice() {
    let mut files = Files::new("child-writer");

    let root_tool = files.path("root-tool");
    let child_tool = files.path("child-tool");
    let output = files.path("output.txt");
    files.write(&root_tool, b"root");
    files.write(&child_tool, b"child");
    files.write(&output, b"output");

    let output_hash = files.hash(&output);
    let child_tool_hash = files.hash(&child_tool);
    let events = vec![
        ProcessEvent::Exec {
            process: ProcessInstance::new(10, 0),
            observation: files.observe(&root_tool),
        },
        ProcessEvent::Exec {
            process: ProcessInstance::new(11, 0),
            observation: files.observe(&child_tool),
        },
        ProcessEvent::FileOpen {
            process: ProcessInstance::new(11, 0),
            path: output.clone(),
            flags: 1,
            fd: 4,
            external: false,
            observation: files.observe(&output),
        },
        ProcessEvent::FileClose {
            process: ProcessInstance::new(11, 0),
            fd: 4,
            path: Some(output.clone()),
            external: false,
            observation: Some(files.observe(&output)),
        },
    ];

    let ops = canonicalize_output_slice(
        events,
        ProcessInstance::new(10, 0),
        &[OutputFile {
            path: output.clone(),
            hash: output_hash,
        }],
    );

    assert!(ops.iter().any(|op| {
        op.op_type == OpType::Exec && op.tool_hash.as_ref() == Some(&child_tool_hash)
    }));
    assert!(ops.iter().any(|op| {
        op.op_type == OpType::FileWrite
            && op.tool_hash.as_ref() == Some(&child_tool_hash)
            && op.output_hashes == vec![files.hash(&output)]
    }));
}

#[test]
fn read_only_close_does_not_claim_output_authorship() {
    let mut files = Files::new("read-only-close");
    let tool = files.path("tool");
    let output = files.path("output.txt");
    files.write(&tool, b"tool");
    files.write(&output, b"output");

    let ops = canonicalize_output_slice(
        vec![
            ProcessEvent::Exec {
                process: ProcessInstance::new(10, 0),
                observation: files.observe(&tool),
            },
            ProcessEvent::FileOpen {
                process: ProcessInstance::new(10, 0),
                path: output.clone(),
                flags: 0,
                fd: 3,
                external: false,
                observation: files.observe(&output),
            },
            ProcessEvent::FileClose {
                process: ProcessInstance::new(10, 0),
                fd: 3,
                path: Some(output.clone()),
                external: false,
                observation: Some(files.observe(&output)),
            },
        ],
        ProcessInstance::new(10, 0),
        &[OutputFile {
            path: output.clone(),
            hash: files.hash(&output),
        }],
    );

    assert!(!ops.iter().any(|op| op.op_type == OpType::Exec));
    assert!(ops
        .iter()
        .any(|op| { op.op_type == OpType::FileWrite && op.process_index == u32::MAX }));
}

#[test]
fn output_slice_omits_unavailable_transient_dependencies() {
    let mut files = Files::new("unavailable-transient");
    let tool = files.path("tool");
    let output = files.path("output.txt");
    files.write(&tool, b"tool");
    files.write(&output, b"output");

    let unavailable = FileObservation::Missing("sha256:random-temp-path".to_string());
    let ops = canonicalize_output_slice(
        vec![
            ProcessEvent::Exec {
                process: ProcessInstance::new(10, 0),
                observation: files.observe(&tool),
            },
            ProcessEvent::FileOpen {
                process: ProcessInstance::new(10, 0),
                path: "/tmp/cc-random.s".to_string(),
                flags: 0,
                fd: 3,
                external: false,
                observation: unavailable.clone(),
            },
            ProcessEvent::FileOpen {
                process: ProcessInstance::new(10, 0),
                path: output.clone(),
                flags: 1,
                fd: 4,
                external: false,
                observation: unavailable,
            },
            ProcessEvent::FileClose {
                process: ProcessInstance::new(10, 0),
                fd: 4,
                path: Some(output.clone()),
                external: false,
                observation: Some(files.observe(&output)),
            },
        ],
        ProcessInstance::new(10, 0),
        &[OutputFile {
            path: output.clone(),
            hash: files.hash(&output),
        }],
    );

    assert!(ops.iter().any(|op| op.op_type == OpType::Exec));
    assert!(!ops.iter().any(|op| {
        op.input_hashes
            .iter()
            .chain(&op.output_hashes)
            .any(|hash| hash.starts_with("missing:"))
    }));
}

#[test]
fn rename_propagates_writer_to_final_output_path() {
    let mut files = Files::new("rename-output");
    let writer_tool = files.path("writer-tool");
    let renamer_tool = files.path("renamer-tool");
    let temporary = files.path("artifact.tmp");
    let output = files.path("artifact");
    files.write(&writer_tool, b"writer");
    files.write(&renamer_tool, b"renamer");
    files.write(&output, b"artifact");
    let output_hash = files.hash(&output);
    let writer_tool_hash = files.hash(&writer_tool);
    let renamer_tool_hash = files.hash(&renamer_tool);
    let content = FileObservation::Content(output_hash.clone());

    let ops = canonicalize_output_slice(
        vec![
            ProcessEvent::Exec {
                process: ProcessInstance::new(10, 0),
                observation: files.observe(&writer_tool),
            },
            ProcessEvent::FileOpen {
                process: ProcessInstance::new(10, 0),
                path: temporary.clone(),
                flags: 1,
                fd: 3,
                external: false,
                observation: content.clone(),
            },
            ProcessEvent::FileClose {
                process: ProcessInstance::new(10, 0),
                fd: 3,
                path: Some(temporary.clone()),
                external: false,
                observation: Some(content.clone()),
            },
            ProcessEvent::Exec {
                process: ProcessInstance::new(11, 0),
                observation: files.observe(&renamer_tool),
            },
            ProcessEvent::FileRename {
                process: ProcessInstance::new(11, 0),
                from_path: temporary.clone(),
                to_path: output.clone(),
                flags: 0,
                external: false,
                observation: content,
            },
        ],
        ProcessInstance::new(10, 0),
        &[OutputFile {
            path: output.clone(),
            hash: output_hash.clone(),
        }],
    );

    assert!(ops.iter().any(|op| {
        op.op_type == OpType::FileWrite
            && op.tool_hash.as_ref() == Some(&writer_tool_hash)
            && op.output_hashes == vec![output_hash.clone()]
    }));
    assert!(ops.iter().any(|op| {
        op.op_type == OpType::FileRename
            && op.tool_hash.as_ref() == Some(&renamer_tool_hash)
            && op.output_hashes == vec![output_hash.clone()]
    }));
}

#[test]
fn rename_attribution_survives_reordered_events() {
    // Parallel builds can deliver rename events before the close events
    // for writes to the old path (per-CPU ring-buffer submissions are
    // not globally ordered).  The post-scan fixup must still attribute
    // the write to the final output path.
    let mut files = Files::new("rename-reorder");
    let writer_tool = files.path("writer");
    let renamer_tool = files.path("renamer");
    let output = files.path("output");
    let temp = files.path("output.tmp");

    files.write(&writer_tool, b"writer");
    files.write(&renamer_tool, b"renamer");
    files.write(&output, b"content");
    let output_hash = files.hash(&output);
    let writer_tool_hash = files.hash(&writer_tool);
    let content = FileObservation::Content(output_hash.clone());

    let writer = ProcessInstance::new(10, 0);
    let renamer = ProcessInstance::new(11, 0);

    // Simulate the reordered case: rename arrives BEFORE the close
    // that records the writer in writers_by_path.
    let ops = canonicalize_output_slice(
        vec![
            ProcessEvent::Exec {
                process: writer,
                observation: files.observe(&writer_tool),
            },
            ProcessEvent::Exec {
                process: renamer,
                observation: files.observe(&renamer_tool),
            },
            // Rename fires first (e.g., from a different CPU).
            ProcessEvent::FileRename {
                process: renamer,
                from_path: temp.clone(),
                to_path: output.clone(),
                flags: 0,
                external: false,
                observation: content.clone(),
            },
            // Close arrives later.
            ProcessEvent::FileOpen {
                process: writer,
                path: temp.clone(),
                flags: 1,
                fd: 3,
                external: false,
                observation: content.clone(),
            },
            ProcessEvent::FileClose {
                process: writer,
                fd: 3,
                path: Some(temp.clone()),
                external: false,
                observation: Some(content),
            },
        ],
        writer,
        &[OutputFile {
            path: output.clone(),
            hash: output_hash.clone(),
        }],
    );

    // No orphan sentinel.
    for op in &ops {
        assert_ne!(
            op.process_index, u32::MAX,
            "orphan op {:?} after reordered rename",
            op.op_type
        );
    }

    // The original writer must still be attributed.
    assert!(ops.iter().any(|op| {
        op.op_type == OpType::FileWrite
            && op.tool_hash.as_ref() == Some(&writer_tool_hash)
            && op.output_hashes == vec![output_hash.clone()]
    }));
}

#[test]
fn writable_fd_keeps_its_opening_exec_instance_across_reexec() {
    let mut files = Files::new("reexec-writer");
    let initial_tool = files.path("initial-tool");
    let reexec_tool = files.path("reexec-tool");
    let output = files.path("output.txt");
    files.write(&initial_tool, b"initial");
    files.write(&reexec_tool, b"reexec");
    files.write(&output, b"output");

    let initial = ProcessInstance::new(10, 0);
    let reexec = ProcessInstance::new(10, 1);
    let initial_tool_hash = files.hash(&initial_tool);
    let reexec_tool_hash = files.hash(&reexec_tool);
    let output_hash = files.hash(&output);
    let output_path = output.clone();

    let ops = canonicalize_output_slice(
        vec![
            ProcessEvent::Exec {
                process: initial,
                observation: files.observe(&initial_tool),
            },
            ProcessEvent::FileOpen {
                process: initial,
                path: output_path.clone(),
                flags: 1,
                fd: 3,
                external: false,
                observation: files.observe(&output),
            },
            ProcessEvent::Exec {
                process: reexec,
                observation: files.observe(&reexec_tool),
            },
            ProcessEvent::FileClose {
                process: reexec,
                fd: 3,
                path: Some(output_path.clone()),
                external: false,
                observation: Some(files.observe(&output)),
            },
        ],
        initial,
        &[OutputFile {
            path: output_path,
            hash: output_hash.clone(),
        }],
    );

    assert!(ops.iter().any(|op| {
        op.op_type == OpType::FileWrite
            && op.tool_hash.as_ref() == Some(&initial_tool_hash)
            && op.output_hashes == [output_hash.clone()]
    }));
    assert!(!ops.iter().any(|op| {
        op.op_type == OpType::FileWrite && op.tool_hash.as_ref() == Some(&reexec_tool_hash)
    }));
}

#[test]
fn forked_writer_inherits_parent_tool_without_a_synthetic_exec() {
    let mut files = Files::new("fork-inheritance");
    let tool = files.path("tool");
    let output = files.path("output.txt");
    files.write(&tool, b"tool");
    files.write(&output, b"output");

    let parent = ProcessInstance::new(10, 0);
    let child = ProcessInstance::new(11, 0);
    let tool_hash = files.hash(&tool);
    let output_hash = files.hash(&output);
    let output_path = output.clone();

    let ops = canonicalize_output_slice(
        vec![
            ProcessEvent::Exec {
                process: parent,
                observation: files.observe(&tool),
            },
            ProcessEvent::Fork { parent, child },
            ProcessEvent::FileOpen {
                process: child,
                path: output_path.clone(),
                flags: 1,
                fd: 3,
                external: false,
                observation: files.observe(&output),
            },
            ProcessEvent::FileClose {
                process: child,
                fd: 3,
                path: Some(output_path.clone()),
                external: false,
                observation: Some(files.observe(&output)),
            },
        ],
        parent,
        &[OutputFile {
            path: output_path,
            hash: output_hash.clone(),
        }],
    );

    assert!(ops.iter().any(|op| {
        op.op_type == OpType::FileWrite
            && op.tool_hash.as_ref() == Some(&tool_hash)
            && op.output_hashes == [output_hash.clone()]
    }));
    assert!(!ops.iter().any(|op| op.op_type == OpType::Exec));
}

#[test]
fn inherited_writable_fd_remains_attributed_to_its_opener() {
    let mut files = Files::new("inherited-fd");
    let parent_tool = files.path("parent-tool");
    let child_tool = files.path("child-tool");
    let output = files.path("output.txt");
    files.write(&parent_tool, b"parent");
    files.write(&child_tool, b"child");
    files.write(&output, b"output");

    let parent = ProcessInstance::new(10, 0);
    let child = ProcessInstance::new(11, 0);
    let child_exec = ProcessInstance::new(11, 1);
    let parent_tool_hash = files.hash(&parent_tool);
    let child_tool_hash = files.hash(&child_tool);
    let output_hash = files.hash(&output);
    let output_path = output.clone();

    let ops = canonicalize_output_slice(
        vec![
            ProcessEvent::Exec {
                process: parent,
                observation: files.observe(&parent_tool),
            },
            ProcessEvent::FileOpen {
                process: parent,
                path: output_path.clone(),
                flags: 1,
                fd: 3,
                external: false,
                observation: files.observe(&output),
            },
            ProcessEvent::Fork { parent, child },
            ProcessEvent::Exec {
                process: child_exec,
                observation: files.observe(&child_tool),
            },
            ProcessEvent::FileClose {
                process: child_exec,
                fd: 3,
                path: Some(output_path.clone()),
                external: false,
                observation: Some(files.observe(&output)),
            },
        ],
        parent,
        &[OutputFile {
            path: output_path,
            hash: output_hash.clone(),
        }],
    );

    assert!(ops.iter().any(|op| {
        op.op_type == OpType::FileWrite
            && op.tool_hash.as_ref() == Some(&parent_tool_hash)
            && op.output_hashes == [output_hash.clone()]
    }));
    assert!(!ops.iter().any(|op| {
        op.op_type == OpType::FileWrite && op.tool_hash.as_ref() == Some(&child_tool_hash)
    }));
}

#[test]
fn rewriting_respects_directory_boundaries() {
    assert_eq!(rewrite_path_prefix("/a", "/a", "/b"), Some("/b".to_string()));
    assert_eq!(rewrite_path_prefix("/a/x", "/a", "/b"), Some("/b/x".to_string()));
    assert_eq!(rewrite_path_prefix("/ab/x", "/a", "/b"), None);
    assert_eq!(rewrite_path_prefix("/c", "/a", "/b"), None);
}

#[test]
fn outputs_without_a_writer_are_accounted_for() {
    let ops = canonicalize_output_slice(
        vec![],
        ProcessInstance::new(10, 0),
        &[OutputFile { path: "/out".to_string(), hash: "sha256:out".to_string() }],
    );
    assert_eq!(ops.len(), 1);
    assert_eq!(ops[0].op_type, OpType::FileWrite);
    assert_eq!(ops[0].process_index, u32::MAX);
    assert_eq!(ops[0].output_hashes, vec!["sha256:out".to_string()]);
    assert_eq!(ops[0].tool_hash, None);
}

#[test]
fn content_is_traced_back_through_what_was_read() {
    let content = |hash: &str| FileObservation::Content(hash.to_string());
    let compiler = ProcessInstance::new(10, 0);
    let linker = ProcessInstance::new(11, 0);
    let open = |process, path: &str, flags, fd, hash: &str| ProcessEvent::FileOpen {
        process,
        path: path.to_string(),
        flags,
        fd,
        external: false,
        observation: content(hash),
    };
    let close = |process, path: &str, fd, hash: &str| ProcessEvent::FileClose {
        process,
        fd,
        path: Some(path.to_string()),
        external: false,
        observation: Some(content(hash)),
    };
    let ops = canonicalize_output_slice(
        vec![
            ProcessEvent::Exec { process: compiler, observation: content("sha256:cc") },
            open(compiler, "/main.c", 0, 3, "sha256:source"),
            open(compiler, "/main.o", 1, 4, "sha256:object"),
            close(compiler, "/main.o", 4, "sha256:object"),
            ProcessEvent::Exec { process: linker, observation: content("sha256:ld") },
            open(linker, "/main.o", 0, 3, "sha256:object"),
            open(linker, "/app", 1, 4, "sha256:app"),
            close(linker, "/app", 4, "sha256:app"),
        ],
        compiler,
        &[OutputFile { path: "/app".to_string(), hash: "sha256:app".to_string() }],
    );
    let read = |tool: &str, hash: &str| {
        ops.iter().any(|op| {
            op.op_type == OpType::FileRead
                && op.tool_hash.as_deref() == Some(tool)
                && op.input_hashes == vec![hash.to_string()]
        })
    };
    assert!(read("sha256:ld", "sha256:object"));
    assert!(read("sha256:cc", "sha256:source"));
}

#[test]
fn processes_outside_the_tree_add_nothing() {
    let outsider = ProcessInstance::new(99, 0);
    let ops = canonicalize_output_slice(
        vec![ProcessEvent::FileOpen {
            process: outsider,
            path: "/watched".to_string(),
            flags: 1,
            fd: 3,
            external: true,
            observation: FileObservation::Content("sha256:w".to_string()),
        }],
        ProcessInstance::new(10, 0),
        &[OutputFile { path: "/watched".to_string(), hash: "sha256:w".to_string() }],
    );
    assert!(ops.iter().all(|op| op.process_index == u32::MAX));
}

#[test]
fn slices_hold_every_output_and_are_sorted() {
    let mut files = Files::new("outputs");
    let compiler = ProcessInstance::new(10, 0);
    let (tool, object, app) = (files.path("cc"), files.path("main.o"), files.path("app"));
    files.write(&tool, b"cc");
    files.write(&object, b"object");
    files.write(&app, b"app");
    let events = || {
        vec![
            ProcessEvent::Exec { process: compiler, observation: files.observe(&tool) },
            ProcessEvent::FileOpen {
                process: compiler,
                path: object.clone(),
                flags: 1,
                fd: 3,
                external: false,
                observation: files.observe(&files.path("nothing")),
            },
            ProcessEvent::FileClose {
                process: compiler,
                fd: 3,
                path: Some(object.clone()),
                external: false,
                observation: Some(files.observe(&object)),
            },
            ProcessEvent::FileRename {
                process: compiler,
                from_path: files.path("app.tmp"),
                to_path: app.clone(),
                flags: 0,
                external: false,
                observation: files.observe(&app),
            },
        ]
    };
    let outputs = [
        OutputFile { path: object.clone(), hash: files.hash(&object) },
        OutputFile { path: app.clone(), hash: files.hash(&app) },
        OutputFile { path: "/elsewhere".to_string(), hash: files.hash(&tool) },
    ];
    let ops = canonicalize_output_slice(events(), compiler, &outputs);
    for output in &outputs {
        assert!(ops.iter().any(|op| {
            (op.op_type == OpType::FileWrite || op.op_type == OpType::FileRename)
                && op.output_hashes == vec![output.hash.clone()]
        }));
    }
    let hashes: Vec<String> = ops.iter().map(|op| op.hash()).collect();
    assert!(hashes.windows(2).all(|pair| pair[0] < pair[1]));
    assert!(canonicalize_output_slice(events(), compiler, &[]).is_empty());
}

#[test]
fn events_without_a_trace_do_not_matter() {
    let content = |hash: &str| FileObservation::Content(hash.to_string());
    let process = ProcessInstance::new(10, 0);
    let open = |path: &str, flags, fd, observation| ProcessEvent::FileOpen {
        process,
        path: path.to_string(),
        flags,
        fd,
        external: false,
        observation,
    };
    let slice = |extra: Vec<ProcessEvent>| {
        let mut events = vec![
            ProcessEvent::Exec { process, observation: content("sha256:cc") },
            open("/main.c", 0, 3, content("sha256:source")),
        ];
        events.extend(extra);
        events.push(open("/app", 1, 4, content("sha256:empty")));
        events.push(ProcessEvent::FileClose {
            process,
            fd: 4,
            path: Some("/app".to_string()),
            external: false,
            observation: Some(content("sha256:app")),
        });
        let outputs = [OutputFile { path: "/app".to_string(), hash: "sha256:app".to_string() }];
        canonicalize_output_slice(events, process, &outputs)
            .iter()
            .map(|op| op.hash())
            .collect::<Vec<String>>()
    };
    let plain = slice(vec![]);
    assert_eq!(plain.len(), 3);
    assert_eq!(plain, slice(vec![open("/main.c", 0, 3, content("sha256:source"))]));
    assert_eq!(plain, slice(vec![open("/gone", 0, 5, observe_path("/gone", &FileProbe::Missing))]));
    let unlink = ProcessEvent::FileUnlink { process, path: "/x".to_string(), external: false };
    assert_eq!(plain, slice(vec![unlink]));
    assert_ne!(plain, slice(vec![open("/other.c", 0, 5, content("sha256:other"))]));
}
