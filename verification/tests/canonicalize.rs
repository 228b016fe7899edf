use repx::canonicalize::{canonicalize_events, is_watched_path, slot_of};
use repx::file_identity::{observe_path, FileObservation, FileProbe, SYSTEM_STATE_SENTINEL};
use repx::merkle::build_merkle_tree;
use repx::operation::{CanonicalOp, OpType};
use repx::tracer::TracedEvent;

fn absent(path: &str) -> FileObservation {
    observe_path(path, &FileProbe::Missing)
}

fn file(path: &str, content: &[u8]) -> FileObservation {
    observe_path(path, &FileProbe::Content(content.to_vec()))
}

fn count(ops: &[CanonicalOp], op_type: OpType) -> usize {
    ops.iter().filter(|op| op.op_type == op_type).count()
}

fn hashes(ops: &[CanonicalOp]) -> Vec<String> {
    ops.iter().map(|op| op.hash()).collect()
}

#[test]
fn drops_external_opens_outside_watched_prefixes() {
    let ops = canonicalize_events(
        vec![TracedEvent::FileOpen {
            pid: 2,
            path: "/tmp/not-watched".to_string(),
            flags: 1,
            fd: 3,
            external: true,
            observation: absent("/tmp/not-watched"),
        }],
        1,
        &["/watched".to_string()],
    );

    assert!(ops.is_empty());
}

#[test]
fn drops_external_mmaps_outside_watched_prefixes() {
    let ops = canonicalize_events(
        vec![TracedEvent::FileMmap {
            pid: 2,
            fd: 3,
            prot: 0,
            flags: 0x2,
            path: Some("/tmp/not-watched".to_string()),
            external: true,
            observation: Some(absent("/tmp/not-watched")),
        }],
        1,
        &["/watched".to_string()],
    );

    assert!(ops.is_empty());
}

#[test]
fn fallback_external_pid_stays_external_after_exec() {
    let dir = "/tmp/repx-canonicalize-fallback-external";
    let write_path = format!("{dir}/artifact.txt");
    let mmap_path = format!("{dir}/input.txt");
    let artifact = file(&write_path, b"artifact");
    let input = file(&mmap_path, b"input");

    let ops = canonicalize_events(
        vec![
            TracedEvent::FileOpen {
                pid: 2,
                path: write_path.clone(),
                flags: 1,
                fd: 3,
                external: false,
                observation: artifact.clone(),
            },
            TracedEvent::Exec { pid: 2, observation: file("/bin/true", b"true") },
            TracedEvent::FileMmap {
                pid: 2,
                fd: 4,
                prot: 0,
                flags: 0x2,
                path: Some(mmap_path),
                external: false,
                observation: Some(input),
            },
            TracedEvent::FileClose {
                pid: 2,
                fd: 3,
                path: Some(write_path),
                external: false,
                observation: Some(artifact),
            },
        ],
        1,
        &[dir.to_string()],
    );

    assert_eq!(count(&ops, OpType::Exec), 1);
    assert!(ops
        .iter()
        .any(|op| op.op_type == OpType::ExternalFileRead && op.process_index == u32::MAX));
    assert!(ops.iter().any(|op| {
        op.op_type == OpType::ExternalFileWrite
            && op.process_index == u32::MAX
            && !op.output_hashes.is_empty()
    }));
    assert_eq!(
        ops.iter()
            .filter(|op| matches!(op.op_type, OpType::FileRead | OpType::FileWrite))
            .count(),
        0
    );
}

#[test]
fn read_write_open_records_both_input_and_output() {
    let path = "/tmp/repx-canonicalize-rdwr/archive.a";
    let observation = file(path, b"archive");

    let ops = canonicalize_events(
        vec![
            TracedEvent::FileOpen {
                pid: 1,
                path: path.to_string(),
                flags: 2,
                fd: 3,
                external: false,
                observation: observation.clone(),
            },
            TracedEvent::FileClose {
                pid: 1,
                fd: 3,
                path: Some(path.to_string()),
                external: false,
                observation: Some(observation),
            },
        ],
        1,
        &[],
    );

    assert!(ops.iter().any(|op| op.op_type == OpType::FileRead));
    assert!(ops.iter().any(|op| op.op_type == OpType::FileWrite));
}

#[test]
fn private_writable_mmap_is_a_read_not_a_write() {
    let path = "/tmp/repx-canonicalize-private-mmap/library.so";

    let ops = canonicalize_events(
        vec![TracedEvent::FileMmap {
            pid: 1,
            fd: 3,
            prot: 0x3,
            flags: 0x2,
            path: Some(path.to_string()),
            external: false,
            observation: Some(file(path, b"library")),
        }],
        1,
        &[],
    );

    assert!(ops.iter().any(|op| op.op_type == OpType::FileRead));
    assert!(!ops.iter().any(|op| op.op_type == OpType::FileWrite));
}

#[test]
fn shared_writable_mmap_is_a_write() {
    let ops = canonicalize_events(
        vec![TracedEvent::FileMmap {
            pid: 1,
            fd: 3,
            prot: 0x3,
            flags: 0x1,
            path: Some("/build/db".to_string()),
            external: false,
            observation: Some(file("/build/db", b"db")),
        }],
        1,
        &[],
    );
    assert_eq!(count(&ops, OpType::FileWrite), 1);
}

#[test]
fn system_state_is_read_as_a_sentinel() {
    let open = |content: &[u8]| {
        canonicalize_events(
            vec![TracedEvent::FileOpen {
                pid: 1,
                path: "/proc/cpuinfo".to_string(),
                flags: 0,
                fd: 3,
                external: false,
                observation: file("/proc/cpuinfo", content),
            }],
            1,
            &[],
        )
    };
    let ops = open(b"one machine");
    assert_eq!(count(&ops, OpType::SystemStateRead), 1);
    assert!(ops
        .iter()
        .any(|op| op.input_hashes == vec![SYSTEM_STATE_SENTINEL.to_string()]));
    assert_eq!(hashes(&ops), hashes(&open(b"another machine")));
}

#[test]
fn only_the_root_has_an_exit_code() {
    let run = |root_code: i32, child_code: i32| {
        canonicalize_events(
            vec![
                TracedEvent::Exec { pid: 1, observation: file("/bin/make", b"make") },
                TracedEvent::Exec { pid: 2, observation: file("/bin/cc", b"cc") },
                TracedEvent::Exit { pid: 2, exit_code: child_code },
                TracedEvent::Exit { pid: 1, exit_code: root_code },
            ],
            1,
            &[],
        )
    };
    let ops = run(3, 0);
    assert!(ops
        .iter()
        .any(|op| op.op_type == OpType::Exit && op.args == vec!["exit:3".to_string()]));
    assert_eq!(hashes(&ops), hashes(&run(3, 9)));
    assert_ne!(hashes(&ops), hashes(&run(4, 0)));
}

#[test]
fn process_ids_and_paths_do_not_matter() {
    let run = |root: u32, child: u32, dir: &str| {
        let source = format!("{dir}/main.c");
        hashes(&canonicalize_events(
            vec![
                TracedEvent::Exec { pid: root, observation: file("/bin/make", b"make") },
                TracedEvent::Exec { pid: child, observation: file("/bin/cc", b"cc") },
                TracedEvent::FileOpen {
                    pid: child,
                    path: source.clone(),
                    flags: 0,
                    fd: 3,
                    external: false,
                    observation: file(&source, b"int main;"),
                },
            ],
            root,
            &[],
        ))
    };
    assert_eq!(run(1, 2, "/home/a"), run(500, 40, "/home/b"));
}

#[test]
fn watched_prefixes_respect_directory_boundaries() {
    let prefixes = vec!["/watched".to_string()];
    assert!(is_watched_path("/watched/file", &prefixes));
    assert!(!is_watched_path("/watched-not/file", &prefixes));
    assert!(!is_watched_path("/watched/file", &[]));
}

#[test]
fn slots_are_distinct() {
    assert_ne!(slot_of(1, 3), slot_of(1, 4));
    assert_ne!(slot_of(1, 3), slot_of(2, 3));
    assert_ne!(slot_of(1, -1), slot_of(2, -1));
}

#[test]
fn unavailable_reads_stay_visible_in_full_traces() {
    let gone = absent("/tmp/gone");
    let ops = canonicalize_events(
        vec![TracedEvent::FileOpen {
            pid: 1,
            path: "/tmp/gone".to_string(),
            flags: 0,
            fd: 3,
            external: false,
            observation: gone.clone(),
        }],
        1,
        &[],
    );
    assert_eq!(ops.len(), 1);
    assert_eq!(ops[0].op_type, OpType::FileRead);
    assert_eq!(ops[0].input_hashes, vec![gone.identity()]);
}

#[test]
fn watched_writes_of_outsiders_are_recorded() {
    let ops = canonicalize_events(
        vec![
            TracedEvent::Exec { pid: 1, observation: file("/bin/make", b"make") },
            TracedEvent::FileOpen {
                pid: 9,
                path: "/watched/x".to_string(),
                flags: 0x241,
                fd: 3,
                external: true,
                observation: absent("/watched/x"),
            },
            TracedEvent::FileClose {
                pid: 9,
                fd: 3,
                path: Some("/watched/x".to_string()),
                external: true,
                observation: Some(file("/watched/x", b"tamper")),
            },
        ],
        1,
        &["/watched".to_string()],
    );
    let write = ops.iter().find(|op| op.op_type == OpType::ExternalFileWrite).unwrap();
    assert_eq!(write.output_hashes, vec![file("/watched/x", b"tamper").identity()]);
}

#[test]
fn repeated_reads_do_not_matter() {
    let run = |opens: usize, maps: usize| {
        let mut events = vec![TracedEvent::Exec { pid: 1, observation: file("/bin/cc", b"cc") }];
        for _ in 0..opens {
            events.push(TracedEvent::FileOpen {
                pid: 1,
                path: "/w/main.c".to_string(),
                flags: 0,
                fd: 3,
                external: false,
                observation: file("/w/main.c", b"int main;"),
            });
        }
        for _ in 0..maps {
            events.push(TracedEvent::FileMmap {
                pid: 1,
                fd: 3,
                prot: 3,
                flags: 2,
                path: Some("/w/main.c".to_string()),
                external: false,
                observation: Some(file("/w/main.c", b"int main;")),
            });
        }
        events.push(TracedEvent::FileOpen {
            pid: 1,
            path: "/w/main.o".to_string(),
            flags: 1,
            fd: 4,
            external: false,
            observation: absent("/w/main.o"),
        });
        events.push(TracedEvent::FileClose {
            pid: 1,
            fd: 4,
            path: Some("/w/main.o".to_string()),
            external: false,
            observation: Some(file("/w/main.o", b"object")),
        });
        hashes(&canonicalize_events(events, 1, &[]))
    };
    assert_eq!(run(1, 1).len(), 4);
    assert_eq!(run(1, 1), run(2, 1));
    assert_eq!(run(1, 1), run(5, 3));
    assert_ne!(run(1, 1), run(1, 0));
}

#[test]
fn tampering_changes_the_root() {
    let prefixes = vec!["/store".to_string()];
    let run = |intruder: Option<(&str, u32)>| {
        let mut events = vec![TracedEvent::Exec { pid: 1, observation: file("/bin/sh", b"sh") }];
        if let Some((path, flags)) = intruder {
            events.push(TracedEvent::FileOpen {
                pid: 77,
                path: path.to_string(),
                flags,
                fd: 5,
                external: true,
                observation: file(path, b"before"),
            });
        }
        events.push(TracedEvent::Exit { pid: 1, exit_code: 0 });
        canonicalize_events(events, 1, &prefixes)
    };
    let root = |ops: &[CanonicalOp]| build_merkle_tree(ops).root_hash();
    let clean = run(None);
    let tampered = run(Some(("/store/x", 1)));
    assert_eq!(count(&clean, OpType::ExternalFileWrite), 0);
    assert_eq!(count(&tampered, OpType::ExternalFileWrite), 1);
    assert_ne!(root(&clean), root(&tampered));
    assert_eq!(root(&clean), root(&run(Some(("/elsewhere", 1)))));
    assert_eq!(root(&clean), root(&run(Some(("/storehouse/x", 2)))));
}

#[test]
fn writes_are_recorded_with_what_was_seen_at_the_close() {
    let ops = canonicalize_events(
        vec![
            TracedEvent::Exec { pid: 1, observation: file("/bin/cc", b"cc") },
            TracedEvent::FileOpen {
                pid: 1,
                path: "/w/a".to_string(),
                flags: 1,
                fd: 3,
                external: false,
                observation: absent("/w/a"),
            },
            TracedEvent::FileOpen {
                pid: 1,
                path: "/w/b".to_string(),
                flags: 1,
                fd: 4,
                external: false,
                observation: absent("/w/b"),
            },
            TracedEvent::FileClose {
                pid: 1,
                fd: 3,
                path: Some("/w/a".to_string()),
                external: false,
                observation: Some(file("/w/a", b"first")),
            },
            TracedEvent::FileClose {
                pid: 1,
                fd: 4,
                path: Some("/w/b".to_string()),
                external: false,
                observation: Some(file("/w/b", b"second")),
            },
        ],
        1,
        &[],
    );
    let tool = file("/bin/cc", b"cc").identity();
    for content in [b"first".as_slice(), b"second".as_slice()] {
        assert!(ops.iter().any(|op| {
            op.op_type == OpType::FileWrite
                && op.tool_hash.as_ref() == Some(&tool)
                && op.output_hashes == vec![file("/w", content).identity()]
        }));
    }
    assert_eq!(count(&ops, OpType::FileWrite), 2);
}
