use repx::digest::hash_bytes;
use repx::events::{
    decode_event, FileCloseEvent, FileMmapEvent, FileOpenEvent, ProcessExecEvent, ProcessExitEvent,
    RecordError,
};
use repx::file_identity::{FileObservation, FileProbe};
use repx::tracer::{
    author_root_exec, base_link, check_watch_prefixes, executable_candidates, is_bare_command,
    patch_exit, path_text, paths_agree, proc_exe_path, proc_fd_path, process_events,
    resolve_exec_path, resolve_executable, resolve_open_path, signal_exit_code,
    strip_deleted_suffix, watched_prefix, Aftermath, Closing, Collector, Mapping,
    ProcessEvent, ProcessInstance, TracedEvent, WatchError, AT_FDCWD, POLL_INTERVAL_MS, QUIESCENCE_MS,
};

fn path(text: &str) -> [u8; 256] {
    let mut bytes = [0u8; 256];
    bytes[..text.len()].copy_from_slice(text.as_bytes());
    bytes
}

fn open(tgid: u32, fd: i32, flags: u32) -> FileOpenEvent {
    FileOpenEvent { pid: tgid, tgid, fd, dfd: AT_FDCWD, flags, path: path("/f"), path_len: 2 }
}

fn content(data: &[u8]) -> FileProbe {
    FileProbe::Content(data.to_vec())
}

fn exec(pid: u32, hash: &str) -> TracedEvent {
    TracedEvent::Exec { pid, observation: FileObservation::Content(hash.to_string()) }
}

#[test]
fn proc_target_must_match_more_than_an_absolute_basename() {
    assert!(!paths_agree("/tmp/first/output.o", "/tmp/second/output.o", None, None));
    assert!(paths_agree("relative/output.o", "/tmp/build/relative/output.o", None, None));
}

#[test]
fn canonical_paths_can_agree() {
    assert!(paths_agree("/link/a", "/real/a", Some("/real/a"), Some("/real/a")));
    assert!(!paths_agree("/link/a", "/real/a", Some("/real/a"), None));
    assert!(paths_agree("/same", "/same", None, None));
}

#[test]
fn captured_paths_end_at_their_length() {
    assert_eq!(path_text(&path("/tmp/out"), 8), "/tmp/out");
    assert_eq!(path_text(&path("/tmp/out"), 4), "/tmp");
    assert_eq!(path_text(&path("/tmp/out"), 256), "/tmp/out");
    assert_eq!(path_text(&path("/tmp/out"), u32::MAX), "/tmp/out");
    assert_eq!(path_text(&path("/é"), 3), "/é");
    assert_eq!(path_text(&path("/é"), 2), "<invalid utf8>");
}

#[test]
fn links_lead_into_the_process_directory() {
    assert_eq!(proc_fd_path(12, 3), "/proc/12/fd/3");
    assert_eq!(proc_fd_path(12, -1), "/proc/12/fd/-1");
    assert_eq!(proc_exe_path(7), "/proc/7/exe");
    assert_eq!(base_link(7, AT_FDCWD), "/proc/7/cwd");
    assert_eq!(base_link(7, 5), "/proc/7/fd/5");
}

#[test]
fn relative_paths_are_taken_against_their_base() {
    assert_eq!(resolve_open_path("/abs", Some("/base")), "/abs");
    assert_eq!(resolve_open_path("rel", Some("/base")), "/base/rel");
    assert_eq!(resolve_open_path("rel", None), "rel");
    assert_eq!(resolve_exec_path("./tool", Some("/work")), "/work/./tool");
    assert_eq!(strip_deleted_suffix("/tmp/a (deleted)".to_string()), "/tmp/a");
    assert_eq!(strip_deleted_suffix("/tmp/a".to_string()), "/tmp/a");
}

#[test]
fn bare_commands_are_looked_up() {
    assert!(is_bare_command("make"));
    assert!(!is_bare_command("./make"));
    assert_eq!(
        executable_candidates("make", &vec!["/usr/bin".to_string(), "/bin/".to_string()]),
        vec!["/usr/bin/make", "/bin/make"]
    );
    assert_eq!(resolve_executable("make", None, Some("/bin/make")), "/bin/make");
    assert_eq!(resolve_executable("make", Some("/wrong"), None), "make");
    assert_eq!(resolve_executable("./make", Some("/w/make"), None), "/w/make");
    assert_eq!(resolve_executable("./make", None, Some("/wrong")), "./make");
}

#[test]
fn watched_prefixes_must_fit_into_the_probes() {
    let short = |n: usize| vec!["/w".to_string(); n];
    assert_eq!(check_watch_prefixes(&short(8)), Ok(()));
    let error = check_watch_prefixes(&short(9)).unwrap_err();
    assert_eq!(error, WatchError::TooMany(9));
    assert_eq!(
        error.message(),
        "9 watch directories requested, but the tracer supports at most 8"
    );
    assert_eq!(check_watch_prefixes(&["/".repeat(128)]), Ok(()));
    let long = "/".repeat(129);
    let error = check_watch_prefixes(&["/w".to_string(), long.clone()]).unwrap_err();
    assert_eq!(error, WatchError::TooLong(129, long.clone()));
    assert_eq!(
        error.message(),
        format!("watch prefix is 129 bytes, but the tracer supports at most 128: {long}")
    );
    let watched = watched_prefix("/wé");
    assert_eq!(watched.len, 4);
    assert_eq!(&watched.prefix[..5], "/wé\0".as_bytes());
}

#[test]
fn opened_files_are_known_until_they_are_closed() {
    let mut collector = Collector::new();
    collector.record_open(&open(5, 3, 1), 0, "/out", &FileProbe::Missing, &[]);
    let mapping = FileMmapEvent { pid: 5, tgid: 5, fd: 3, prot: 3, flags: 1 };
    match collector.begin_mmap(&mapping, 0) {
        Mapping::Mapped { path } => assert_eq!(path.as_deref(), Some("/out")),
        Mapping::Ignored => panic!("the file was open"),
    }
    collector.record_mmap(&mapping, 0, Some(&content(b"mapped")));
    let close = FileCloseEvent { pid: 5, tgid: 5, fd: 3 };
    match collector.begin_close(&close, 0) {
        Closing::Closed { path, observe } => {
            assert_eq!(path.as_deref(), Some("/out"));
            assert!(observe);
            collector.record_close(&close, 0, path, Some(&content(b"done")));
        }
        Closing::Ignored => panic!("the file was open"),
    }
    match collector.begin_close(&close, 0) {
        Closing::Closed { path, observe } => {
            assert_eq!(path, None);
            assert!(!observe);
        }
        Closing::Ignored => panic!("closes of the tree are never ignored"),
    }
    assert!(matches!(collector.begin_close(&close, 1), Closing::Ignored));
    let root = FileObservation::Content("sha256:root".to_string());
    let trace = collector.finish(5, root, 0, 0);
    assert_eq!(trace.events.len(), 5);
    match &trace.events[2] {
        TracedEvent::FileMmap { path, observation, .. } => {
            assert_eq!(path.as_deref(), Some("/out"));
            let seen = FileObservation::Content(hash_bytes(b"mapped"));
            assert_eq!(observation.as_ref(), Some(&seen));
        }
        _ => panic!("not a mapping"),
    }
    match &trace.events[3] {
        TracedEvent::FileClose { observation, external, .. } => {
            assert_eq!(*observation, Some(FileObservation::Content(hash_bytes(b"done"))));
            assert!(!external);
        }
        _ => panic!("not a close"),
    }
}

#[test]
fn files_open_for_reading_are_not_observed_again() {
    let mut collector = Collector::new();
    collector.record_open(&open(5, 3, 0), 0, "/in", &content(b"in"), &[]);
    let close = FileCloseEvent { pid: 5, tgid: 5, fd: 3 };
    match collector.begin_close(&close, 0) {
        Closing::Closed { observe, .. } => assert!(!observe),
        Closing::Ignored => panic!("the file was open"),
    }
}

#[test]
fn outsiders_matter_at_watched_paths_alone() {
    let prefixes = vec!["/watched".to_string()];
    assert!(Collector::wants_open(0, "/anywhere", &prefixes));
    assert!(Collector::wants_open(1, "/watched/a", &prefixes));
    assert!(!Collector::wants_open(1, "/anywhere", &prefixes));
    let mut collector = Collector::new();
    collector.record_open(&open(9, 3, 1), 1, "/anywhere", &FileProbe::Missing, &prefixes);
    let mapping = FileMmapEvent { pid: 9, tgid: 9, fd: 3, prot: 1, flags: 2 };
    assert!(matches!(collector.begin_mmap(&mapping, 1), Mapping::Ignored));
    assert!(matches!(collector.begin_mmap(&mapping, 0), Mapping::Mapped { path: None }));
    collector.record_mmap(&mapping, 1, None);
    collector.record_open(&open(9, 4, 1), 1, "/watched/a", &FileProbe::Missing, &prefixes);
    let root = FileObservation::Content("sha256:root".to_string());
    let trace = collector.finish(1, root, 0, 0);
    assert_eq!(trace.events.len(), 3);
    assert!(matches!(&trace.events[1], TracedEvent::FileOpen { external: true, fd: 4, .. }));
}

#[test]
fn traces_begin_with_one_root_execution_and_end_with_its_exit_code() {
    let mut collector = Collector::new();
    collector.record_exec(
        &ProcessExecEvent { pid: 1, tgid: 1, filename: path("/bin/sh"), filename_len: 7 },
        "/bin/sh",
        &content(b"sh"),
    );
    collector.record_exec(
        &ProcessExecEvent { pid: 2, tgid: 2, filename: path("/bin/cc"), filename_len: 7 },
        "/bin/cc",
        &content(b"cc"),
    );
    collector.record_exit(&ProcessExitEvent { pid: 1, tgid: 1, exit_code: 0 });
    assert!(!collector.note(&Err(RecordError::Short)));
    let root = FileObservation::Content("sha256:root".to_string());
    let trace = collector.finish(1, root.clone(), 42, 4);
    assert_eq!((trace.root_pid, trace.dropped_events), (1, 5));
    assert_eq!(trace.events.len(), 3);
    assert!(matches!(&trace.events[0],
        TracedEvent::Exec { pid: 1, observation } if *observation == root));
    assert!(matches!(&trace.events[1], TracedEvent::Exec { pid: 2, .. }));
    assert!(matches!(&trace.events[2], TracedEvent::Exit { pid: 1, exit_code: 42 }));
}

#[test]
fn dropped_events_are_counted_without_overflow() {
    let mut collector = Collector::new();
    assert!(!collector.note(&Err(RecordError::Short)));
    let root = FileObservation::Missing("sha256:gone".to_string());
    assert_eq!(collector.finish(1, root, 0, u64::MAX).dropped_events, u64::MAX);
}

#[test]
fn exit_codes_are_patched_into_the_last_exit() {
    let mut events = vec![
        TracedEvent::Exit { pid: 1, exit_code: 0 },
        TracedEvent::Exit { pid: 2, exit_code: 0 },
        TracedEvent::Exit { pid: 1, exit_code: 0 },
    ];
    patch_exit(&mut events, 1, 7);
    assert!(matches!(events[0], TracedEvent::Exit { pid: 1, exit_code: 0 }));
    assert!(matches!(events[2], TracedEvent::Exit { pid: 1, exit_code: 7 }));
    patch_exit(&mut events, 3, 9);
    assert_eq!(events.len(), 4);
    assert!(matches!(events[3], TracedEvent::Exit { pid: 3, exit_code: 9 }));
    assert_eq!(signal_exit_code(9), 137);
}

#[test]
fn other_executions_stay() {
    let root = FileObservation::Content("sha256:root".to_string());
    let events = author_root_exec(
        vec![exec(1, "sha256:a"), exec(2, "sha256:b"), exec(1, "sha256:c")],
        1,
        root.clone(),
    );
    assert_eq!(events.len(), 2);
    assert!(matches!(&events[0],
        TracedEvent::Exec { pid: 1, observation } if *observation == root));
    assert!(matches!(&events[1], TracedEvent::Exec { pid: 2, .. }));
}

#[test]
fn each_process_id_is_one_instance() {
    let events = process_events(&vec![
        exec(4, "sha256:a"),
        TracedEvent::Exit { pid: 4, exit_code: 1 },
    ]);
    let four = ProcessInstance::new(4, 0);
    assert!(matches!(&events[0], ProcessEvent::Exec { process, .. } if *process == four));
    assert!(matches!(&events[1],
        ProcessEvent::Exit { process, exit_code: 1 } if *process == four));
    assert!(ProcessInstance::new(4, 1).place() > four.place());
    assert!(ProcessInstance::new(5, 0).place() > ProcessInstance::new(4, u32::MAX).place());
}

#[test]
fn links_are_believed_where_they_agree() {
    let locate = |captured: &str, target: Option<&str>| {
        let located = repx::tracer::locate(
            captured.to_string(),
            "/proc/1/fd/3".to_string(),
            target.map(|target| target.to_string()),
            None,
            None,
        );
        (located.path, located.handle)
    };
    let pair = |path: &str, handle: &str| (path.to_string(), handle.to_string());
    assert_eq!(locate("/a", Some("/a (deleted)")), pair("/a", "/proc/1/fd/3"));
    assert_eq!(locate("b/a", Some("/w/b/a")), pair("/w/b/a", "/proc/1/fd/3"));
    assert_eq!(locate("/a", Some("/other")), pair("/a", "/a"));
    assert_eq!(locate("/a", None), pair("/a", "/a"));
}

#[test]
fn events_put_the_end_of_a_trace_off() {
    let mut aftermath = Aftermath::begin(1000);
    assert!(!aftermath.is_over(false, 1099));
    assert!(!aftermath.is_over(true, 1099));
    assert!(!aftermath.is_over(false, 1198));
    assert!(aftermath.is_over(false, 1199));
    assert_eq!((QUIESCENCE_MS, POLL_INTERVAL_MS), (100, 10));
}

#[test]
fn records_without_an_event_count_as_lost() {
    let mut collector = Collector::new();
    let open = decode_event(&[0u8; 8]);
    assert!(!collector.note(&open));
    assert!(collector.note(&Err(RecordError::UnknownKind(77))));
    let root = FileObservation::Missing("sha256:gone".to_string());
    assert_eq!(collector.finish(1, root, 0, 3).dropped_events, 5);
}
