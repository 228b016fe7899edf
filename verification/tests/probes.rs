use repx::events::{Event, EventPayload, WatchedPrefix};
use repx::probes::{
    close_enter, exec, exit, fd_key, filename_offset, fork, matches_watched_prefix, mmap_enter,
    openat_enter, openat_exit, path_is_absolute, path_op_exit, record_drop, stash_rename,
    stash_unlink, PathOp, PathOpEnter, PathOpStash, PathStash, SOURCE_TREE, SOURCE_WATCH,
};
use repx::tracer::watched_prefix;

const IDS: u64 = 10 * 0x1_0000_0000 + 11;

fn path(text: &str) -> [u8; 256] {
    let mut bytes = [0u8; 256];
    bytes[..text.len()].copy_from_slice(text.as_bytes());
    bytes
}

fn stash(text: &str) -> PathStash {
    PathStash { path: path(text), path_len: text.len() as u32 }
}

fn watched() -> Vec<Option<WatchedPrefix>> {
    vec![None, Some(watched_prefix("/watched"))]
}

fn enter_open(in_tree: bool, watch: bool, flags: u32, text: &str) -> bool {
    openat_enter(in_tree, watch, -100, flags, path(text), text.len() as u32, &watched()).is_some()
}

#[test]
fn descriptors_have_distinct_keys() {
    assert_eq!(fd_key(1, 2), 0x1_0000_0002);
    assert_eq!(fd_key(1, -1), 0x1_ffff_ffff);
    assert_ne!(fd_key(1, 2), fd_key(2, 1));
    assert_eq!(record_drop(4), 5);
}

#[test]
fn prefixes_are_compared_byte_by_byte() {
    let prefixes = watched();
    assert!(matches_watched_prefix(&path("/watched/a"), 10, &prefixes));
    assert!(!matches_watched_prefix(&path("/watched/a"), 4, &prefixes));
    assert!(!matches_watched_prefix(&path("/wat"), 4, &prefixes));
    let empty = vec![Some(WatchedPrefix { prefix: [0u8; 128], len: 0 })];
    assert!(!matches_watched_prefix(&path("/a"), 2, &empty));
    let mut ninth: Vec<Option<WatchedPrefix>> = vec![None; 8];
    ninth.push(Some(watched_prefix("/a")));
    assert!(!matches_watched_prefix(&path("/a"), 2, &ninth));
    assert!(path_is_absolute(&path("/a"), 2));
    assert!(!path_is_absolute(&path("a"), 1));
    assert!(!path_is_absolute(&path("/a"), 0));
}

#[test]
fn opens_matter_by_process_and_path() {
    assert!(enter_open(true, false, 0, "/any"));
    assert!(!enter_open(false, false, 1, "/watched/a"));
    assert!(enter_open(false, true, 0, "/watched/a"));
    assert!(!enter_open(false, true, 0, "/any"));
    assert!(enter_open(false, true, 1, "relative"));
    assert!(!enter_open(false, true, 0, "relative"));
    assert!(!enter_open(false, true, 1, "/any"));
}

#[test]
fn successful_opens_are_reported() {
    let kept = openat_enter(false, true, -100, 1, path("/watched/a"), 10, &watched()).unwrap();
    assert_eq!(kept.from_watch, SOURCE_WATCH);
    let done = openat_exit(Some(kept), 7, IDS, 99).unwrap();
    assert_eq!(done.watch_fd, Some(fd_key(10, 7)));
    assert_eq!((done.event.source, done.event.timestamp_ns), (SOURCE_WATCH, 99));
    match done.event.payload {
        EventPayload::FileOpen(event) => {
            assert_eq!((event.pid, event.tgid, event.fd), (11, 10, 7));
            assert_eq!((event.dfd, event.flags, event.path_len), (-100, 1, 10));
        }
        _ => panic!("not an open"),
    }
    assert!(openat_exit(Some(kept), -2, IDS, 99).is_none());
    assert!(openat_exit(None, 7, IDS, 99).is_none());
    let own = openat_enter(true, false, 3, 0, path("a"), 1, &[]).unwrap();
    assert!(openat_exit(Some(own), 4, IDS, 1).unwrap().watch_fd.is_none());
}

#[test]
fn renames_are_kept_unless_both_paths_are_foreign() {
    let rename = |in_tree, watch, old: Option<PathStash>, new: Option<PathStash>| {
        stash_rename(in_tree, watch, -100, old, 4, new, 1, &watched())
    };
    let keep = |from_watch| {
        PathOpEnter::Keep(PathOpStash {
            old_dfd: -100,
            new_dfd: 4,
            flags: 1,
            operation: PathOp::Rename,
            from_watch,
        })
    };
    let at = |text: &str| Some(stash(text));
    assert!(rename(false, false, at("/watched/a"), at("/b")) == PathOpEnter::Ignore);
    assert!(rename(true, false, at("/a"), at("/b")) == keep(SOURCE_TREE));
    assert!(rename(false, true, at("/watched/a"), at("/b")) == keep(SOURCE_WATCH));
    assert!(rename(false, true, at("/a"), at("/b")) == PathOpEnter::Ignore);
    assert!(rename(false, true, at("a"), at("/b")) == keep(SOURCE_WATCH));
    assert!(rename(true, false, None, None) == PathOpEnter::Lost(2));
    assert!(rename(true, false, None, at("/b")) == PathOpEnter::Lost(1));
    assert!(rename(true, false, at("/a"), None) == PathOpEnter::Lost(1));
}

#[test]
fn unlinks_are_kept_unless_foreign() {
    let unlink = |in_tree, path| stash_unlink(in_tree, true, 5, path, 2, &watched());
    assert!(unlink(false, Some(stash("/any"))) == PathOpEnter::Ignore);
    assert!(unlink(true, None) == PathOpEnter::Lost(1));
    let kept = PathOpStash {
        old_dfd: 5,
        new_dfd: 0,
        flags: 2,
        operation: PathOp::Unlink,
        from_watch: SOURCE_TREE,
    };
    assert!(unlink(true, Some(stash("/any"))) == PathOpEnter::Keep(kept));
    let done = path_op_exit(Some(kept), 0, Some(stash("/any")), None, IDS, 3);
    assert!(matches!(done.first.map(|event| event.payload), Some(EventPayload::FileUnlink(_))));
    assert!(done.second.is_none() && !done.lost && done.forget);
}

#[test]
fn the_halves_of_a_rename_are_correlated() {
    let kept = PathOpStash {
        old_dfd: 3,
        new_dfd: 4,
        flags: 1,
        operation: PathOp::Rename,
        from_watch: SOURCE_TREE,
    };
    let half = |event: Option<Event>| match event.map(|event| event.payload) {
        Some(EventPayload::FileRenameSource(half)) => (0, half),
        Some(EventPayload::FileRenameDestination(half)) => (1, half),
        _ => panic!("not a half of a rename"),
    };
    let done = path_op_exit(Some(kept), 0, Some(stash("/a")), Some(stash("/b")), IDS, 77);
    let (first, source) = half(done.first);
    let (second, destination) = half(done.second);
    assert_eq!((first, second), (0, 1));
    assert_eq!((source.operation_id, destination.operation_id), (77, 77));
    assert_eq!((source.dfd, destination.dfd), (3, 4));
    assert_eq!((source.pid, destination.tgid), (11, 10));
    let failed = path_op_exit(Some(kept), -1, Some(stash("/a")), Some(stash("/b")), IDS, 77);
    assert!(failed.first.is_none() && failed.second.is_none() && failed.forget && !failed.lost);
    let broken = path_op_exit(Some(kept), 0, Some(stash("/a")), None, IDS, 77);
    assert!(broken.first.is_some() && broken.second.is_none() && broken.lost);
    let lost = path_op_exit(Some(kept), 0, None, Some(stash("/b")), IDS, 77);
    assert!(lost.first.is_none() && lost.lost);
    let untouched = path_op_exit(None, 0, None, None, IDS, 77);
    assert!(!untouched.forget && !untouched.lost);
}

#[test]
fn closes_and_mappings_matter_by_process_and_descriptor() {
    assert!(close_enter(false, false, IDS, 3, 1).is_none());
    let own = close_enter(true, false, IDS, 3, 1).unwrap();
    assert!(!own.forget_fd);
    assert_eq!(own.event.source, SOURCE_TREE);
    let other = close_enter(false, true, IDS, 3, 1).unwrap();
    assert!(other.forget_fd);
    assert_eq!(other.event.source, SOURCE_WATCH);

    assert!(mmap_enter(true, false, IDS, 1, 2, -1, 5).is_none());
    assert!(mmap_enter(false, false, IDS, 1, 2, 3, 5).is_none());
    match mmap_enter(true, false, IDS, 0x1_0000_0003, 2, 3, 5).unwrap().payload {
        EventPayload::FileMmap(event) => {
            assert_eq!((event.fd, event.prot, event.flags), (3, 3, 2));
        }
        _ => panic!("not a mapping"),
    }
}

#[test]
fn the_tree_grows_and_shrinks() {
    assert_eq!(filename_offset(0x0008_0024), 0x24);
    assert!(exec(true, true, false, IDS, path("/bin/sh"), 7, 1).is_some());
    assert!(exec(true, false, false, IDS, path("/bin/sh"), 7, 1).is_none());
    assert!(exec(true, false, true, IDS, path("/bin/sh"), 7, 1).is_some());
    assert!(exec(false, false, true, IDS, path("/bin/sh"), 7, 1).is_some());
    assert!(exec(false, false, false, IDS, path("/bin/sh"), 7, 1).is_none());
    match exec(true, true, false, IDS, path("/bin/sh"), 7, 1).unwrap().payload {
        EventPayload::ProcessExec(event) => {
            assert_eq!((event.pid, event.tgid, event.filename_len), (11, 10, 7));
            assert_eq!(event.filename, path("/bin/sh"));
        }
        _ => panic!("not an execution"),
    }

    match fork(true, IDS, 12, 1).unwrap().payload {
        EventPayload::ProcessFork(event) => {
            assert_eq!((event.parent_pid, event.child_pid), (10, 12));
        }
        _ => panic!("not a fork"),
    }
    assert!(fork(false, IDS, 12, 1).is_none());

    let leader = 10 * 0x1_0000_0000 + 10;
    assert!(exit(true, IDS, 1).is_none());
    assert!(exit(false, leader, 1).is_none());
    match exit(true, leader, 1).unwrap().payload {
        EventPayload::ProcessExit(event) => {
            assert_eq!((event.pid, event.tgid, event.exit_code), (10, 10, 0));
        }
        _ => panic!("not an exit"),
    }
}
