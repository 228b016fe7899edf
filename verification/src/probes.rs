//! What the kernel probes decide: which system calls are of interest, and which
//! events they give rise to.
//!
//! Each function takes what its probe has read and looked up, and says what the
//! probe has to do. None of them allocates.

use crate::events::{
    Event, EventPayload, FileCloseEvent, FileMmapEvent, FileOpenEvent, FilePathEvent,
    ProcessExecEvent, ProcessExitEvent, ProcessForkEvent, WatchedPrefix, MAX_PREFIX_LEN,
    MAX_WATCH_PREFIXES,
};
use vstd::prelude::*;

verus! {

/// The source of events of the process tree.
pub const SOURCE_TREE: u8 = 0;

/// The source of events of other processes at watched paths.
pub const SOURCE_WATCH: u8 = 1;

/// The source of an event of a process that is tracked or not.
pub open spec fn source_of(in_tree: bool) -> u8 {
    if in_tree {
        SOURCE_TREE
    } else {
        SOURCE_WATCH
    }
}

/// The thread group of a combined process and thread group id.
pub open spec fn tgid_of(pid_tgid: u64) -> u32 {
    (pid_tgid / 0x1_0000_0000) as u32
}

/// The thread of a combined process and thread group id.
pub open spec fn pid_of(pid_tgid: u64) -> u32 {
    (pid_tgid % 0x1_0000_0000) as u32
}

fn split_ids(pid_tgid: u64) -> (ids: (u32, u32))
    ensures
        ids.0 == pid_of(pid_tgid),
        ids.1 == tgid_of(pid_tgid),
{
    ((pid_tgid % 0x1_0000_0000u64) as u32, (pid_tgid / 0x1_0000_0000u64) as u32)
}

/// The 32-bit two's complement number that the low bits of `n` stand for.
pub open spec fn low_signed(n: i64) -> i32 {
    let m = n as int % 0x1_0000_0000;
    (if m < 0x8000_0000 {
        m
    } else {
        m - 0x1_0000_0000
    }) as i32
}

fn truncate(n: i64) -> (t: i32)
    ensures
        t == low_signed(n),
{
    let wide: i128 = n as i128;
    let shifted: u128 = (wide + 0x1_0000_0000_0000_0000i128) as u128;
    let m = (shifted % 0x1_0000_0000u128) as i64;
    proof {
        assert(shifted as int == n as int + 0x1_0000_0000 * 0x1_0000_0000);
        assert((n as int + 0x1_0000_0000 * 0x1_0000_0000) % 0x1_0000_0000 == n as int
            % 0x1_0000_0000) by (nonlinear_arith);
    }
    if m < 0x8000_0000i64 {
        m as i32
    } else {
        (m - 0x1_0000_0000i64) as i32
    }
}

/// The low 32 bits of a number.
pub open spec fn low_bits(n: u64) -> u32 {
    (n % 0x1_0000_0000) as u32
}

/// The unsigned 32-bit number with the bits of `fd`.
pub open spec fn fd_bits(fd: i32) -> int {
    if fd < 0 {
        fd + 0x1_0000_0000
    } else {
        fd as int
    }
}

/// The key under which a watched file descriptor of a process is kept: the
/// thread group above, the descriptor below.
pub open spec fn fd_key_of(tgid: u32, fd: i32) -> u64 {
    (tgid * 0x1_0000_0000 + fd_bits(fd)) as u64
}

/// The key under which a watched file descriptor of a process is kept.
pub fn fd_key(tgid: u32, fd: i32) -> (key: u64)
    ensures
        key == fd_key_of(tgid, fd),
{
    let low: u64 = if fd < 0 {
        (fd as i64 + 0x1_0000_0000i64) as u64
    } else {
        fd as u64
    };
    tgid as u64 * 0x1_0000_0000u64 + low
}

/// The count of lost events after one more was lost.
pub fn record_drop(count: u64) -> (after: u64)
    requires
        count < u64::MAX,
    ensures
        after == count + 1,
{
    count + 1
}

// ---------------------------------------------------------------------------
// Watched prefixes
// ---------------------------------------------------------------------------

/// Whether a captured path begins with a watched prefix.
pub open spec fn begins_with(path: Seq<u8>, path_len: u32, p: WatchedPrefix) -> bool {
    &&& 0 < p.len <= MAX_PREFIX_LEN
    &&& p.len <= path_len
    &&& forall|j: int| 0 <= j < p.len ==> #[trigger] path[j] == p.prefix@[j]
}

/// Whether a captured path begins with one of the watched prefixes.
pub open spec fn is_watched(
    path: Seq<u8>,
    path_len: u32,
    prefixes: Seq<Option<WatchedPrefix>>,
) -> bool {
    exists|i: int|
        0 <= i < prefixes.len() && i < MAX_WATCH_PREFIXES && (#[trigger] prefixes[i] matches Some(p)
            && begins_with(path, path_len, p))
}

/// Checks whether a path begins with any of the watched prefixes.
pub fn matches_watched_prefix(
    path: &[u8; 256],
    path_len: u32,
    prefixes: &[Option<WatchedPrefix>],
) -> (yes: bool)
    ensures
        yes == is_watched(path@, path_len, prefixes@),
{
    let mut i: usize = 0;
    while i < prefixes.len() && i < MAX_WATCH_PREFIXES
        invariant
            i <= prefixes.len(),
            i <= MAX_WATCH_PREFIXES,
            forall|k: int|
                0 <= k < i ==> !(#[trigger] prefixes@[k] matches Some(p) && begins_with(
                    path@,
                    path_len,
                    p,
                )),
        decreases prefixes.len() - i,
    {
        if let Some(p) = &prefixes[i] {
            if begins(path, path_len, p) {
                assert(prefixes@[i as int] matches Some(q) && begins_with(path@, path_len, q));
                return true;
            }
        }
        i = i + 1;
    }
    false
}

fn begins(path: &[u8; 256], path_len: u32, p: &WatchedPrefix) -> (yes: bool)
    ensures
        yes == begins_with(path@, path_len, *p),
{
    if p.len == 0 || p.len > MAX_PREFIX_LEN as u32 || path_len < p.len {
        return false;
    }
    let n = p.len as usize;
    for j in 0..n
        invariant
            n == p.len,
            n <= MAX_PREFIX_LEN,
            forall|k: int| 0 <= k < j ==> #[trigger] path@[k] == p.prefix@[k],
    {
        if path[j] != p.prefix[j] {
            assert(path@[j as int] != p.prefix@[j as int]);
            return false;
        }
    }
    true
}

/// Whether a captured path is absolute.
pub open spec fn is_absolute_path(path: Seq<u8>, path_len: u32) -> bool {
    path_len > 0 && path[0] == 47u8
}

/// Checks whether a captured path is absolute.
pub fn path_is_absolute(path: &[u8; 256], path_len: u32) -> (yes: bool)
    ensures
        yes == is_absolute_path(path@, path_len),
{
    path_len > 0 && path[0] == 47u8
}

// ---------------------------------------------------------------------------
// Opening
// ---------------------------------------------------------------------------

/// What is kept of an open between its entry and its exit.
#[derive(Clone, Copy)]
pub struct OpenatStash {
    pub dfd: i32,
    pub flags: u32,
    pub path: [u8; 256],
    pub path_len: u32,
    /// 0 = fork-tree tracked, 1 = watch-mode match from external process.
    pub from_watch: u8,
}

/// Whether an open is of interest: any of a tracked process, and in watch mode
/// those at watched paths. Relative paths of opens for writing are kept for
/// the tracer to resolve.
pub open spec fn open_matters(
    in_tree: bool,
    watch_enabled: bool,
    flags: u32,
    path: Seq<u8>,
    path_len: u32,
    prefixes: Seq<Option<WatchedPrefix>>,
) -> bool {
    in_tree || (watch_enabled && ((flags & 3 != 0 && path[0] != 47u8) || is_watched(
        path,
        path_len,
        prefixes,
    )))
}

/// At the entry of an open: what to keep, if anything.
pub fn openat_enter(
    in_tree: bool,
    watch_enabled: bool,
    dfd: i32,
    flags: u32,
    path: [u8; 256],
    path_len: u32,
    prefixes: &[Option<WatchedPrefix>],
) -> (stash: Option<OpenatStash>)
    ensures
        stash == (if open_matters(in_tree, watch_enabled, flags, path@, path_len, prefixes@) {
            Some(OpenatStash { dfd, flags, path, path_len, from_watch: source_of(in_tree) })
        } else {
            None
        }),
{
    if !in_tree {
        if !watch_enabled {
            return None;
        }
        let is_write = flags & 3 != 0;
        let is_absolute = path[0] == 47u8;
        if (!is_write || is_absolute) && !matches_watched_prefix(&path, path_len, prefixes) {
            return None;
        }
    }
    let from_watch: u8 = if in_tree {
        SOURCE_TREE
    } else {
        SOURCE_WATCH
    };
    Some(OpenatStash { dfd, flags, path, path_len, from_watch })
}

/// What to do at the exit of an open.
pub struct OpenatExit {
    /// The event to send.
    pub event: Event,
    /// The key of the descriptor to watch from now on.
    pub watch_fd: Option<u64>,
}

/// At the exit of an open: the event of a successful one, and whether its
/// descriptor is to be watched.
pub fn openat_exit(
    stash: Option<OpenatStash>,
    ret: i64,
    pid_tgid: u64,
    timestamp_ns: u64,
) -> (exit: Option<OpenatExit>)
    ensures
        match stash {
            Some(s) => if low_signed(ret) >= 0 {
                exit == Some(
                    OpenatExit {
                        event: Event {
                            source: s.from_watch,
                            timestamp_ns,
                            payload: EventPayload::FileOpen(
                                FileOpenEvent {
                                    pid: pid_of(pid_tgid),
                                    tgid: tgid_of(pid_tgid),
                                    fd: low_signed(ret),
                                    dfd: s.dfd,
                                    flags: s.flags,
                                    path: s.path,
                                    path_len: s.path_len,
                                },
                            ),
                        },
                        watch_fd: if s.from_watch == SOURCE_WATCH {
                            Some(fd_key_of(tgid_of(pid_tgid), low_signed(ret)))
                        } else {
                            None
                        },
                    },
                )
            } else {
                exit is None
            },
            None => exit is None,
        },
{
    let stash = match stash {
        Some(stash) => stash,
        None => {
            return None;
        },
    };
    let fd = truncate(ret);
    if fd < 0 {
        return None;
    }
    let (pid, tgid) = split_ids(pid_tgid);
    let event = Event {
        source: stash.from_watch,
        timestamp_ns,
        payload: EventPayload::FileOpen(
            FileOpenEvent {
                pid,
                tgid,
                fd,
                dfd: stash.dfd,
                flags: stash.flags,
                path: stash.path,
                path_len: stash.path_len,
            },
        ),
    };
    let watch_fd = if stash.from_watch == SOURCE_WATCH {
        Some(fd_key(tgid, fd))
    } else {
        None
    };
    Some(OpenatExit { event, watch_fd })
}

// ---------------------------------------------------------------------------
// Renaming and unlinking
// ---------------------------------------------------------------------------

/// Which operation on paths is under way.
#[derive(Clone, Copy, PartialEq, Eq, Structural)]
pub enum PathOp {
    Rename,
    Unlink,
}

/// What is kept of a rename or unlink between its entry and its exit.
#[derive(Clone, Copy, PartialEq, Eq, Structural)]
pub struct PathOpStash {
    pub old_dfd: i32,
    pub new_dfd: i32,
    pub flags: u32,
    pub operation: PathOp,
    /// 0 = fork-tree tracked, 1 = watch-mode match from external process.
    pub from_watch: u8,
}

/// A path that was read and kept.
#[derive(Clone, Copy)]
pub struct PathStash {
    pub path: [u8; 256],
    pub path_len: u32,
}

/// What to do at the entry of a rename or unlink.
#[derive(Clone, Copy, PartialEq, Eq, Structural)]
pub enum PathOpEnter {
    /// Nothing: it is of no interest.
    Ignore,
    /// Keep nothing, and count so many events as lost.
    Lost(u32),
    /// Keep this until the exit.
    Keep(PathOpStash),
}

/// Whether a captured path cannot be of interest: it is absolute and at no
/// watched prefix.
pub open spec fn is_foreign(p: PathStash, prefixes: Seq<Option<WatchedPrefix>>) -> bool {
    is_absolute_path(p.path@, p.path_len) && !is_watched(p.path@, p.path_len, prefixes)
}

/// At the entry of a rename. A path that could not be read or kept is missing;
/// each such path counts as a lost event.
pub fn stash_rename(
    in_tree: bool,
    watch_enabled: bool,
    old_dfd: i32,
    old_path: Option<PathStash>,
    new_dfd: i32,
    new_path: Option<PathStash>,
    flags: u32,
    prefixes: &[Option<WatchedPrefix>],
) -> (enter: PathOpEnter)
    ensures
        enter == (if !in_tree && !watch_enabled {
            PathOpEnter::Ignore
        } else if old_path is None && new_path is None {
            PathOpEnter::Lost(2)
        } else if old_path is None || new_path is None {
            PathOpEnter::Lost(1)
        } else if !in_tree && is_foreign(old_path->0, prefixes@) && is_foreign(
            new_path->0,
            prefixes@,
        ) {
            PathOpEnter::Ignore
        } else {
            PathOpEnter::Keep(
                PathOpStash {
                    old_dfd,
                    new_dfd,
                    flags,
                    operation: PathOp::Rename,
                    from_watch: source_of(in_tree),
                },
            )
        }),
{
    if !in_tree && !watch_enabled {
        return PathOpEnter::Ignore;
    }
    match (old_path, new_path) {
        (None, None) => PathOpEnter::Lost(2),
        (None, Some(_)) => PathOpEnter::Lost(1),
        (Some(_), None) => PathOpEnter::Lost(1),
        (Some(old), Some(new)) => {
            if !in_tree {
                let both_absolute = path_is_absolute(&old.path, old.path_len) && path_is_absolute(
                    &new.path,
                    new.path_len,
                );
                if both_absolute && !matches_watched_prefix(&old.path, old.path_len, prefixes)
                    && !matches_watched_prefix(&new.path, new.path_len, prefixes) {
                    return PathOpEnter::Ignore;
                }
            }
            let from_watch: u8 = if in_tree {
                SOURCE_TREE
            } else {
                SOURCE_WATCH
            };
            PathOpEnter::Keep(
                PathOpStash { old_dfd, new_dfd, flags, operation: PathOp::Rename, from_watch },
            )
        },
    }
}

/// At the entry of an unlink. A path that could not be read or kept is missing
/// and counts as a lost event.
pub fn stash_unlink(
    in_tree: bool,
    watch_enabled: bool,
    dfd: i32,
    path: Option<PathStash>,
    flags: u32,
    prefixes: &[Option<WatchedPrefix>],
) -> (enter: PathOpEnter)
    ensures
        enter == (if !in_tree && !watch_enabled {
            PathOpEnter::Ignore
        } else if path is None {
            PathOpEnter::Lost(1)
        } else if !in_tree && is_foreign(path->0, prefixes@) {
            PathOpEnter::Ignore
        } else {
            PathOpEnter::Keep(
                PathOpStash {
                    old_dfd: dfd,
                    new_dfd: 0,
                    flags,
                    operation: PathOp::Unlink,
                    from_watch: source_of(in_tree),
                },
            )
        }),
{
    if !in_tree && !watch_enabled {
        return PathOpEnter::Ignore;
    }
    match path {
        None => PathOpEnter::Lost(1),
        Some(path) => {
            if !in_tree && path_is_absolute(&path.path, path.path_len) && !matches_watched_prefix(
                &path.path,
                path.path_len,
                prefixes,
            ) {
                return PathOpEnter::Ignore;
            }
            let from_watch: u8 = if in_tree {
                SOURCE_TREE
            } else {
                SOURCE_WATCH
            };
            PathOpEnter::Keep(
                PathOpStash {
                    old_dfd: dfd,
                    new_dfd: 0,
                    flags,
                    operation: PathOp::Unlink,
                    from_watch,
                },
            )
        },
    }
}

/// The event of one path of a rename or unlink. The time correlates the two
/// halves of a rename.
pub open spec fn path_event(
    stash: PathOpStash,
    dfd: i32,
    pid_tgid: u64,
    timestamp_ns: u64,
    p: PathStash,
) -> FilePathEvent {
    FilePathEvent {
        pid: pid_of(pid_tgid),
        tgid: tgid_of(pid_tgid),
        dfd,
        flags: stash.flags,
        operation_id: timestamp_ns,
        path: p.path,
        path_len: p.path_len,
    }
}

/// What to do at the exit of a rename or unlink.
pub struct PathOpExit {
    /// The event to send first.
    pub first: Option<Event>,
    /// The event to send next.
    pub second: Option<Event>,
    /// Whether an event was lost.
    pub lost: bool,
    /// Whether what was kept is to be forgotten.
    pub forget: bool,
}

/// The exit of a rename or unlink that was not of interest.
pub open spec fn untouched() -> PathOpExit {
    PathOpExit { first: None, second: None, lost: false, forget: false }
}

/// What to do at the exit of a rename or unlink that was kept.
pub open spec fn path_op_exit_of(
    stash: PathOpStash,
    ret: i64,
    old_path: Option<PathStash>,
    new_path: Option<PathStash>,
    pid_tgid: u64,
    timestamp_ns: u64,
) -> PathOpExit {
    let done = PathOpExit { first: None, second: None, lost: false, forget: true };
    let source = stash.from_watch;
    if ret < 0 {
        done
    } else {
        match stash.operation {
            PathOp::Rename => match old_path {
                None => PathOpExit { lost: true, ..done },
                Some(old) => {
                    let first = Some(
                        Event {
                            source,
                            timestamp_ns,
                            payload: EventPayload::FileRenameSource(
                                path_event(stash, stash.old_dfd, pid_tgid, timestamp_ns, old),
                            ),
                        },
                    );
                    match new_path {
                        None => PathOpExit { first, lost: true, ..done },
                        Some(new) => PathOpExit {
                            first,
                            second: Some(
                                Event {
                                    source,
                                    timestamp_ns,
                                    payload: EventPayload::FileRenameDestination(
                                        path_event(
                                            stash,
                                            stash.new_dfd,
                                            pid_tgid,
                                            timestamp_ns,
                                            new,
                                        ),
                                    ),
                                },
                            ),
                            ..done
                        },
                    }
                },
            },
            PathOp::Unlink => match old_path {
                None => PathOpExit { lost: true, ..done },
                Some(old) => PathOpExit {
                    first: Some(
                        Event {
                            source,
                            timestamp_ns,
                            payload: EventPayload::FileUnlink(
                                path_event(stash, stash.old_dfd, pid_tgid, timestamp_ns, old),
                            ),
                        },
                    ),
                    ..done
                },
            },
        }
    }
}

fn emit_path_event(
    stash: &PathOpStash,
    dfd: i32,
    pid_tgid: u64,
    timestamp_ns: u64,
    p: PathStash,
) -> (event: FilePathEvent)
    ensures
        event == path_event(*stash, dfd, pid_tgid, timestamp_ns, p),
{
    let (pid, tgid) = split_ids(pid_tgid);
    FilePathEvent {
        pid,
        tgid,
        dfd,
        flags: stash.flags,
        operation_id: timestamp_ns,
        path: p.path,
        path_len: p.path_len,
    }
}

/// At the exit of a rename or unlink: the events of a successful one. The source
/// half of a rename is sent even where its destination has been lost.
pub fn path_op_exit(
    stash: Option<PathOpStash>,
    ret: i64,
    old_path: Option<PathStash>,
    new_path: Option<PathStash>,
    pid_tgid: u64,
    timestamp_ns: u64,
) -> (exit: PathOpExit)
    ensures
        exit == (match stash {
            Some(s) => path_op_exit_of(s, ret, old_path, new_path, pid_tgid, timestamp_ns),
            None => untouched(),
        }),
{
    let stash = match stash {
        Some(stash) => stash,
        None => {
            return PathOpExit { first: None, second: None, lost: false, forget: false };
        },
    };
    if ret < 0 {
        return PathOpExit { first: None, second: None, lost: false, forget: true };
    }
    let old = match old_path {
        Some(old) => old,
        None => {
            return PathOpExit { first: None, second: None, lost: true, forget: true };
        },
    };
    let source = stash.from_watch;
    let half = emit_path_event(&stash, stash.old_dfd, pid_tgid, timestamp_ns, old);
    match stash.operation {
        PathOp::Rename => {
            let first = Some(
                Event { source, timestamp_ns, payload: EventPayload::FileRenameSource(half) },
            );
            match new_path {
                None => PathOpExit { first, second: None, lost: true, forget: true },
                Some(new) => {
                    let other = emit_path_event(&stash, stash.new_dfd, pid_tgid, timestamp_ns, new);
                    let second = Some(
                        Event {
                            source,
                            timestamp_ns,
                            payload: EventPayload::FileRenameDestination(other),
                        },
                    );
                    PathOpExit { first, second, lost: false, forget: true }
                },
            }
        },
        PathOp::Unlink => {
            let first = Some(
                Event { source, timestamp_ns, payload: EventPayload::FileUnlink(half) },
            );
            PathOpExit { first, second: None, lost: false, forget: true }
        },
    }
}

// ---------------------------------------------------------------------------
// Closing and mapping
// ---------------------------------------------------------------------------

/// What to do at a close.
pub struct CloseEnter {
    /// The event to send.
    pub event: Event,
    /// Whether the descriptor is no longer to be watched.
    pub forget_fd: bool,
}

/// At a close: of interest are those of tracked processes and of watched
/// descriptors.
pub fn close_enter(
    in_tree: bool,
    watched_fd: bool,
    pid_tgid: u64,
    fd: i32,
    timestamp_ns: u64,
) -> (enter: Option<CloseEnter>)
    ensures
        enter == (if in_tree || watched_fd {
            Some(
                CloseEnter {
                    event: Event {
                        source: source_of(in_tree),
                        timestamp_ns,
                        payload: EventPayload::FileClose(
                            FileCloseEvent {
                                pid: pid_of(pid_tgid),
                                tgid: tgid_of(pid_tgid),
                                fd,
                            },
                        ),
                    },
                    forget_fd: !in_tree,
                },
            )
        } else {
            None
        }),
{
    if !in_tree && !watched_fd {
        return None;
    }
    let (pid, tgid) = split_ids(pid_tgid);
    let source: u8 = if in_tree {
        SOURCE_TREE
    } else {
        SOURCE_WATCH
    };
    let payload = EventPayload::FileClose(FileCloseEvent { pid, tgid, fd });
    Some(CloseEnter { event: Event { source, timestamp_ns, payload }, forget_fd: !in_tree })
}

/// At a mapping: of interest are those backed by a file, of tracked processes
/// and of watched descriptors.
pub fn mmap_enter(
    in_tree: bool,
    watched_fd: bool,
    pid_tgid: u64,
    prot: u64,
    flags: u64,
    fd: i64,
    timestamp_ns: u64,
) -> (event: Option<Event>)
    ensures
        event == (if fd >= 0 && (in_tree || watched_fd) {
            Some(
                Event {
                    source: source_of(in_tree),
                    timestamp_ns,
                    payload: EventPayload::FileMmap(
                        FileMmapEvent {
                            pid: pid_of(pid_tgid),
                            tgid: tgid_of(pid_tgid),
                            fd: low_signed(fd),
                            prot: low_bits(prot),
                            flags: low_bits(flags),
                        },
                    ),
                },
            )
        } else {
            None
        }),
{
    if fd < 0 || (!in_tree && !watched_fd) {
        return None;
    }
    let (pid, tgid) = split_ids(pid_tgid);
    let source: u8 = if in_tree {
        SOURCE_TREE
    } else {
        SOURCE_WATCH
    };
    let payload = EventPayload::FileMmap(
        FileMmapEvent {
            pid,
            tgid,
            fd: truncate(fd),
            prot: (prot % 0x1_0000_0000u64) as u32,
            flags: (flags % 0x1_0000_0000u64) as u32,
        },
    );
    Some(Event { source, timestamp_ns, payload })
}

// ---------------------------------------------------------------------------
// Processes
// ---------------------------------------------------------------------------

/// Where the file name stands in an execution record: the low 16 bits of its
/// location.
pub fn filename_offset(data_loc: u32) -> (offset: usize)
    ensures
        offset == data_loc % 0x1_0000,
{
    (data_loc % 0x1_0000u32) as usize
}

/// Whether a process is tracked at an execution: it was before, or it is the root
/// and could be entered among the tracked processes just now.
pub open spec fn followed_at_exec(is_root: bool, entered: bool, in_tree: bool) -> bool {
    in_tree || (is_root && entered)
}

/// At an execution: executions of tracked processes are of interest. The root is
/// to be tracked from now on; `entered` says whether there was room for it.
pub fn exec(
    is_root: bool,
    entered: bool,
    in_tree: bool,
    pid_tgid: u64,
    filename: [u8; 256],
    filename_len: u32,
    timestamp_ns: u64,
) -> (event: Option<Event>)
    ensures
        event == (if followed_at_exec(is_root, entered, in_tree) {
            Some(
                Event {
                    source: SOURCE_TREE,
                    timestamp_ns,
                    payload: EventPayload::ProcessExec(
                        ProcessExecEvent {
                            pid: pid_of(pid_tgid),
                            tgid: tgid_of(pid_tgid),
                            filename,
                            filename_len,
                        },
                    ),
                },
            )
        } else {
            None
        }),
{
    if !in_tree && !(is_root && entered) {
        return None;
    }
    let (pid, tgid) = split_ids(pid_tgid);
    let payload = EventPayload::ProcessExec(
        ProcessExecEvent { pid, tgid, filename, filename_len },
    );
    Some(Event { source: SOURCE_TREE, timestamp_ns, payload })
}

/// At a fork: the child of a tracked process is to be tracked, and the fork is
/// reported.
pub fn fork(
    parent_in_tree: bool,
    parent_pid_tgid: u64,
    child_pid: u32,
    timestamp_ns: u64,
) -> (event: Option<Event>)
    ensures
        event == (if parent_in_tree {
            Some(
                Event {
                    source: SOURCE_TREE,
                    timestamp_ns,
                    payload: EventPayload::ProcessFork(
                        ProcessForkEvent { parent_pid: tgid_of(parent_pid_tgid), child_pid },
                    ),
                },
            )
        } else {
            None
        }),
{
    if !parent_in_tree {
        return None;
    }
    let (_, parent_pid) = split_ids(parent_pid_tgid);
    let payload = EventPayload::ProcessFork(ProcessForkEvent { parent_pid, child_pid });
    Some(Event { source: SOURCE_TREE, timestamp_ns, payload })
}

/// At an exit: a tracked process ends with its leading thread. It is then no
/// longer to be tracked. The exit code is not known here.
pub fn exit(in_tree: bool, pid_tgid: u64, timestamp_ns: u64) -> (event: Option<Event>)
    ensures
        event == (if in_tree && pid_of(pid_tgid) == tgid_of(pid_tgid) {
            Some(
                Event {
                    source: SOURCE_TREE,
                    timestamp_ns,
                    payload: EventPayload::ProcessExit(
                        ProcessExitEvent {
                            pid: pid_of(pid_tgid),
                            tgid: tgid_of(pid_tgid),
                            exit_code: 0,
                        },
                    ),
                },
            )
        } else {
            None
        }),
{
    let (pid, tgid) = split_ids(pid_tgid);
    if !in_tree || pid != tgid {
        return None;
    }
    let payload = EventPayload::ProcessExit(ProcessExitEvent { pid, tgid, exit_code: 0 });
    Some(Event { source: SOURCE_TREE, timestamp_ns, payload })
}

// ---------------------------------------------------------------------------
// Laws
// ---------------------------------------------------------------------------

/// Distinct descriptors have distinct keys.
pub proof fn law_fd_keys_are_distinct(tgid_a: u32, fd_a: i32, tgid_b: u32, fd_b: i32)
    requires
        fd_key_of(tgid_a, fd_a) == fd_key_of(tgid_b, fd_b),
    ensures
        tgid_a == tgid_b,
        fd_a == fd_b,
{
}

/// Nothing of a process that is not tracked is of interest while watch mode is
/// off.
pub proof fn law_only_tracked_processes_without_watch_mode(
    flags: u32,
    path: Seq<u8>,
    path_len: u32,
    prefixes: Seq<Option<WatchedPrefix>>,
)
    ensures
        !open_matters(false, false, flags, path, path_len, prefixes),
{
}

/// The two halves of a rename carry the same operation id, and a failed rename
/// sends nothing.
pub proof fn law_rename_halves_are_correlated(
    stash: PathOpStash,
    ret: i64,
    old_path: PathStash,
    new_path: PathStash,
    pid_tgid: u64,
    timestamp_ns: u64,
)
    requires
        stash.operation == PathOp::Rename,
    ensures
        ({
            let exit = path_op_exit_of(
                stash,
                ret,
                Some(old_path),
                Some(new_path),
                pid_tgid,
                timestamp_ns,
            );
            if ret < 0 {
                exit.first is None && exit.second is None && !exit.lost
            } else {
                match (exit.first, exit.second) {
                    (Some(a), Some(b)) => match (a.payload, b.payload) {
                        (
                            EventPayload::FileRenameSource(x),
                            EventPayload::FileRenameDestination(y),
                        ) => x.operation_id == y.operation_id && x.pid == y.pid && x.tgid == y.tgid,
                        _ => false,
                    },
                    _ => false,
                }
            }
        }),
{
}

/// Whether a captured path starts with a watched prefix, byte by byte.
pub open spec fn starts_with_prefix(path: Seq<u8>, path_len: u32, p: Option<WatchedPrefix>) -> bool {
    match p {
        Some(w) => 1 <= w.len <= 128 && w.len <= path_len && path.take(w.len as int)
            == w.prefix@.take(w.len as int),
        None => false,
    }
}

/// Whether a captured path starts with one of the first eight watched prefixes.
pub open spec fn starts_with_any(
    path: Seq<u8>,
    path_len: u32,
    prefixes: Seq<Option<WatchedPrefix>>,
) -> bool {
    exists|i: int|
        0 <= i < prefixes.len() && i < 8 && starts_with_prefix(
            path,
            path_len,
            #[trigger] prefixes[i],
        )
}

proof fn lemma_starts_with_any(
    path: Seq<u8>,
    path_len: u32,
    prefixes: Seq<Option<WatchedPrefix>>,
)
    requires
        path.len() == 256,
    ensures
        is_watched(path, path_len, prefixes) == starts_with_any(path, path_len, prefixes),
{
    assert forall|w: WatchedPrefix| #[trigger]
        begins_with(path, path_len, w) == starts_with_prefix(path, path_len, Some(w)) by {
        let n = w.len as int;
        if begins_with(path, path_len, w) {
            assert(path.take(n) =~= w.prefix@.take(n));
        }
        if starts_with_prefix(path, path_len, Some(w)) {
            assert forall|j: int| 0 <= j < n implies #[trigger] path[j] == w.prefix@[j] by {
                assert(path.take(n)[j] == w.prefix@.take(n)[j]);
            }
        }
    }
    if is_watched(path, path_len, prefixes) {
        let i = choose|i: int|
            0 <= i < prefixes.len() && i < MAX_WATCH_PREFIXES && (#[trigger] prefixes[i] matches
                Some(p) && begins_with(path, path_len, p));
        assert(starts_with_prefix(path, path_len, prefixes[i]));
    }
    if starts_with_any(path, path_len, prefixes) {
        let i = choose|i: int|
            0 <= i < prefixes.len() && i < 8 && starts_with_prefix(
                path,
                path_len,
                #[trigger] prefixes[i],
            );
        assert(begins_with(path, path_len, prefixes[i]->0));
    }
}

/// Which opens are of interest: every one of the tree; from outside none without
/// watch mode; and in watch mode those at a path that starts with a watched prefix
/// and, where the file is not opened for reading alone, those at a path that is
/// not absolute.
pub proof fn law_opens_of_interest(
    in_tree: bool,
    watch_enabled: bool,
    flags: u32,
    path: Seq<u8>,
    path_len: u32,
    prefixes: Seq<Option<WatchedPrefix>>,
)
    requires
        path.len() == 256,
    ensures
        open_matters(in_tree, watch_enabled, flags, path, path_len, prefixes) <==> in_tree || (
        watch_enabled && (starts_with_any(path, path_len, prefixes) || (flags & 3 != 0 && path[0]
            != '/' as u8))),
{
    lemma_starts_with_any(path, path_len, prefixes);
}

/// A path of a rename or of a removal is of no interest from outside exactly where
/// it is absolute and starts with no watched prefix.
pub proof fn law_paths_of_no_interest(p: PathStash, prefixes: Seq<Option<WatchedPrefix>>)
    ensures
        is_foreign(p, prefixes) <==> p.path_len > 0 && p.path@[0] == '/' as u8 && !starts_with_any(
            p.path@,
            p.path_len,
            prefixes,
        ),
{
    lemma_starts_with_any(p.path@, p.path_len, prefixes);
}

/// A rename that succeeded sends its old path from the old directory first and its
/// new path from the new directory next, a removal its path, all with the flags
/// and the source that were kept and with one time; a call that failed sends
/// nothing, and a path that is gone counts as lost.
pub proof fn law_what_a_path_operation_sends(
    stash: PathOpStash,
    ret: i64,
    old_path: PathStash,
    new_path: PathStash,
    pid_tgid: u64,
    timestamp_ns: u64,
)
    ensures
        ({
            let half = |dfd: i32, p: PathStash| FilePathEvent {
                pid: (pid_tgid % 0x1_0000_0000) as u32,
                tgid: (pid_tgid / 0x1_0000_0000) as u32,
                dfd,
                flags: stash.flags,
                operation_id: timestamp_ns,
                path: p.path,
                path_len: p.path_len,
            };
            let sent = |payload: EventPayload| Some(
                Event { source: stash.from_watch, timestamp_ns, payload },
            );
            let done = path_op_exit_of(
                stash,
                ret,
                Some(old_path),
                Some(new_path),
                pid_tgid,
                timestamp_ns,
            );
            let gone = path_op_exit_of(stash, ret, None, Some(new_path), pid_tgid, timestamp_ns);
            &&& done.forget && gone.forget && !done.lost
            &&& gone.first is None && gone.second is None && gone.lost == (ret >= 0)
            &&& ret < 0 ==> done.first is None && done.second is None
            &&& ret >= 0 && stash.operation == PathOp::Rename ==> {
                &&& done.first == sent(EventPayload::FileRenameSource(half(stash.old_dfd, old_path)))
                &&& done.second == sent(
                    EventPayload::FileRenameDestination(half(stash.new_dfd, new_path)),
                )
            }
            &&& ret >= 0 && stash.operation == PathOp::Unlink ==> done.first == sent(
                EventPayload::FileUnlink(half(stash.old_dfd, old_path)),
            ) && done.second is None
        }),
{
}

/// The two halves of a combined id are the thread group above and the thread below.
pub proof fn law_ids_are_split(tgid: u32, pid: u32)
    ensures
        tgid_of((tgid as u64 * 0x1_0000_0000 + pid as u64) as u64) == tgid,
        pid_of((tgid as u64 * 0x1_0000_0000 + pid as u64) as u64) == pid,
{
}

} // verus!
