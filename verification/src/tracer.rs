//! The tracer: which events a traced command gives rise to.

use crate::canonicalize;
use crate::canonicalize::{is_watched_path, slot_of};
use crate::events::{
    Event, FileCloseEvent, FileMmapEvent, FileOpenEvent, MAX_PREFIX_LEN, MAX_WATCH_PREFIXES,
    ProcessExecEvent, ProcessExitEvent, RecordError, WatchedPrefix,
};
use crate::file_identity;
use crate::file_identity::{observe_path, FileObservation, FileProbe, Observed};
use crate::paths;
use crate::paths::{is_absolute, join_path, path_components, path_ends_with};
use crate::text;
use crate::text::{chars_of, concat, format_decimal, format_signed, string_of, text_eq};
use std::collections::HashMap;
use vstd::prelude::*;
use vstd::string::*;
use vstd::utf8::*;

verus! {

broadcast use vstd::std_specs::hash::group_hash_axioms;

/// A high-level traced event, extracted from raw probe events.
#[derive(Debug, Clone)]
#[allow(inconsistent_fields)]
pub enum TracedEvent {
    Exec { pid: u32, observation: FileObservation },
    FileOpen {
        pid: u32,
        path: String,
        flags: u32,
        fd: i32,
        /// True if this event came from a non-fork-tree process matching a watched prefix.
        external: bool,
        /// File identity captured as soon as the successful open event arrived.
        observation: FileObservation,
    },
    FileClose {
        pid: u32,
        fd: i32,
        /// Resolved path (looked up from the fd tracking table).
        path: Option<String>,
        /// True if this event came from a non-fork-tree process.
        external: bool,
        /// File identity captured when the close event arrived.
        observation: Option<FileObservation>,
    },
    FileMmap {
        pid: u32,
        fd: i32,
        prot: u32,
        flags: u32,
        /// Resolved path (looked up from the fd tracking table).
        path: Option<String>,
        /// True if this event came from a non-fork-tree process.
        external: bool,
        /// File identity captured when the mapping event arrived.
        observation: Option<FileObservation>,
    },
    Exit { pid: u32, exit_code: i32 },
}

/// A traced event as mathematical data.
#[allow(inconsistent_fields)]
pub enum Traced {
    Exec { pid: u32, observation: Observed },
    FileOpen {
        pid: u32,
        path: Seq<char>,
        flags: u32,
        fd: i32,
        external: bool,
        observation: Observed,
    },
    FileClose {
        pid: u32,
        fd: i32,
        path: Option<Seq<char>>,
        external: bool,
        observation: Option<Observed>,
    },
    FileMmap {
        pid: u32,
        fd: i32,
        prot: u32,
        flags: u32,
        path: Option<Seq<char>>,
        external: bool,
        observation: Option<Observed>,
    },
    Exit { pid: u32, exit_code: i32 },
}

/// An optional observation as mathematical data.
pub open spec fn opt_observed(o: Option<FileObservation>) -> Option<Observed> {
    match o {
        Some(f) => Some(f@),
        None => None,
    }
}

impl View for TracedEvent {
    type V = Traced;

    open spec fn view(&self) -> Traced {
        match *self {
            TracedEvent::Exec { pid, observation } => Traced::Exec {
                pid,
                observation: observation@,
            },
            TracedEvent::FileOpen { pid, path, flags, fd, external, observation } => {
                Traced::FileOpen { pid, path: path@, flags, fd, external, observation: observation@ }
            },
            TracedEvent::FileClose { pid, fd, path, external, observation } => Traced::FileClose {
                pid,
                fd,
                path: text::opt_text(path),
                external,
                observation: opt_observed(observation),
            },
            TracedEvent::FileMmap { pid, fd, prot, flags, path, external, observation } => {
                Traced::FileMmap {
                    pid,
                    fd,
                    prot,
                    flags,
                    path: text::opt_text(path),
                    external,
                    observation: opt_observed(observation),
                }
            },
            TracedEvent::Exit { pid, exit_code } => Traced::Exit { pid, exit_code },
        }
    }
}

fn copy_observation(observation: &Option<FileObservation>) -> (copy: Option<FileObservation>)
    ensures
        opt_observed(copy) == opt_observed(*observation),
{
    match observation {
        Some(observation) => Some(observation.duplicate()),
        None => None,
    }
}

impl TracedEvent {
    /// A copy of the event.
    pub fn duplicate(&self) -> (copy: TracedEvent)
        ensures
            copy@ == self@,
    {
        match self {
            TracedEvent::Exec { pid, observation } => TracedEvent::Exec {
                pid: *pid,
                observation: observation.duplicate(),
            },
            TracedEvent::FileOpen { pid, path, flags, fd, external, observation } => {
                TracedEvent::FileOpen {
                    pid: *pid,
                    path: path.clone(),
                    flags: *flags,
                    fd: *fd,
                    external: *external,
                    observation: observation.duplicate(),
                }
            },
            TracedEvent::FileClose { pid, fd, path, external, observation } => {
                TracedEvent::FileClose {
                    pid: *pid,
                    fd: *fd,
                    path: path.clone(),
                    external: *external,
                    observation: copy_observation(observation),
                }
            },
            TracedEvent::FileMmap { pid, fd, prot, flags, path, external, observation } => {
                TracedEvent::FileMmap {
                    pid: *pid,
                    fd: *fd,
                    prot: *prot,
                    flags: *flags,
                    path: path.clone(),
                    external: *external,
                    observation: copy_observation(observation),
                }
            },
            TracedEvent::Exit { pid, exit_code } => TracedEvent::Exit {
                pid: *pid,
                exit_code: *exit_code,
            },
        }
    }
}

/// The events of a list as mathematical data.
pub open spec fn event_views(events: Seq<TracedEvent>) -> Seq<Traced> {
    Seq::new(events.len(), |i: int| events[i]@)
}

// ---------------------------------------------------------------------------
// Process instances
// ---------------------------------------------------------------------------

/// One life of a process id, from fork to exit.
#[derive(Debug, Clone, Copy, PartialEq, Eq, Hash, Structural)]
pub struct ProcessLifetime {
    pub pid: u32,
}

/// A process lifetime between two executions: `exec_epoch` counts how often the
/// process has replaced its executable.
#[derive(Debug, Clone, Copy, PartialEq, Eq, Hash, Structural)]
pub struct ProcessInstance {
    pub lifetime: ProcessLifetime,
    pub exec_epoch: u32,
}

impl ProcessInstance {
    /// The place of the instance in the order of instances: by process id, then
    /// by execution.
    pub open spec fn rank(self) -> u64 {
        (self.lifetime.pid * 0x1_0000_0000 + self.exec_epoch) as u64
    }

    /// The instance of a process id at an execution.
    pub fn new(pid: u32, exec_epoch: u32) -> (process: ProcessInstance)
        ensures
            process == (ProcessInstance { lifetime: ProcessLifetime { pid }, exec_epoch }),
    {
        ProcessInstance { lifetime: ProcessLifetime { pid }, exec_epoch }
    }

    /// The place of the instance in the order of instances.
    pub fn place(&self) -> (rank: u64)
        ensures
            rank == self.rank(),
    {
        (self.lifetime.pid as u64) * 0x1_0000_0000u64 + self.exec_epoch as u64
    }
}

/// Distinct instances have distinct places.
pub proof fn lemma_rank_injective(a: ProcessInstance, b: ProcessInstance)
    requires
        a.rank() == b.rank(),
    ensures
        a == b,
{
}

/// A traced event told apart by process instances.
#[allow(inconsistent_fields)]
#[derive(Debug, Clone)]
pub enum ProcessEvent {
    Exec { process: ProcessInstance, observation: FileObservation },
    Fork { parent: ProcessInstance, child: ProcessInstance },
    FileOpen {
        process: ProcessInstance,
        path: String,
        flags: u32,
        fd: i32,
        external: bool,
        observation: FileObservation,
    },
    FileClose {
        process: ProcessInstance,
        fd: i32,
        path: Option<String>,
        external: bool,
        observation: Option<FileObservation>,
    },
    FileMmap {
        process: ProcessInstance,
        fd: i32,
        prot: u32,
        flags: u32,
        path: Option<String>,
        external: bool,
        observation: Option<FileObservation>,
    },
    FileRename {
        process: ProcessInstance,
        from_path: String,
        to_path: String,
        flags: u32,
        external: bool,
        observation: FileObservation,
    },
    FileUnlink { process: ProcessInstance, path: String, external: bool },
    Exit { process: ProcessInstance, exit_code: i32 },
}

/// A process event as mathematical data.
#[allow(inconsistent_fields)]
pub enum Happened {
    Exec { process: ProcessInstance, observation: Observed },
    Fork { parent: ProcessInstance, child: ProcessInstance },
    FileOpen {
        process: ProcessInstance,
        path: Seq<char>,
        flags: u32,
        fd: i32,
        external: bool,
        observation: Observed,
    },
    FileClose {
        process: ProcessInstance,
        fd: i32,
        path: Option<Seq<char>>,
        external: bool,
        observation: Option<Observed>,
    },
    FileMmap {
        process: ProcessInstance,
        fd: i32,
        prot: u32,
        flags: u32,
        path: Option<Seq<char>>,
        external: bool,
        observation: Option<Observed>,
    },
    FileRename {
        process: ProcessInstance,
        from_path: Seq<char>,
        to_path: Seq<char>,
        flags: u32,
        external: bool,
        observation: Observed,
    },
    FileUnlink { process: ProcessInstance, path: Seq<char>, external: bool },
    Exit { process: ProcessInstance, exit_code: i32 },
}

impl View for ProcessEvent {
    type V = Happened;

    open spec fn view(&self) -> Happened {
        match *self {
            ProcessEvent::Exec { process, observation } => Happened::Exec {
                process,
                observation: observation@,
            },
            ProcessEvent::Fork { parent, child } => Happened::Fork { parent, child },
            ProcessEvent::FileOpen { process, path, flags, fd, external, observation } => {
                Happened::FileOpen {
                    process,
                    path: path@,
                    flags,
                    fd,
                    external,
                    observation: observation@,
                }
            },
            ProcessEvent::FileClose { process, fd, path, external, observation } => {
                Happened::FileClose {
                    process,
                    fd,
                    path: text::opt_text(path),
                    external,
                    observation: opt_observed(observation),
                }
            },
            ProcessEvent::FileMmap { process, fd, prot, flags, path, external, observation } => {
                Happened::FileMmap {
                    process,
                    fd,
                    prot,
                    flags,
                    path: text::opt_text(path),
                    external,
                    observation: opt_observed(observation),
                }
            },
            ProcessEvent::FileRename {
                process,
                from_path,
                to_path,
                flags,
                external,
                observation,
            } => Happened::FileRename {
                process,
                from_path: from_path@,
                to_path: to_path@,
                flags,
                external,
                observation: observation@,
            },
            ProcessEvent::FileUnlink { process, path, external } => Happened::FileUnlink {
                process,
                path: path@,
                external,
            },
            ProcessEvent::Exit { process, exit_code } => Happened::Exit { process, exit_code },
        }
    }
}

/// The process events of a list as mathematical data.
pub open spec fn happenings(events: Seq<ProcessEvent>) -> Seq<Happened> {
    Seq::new(events.len(), |i: int| events[i]@)
}

// ---------------------------------------------------------------------------
// Captured paths
// ---------------------------------------------------------------------------

/// `openat` takes relative paths against the working directory at this value.
pub const AT_FDCWD: i32 = -100;

/// The text of an optional reference to a string.
pub open spec fn opt_str(s: Option<&str>) -> Option<Seq<char>> {
    match s {
        Some(t) => Some(t@),
        None => None,
    }
}

/// Calls `core::str::from_utf8`, which accepts exactly the byte strings that are
/// valid UTF-8 and gives the text they encode.
#[verifier::external_body]
pub(crate) fn utf8_text(bytes: &[u8]) -> (text: Option<&str>)
    ensures
        opt_str(text) == if valid_utf8(bytes@) {
            Some(decode_utf8(bytes@))
        } else {
            None
        },
{
    core::str::from_utf8(bytes).ok()
}

/// `s` without the null characters at its end.
pub open spec fn without_trailing_nulls(s: Seq<char>) -> Seq<char>
    decreases s.len(),
{
    if s.len() > 0 && s.last() == '\0' {
        without_trailing_nulls(s.drop_last())
    } else {
        s
    }
}

/// The part of a captured path that was filled in.
pub open spec fn captured_bytes(bytes: Seq<u8>, len: u32) -> Seq<u8> {
    if len <= bytes.len() {
        bytes.take(len as int)
    } else {
        bytes
    }
}

/// The text of a captured path.
pub open spec fn captured_text(bytes: Seq<u8>, len: u32) -> Seq<char> {
    let part = captured_bytes(bytes, len);
    without_trailing_nulls(
        if valid_utf8(part) {
            decode_utf8(part)
        } else {
            "<invalid utf8>"@
        },
    )
}

/// The text of a captured path.
pub fn path_text(bytes: &[u8; 256], len: u32) -> (result: String)
    ensures
        result@ == captured_text(bytes@, len),
{
    let end: usize = if len < 256 {
        len as usize
    } else {
        256
    };
    let part = vstd::slice::slice_subrange(bytes.as_slice(), 0, end);
    assert(part@ =~= captured_bytes(bytes@, len));
    let raw = match utf8_text(part) {
        Some(text) => text,
        None => "<invalid utf8>",
    };
    let chars = chars_of(raw);
    let mut n: usize = chars.len();
    assert(chars@.take(n as int) =~= chars@);
    while n > 0 && chars[n - 1] == '\0'
        invariant
            n <= chars@.len(),
            chars@ == raw@,
            without_trailing_nulls(raw@) == without_trailing_nulls(chars@.take(n as int)),
        decreases n,
    {
        assert(chars@.take(n as int).drop_last() =~= chars@.take(n as int - 1));
        n = n - 1;
    }
    let kept = string_of(vstd::slice::slice_subrange(chars.as_slice(), 0, n));
    assert(kept@ =~= chars@.take(n as int));
    kept
}

// ---------------------------------------------------------------------------
// Resolving paths
// ---------------------------------------------------------------------------

/// The link to a file descriptor of a process.
pub open spec fn fd_link(tgid: u32, fd: i32) -> Seq<char> {
    "/proc/"@ + text::decimal(tgid as nat) + "/fd/"@ + text::signed_decimal(fd as int)
}

/// The link to the working directory of a process.
pub open spec fn cwd_link(tgid: u32) -> Seq<char> {
    "/proc/"@ + text::decimal(tgid as nat) + "/cwd"@
}

/// The link to the executable of a process.
pub open spec fn exe_link(tgid: u32) -> Seq<char> {
    "/proc/"@ + text::decimal(tgid as nat) + "/exe"@
}

fn proc_dir(tgid: u32) -> (dir: String)
    ensures
        dir@ == "/proc/"@ + text::decimal(tgid as nat),
{
    concat("/proc/", format_decimal(tgid as u64).as_str())
}

/// The link to a file descriptor of a process.
pub fn proc_fd_path(tgid: u32, fd: i32) -> (link: String)
    ensures
        link@ == fd_link(tgid, fd),
{
    let mut link = proc_dir(tgid);
    link.append("/fd/");
    link.append(format_signed(fd).as_str());
    link
}

/// The link to the executable of a process.
pub fn proc_exe_path(tgid: u32) -> (link: String)
    ensures
        link@ == exe_link(tgid),
{
    let mut link = proc_dir(tgid);
    link.append("/exe");
    link
}

/// The link to what relative paths are taken against: the working directory, or
/// the directory that a descriptor stands for.
pub fn base_link(tgid: u32, dfd: i32) -> (link: String)
    ensures
        link@ == if dfd == AT_FDCWD {
            cwd_link(tgid)
        } else {
            fd_link(tgid, dfd)
        },
{
    if dfd == AT_FDCWD {
        let mut link = proc_dir(tgid);
        link.append("/cwd");
        link
    } else {
        proc_fd_path(tgid, dfd)
    }
}

/// A captured path taken against the base that was found for it.
pub open spec fn taken_against(raw: Seq<char>, base: Option<Seq<char>>) -> Seq<char> {
    if paths::is_rooted(raw) {
        raw
    } else {
        match base {
            Some(b) => paths::joined(b, raw),
            None => raw,
        }
    }
}

/// Resolves the path of an open, given where its base link leads, if anywhere.
pub fn resolve_open_path(raw_path: &str, base: Option<&str>) -> (path: String)
    ensures
        path@ == taken_against(raw_path@, opt_str(base)),
{
    if is_absolute(raw_path) {
        return raw_path.to_string();
    }
    match base {
        Some(base) => join_path(base, raw_path),
        None => raw_path.to_string(),
    }
}

/// Resolves the path of an execution, given the working directory, if known.
pub fn resolve_exec_path(raw_path: &str, cwd: Option<&str>) -> (path: String)
    ensures
        path@ == taken_against(raw_path@, opt_str(cwd)),
{
    resolve_open_path(raw_path, cwd)
}

/// The target of a link without the mark of a file that was deleted.
pub open spec fn without_deleted_mark(path: Seq<char>) -> Seq<char> {
    let mark = " (deleted)"@;
    if mark.is_suffix_of(path) {
        path.take(path.len() - mark.len())
    } else {
        path
    }
}

/// Strips the mark of a file that was deleted from the target of a link.
pub fn strip_deleted_suffix(path: String) -> (result: String)
    ensures
        result@ == without_deleted_mark(path@),
{
    let chars = chars_of(path.as_str());
    let mark = chars_of(" (deleted)");
    if mark.len() > chars.len() {
        return path;
    }
    let keep = chars.len() - mark.len();
    let ghost m = " (deleted)"@;
    for i in 0..mark.len()
        invariant
            m == " (deleted)"@,
            chars@ == path@,
            mark@ == m,
            keep == chars.len() - mark.len(),
            mark.len() <= chars.len(),
            forall|k: int| 0 <= k < i ==> mark@[k] == chars@[keep + k],
    {
        if mark[i] != chars[keep + i] {
            proof {
                let tail = path@.subrange(keep as int, path@.len() as int);
                assert(tail[i as int] != m[i as int]);
            }
            return path;
        }
    }
    assert(m =~= path@.subrange(keep as int, path@.len() as int));
    let kept = string_of(vstd::slice::slice_subrange(chars.as_slice(), 0, keep));
    assert(kept@ =~= path@.take(keep as int));
    kept
}

/// Whether two optional paths are both there and the same, component by component.
pub open spec fn same_canonical(a: Option<Seq<char>>, b: Option<Seq<char>>) -> bool {
    match (a, b) {
        (Some(x), Some(y)) => paths::components(x) == paths::components(y),
        _ => false,
    }
}

/// Whether a captured path and the target of a link are the same file: the same
/// text, the same canonical path, or a relative path that ends the target.
pub open spec fn agree(
    raw: Seq<char>,
    target: Seq<char>,
    canonical_raw: Option<Seq<char>>,
    canonical_target: Option<Seq<char>>,
) -> bool {
    ||| raw == target
    ||| same_canonical(canonical_raw, canonical_target)
    ||| !paths::is_rooted(raw) && paths::ends_with(target, raw)
}

fn same_path(a: &str, b: &str) -> (yes: bool)
    ensures
        yes == (paths::components(a@) == paths::components(b@)),
{
    let x = path_components(a);
    let y = path_components(b);
    let ghost s = text::texts(x@);
    let ghost t = text::texts(y@);
    if x.len() != y.len() {
        assert(s.len() != t.len());
        return false;
    }
    for i in 0..x.len()
        invariant
            x.len() == y.len(),
            s == text::texts(x@),
            t == text::texts(y@),
            s == paths::components(a@),
            t == paths::components(b@),
            forall|k: int| 0 <= k < i ==> s[k] == t[k],
    {
        if !text_eq(x[i].as_str(), y[i].as_str()) {
            assert(s[i as int] != t[i as int]);
            return false;
        }
    }
    assert(s =~= t);
    true
}

/// Whether a captured path and the target of a link are the same file. The
/// canonical paths are those that could be found.
pub fn paths_agree(
    raw_path: &str,
    proc_target: &str,
    canonical_raw: Option<&str>,
    canonical_target: Option<&str>,
) -> (yes: bool)
    ensures
        yes == agree(raw_path@, proc_target@, opt_str(canonical_raw), opt_str(canonical_target)),
{
    if text_eq(raw_path, proc_target) {
        return true;
    }
    if let (Some(raw), Some(target)) = (canonical_raw, canonical_target) {
        if same_path(raw, target) {
            return true;
        }
    }
    !is_absolute(raw_path) && path_ends_with(proc_target, raw_path)
}

/// Where a file is known to lie, and where it can be read.
pub struct Located {
    pub path: String,
    pub handle: String,
}

/// Settles where a file lies: a link that the kernel keeps to it is believed
/// where its target, freed of the mark of a deleted file, agrees with the
/// captured path, and the file is then read through that link.
pub fn locate(
    captured: String,
    link: String,
    target: Option<String>,
    canonical_captured: Option<&str>,
    canonical_target: Option<&str>,
) -> (located: Located)
    ensures
        match target {
            Some(t) => if agree(
                captured@,
                without_deleted_mark(t@),
                opt_str(canonical_captured),
                opt_str(canonical_target),
            ) {
                located.path@ == without_deleted_mark(t@) && located.handle@ == link@
            } else {
                located.path@ == captured@ && located.handle@ == captured@
            },
            None => located.path@ == captured@ && located.handle@ == captured@,
        },
{
    if let Some(target) = target {
        let target = strip_deleted_suffix(target);
        if paths_agree(captured.as_str(), target.as_str(), canonical_captured, canonical_target) {
            return Located { path: target, handle: link };
        }
    }
    Located { handle: captured.clone(), path: captured }
}

/// Whether a command is a bare name, to be looked up in the search path.
pub open spec fn is_bare(command: Seq<char>) -> bool {
    !command.contains('/')
}

/// Whether a command is a bare name, to be looked up in the search path.
pub fn is_bare_command(command: &str) -> (yes: bool)
    ensures
        yes == is_bare(command@),
{
    let chars = chars_of(command);
    for i in 0..chars.len()
        invariant
            chars@ == command@,
            forall|k: int| 0 <= k < i ==> chars@[k] != '/',
    {
        if chars[i] == '/' {
            assert(command@[i as int] == '/');
            return false;
        }
    }
    true
}

/// Where a bare command may be found, in the order of the search path.
pub fn executable_candidates(command: &str, dirs: &Vec<String>) -> (candidates: Vec<String>)
    ensures
        text::texts(candidates@) == text::texts(dirs@).map_values(
            |d: Seq<char>| paths::joined(d, command@),
        ),
{
    let mut candidates: Vec<String> = Vec::new();
    for i in 0..dirs.len()
        invariant
            candidates@.len() == i,
            forall|k: int|
                0 <= k < i ==> (#[trigger] candidates@[k])@ == paths::joined(dirs@[k]@, command@),
    {
        candidates.push(join_path(dirs[i].as_str(), command));
    }
    assert(text::texts(candidates@) =~= text::texts(dirs@).map_values(
        |d: Seq<char>| paths::joined(d, command@),
    ));
    candidates
}

/// The executable of a command. One with a separator is known by its canonical
/// path, if it has one; a bare one by the first place of the search path at
/// which a file was found, if any.
pub fn resolve_executable(
    command: &str,
    canonical: Option<&str>,
    first_found: Option<&str>,
) -> (path: String)
    ensures
        path@ == (match if is_bare(command@) {
            opt_str(first_found)
        } else {
            opt_str(canonical)
        } {
            Some(p) => p,
            None => command@,
        }),
{
    let found = if is_bare_command(command) {
        first_found
    } else {
        canonical
    };
    match found {
        Some(path) => path.to_string(),
        None => command.to_string(),
    }
}

// ---------------------------------------------------------------------------
// Watch directories
// ---------------------------------------------------------------------------

/// Why directories cannot be watched.
#[derive(Debug, PartialEq, Eq)]
pub enum WatchError {
    /// More directories than the probes can hold.
    TooMany(usize),
    /// A prefix of so many bytes, more than the probes can hold.
    TooLong(usize, String),
}

/// Whether a prefix is too long for the probes.
pub open spec fn is_too_long(prefix: Seq<char>) -> bool {
    encode_utf8(prefix).len() > MAX_PREFIX_LEN
}

/// Checks that the probes can hold the prefixes to watch.
pub fn check_watch_prefixes(prefixes: &[String]) -> (result: Result<(), WatchError>)
    ensures
        match result {
            Ok(_) => prefixes@.len() <= MAX_WATCH_PREFIXES && forall|i: int|
                0 <= i < prefixes@.len() ==> !is_too_long((#[trigger] prefixes@[i])@),
            Err(WatchError::TooMany(n)) => n == prefixes@.len() && n > MAX_WATCH_PREFIXES,
            Err(WatchError::TooLong(n, p)) => prefixes@.len() <= MAX_WATCH_PREFIXES && exists|i: int|
                {
                    &&& 0 <= i < prefixes@.len()
                    &&& (#[trigger] prefixes@[i])@ == p@
                    &&& is_too_long(p@)
                    &&& n == encode_utf8(p@).len()
                    &&& forall|k: int| 0 <= k < i ==> !is_too_long((#[trigger] prefixes@[k])@)
                },
        },
{
    if prefixes.len() > MAX_WATCH_PREFIXES {
        return Err(WatchError::TooMany(prefixes.len()));
    }
    for i in 0..prefixes.len()
        invariant
            prefixes@.len() <= MAX_WATCH_PREFIXES,
            forall|k: int| 0 <= k < i ==> !is_too_long((#[trigger] prefixes@[k])@),
    {
        let n = prefixes[i].as_str().as_bytes().len();
        if n > MAX_PREFIX_LEN {
            let p = prefixes[i].clone();
            assert(prefixes@[i as int]@ == p@);
            return Err(WatchError::TooLong(n, p));
        }
    }
    Ok(())
}

impl WatchError {
    /// The error in words.
    pub fn message(&self) -> (text: String)
        ensures
            text@ == (match *self {
                WatchError::TooMany(n) => text::decimal(n as nat)
                    + " watch directories requested, but the tracer supports at most 8"@,
                WatchError::TooLong(n, p) => "watch prefix is "@ + text::decimal(n as nat)
                    + " bytes, but the tracer supports at most 128: "@ + p@,
            }),
    {
        match self {
            WatchError::TooMany(n) => concat(
                format_decimal(*n as u64).as_str(),
                " watch directories requested, but the tracer supports at most 8",
            ),
            WatchError::TooLong(n, p) => {
                let mut text = concat("watch prefix is ", format_decimal(*n as u64).as_str());
                text.append(" bytes, but the tracer supports at most 128: ");
                text.append(p.as_str());
                text
            },
        }
    }
}

/// A prefix in the form that the probes hold.
pub fn watched_prefix(prefix: &str) -> (watched: WatchedPrefix)
    requires
        !is_too_long(prefix@),
    ensures
        watched.len == encode_utf8(prefix@).len(),
        watched.prefix@.take(watched.len as int) == encode_utf8(prefix@),
        forall|i: int| watched.len <= i < MAX_PREFIX_LEN ==> #[trigger] watched.prefix@[i] == 0,
{
    let bytes = prefix.as_bytes();
    let mut array: [u8; 128] = [0u8; 128];
    for i in 0..bytes.len()
        invariant
            bytes@ == encode_utf8(prefix@),
            bytes@.len() <= MAX_PREFIX_LEN,
            forall|k: int| 0 <= k < i ==> #[trigger] array@[k] == bytes@[k],
            forall|k: int| i <= k < MAX_PREFIX_LEN ==> #[trigger] array@[k] == 0,
    {
        array[i] = bytes[i];
    }
    let watched = WatchedPrefix { prefix: array, len: bytes.len() as u32 };
    assert(watched.prefix@.take(watched.len as int) =~= encode_utf8(prefix@));
    watched
}

// ---------------------------------------------------------------------------
// Collecting events
// ---------------------------------------------------------------------------

/// What is known of an open file.
pub struct OpenFile {
    /// Where it lies.
    pub path: Seq<char>,
    /// The flags that it was opened with.
    pub flags: u32,
}

/// What has been collected so far.
#[verifier::ext_equal]
pub struct Collected {
    /// The events, oldest first.
    pub events: Seq<Traced>,
    /// The open files, by process and descriptor.
    pub files: Map<(u32, i32), OpenFile>,
    /// How many records could not be understood.
    pub malformed: u64,
}

impl Collected {
    /// Before any event.
    pub open spec fn start() -> Collected {
        Collected { events: Seq::empty(), files: Map::empty(), malformed: 0 }
    }

    /// After a record was looked at: one that holds no event is counted, as long
    /// as the number can grow.
    pub open spec fn noted(self, is_malformed: bool) -> Collected {
        Collected {
            malformed: if is_malformed && self.malformed < u64::MAX {
                (self.malformed + 1) as u64
            } else {
                self.malformed
            },
            ..self
        }
    }

    /// With an event added.
    pub open spec fn add(self, event: Traced) -> Collected {
        Collected { events: self.events.push(event), ..self }
    }

    /// After a file was opened and observed. Opens of other processes outside
    /// the watched prefixes are passed over.
    pub open spec fn open(
        self,
        pid: u32,
        fd: i32,
        flags: u32,
        external: bool,
        path: Seq<char>,
        observation: Observed,
        prefixes: Seq<Seq<char>>,
    ) -> Collected {
        if external && !canonicalize::watched(path, prefixes) {
            self
        } else {
            Collected {
                files: if fd >= 0 {
                    self.files.insert((pid, fd), OpenFile { path, flags })
                } else {
                    self.files
                },
                ..self.add(Traced::FileOpen { pid, path, flags, fd, external, observation })
            }
        }
    }

    /// The file that a mapping is of, where it is known.
    pub open spec fn mapped(self, pid: u32, fd: i32) -> Option<Seq<char>> {
        if self.files.contains_key((pid, fd)) {
            Some(self.files[(pid, fd)].path)
        } else {
            None
        }
    }

    /// What is to be observed before a mapping is recorded.
    pub open spec fn mapping(self, pid: u32, fd: i32, external: bool) -> MappingView {
        if external && self.mapped(pid, fd) is None {
            MappingView::Ignored
        } else {
            MappingView::Mapped { path: self.mapped(pid, fd) }
        }
    }

    /// After a file was mapped: a file that is known is shown as it was observed
    /// when the mapping arrived. Mappings of other processes of files that are
    /// not known are passed over.
    pub open spec fn mmap(
        self,
        pid: u32,
        fd: i32,
        prot: u32,
        flags: u32,
        external: bool,
        probe: Option<FileProbe>,
    ) -> Collected {
        match self.mapping(pid, fd, external) {
            MappingView::Ignored => self,
            MappingView::Mapped { path } => self.add(
                Traced::FileMmap {
                    pid,
                    fd,
                    prot,
                    flags,
                    path,
                    external,
                    observation: match (path, probe) {
                        (Some(p), Some(f)) => Some(file_identity::observed(p, f)),
                        _ => None,
                    },
                },
            ),
        }
    }

    /// What is to be observed before a close is recorded.
    pub open spec fn closing(self, pid: u32, fd: i32, external: bool) -> ClosingView {
        if self.files.contains_key((pid, fd)) {
            ClosingView::Closed {
                path: Some(self.files[(pid, fd)].path),
                observe: canonicalize::can_write(self.files[(pid, fd)].flags),
            }
        } else if external {
            ClosingView::Ignored
        } else {
            ClosingView::Closed { path: None, observe: false }
        }
    }
}

/// What a close asks for: nothing, or an event with the path of the file, where
/// it is known, and with an observation, where it was open for writing.
pub enum Closing {
    Ignored,
    Closed { path: Option<String>, observe: bool },
}

/// What a close asks for, as mathematical data.
pub enum ClosingView {
    Ignored,
    Closed { path: Option<Seq<char>>, observe: bool },
}

impl View for Closing {
    type V = ClosingView;

    open spec fn view(&self) -> ClosingView {
        match *self {
            Closing::Ignored => ClosingView::Ignored,
            Closing::Closed { path, observe } => ClosingView::Closed {
                path: text::opt_text(path),
                observe,
            },
        }
    }
}

/// What a mapping asks for: nothing, or an event with the path of the file,
/// where it is known, and then with an observation.
pub enum Mapping {
    Ignored,
    Mapped { path: Option<String> },
}

/// What a mapping asks for, as mathematical data.
pub enum MappingView {
    Ignored,
    Mapped { path: Option<Seq<char>> },
}

impl View for Mapping {
    type V = MappingView;

    open spec fn view(&self) -> MappingView {
        match *self {
            Mapping::Ignored => MappingView::Ignored,
            Mapping::Mapped { path } => MappingView::Mapped { path: text::opt_text(path) },
        }
    }
}

/// What a probe came to, where there was one.
pub open spec fn opt_probed(probe: Option<&FileProbe>) -> Option<FileProbe> {
    match probe {
        Some(f) => Some(*f),
        None => None,
    }
}

struct OpenFileState {
    path: String,
    flags: u32,
}

impl OpenFileState {
    spec fn file(self) -> OpenFile {
        OpenFile { path: self.path@, flags: self.flags }
    }
}

spec fn files_by_slot(m: Map<u64, OpenFileState>) -> Map<(u32, i32), OpenFile> {
    Map::new(
        |k: (u32, i32)| m.contains_key(canonicalize::slot(k)),
        |k: (u32, i32)| m[canonicalize::slot(k)].file(),
    )
}

/// Collects the events of a traced command.
pub struct Collector {
    events: Vec<TracedEvent>,
    files: HashMap<u64, OpenFileState>,
    malformed: u64,
}

impl View for Collector {
    type V = Collected;

    closed spec fn view(&self) -> Collected {
        Collected {
            events: event_views(self.events@),
            files: files_by_slot(self.files@),
            malformed: self.malformed,
        }
    }
}

fn opt_probe(path: &Option<String>, probe: Option<&FileProbe>) -> (observation: Option<
    FileObservation,
>)
    ensures
        opt_observed(observation) == (match (text::opt_text(*path), probe) {
            (Some(p), Some(f)) => Some(file_identity::observed(p, *f)),
            _ => None,
        }),
{
    match (path, probe) {
        (Some(path), Some(probe)) => Some(observe_path(path.as_str(), probe)),
        _ => None,
    }
}

impl Collector {
    /// Before any event.
    pub fn new() -> (c: Collector)
        ensures
            c@ == Collected::start(),
    {
        let c = Collector { events: Vec::new(), files: HashMap::new(), malformed: 0 };
        assert(c@ =~= Collected::start());
        c
    }

    fn add(&mut self, event: TracedEvent)
        ensures
            final(self)@ == old(self)@.add(event@),
            final(self).files == old(self).files,
            final(self).malformed == old(self).malformed,
    {
        self.events.push(event);
        assert(event_views(self.events@) =~= event_views(old(self).events@).push(event@));
    }

    /// Takes note of a record: one that holds no event counts as lost. Says whether
    /// it puts off the end of a trace, which only one that is too short does not.
    pub fn note(&mut self, decoded: &Result<Event, RecordError>) -> (saw_event: bool)
        ensures
            final(self)@ == old(self)@.noted(*decoded is Err),
            saw_event == !(*decoded matches Err(RecordError::Short)),
    {
        match decoded {
            Ok(_) => true,
            Err(error) => {
                self.malformed = self.malformed.saturating_add(1);
                match error {
                    RecordError::Short => false,
                    RecordError::UnknownKind(_) => true,
                }
            },
        }
    }

    /// Whether an open has to be observed and recorded: not one of another
    /// process outside the watched prefixes.
    pub fn wants_open(source: u8, path: &str, watch_prefixes: &[String]) -> (yes: bool)
        ensures
            yes == (source != 1 || canonicalize::watched(path@, text::texts(watch_prefixes@))),
    {
        source != 1 || is_watched_path(path, watch_prefixes)
    }

    /// Records an open of the file at `path`, given what probing it came to.
    pub fn record_open(
        &mut self,
        payload: &FileOpenEvent,
        source: u8,
        path: &str,
        probe: &FileProbe,
        watch_prefixes: &[String],
    )
        ensures
            final(self)@ == old(self)@.open(
                payload.tgid,
                payload.fd,
                payload.flags,
                source == 1,
                path@,
                file_identity::observed(path@, *probe),
                text::texts(watch_prefixes@),
            ),
    {
        let external = source == 1;
        if external && !is_watched_path(path, watch_prefixes) {
            return;
        }
        let observation = observe_path(path, probe);
        let state = OpenFileState { path: path.to_string(), flags: payload.flags };
        let ghost key = (payload.tgid, payload.fd);
        if payload.fd >= 0 {
            self.files.insert(slot_of(payload.tgid, payload.fd), state);
            proof {
                assert forall|k: (u32, i32)|
                    canonicalize::slot(k) == canonicalize::slot(key) implies k == key by {
                    canonicalize::lemma_slot_injective(k, key);
                }
                assert(files_by_slot(self.files@) =~= files_by_slot(old(self).files@).insert(
                    key,
                    state.file(),
                ));
            }
        }
        self.add(
            TracedEvent::FileOpen {
                pid: payload.tgid,
                path: path.to_string(),
                flags: payload.flags,
                fd: payload.fd,
                external,
                observation,
            },
        );
    }

    /// Takes note of a close: the file is no longer open. Says what has to be
    /// observed before the close is recorded.
    pub fn begin_close(&mut self, payload: &FileCloseEvent, source: u8) -> (closing: Closing)
        ensures
            closing@ == old(self)@.closing(payload.tgid, payload.fd, source == 1),
            final(self)@ == (Collected {
                files: old(self)@.files.remove((payload.tgid, payload.fd)),
                ..old(self)@
            }),
    {
        let ghost key = (payload.tgid, payload.fd);
        let state = self.files.remove(&slot_of(payload.tgid, payload.fd));
        proof {
            assert forall|k: (u32, i32)|
                canonicalize::slot(k) == canonicalize::slot(key) implies k == key by {
                canonicalize::lemma_slot_injective(k, key);
            }
            assert(files_by_slot(self.files@) =~= files_by_slot(old(self).files@).remove(key));
        }
        match state {
            Some(state) => Closing::Closed {
                path: Some(state.path),
                observe: state.flags & 3 != 0,
            },
            None => {
                if source == 1 {
                    Closing::Ignored
                } else {
                    Closing::Closed { path: None, observe: false }
                }
            },
        }
    }

    /// Records a close, with what probing the file came to where it had to be
    /// observed.
    pub fn record_close(
        &mut self,
        payload: &FileCloseEvent,
        source: u8,
        path: Option<String>,
        probe: Option<&FileProbe>,
    )
        ensures
            final(self)@ == old(self)@.add(
                (Traced::FileClose {
                    pid: payload.tgid,
                    fd: payload.fd,
                    path: text::opt_text(path),
                    external: source == 1,
                    observation: match (text::opt_text(path), probe) {
                        (Some(p), Some(f)) => Some(file_identity::observed(p, *f)),
                        _ => None,
                    },
                }),
            ),
    {
        let observation = opt_probe(&path, probe);
        self.add(
            TracedEvent::FileClose {
                pid: payload.tgid,
                fd: payload.fd,
                path,
                external: source == 1,
                observation,
            },
        );
    }

    /// Says what has to be observed before a mapping is recorded.
    pub fn begin_mmap(&self, payload: &FileMmapEvent, source: u8) -> (mapping: Mapping)
        ensures
            mapping@ == self@.mapping(payload.tgid, payload.fd, source == 1),
    {
        match self.files.get(&slot_of(payload.tgid, payload.fd)) {
            Some(state) => Mapping::Mapped { path: Some(state.path.clone()) },
            None => {
                if source == 1 {
                    Mapping::Ignored
                } else {
                    Mapping::Mapped { path: None }
                }
            },
        }
    }

    /// Records a mapping, with what probing the file came to where it is known.
    pub fn record_mmap(&mut self, payload: &FileMmapEvent, source: u8, probe: Option<&FileProbe>)
        ensures
            final(self)@ == old(self)@.mmap(
                payload.tgid,
                payload.fd,
                payload.prot,
                payload.flags,
                source == 1,
                opt_probed(probe),
            ),
    {
        match self.begin_mmap(payload, source) {
            Mapping::Ignored => {},
            Mapping::Mapped { path } => {
                let observation = opt_probe(&path, probe);
                self.add(
                    TracedEvent::FileMmap {
                        pid: payload.tgid,
                        fd: payload.fd,
                        prot: payload.prot,
                        flags: payload.flags,
                        path,
                        external: source == 1,
                        observation,
                    },
                );
            },
        }
    }

    /// Records an execution of the file at `path`, given what probing it came to.
    pub fn record_exec(&mut self, payload: &ProcessExecEvent, path: &str, probe: &FileProbe)
        ensures
            final(self)@ == old(self)@.add(
                (Traced::Exec {
                    pid: payload.tgid,
                    observation: file_identity::observed(path@, *probe),
                }),
            ),
    {
        let observation = observe_path(path, probe);
        self.add(TracedEvent::Exec { pid: payload.tgid, observation });
    }

    /// Records an exit.
    pub fn record_exit(&mut self, payload: &ProcessExitEvent)
        ensures
            final(self)@ == old(self)@.add(
                (Traced::Exit { pid: payload.tgid, exit_code: payload.exit_code }),
            ),
    {
        self.add(TracedEvent::Exit { pid: payload.tgid, exit_code: payload.exit_code });
    }
}

// ---------------------------------------------------------------------------
// The end of a trace
// ---------------------------------------------------------------------------

/// How long, in milliseconds, no event may arrive before a trace is over.
pub const QUIESCENCE_MS: u64 = 100;

/// How long, in milliseconds, to wait for events at a time.
pub const POLL_INTERVAL_MS: u64 = 10;

/// The time after the exit of the root, in which events of other processes may
/// still arrive.
pub struct Aftermath {
    deadline_ms: u64,
}

impl Aftermath {
    /// When the trace is over unless another event arrives.
    pub closed spec fn deadline(&self) -> u64 {
        self.deadline_ms
    }

    /// Begins at the exit of the root.
    pub fn begin(now_ms: u64) -> (aftermath: Aftermath)
        requires
            now_ms <= u64::MAX - QUIESCENCE_MS,
        ensures
            aftermath.deadline() == now_ms + QUIESCENCE_MS,
    {
        Aftermath { deadline_ms: now_ms + QUIESCENCE_MS }
    }

    /// After the waiting records were read: whether the trace is over. An event
    /// among them puts the end off; a record too short to hold one does not.
    pub fn is_over(&mut self, saw_event: bool, now_ms: u64) -> (over: bool)
        requires
            now_ms <= u64::MAX - QUIESCENCE_MS,
        ensures
            final(self).deadline() == (if saw_event {
                (now_ms + QUIESCENCE_MS) as u64
            } else {
                old(self).deadline()
            }),
            over == (now_ms >= final(self).deadline()),
    {
        if saw_event {
            self.deadline_ms = now_ms + QUIESCENCE_MS;
        }
        now_ms >= self.deadline_ms
    }
}

/// Result of tracing a command.
pub struct TraceResult {
    pub events: Vec<TracedEvent>,
    /// PID of the root traced process.
    pub root_pid: u32,
    /// Number of events dropped due to ring buffer overflow (0 = lossless).
    pub dropped_events: u64,
}

/// Whether an event is an exit of a process.
pub open spec fn is_exit_of(event: Traced, pid: u32) -> bool {
    event matches Traced::Exit { pid: p, .. } && p == pid
}

/// Whether an event is an execution of a process.
pub open spec fn is_exec_of(event: Traced, pid: u32) -> bool {
    event matches Traced::Exec { pid: p, .. } && p == pid
}

/// The position of the last exit of a process, or -1.
pub open spec fn last_exit(events: Seq<Traced>, pid: u32) -> int
    decreases events.len(),
{
    if events.len() == 0 {
        -1
    } else if is_exit_of(events.last(), pid) {
        events.len() - 1
    } else {
        last_exit(events.drop_last(), pid)
    }
}

/// The events with the real exit code of a process at its last exit, or at an
/// exit of its own where none was reported.
pub open spec fn with_exit_code(events: Seq<Traced>, pid: u32, exit_code: i32) -> Seq<Traced> {
    let at = last_exit(events, pid);
    let event = Traced::Exit { pid, exit_code };
    if at >= 0 {
        events.update(at, event)
    } else {
        events.push(event)
    }
}

/// The events with one execution of the root, at their beginning.
pub open spec fn with_root_exec(events: Seq<Traced>, root: u32, observation: Observed) -> Seq<Traced> {
    seq![Traced::Exec { pid: root, observation }] + events.filter(
        |e: Traced| !is_exec_of(e, root),
    )
}

proof fn lemma_last_exit(events: Seq<Traced>, pid: u32, at: int)
    requires
        -1 <= at < events.len(),
        at >= 0 ==> is_exit_of(events[at], pid),
        forall|k: int| at < k < events.len() ==> !is_exit_of(#[trigger] events[k], pid),
    ensures
        last_exit(events, pid) == at,
    decreases events.len(),
{
    if events.len() > 0 && at < events.len() - 1 {
        assert(!is_exit_of(events[events.len() - 1], pid));
        lemma_last_exit(events.drop_last(), pid, at);
    }
}

/// Puts the real exit code of a process at its last exit. The probes cannot
/// read exit codes, so the one that waiting for the process gave is used.
pub fn patch_exit(events: &mut Vec<TracedEvent>, pid: u32, exit_code: i32)
    ensures
        event_views(final(events)@) == with_exit_code(
            event_views(old(events)@),
            pid,
            exit_code,
        ),
{
    let ghost views = event_views(events@);
    let event = TracedEvent::Exit { pid, exit_code };
    let mut i: usize = events.len();
    while i > 0
        invariant
            i <= events@.len(),
            *events == *old(events),
            views == event_views(events@),
            event@ == (Traced::Exit { pid, exit_code }),
            forall|k: int| i <= k < views.len() ==> !is_exit_of(#[trigger] views[k], pid),
        decreases i,
    {
        i = i - 1;
        let found = match &events[i] {
            TracedEvent::Exit { pid: p, .. } => *p == pid,
            _ => false,
        };
        assert(found == is_exit_of(views[i as int], pid));
        if found {
            proof {
                lemma_last_exit(views, pid, i as int);
            }
            events.set(i, event);
            assert(event_views(events@) =~= views.update(i as int, event@));
            return;
        }
    }
    proof {
        lemma_last_exit(views, pid, -1);
    }
    events.push(event);
    assert(event_views(events@) =~= views.push(event@));
}

/// Lets the trace begin with one execution of the root, and drops what the
/// probes saw of it.
pub fn author_root_exec(events: Vec<TracedEvent>, root_pid: u32, observation: FileObservation) -> (result:
    Vec<TracedEvent>)
    ensures
        event_views(result@) == with_root_exec(event_views(events@), root_pid, observation@),
{
    let ghost views = event_views(events@);
    let ghost keep = |e: Traced| !is_exec_of(e, root_pid);
    let ghost first = Traced::Exec { pid: root_pid, observation: observation@ };
    let mut result: Vec<TracedEvent> = Vec::new();
    result.push(TracedEvent::Exec { pid: root_pid, observation });
    proof {
        reveal(Seq::filter);
        assert(views.take(0) =~= Seq::empty());
        assert(event_views(result@) =~= seq![first] + views.take(0).filter(keep));
    }
    for i in 0..events.len()
        invariant
            views == event_views(events@),
            keep == |e: Traced| !is_exec_of(e, root_pid),
            event_views(result@) == seq![first] + views.take(i as int).filter(keep),
    {
        proof {
            assert(views.take(i as int + 1).drop_last() =~= views.take(i as int));
            reveal(Seq::filter);
        }
        let dropped = match &events[i] {
            TracedEvent::Exec { pid, .. } => *pid == root_pid,
            _ => false,
        };
        assert(dropped == is_exec_of(views[i as int], root_pid));
        let ghost before = result@;
        if !dropped {
            result.push(events[i].duplicate());
            assert(event_views(result@) =~= event_views(before).push(views[i as int]));
        }
        assert(event_views(result@) =~= seq![first] + views.take(i as int + 1).filter(keep));
    }
    assert(views.take(views.len() as int) =~= views);
    result
}

/// The exit code of a process that a signal ended.
pub fn signal_exit_code(signal: i32) -> (code: i32)
    requires
        signal <= i32::MAX - 128,
    ensures
        code == 128 + signal,
{
    128 + signal
}

impl Collector {
    /// Ends a trace: the root has one execution, at the beginning, and its real
    /// exit code; records that could not be understood count as dropped.
    pub fn finish(
        self,
        root_pid: u32,
        root_observation: FileObservation,
        exit_code: i32,
        drop_count: u64,
    ) -> (result: TraceResult)
        ensures
            event_views(result.events@) == with_root_exec(
                with_exit_code(self@.events, root_pid, exit_code),
                root_pid,
                root_observation@,
            ),
            result.root_pid == root_pid,
            result.dropped_events == if drop_count + self@.malformed <= u64::MAX {
                (drop_count + self@.malformed) as u64
            } else {
                u64::MAX
            },
    {
        let dropped_events = drop_count.saturating_add(self.malformed);
        let mut events = self.events;
        patch_exit(&mut events, root_pid, exit_code);
        let events = author_root_exec(events, root_pid, root_observation);
        TraceResult { events, root_pid, dropped_events }
    }
}

// ---------------------------------------------------------------------------
// Traced events as process events
// ---------------------------------------------------------------------------

/// The one instance that a process id is taken for.
pub open spec fn sole_instance(pid: u32) -> ProcessInstance {
    ProcessInstance { lifetime: ProcessLifetime { pid }, exec_epoch: 0 }
}

/// A traced event as a process event, with one instance for each process id.
pub open spec fn by_instance(event: Traced) -> Happened {
    match event {
        Traced::Exec { pid, observation } => Happened::Exec {
            process: sole_instance(pid),
            observation,
        },
        Traced::FileOpen { pid, path, flags, fd, external, observation } => Happened::FileOpen {
            process: sole_instance(pid),
            path,
            flags,
            fd,
            external,
            observation,
        },
        Traced::FileClose { pid, fd, path, external, observation } => Happened::FileClose {
            process: sole_instance(pid),
            fd,
            path,
            external,
            observation,
        },
        Traced::FileMmap { pid, fd, prot, flags, path, external, observation } => {
            Happened::FileMmap {
                process: sole_instance(pid),
                fd,
                prot,
                flags,
                path,
                external,
                observation,
            }
        },
        Traced::Exit { pid, exit_code } => Happened::Exit { process: sole_instance(pid), exit_code },
    }
}

fn to_process_event(event: &TracedEvent) -> (result: ProcessEvent)
    ensures
        result@ == by_instance(event@),
{
    match event {
        TracedEvent::Exec { pid, observation } => ProcessEvent::Exec {
            process: ProcessInstance::new(*pid, 0),
            observation: observation.duplicate(),
        },
        TracedEvent::FileOpen { pid, path, flags, fd, external, observation } => {
            ProcessEvent::FileOpen {
                process: ProcessInstance::new(*pid, 0),
                path: path.clone(),
                flags: *flags,
                fd: *fd,
                external: *external,
                observation: observation.duplicate(),
            }
        },
        TracedEvent::FileClose { pid, fd, path, external, observation } => {
            ProcessEvent::FileClose {
                process: ProcessInstance::new(*pid, 0),
                fd: *fd,
                path: path.clone(),
                external: *external,
                observation: copy_observation(observation),
            }
        },
        TracedEvent::FileMmap { pid, fd, prot, flags, path, external, observation } => {
            ProcessEvent::FileMmap {
                process: ProcessInstance::new(*pid, 0),
                fd: *fd,
                prot: *prot,
                flags: *flags,
                path: path.clone(),
                external: *external,
                observation: copy_observation(observation),
            }
        },
        TracedEvent::Exit { pid, exit_code } => ProcessEvent::Exit {
            process: ProcessInstance::new(*pid, 0),
            exit_code: *exit_code,
        },
    }
}

/// Traced events as process events, with one instance for each process id.
pub fn process_events(events: &Vec<TracedEvent>) -> (result: Vec<ProcessEvent>)
    ensures
        happenings(result@) == event_views(events@).map_values(|e: Traced| by_instance(e)),
        result@.len() == events@.len(),
{
    let mut result: Vec<ProcessEvent> = Vec::new();
    for i in 0..events.len()
        invariant
            result@.len() == i,
            forall|k: int| 0 <= k < i ==> (#[trigger] result@[k])@ == by_instance(events@[k]@),
    {
        result.push(to_process_event(&events[i]));
    }
    assert(happenings(result@) =~= event_views(events@).map_values(|e: Traced| by_instance(e)));
    result
}

// ---------------------------------------------------------------------------
// Laws
// ---------------------------------------------------------------------------

/// A trace has one execution of its root: the first event.
pub proof fn law_one_root_execution(events: Seq<Traced>, root: u32, observation: Observed, i: int)
    requires
        0 <= i < with_root_exec(events, root, observation).len(),
    ensures
        is_exec_of(with_root_exec(events, root, observation)[i], root) == (i == 0),
        with_root_exec(events, root, observation)[0] == (Traced::Exec { pid: root, observation }),
{
    let keep = |e: Traced| !is_exec_of(e, root);
    let rest = events.filter(keep);
    if i > 0 {
        events.lemma_filter_pred(keep, i - 1);
        assert(with_root_exec(events, root, observation)[i] == rest[i - 1]);
    }
}

proof fn lemma_last_exit_found(events: Seq<Traced>, pid: u32)
    ensures
        -1 <= last_exit(events, pid) < events.len(),
        last_exit(events, pid) >= 0 ==> is_exit_of(events[last_exit(events, pid)], pid),
        forall|k: int|
            last_exit(events, pid) < k < events.len() ==> !is_exit_of(#[trigger] events[k], pid),
    decreases events.len(),
{
    if events.len() > 0 && !is_exit_of(events.last(), pid) {
        lemma_last_exit_found(events.drop_last(), pid);
        assert forall|k: int| last_exit(events, pid) < k < events.len() implies !is_exit_of(
            #[trigger] events[k],
            pid,
        ) by {
            if k < events.len() - 1 {
                assert(events.drop_last()[k] == events[k]);
            }
        }
    }
}

/// The last exit of the process carries the exit code that waiting for it gave.
pub proof fn law_exit_code_is_authoritative(events: Seq<Traced>, pid: u32, exit_code: i32)
    ensures
        ({
            let patched = with_exit_code(events, pid, exit_code);
            let at = last_exit(patched, pid);
            &&& 0 <= at < patched.len()
            &&& patched[at] == (Traced::Exit { pid, exit_code })
        }),
{
    lemma_last_exit_found(events, pid);
    let at = last_exit(events, pid);
    let patched = with_exit_code(events, pid, exit_code);
    if at >= 0 {
        lemma_last_exit(patched, pid, at);
    } else {
        lemma_last_exit(patched, pid, events.len() as int);
    }
}

/// A mapping of a file that was opened shows what the file held when the mapping
/// arrived, whatever was observed at the open.
pub proof fn law_mappings_show_the_mapped_content(
    c: Collected,
    pid: u32,
    fd: i32,
    open_flags: u32,
    path: Seq<char>,
    opened: Observed,
    prot: u32,
    flags: u32,
    probe: FileProbe,
    prefixes: Seq<Seq<char>>,
)
    requires
        fd >= 0,
    ensures
        c.open(pid, fd, open_flags, false, path, opened, prefixes).mmap(
            pid,
            fd,
            prot,
            flags,
            false,
            Some(probe),
        ).events.last() == (Traced::FileMmap {
            pid,
            fd,
            prot,
            flags,
            path: Some(path),
            external: false,
            observation: Some(file_identity::observed(path, probe)),
        }),
{
}

/// Patching the exit code of a process changes nothing but its last exit: an event
/// behind that exit stays behind it, and where there is no exit of the process one
/// is added at the end.
pub proof fn law_only_the_last_exit_is_patched(
    events: Seq<Traced>,
    other: Traced,
    pid: u32,
    reported: i32,
    exit_code: i32,
)
    requires
        !(other matches Traced::Exit { pid: p, .. } && p == pid),
    ensures
        with_exit_code(Seq::empty(), pid, exit_code) == seq![Traced::Exit { pid, exit_code }],
        with_exit_code(events.push(Traced::Exit { pid, exit_code: reported }), pid, exit_code)
            == events.push(Traced::Exit { pid, exit_code }),
        (exists|k: int|
            0 <= k < events.len() && (#[trigger] events[k] matches Traced::Exit { pid: p, .. } && p
                == pid)) ==> with_exit_code(events.push(other), pid, exit_code) == with_exit_code(
            events,
            pid,
            exit_code,
        ).push(other),
        (forall|k: int|
            0 <= k < events.len() ==> !(#[trigger] events[k] matches Traced::Exit { pid: p, .. }
                && p == pid)) ==> with_exit_code(events, pid, exit_code) == events.push(
            Traced::Exit { pid, exit_code },
        ),
{
    lemma_last_exit_found(events, pid);
    let patched = Traced::Exit { pid, exit_code };
    let a = events.push(Traced::Exit { pid, exit_code: reported });
    lemma_last_exit(a, pid, events.len() as int);
    assert(a.update(events.len() as int, patched) =~= events.push(patched));
    assert(with_exit_code(Seq::empty(), pid, exit_code) =~= seq![patched]);
    let at = last_exit(events, pid);
    if exists|k: int|
        0 <= k < events.len() && (#[trigger] events[k] matches Traced::Exit { pid: p, .. } && p
            == pid) {
        let k = choose|k: int|
            0 <= k < events.len() && (#[trigger] events[k] matches Traced::Exit { pid: p, .. } && p
                == pid);
        assert(is_exit_of(events[k], pid));
        assert(at >= 0);
        let b = events.push(other);
        assert forall|m: int| at < m < b.len() implies !is_exit_of(#[trigger] b[m], pid) by {
            if m < events.len() {
                assert(b[m] == events[m]);
            }
        }
        lemma_last_exit(b, pid, at);
        assert(b.update(at, patched) =~= events.update(at, patched).push(other));
    }
    if at >= 0 {
        assert(is_exit_of(events[at], pid));
    }
}

/// Letting a trace begin with one execution of its root drops the executions of
/// the root that were reported, and keeps every other event in its order.
pub proof fn law_only_root_executions_are_dropped(
    events: Seq<Traced>,
    event: Traced,
    root: u32,
    observation: Observed,
)
    ensures
        with_root_exec(Seq::empty(), root, observation) == seq![
            Traced::Exec { pid: root, observation },
        ],
        with_root_exec(events.push(event), root, observation) == (match event {
            Traced::Exec { pid, .. } => if pid == root {
                with_root_exec(events, root, observation)
            } else {
                with_root_exec(events, root, observation).push(event)
            },
            _ => with_root_exec(events, root, observation).push(event),
        }),
{
    reveal(Seq::filter);
    let keep = |e: Traced| !is_exec_of(e, root);
    let longer = events.push(event);
    assert(longer.drop_last() =~= events);
    let first = seq![Traced::Exec { pid: root, observation }];
    assert(Seq::<Traced>::empty().filter(keep) =~= Seq::empty());
    assert(first + Seq::<Traced>::empty() =~= first);
    if keep(event) {
        assert(first + events.filter(keep).push(event) =~= (first + events.filter(keep)).push(
            event,
        ));
    }
}

/// A traced event says the same as a process event: by the first instance of the
/// process, with every other part as it was.
pub proof fn law_instances_keep_the_events(event: Traced)
    ensures
        match by_instance(event) {
            Happened::Exec { process, observation } => event == (Traced::Exec {
                pid: process.lifetime.pid,
                observation,
            }) && process.exec_epoch == 0,
            Happened::FileOpen { process, path, flags, fd, external, observation } => event == (
            Traced::FileOpen {
                pid: process.lifetime.pid,
                path,
                flags,
                fd,
                external,
                observation,
            }) && process.exec_epoch == 0,
            Happened::FileClose { process, fd, path, external, observation } => event == (
            Traced::FileClose { pid: process.lifetime.pid, fd, path, external, observation })
                && process.exec_epoch == 0,
            Happened::FileMmap { process, fd, prot, flags, path, external, observation } => event
                == (Traced::FileMmap {
                pid: process.lifetime.pid,
                fd,
                prot,
                flags,
                path,
                external,
                observation,
            }) && process.exec_epoch == 0,
            Happened::Exit { process, exit_code } => event == (Traced::Exit {
                pid: process.lifetime.pid,
                exit_code,
            }) && process.exec_epoch == 0,
            _ => false,
        },
{
}

/// The mark of a deleted file is taken off, once, and nothing else is.
pub proof fn law_only_the_deleted_mark_is_stripped(path: Seq<char>)
    ensures
        without_deleted_mark(path + " (deleted)"@) == path,
        without_deleted_mark(path) == path || path == without_deleted_mark(path) + " (deleted)"@,
{
    let mark = " (deleted)"@;
    let marked = path + mark;
    assert(marked.subrange(marked.len() - mark.len(), marked.len() as int) =~= mark);
    assert(marked.take(path.len() as int) =~= path);
    if mark.is_suffix_of(path) {
        let n = path.len() - mark.len();
        assert(path =~= path.take(n) + path.subrange(n, path.len() as int));
    }
}

/// An absolute path stands for itself; a relative one is taken against its base,
/// with one separator between them, where there is a base.
pub proof fn law_relative_paths_need_a_base(raw: Seq<char>, base: Seq<char>)
    ensures
        raw.len() > 0 && raw[0] == '/' ==> taken_against(raw, Some(base)) == raw,
        taken_against(raw, None) == raw,
        (raw.len() == 0 || raw[0] != '/') && base.len() > 0 && base.last() != '/' ==> taken_against(
            raw,
            Some(base),
        ) == base + seq!['/'] + raw,
        (raw.len() == 0 || raw[0] != '/') && base.len() > 0 && base.last() == '/' ==> taken_against(
            raw,
            Some(base),
        ) == base + raw,
{
    assert(base.push('/') + raw =~= base + seq!['/'] + raw);
}

/// When a captured path and the target of a link are taken for the same file: they
/// are the same text, they have canonical paths that are the same, or the captured
/// path is relative and ends the target.
pub proof fn law_when_paths_agree(
    raw: Seq<char>,
    target: Seq<char>,
    canonical_raw: Option<Seq<char>>,
    canonical_target: Option<Seq<char>>,
)
    ensures
        raw == target ==> agree(raw, target, canonical_raw, canonical_target),
        canonical_raw is Some && canonical_raw == canonical_target ==> agree(
            raw,
            target,
            canonical_raw,
            canonical_target,
        ),
        raw.len() > 0 && raw[0] == '/' && raw != target && (canonical_raw is None
            || canonical_target is None) ==> !agree(raw, target, canonical_raw, canonical_target),
        raw.len() > 0 && raw[0] == '/' && raw != target && canonical_raw is Some
            && canonical_target is Some && paths::components(canonical_raw->0)
            != paths::components(canonical_target->0) ==> !agree(
            raw,
            target,
            canonical_raw,
            canonical_target,
        ),
        (raw.len() == 0 || raw[0] != '/') && paths::ends_with(target, raw) ==> agree(
            raw,
            target,
            canonical_raw,
            canonical_target,
        ),
{
}

} // verus!
