//! The records that the probes send to the tracer, and their layout.

use vstd::prelude::*;

verus! {

/// Maximum path length captured in events. Longer paths are truncated.
pub const MAX_PATH_LEN: usize = 256;

/// Maximum number of watched path prefixes.
pub const MAX_WATCH_PREFIXES: usize = 8;

/// Maximum length of a watched path prefix.
pub const MAX_PREFIX_LEN: usize = 128;

/// How many bytes an event record takes.
pub const RECORD_LEN: usize = 304;

// ---------------------------------------------------------------------------
// Events
// ---------------------------------------------------------------------------

/// Discriminant for event types sent over the ring buffer.
#[derive(Clone, Copy, Debug, PartialEq, Eq, Structural)]
pub enum EventKind {
    /// A file was opened (captures path + flags).
    FileOpen,
    /// A file descriptor was closed (triggers output hashing in userspace).
    FileClose,
    /// A process was exec'd (captures the binary path).
    ProcessExec,
    /// Process exited.
    ProcessExit,
    /// A file was memory-mapped (captures fd + prot + flags).
    FileMmap,
    /// Source path of a successful rename operation.
    FileRenameSource,
    /// Destination path of a successful rename operation.
    FileRenameDestination,
    /// A path was successfully unlinked.
    FileUnlink,
    /// A tracked process created a child process.
    ProcessFork,
}

impl EventKind {
    /// The number that stands for the kind in a record.
    pub open spec fn number(self) -> u32 {
        match self {
            EventKind::FileOpen => 1,
            EventKind::FileClose => 2,
            EventKind::ProcessExec => 3,
            EventKind::ProcessExit => 4,
            EventKind::FileMmap => 5,
            EventKind::FileRenameSource => 6,
            EventKind::FileRenameDestination => 7,
            EventKind::FileUnlink => 8,
            EventKind::ProcessFork => 9,
        }
    }

    /// The number that stands for the kind in a record.
    pub fn code(self) -> (code: u32)
        ensures
            code == self.number(),
    {
        match self {
            EventKind::FileOpen => 1,
            EventKind::FileClose => 2,
            EventKind::ProcessExec => 3,
            EventKind::ProcessExit => 4,
            EventKind::FileMmap => 5,
            EventKind::FileRenameSource => 6,
            EventKind::FileRenameDestination => 7,
            EventKind::FileUnlink => 8,
            EventKind::ProcessFork => 9,
        }
    }

    /// The kind that a number stands for, if it stands for one.
    pub fn try_from(value: u32) -> (kind: Result<EventKind, ()>)
        ensures
            match kind {
                Ok(k) => k.number() == value,
                Err(_) => value == 0 || value > 9,
            },
    {
        match value {
            1 => Ok(EventKind::FileOpen),
            2 => Ok(EventKind::FileClose),
            3 => Ok(EventKind::ProcessExec),
            4 => Ok(EventKind::ProcessExit),
            5 => Ok(EventKind::FileMmap),
            6 => Ok(EventKind::FileRenameSource),
            7 => Ok(EventKind::FileRenameDestination),
            8 => Ok(EventKind::FileUnlink),
            9 => Ok(EventKind::ProcessFork),
            _ => Err(()),
        }
    }
}

/// Event emitted when a file is opened via openat/open.
#[derive(Clone, Copy)]
pub struct FileOpenEvent {
    /// PID of the process.
    pub pid: u32,
    /// Thread group ID.
    pub tgid: u32,
    /// File descriptor returned (populated on exit probe).
    pub fd: i32,
    /// Directory fd for relative path resolution (AT_FDCWD = -100).
    pub dfd: i32,
    /// Open flags (O_RDONLY, O_WRONLY, O_RDWR, etc).
    pub flags: u32,
    /// Path of the file being opened.
    pub path: [u8; 256],
    /// Actual length of the path (before potential truncation).
    pub path_len: u32,
}

/// Event emitted when a file descriptor is closed.
#[derive(Clone, Copy)]
pub struct FileCloseEvent {
    /// PID of the process.
    pub pid: u32,
    /// Thread group ID.
    pub tgid: u32,
    /// File descriptor being closed.
    pub fd: i32,
}

/// Event emitted when a process calls execve.
#[derive(Clone, Copy)]
pub struct ProcessExecEvent {
    /// PID of the new process.
    pub pid: u32,
    /// Thread group ID.
    pub tgid: u32,
    /// Path of the executable.
    pub filename: [u8; 256],
    /// Actual length of filename.
    pub filename_len: u32,
}

/// Event emitted when a process exits.
#[derive(Clone, Copy)]
pub struct ProcessExitEvent {
    /// PID of the exiting process.
    pub pid: u32,
    /// Thread group ID.
    pub tgid: u32,
    /// Exit code.
    pub exit_code: i32,
}

/// Event emitted when a tracked process forks a child.
#[derive(Clone, Copy)]
pub struct ProcessForkEvent {
    pub parent_pid: u32,
    pub child_pid: u32,
}

/// Event emitted when a file is memory-mapped via mmap.
/// Only emitted for file-backed mappings (fd >= 0).
#[derive(Clone, Copy)]
pub struct FileMmapEvent {
    /// PID of the process.
    pub pid: u32,
    /// Thread group ID.
    pub tgid: u32,
    /// File descriptor being mapped.
    pub fd: i32,
    /// Protection flags (PROT_READ, PROT_WRITE, etc).
    pub prot: u32,
    /// Mapping flags (MAP_SHARED, MAP_PRIVATE, etc).
    pub flags: u32,
}

/// One pathname participating in a filesystem mutation. Rename operations
/// emit two events with the same operation ID; unlink emits one.
#[derive(Clone, Copy)]
pub struct FilePathEvent {
    /// PID of the process.
    pub pid: u32,
    /// Thread group ID.
    pub tgid: u32,
    /// Directory fd for relative path resolution (AT_FDCWD = -100).
    pub dfd: i32,
    /// Rename or unlink flags.
    pub flags: u32,
    /// Correlates the source and destination halves of a rename.
    pub operation_id: u64,
    /// Path supplied to the syscall.
    pub path: [u8; 256],
    /// Actual length of the path before truncation.
    pub path_len: u32,
}

/// A watched path prefix for system-wide file monitoring.
#[derive(Clone, Copy)]
pub struct WatchedPrefix {
    pub prefix: [u8; 128],
    pub len: u32,
}

/// What an event reports.
#[derive(Clone, Copy)]
pub enum EventPayload {
    FileOpen(FileOpenEvent),
    FileClose(FileCloseEvent),
    FileMmap(FileMmapEvent),
    FileRenameSource(FilePathEvent),
    FileRenameDestination(FilePathEvent),
    FileUnlink(FilePathEvent),
    ProcessExec(ProcessExecEvent),
    ProcessExit(ProcessExitEvent),
    ProcessFork(ProcessForkEvent),
}

/// An event sent over the ring buffer.
#[derive(Clone, Copy)]
pub struct Event {
    /// 0 = fork tree, 1 = watched path.
    pub source: u8,
    /// When it happened.
    pub timestamp_ns: u64,
    /// What happened.
    pub payload: EventPayload,
}

impl EventPayload {
    /// The kind of the event.
    pub open spec fn kind(self) -> EventKind {
        match self {
            EventPayload::FileOpen(_) => EventKind::FileOpen,
            EventPayload::FileClose(_) => EventKind::FileClose,
            EventPayload::FileMmap(_) => EventKind::FileMmap,
            EventPayload::FileRenameSource(_) => EventKind::FileRenameSource,
            EventPayload::FileRenameDestination(_) => EventKind::FileRenameDestination,
            EventPayload::FileUnlink(_) => EventKind::FileUnlink,
            EventPayload::ProcessExec(_) => EventKind::ProcessExec,
            EventPayload::ProcessExit(_) => EventKind::ProcessExit,
            EventPayload::ProcessFork(_) => EventKind::ProcessFork,
        }
    }
}

// ---------------------------------------------------------------------------
// Numbers and byte strings in a record
// ---------------------------------------------------------------------------

/// The little-endian number of four bytes.
pub open spec fn u32_at(s: Seq<u8>, at: int) -> int {
    s[at] + s[at + 1] * 0x100 + s[at + 2] * 0x1_0000 + s[at + 3] * 0x100_0000
}

/// The little-endian two's complement number of four bytes.
pub open spec fn i32_at(s: Seq<u8>, at: int) -> int {
    if u32_at(s, at) < 0x8000_0000 {
        u32_at(s, at)
    } else {
        u32_at(s, at) - 0x1_0000_0000
    }
}

/// The little-endian number of eight bytes.
pub open spec fn u64_at(s: Seq<u8>, at: int) -> int {
    u32_at(s, at) + u32_at(s, at + 4) * 0x1_0000_0000
}

/// The four bytes of a number, least significant first.
pub open spec fn u32_bytes(n: int) -> Seq<u8> {
    seq![
        (n % 0x100) as u8,
        (n / 0x100 % 0x100) as u8,
        (n / 0x1_0000 % 0x100) as u8,
        (n / 0x100_0000 % 0x100) as u8,
    ]
}

/// The four bytes of a signed number, in two's complement.
pub open spec fn i32_bytes(n: int) -> Seq<u8> {
    u32_bytes(
        if n < 0 {
            n + 0x1_0000_0000
        } else {
            n
        },
    )
}

/// The eight bytes of a number, least significant first.
pub open spec fn u64_bytes(n: int) -> Seq<u8> {
    u32_bytes(n % 0x1_0000_0000) + u32_bytes(n / 0x1_0000_0000)
}

fn read_u32(s: &[u8], at: usize) -> (n: u32)
    requires
        at + 4 <= s.len(),
    ensures
        n == u32_at(s@, at as int),
{
    s[at] as u32 + s[at + 1] as u32 * 0x100u32 + s[at + 2] as u32 * 0x1_0000u32 + s[at + 3] as u32
        * 0x100_0000u32
}

fn read_i32(s: &[u8], at: usize) -> (n: i32)
    requires
        at + 4 <= s.len(),
    ensures
        n == i32_at(s@, at as int),
{
    let n = read_u32(s, at);
    if n < 0x8000_0000u32 {
        n as i32
    } else {
        (n as i64 - 0x1_0000_0000i64) as i32
    }
}

fn read_u64(s: &[u8], at: usize) -> (n: u64)
    requires
        at + 8 <= s.len(),
    ensures
        n == u64_at(s@, at as int),
{
    read_u32(s, at) as u64 + read_u32(s, at + 4) as u64 * 0x1_0000_0000u64
}

fn read_path(s: &[u8], at: usize) -> (path: [u8; 256])
    requires
        at + 256 <= s.len(),
    ensures
        path@ == s@.subrange(at as int, at + 256),
{
    let mut path: [u8; 256] = [0u8; 256];
    for i in 0..256usize
        invariant
            at + 256 <= s.len(),
            forall|k: int| 0 <= k < i ==> #[trigger] path@[k] == s@[at + k],
    {
        path[i] = s[at + i];
    }
    assert(path@ =~= s@.subrange(at as int, at + 256));
    path
}

fn push_u32(buf: &mut Vec<u8>, n: u32)
    ensures
        final(buf)@ == old(buf)@ + u32_bytes(n as int),
{
    buf.push((n % 0x100u32) as u8);
    buf.push((n / 0x100u32 % 0x100u32) as u8);
    buf.push((n / 0x1_0000u32 % 0x100u32) as u8);
    buf.push((n / 0x100_0000u32 % 0x100u32) as u8);
    assert(buf@ =~= old(buf)@ + u32_bytes(n as int));
}

fn push_i32(buf: &mut Vec<u8>, n: i32)
    ensures
        final(buf)@ == old(buf)@ + i32_bytes(n as int),
{
    if n < 0 {
        push_u32(buf, (n as i64 + 0x1_0000_0000i64) as u32);
    } else {
        push_u32(buf, n as u32);
    }
}

fn push_u64(buf: &mut Vec<u8>, n: u64)
    ensures
        final(buf)@ == old(buf)@ + u64_bytes(n as int),
{
    push_u32(buf, (n % 0x1_0000_0000u64) as u32);
    push_u32(buf, (n / 0x1_0000_0000u64) as u32);
    assert(buf@ =~= old(buf)@ + u64_bytes(n as int));
}

proof fn lemma_u32_round_trip(n: int)
    requires
        0 <= n < 0x1_0000_0000,
    ensures
        u32_at(u32_bytes(n), 0) == n,
{
    let a = n % 0x100;
    let b = n / 0x100 % 0x100;
    let c = n / 0x1_0000 % 0x100;
    let d = n / 0x100_0000 % 0x100;
    assert(n == a + b * 0x100 + c * 0x1_0000 + d * 0x100_0000);
}

// ---------------------------------------------------------------------------
// Records
// ---------------------------------------------------------------------------

/// The bytes of a payload, without what follows it up to the record's end.
pub open spec fn payload_bytes(payload: EventPayload) -> Seq<u8> {
    match payload {
        EventPayload::FileOpen(p) => u32_bytes(p.pid as int) + u32_bytes(p.tgid as int) + i32_bytes(
            p.fd as int,
        ) + i32_bytes(p.dfd as int) + u32_bytes(p.flags as int) + p.path@ + u32_bytes(
            p.path_len as int,
        ),
        EventPayload::FileClose(p) => u32_bytes(p.pid as int) + u32_bytes(p.tgid as int)
            + i32_bytes(p.fd as int),
        EventPayload::FileMmap(p) => u32_bytes(p.pid as int) + u32_bytes(p.tgid as int) + i32_bytes(
            p.fd as int,
        ) + u32_bytes(p.prot as int) + u32_bytes(p.flags as int),
        EventPayload::FileRenameSource(p) => path_payload_bytes(p),
        EventPayload::FileRenameDestination(p) => path_payload_bytes(p),
        EventPayload::FileUnlink(p) => path_payload_bytes(p),
        EventPayload::ProcessExec(p) => u32_bytes(p.pid as int) + u32_bytes(p.tgid as int)
            + p.filename@ + u32_bytes(p.filename_len as int),
        EventPayload::ProcessExit(p) => u32_bytes(p.pid as int) + u32_bytes(p.tgid as int)
            + i32_bytes(p.exit_code as int),
        EventPayload::ProcessFork(p) => u32_bytes(p.parent_pid as int) + u32_bytes(
            p.child_pid as int,
        ),
    }
}

/// The bytes of a path payload.
pub open spec fn path_payload_bytes(p: FilePathEvent) -> Seq<u8> {
    u32_bytes(p.pid as int) + u32_bytes(p.tgid as int) + i32_bytes(p.dfd as int) + u32_bytes(
        p.flags as int,
    ) + u64_bytes(p.operation_id as int) + p.path@ + u32_bytes(p.path_len as int)
}

/// So many zero bytes.
pub open spec fn zeros(n: nat) -> Seq<u8> {
    Seq::new(n, |i: int| 0u8)
}

/// The bytes of an event before its payload.
pub open spec fn header_bytes(event: Event) -> Seq<u8> {
    u32_bytes(event.payload.kind().number() as int).push(event.source) + zeros(3) + u64_bytes(
        event.timestamp_ns as int,
    )
}

/// The record of an event: kind, source, time and payload, filled up with zeros.
pub open spec fn record_bytes(event: Event) -> Seq<u8> {
    let head = header_bytes(event) + payload_bytes(event.payload);
    head + zeros((RECORD_LEN - head.len()) as nat)
}

/// Whether an event is the one that a record holds.
pub open spec fn describes(event: Event, s: Seq<u8>) -> bool {
    &&& event.payload.kind().number() == u32_at(s, 0)
    &&& event.source == s[4]
    &&& event.timestamp_ns == u64_at(s, 8)
    &&& match event.payload {
        EventPayload::FileOpen(p) => {
            &&& p.pid == u32_at(s, 16)
            &&& p.tgid == u32_at(s, 20)
            &&& p.fd == i32_at(s, 24)
            &&& p.dfd == i32_at(s, 28)
            &&& p.flags == u32_at(s, 32)
            &&& p.path@ == s.subrange(36, 292)
            &&& p.path_len == u32_at(s, 292)
        },
        EventPayload::FileClose(p) => {
            &&& p.pid == u32_at(s, 16)
            &&& p.tgid == u32_at(s, 20)
            &&& p.fd == i32_at(s, 24)
        },
        EventPayload::FileMmap(p) => {
            &&& p.pid == u32_at(s, 16)
            &&& p.tgid == u32_at(s, 20)
            &&& p.fd == i32_at(s, 24)
            &&& p.prot == u32_at(s, 28)
            &&& p.flags == u32_at(s, 32)
        },
        EventPayload::FileRenameSource(p) => describes_path(p, s),
        EventPayload::FileRenameDestination(p) => describes_path(p, s),
        EventPayload::FileUnlink(p) => describes_path(p, s),
        EventPayload::ProcessExec(p) => {
            &&& p.pid == u32_at(s, 16)
            &&& p.tgid == u32_at(s, 20)
            &&& p.filename@ == s.subrange(24, 280)
            &&& p.filename_len == u32_at(s, 280)
        },
        EventPayload::ProcessExit(p) => {
            &&& p.pid == u32_at(s, 16)
            &&& p.tgid == u32_at(s, 20)
            &&& p.exit_code == i32_at(s, 24)
        },
        EventPayload::ProcessFork(p) => {
            &&& p.parent_pid == u32_at(s, 16)
            &&& p.child_pid == u32_at(s, 20)
        },
    }
}

/// Whether a path payload is the one that a record holds.
pub open spec fn describes_path(p: FilePathEvent, s: Seq<u8>) -> bool {
    &&& p.pid == u32_at(s, 16)
    &&& p.tgid == u32_at(s, 20)
    &&& p.dfd == i32_at(s, 24)
    &&& p.flags == u32_at(s, 28)
    &&& p.operation_id == u64_at(s, 32)
    &&& p.path@ == s.subrange(40, 296)
    &&& p.path_len == u32_at(s, 296)
}

/// Why a record holds no event.
#[derive(Clone, Copy, Debug, PartialEq, Eq, Structural)]
pub enum RecordError {
    /// It is shorter than an event.
    Short,
    /// The number of its kind is not known.
    UnknownKind(u32),
}

fn decode_path(data: &[u8]) -> (p: FilePathEvent)
    requires
        data.len() >= RECORD_LEN,
    ensures
        describes_path(p, data@),
{
    FilePathEvent {
        pid: read_u32(data, 16),
        tgid: read_u32(data, 20),
        dfd: read_i32(data, 24),
        flags: read_u32(data, 28),
        operation_id: read_u64(data, 32),
        path: read_path(data, 40),
        path_len: read_u32(data, 296),
    }
}

/// Reads the event that a record holds.
pub fn decode_event(data: &[u8]) -> (result: Result<Event, RecordError>)
    ensures
        match result {
            Ok(event) => data@.len() >= RECORD_LEN && describes(event, data@),
            Err(RecordError::Short) => data@.len() < RECORD_LEN,
            Err(RecordError::UnknownKind(kind)) => data@.len() >= RECORD_LEN && kind == u32_at(
                data@,
                0,
            ) && (kind == 0 || kind > 9),
        },
{
    if data.len() < RECORD_LEN {
        return Err(RecordError::Short);
    }
    let number = read_u32(data, 0);
    let kind = match EventKind::try_from(number) {
        Ok(kind) => kind,
        Err(_) => {
            return Err(RecordError::UnknownKind(number));
        },
    };
    let payload = match kind {
        EventKind::FileOpen => EventPayload::FileOpen(
            FileOpenEvent {
                pid: read_u32(data, 16),
                tgid: read_u32(data, 20),
                fd: read_i32(data, 24),
                dfd: read_i32(data, 28),
                flags: read_u32(data, 32),
                path: read_path(data, 36),
                path_len: read_u32(data, 292),
            },
        ),
        EventKind::FileClose => EventPayload::FileClose(
            FileCloseEvent {
                pid: read_u32(data, 16),
                tgid: read_u32(data, 20),
                fd: read_i32(data, 24),
            },
        ),
        EventKind::FileMmap => EventPayload::FileMmap(
            FileMmapEvent {
                pid: read_u32(data, 16),
                tgid: read_u32(data, 20),
                fd: read_i32(data, 24),
                prot: read_u32(data, 28),
                flags: read_u32(data, 32),
            },
        ),
        EventKind::FileRenameSource => EventPayload::FileRenameSource(decode_path(data)),
        EventKind::FileRenameDestination => EventPayload::FileRenameDestination(decode_path(data)),
        EventKind::FileUnlink => EventPayload::FileUnlink(decode_path(data)),
        EventKind::ProcessExec => EventPayload::ProcessExec(
            ProcessExecEvent {
                pid: read_u32(data, 16),
                tgid: read_u32(data, 20),
                filename: read_path(data, 24),
                filename_len: read_u32(data, 280),
            },
        ),
        EventKind::ProcessExit => EventPayload::ProcessExit(
            ProcessExitEvent {
                pid: read_u32(data, 16),
                tgid: read_u32(data, 20),
                exit_code: read_i32(data, 24),
            },
        ),
        EventKind::ProcessFork => EventPayload::ProcessFork(
            ProcessForkEvent { parent_pid: read_u32(data, 16), child_pid: read_u32(data, 20) },
        ),
    };
    Ok(Event { source: data[4], timestamp_ns: read_u64(data, 8), payload })
}

fn push_path(buf: &mut Vec<u8>, path: &[u8; 256])
    ensures
        final(buf)@ == old(buf)@ + path@,
{
    buf.extend_from_slice(path.as_slice());
    assert(buf@ =~= old(buf)@ + path@);
}

fn push_path_payload(buf: &mut Vec<u8>, p: &FilePathEvent)
    ensures
        final(buf)@ == old(buf)@ + path_payload_bytes(*p),
{
    push_u32(buf, p.pid);
    push_u32(buf, p.tgid);
    push_i32(buf, p.dfd);
    push_u32(buf, p.flags);
    push_u64(buf, p.operation_id);
    push_path(buf, &p.path);
    push_u32(buf, p.path_len);
    assert(buf@ =~= old(buf)@ + path_payload_bytes(*p));
}

fn push_payload(buf: &mut Vec<u8>, payload: &EventPayload)
    ensures
        final(buf)@ == old(buf)@ + payload_bytes(*payload),
{
    match payload {
        EventPayload::FileOpen(p) => {
            push_u32(buf, p.pid);
            push_u32(buf, p.tgid);
            push_i32(buf, p.fd);
            push_i32(buf, p.dfd);
            push_u32(buf, p.flags);
            push_path(buf, &p.path);
            push_u32(buf, p.path_len);
        },
        EventPayload::FileClose(p) => {
            push_u32(buf, p.pid);
            push_u32(buf, p.tgid);
            push_i32(buf, p.fd);
        },
        EventPayload::FileMmap(p) => {
            push_u32(buf, p.pid);
            push_u32(buf, p.tgid);
            push_i32(buf, p.fd);
            push_u32(buf, p.prot);
            push_u32(buf, p.flags);
        },
        EventPayload::FileRenameSource(p) => {
            push_path_payload(buf, p);
        },
        EventPayload::FileRenameDestination(p) => {
            push_path_payload(buf, p);
        },
        EventPayload::FileUnlink(p) => {
            push_path_payload(buf, p);
        },
        EventPayload::ProcessExec(p) => {
            push_u32(buf, p.pid);
            push_u32(buf, p.tgid);
            push_path(buf, &p.filename);
            push_u32(buf, p.filename_len);
        },
        EventPayload::ProcessExit(p) => {
            push_u32(buf, p.pid);
            push_u32(buf, p.tgid);
            push_i32(buf, p.exit_code);
        },
        EventPayload::ProcessFork(p) => {
            push_u32(buf, p.parent_pid);
            push_u32(buf, p.child_pid);
        },
    }
    assert(buf@ =~= old(buf)@ + payload_bytes(*payload));
}

fn kind_code(payload: &EventPayload) -> (code: u32)
    ensures
        code == payload.kind().number(),
{
    match payload {
        EventPayload::FileOpen(_) => 1,
        EventPayload::FileClose(_) => 2,
        EventPayload::ProcessExec(_) => 3,
        EventPayload::ProcessExit(_) => 4,
        EventPayload::FileMmap(_) => 5,
        EventPayload::FileRenameSource(_) => 6,
        EventPayload::FileRenameDestination(_) => 7,
        EventPayload::FileUnlink(_) => 8,
        EventPayload::ProcessFork(_) => 9,
    }
}

/// Writes the record of an event.
pub fn encode_event(event: &Event) -> (record: Vec<u8>)
    ensures
        record@ == record_bytes(*event),
        record@.len() == RECORD_LEN,
{
    let mut buf: Vec<u8> = Vec::new();
    push_u32(&mut buf, kind_code(&event.payload));
    buf.push(event.source);
    buf.push(0u8);
    buf.push(0u8);
    buf.push(0u8);
    push_u64(&mut buf, event.timestamp_ns);
    assert(buf@ =~= header_bytes(*event));
    push_payload(&mut buf, &event.payload);
    let ghost head = buf@;
    proof {
        lemma_payload_len(event.payload);
        assert(head.len() <= RECORD_LEN);
    }
    while buf.len() < RECORD_LEN
        invariant
            head.len() <= buf@.len() <= RECORD_LEN,
            buf@ == head + zeros((buf@.len() - head.len()) as nat),
        decreases RECORD_LEN - buf@.len(),
    {
        let ghost before = buf@;
        buf.push(0u8);
        assert(buf@ =~= head + zeros((buf@.len() - head.len()) as nat));
    }
    buf
}

proof fn lemma_payload_len(payload: EventPayload)
    ensures
        payload_bytes(payload).len() <= 288,
{
}

// ---------------------------------------------------------------------------
// Laws
// ---------------------------------------------------------------------------

proof fn lemma_u32_field(s: Seq<u8>, at: int, n: u32)
    requires
        0 <= at,
        at + 4 <= s.len(),
        s.subrange(at, at + 4) == u32_bytes(n as int),
    ensures
        u32_at(s, at) == n,
{
    lemma_u32_round_trip(n as int);
    let f = s.subrange(at, at + 4);
    assert(f[0] == s[at] && f[1] == s[at + 1] && f[2] == s[at + 2] && f[3] == s[at + 3]);
}

proof fn lemma_i32_field(s: Seq<u8>, at: int, n: i32)
    requires
        0 <= at,
        at + 4 <= s.len(),
        s.subrange(at, at + 4) == i32_bytes(n as int),
    ensures
        i32_at(s, at) == n,
{
    lemma_u32_field(s, at, (if n < 0 {
        n + 0x1_0000_0000
    } else {
        n as int
    }) as u32);
}

proof fn lemma_u64_field(s: Seq<u8>, at: int, n: u64)
    requires
        0 <= at,
        at + 8 <= s.len(),
        s.subrange(at, at + 8) == u64_bytes(n as int),
    ensures
        u64_at(s, at) == n,
{
    let f = s.subrange(at, at + 8);
    assert(s.subrange(at, at + 4) =~= f.subrange(0, 4));
    assert(s.subrange(at + 4, at + 8) =~= f.subrange(4, 8));
    assert(f.subrange(0, 4) =~= u32_bytes(n as int % 0x1_0000_0000));
    assert(f.subrange(4, 8) =~= u32_bytes(n as int / 0x1_0000_0000));
    lemma_u32_field(s, at, (n as int % 0x1_0000_0000) as u32);
    lemma_u32_field(s, at + 4, (n as int / 0x1_0000_0000) as u32);
}

/// The record of an event describes that event: what the probes write is what
/// the tracer reads.
#[verifier::rlimit(40)]
pub proof fn law_records_describe_their_events(event: Event)
    ensures
        describes(event, record_bytes(event)),
        record_bytes(event).len() == RECORD_LEN,
{
    let s = record_bytes(event);
    let h = header_bytes(event);
    let p = payload_bytes(event.payload);
    lemma_payload_len(event.payload);
    assert(h.len() == 16);
    assert(s.subrange(0, 4) =~= u32_bytes(event.payload.kind().number() as int));
    lemma_u32_field(s, 0, event.payload.kind().number());
    assert(s.subrange(8, 16) =~= u64_bytes(event.timestamp_ns as int));
    lemma_u64_field(s, 8, event.timestamp_ns);
    assert(s.subrange(16, 16 + p.len() as int) =~= p);
    lemma_payload_described(event.payload, s);
}

spec fn holds_payload(s: Seq<u8>, payload: EventPayload) -> bool {
    let p = payload_bytes(payload);
    16 + p.len() <= s.len() && s.subrange(16, 16 + p.len() as int) == p
}

proof fn lemma_payload_described(payload: EventPayload, s: Seq<u8>)
    requires
        s.len() == RECORD_LEN,
        holds_payload(s, payload),
    ensures
        forall|event: Event|
            event.payload == payload && event.source == s[4] && event.timestamp_ns == u64_at(s, 8)
                && payload.kind().number() == u32_at(s, 0) ==> #[trigger] describes(event, s),
{
    let p = payload_bytes(payload);
    match payload {
        EventPayload::FileOpen(e) => {
            lemma_u32_part(payload, s, 0, e.pid);
            lemma_u32_part(payload, s, 4, e.tgid);
            lemma_i32_part(payload, s, 8, e.fd);
            lemma_i32_part(payload, s, 12, e.dfd);
            lemma_u32_part(payload, s, 16, e.flags);
            assert(s.subrange(36, 292) =~= p.subrange(20, 276));
            assert(p.subrange(20, 276) =~= e.path@);
            lemma_u32_part(payload, s, 276, e.path_len);
        },
        EventPayload::FileClose(e) => {
            lemma_u32_part(payload, s, 0, e.pid);
            lemma_u32_part(payload, s, 4, e.tgid);
            lemma_i32_part(payload, s, 8, e.fd);
        },
        EventPayload::FileMmap(e) => {
            lemma_u32_part(payload, s, 0, e.pid);
            lemma_u32_part(payload, s, 4, e.tgid);
            lemma_i32_part(payload, s, 8, e.fd);
            lemma_u32_part(payload, s, 12, e.prot);
            lemma_u32_part(payload, s, 16, e.flags);
        },
        EventPayload::FileRenameSource(e) => {
            lemma_path_part(s, p, e);
        },
        EventPayload::FileRenameDestination(e) => {
            lemma_path_part(s, p, e);
        },
        EventPayload::FileUnlink(e) => {
            lemma_path_part(s, p, e);
        },
        EventPayload::ProcessExec(e) => {
            lemma_u32_part(payload, s, 0, e.pid);
            lemma_u32_part(payload, s, 4, e.tgid);
            assert(s.subrange(24, 280) =~= p.subrange(8, 264));
            assert(p.subrange(8, 264) =~= e.filename@);
            lemma_u32_part(payload, s, 264, e.filename_len);
        },
        EventPayload::ProcessExit(e) => {
            lemma_u32_part(payload, s, 0, e.pid);
            lemma_u32_part(payload, s, 4, e.tgid);
            lemma_i32_part(payload, s, 8, e.exit_code);
        },
        EventPayload::ProcessFork(e) => {
            lemma_u32_part(payload, s, 0, e.parent_pid);
            lemma_u32_part(payload, s, 4, e.child_pid);
        },
    }
}

proof fn lemma_u32_part(payload: EventPayload, s: Seq<u8>, at: int, n: u32)
    requires
        s.len() == RECORD_LEN,
        holds_payload(s, payload),
        0 <= at,
        at + 4 <= payload_bytes(payload).len() <= 288,
        payload_bytes(payload).subrange(at, at + 4) =~= u32_bytes(n as int),
    ensures
        u32_at(s, 16 + at) == n,
{
    assert(s.subrange(16 + at, 16 + at + 4) =~= payload_bytes(payload).subrange(at, at + 4));
    lemma_u32_field(s, 16 + at, n);
}

proof fn lemma_i32_part(payload: EventPayload, s: Seq<u8>, at: int, n: i32)
    requires
        s.len() == RECORD_LEN,
        holds_payload(s, payload),
        0 <= at,
        at + 4 <= payload_bytes(payload).len() <= 288,
        payload_bytes(payload).subrange(at, at + 4) =~= i32_bytes(n as int),
    ensures
        i32_at(s, 16 + at) == n,
{
    assert(s.subrange(16 + at, 16 + at + 4) =~= payload_bytes(payload).subrange(at, at + 4));
    lemma_i32_field(s, 16 + at, n);
}

proof fn lemma_seven_parts(
    a: Seq<u8>,
    b: Seq<u8>,
    c: Seq<u8>,
    d: Seq<u8>,
    e: Seq<u8>,
    f: Seq<u8>,
    g: Seq<u8>,
)
    requires
        a.len() == 4,
        b.len() == 4,
        c.len() == 4,
        d.len() == 4,
        e.len() == 8,
        f.len() == 256,
        g.len() == 4,
    ensures
        ({
            let p = a + b + c + d + e + f + g;
            &&& p.len() == 284
            &&& p.subrange(0, 4) == a
            &&& p.subrange(4, 8) == b
            &&& p.subrange(8, 12) == c
            &&& p.subrange(12, 16) == d
            &&& p.subrange(16, 24) == e
            &&& p.subrange(24, 280) == f
            &&& p.subrange(280, 284) == g
        }),
{
    let p = a + b + c + d + e + f + g;
    assert(p.subrange(0, 4) =~= a);
    assert(p.subrange(4, 8) =~= b);
    assert(p.subrange(8, 12) =~= c);
    assert(p.subrange(12, 16) =~= d);
    assert(p.subrange(16, 24) =~= e);
    assert(p.subrange(24, 280) =~= f);
    assert(p.subrange(280, 284) =~= g);
}

proof fn lemma_path_fields(p: Seq<u8>, e: FilePathEvent)
    requires
        p == path_payload_bytes(e),
    ensures
        p.len() == 284,
        p.subrange(0, 4) == u32_bytes(e.pid as int),
        p.subrange(4, 8) == u32_bytes(e.tgid as int),
        p.subrange(8, 12) == i32_bytes(e.dfd as int),
        p.subrange(12, 16) == u32_bytes(e.flags as int),
        p.subrange(16, 24) == u64_bytes(e.operation_id as int),
        p.subrange(24, 280) == e.path@,
        p.subrange(280, 284) == u32_bytes(e.path_len as int),
{
    lemma_seven_parts(
        u32_bytes(e.pid as int),
        u32_bytes(e.tgid as int),
        i32_bytes(e.dfd as int),
        u32_bytes(e.flags as int),
        u64_bytes(e.operation_id as int),
        e.path@,
        u32_bytes(e.path_len as int),
    );
}

proof fn lemma_path_part(s: Seq<u8>, p: Seq<u8>, e: FilePathEvent)
    requires
        s.len() == RECORD_LEN,
        p == path_payload_bytes(e),
        16 + p.len() <= s.len(),
        s.subrange(16, 16 + p.len() as int) == p,
    ensures
        describes_path(e, s),
{
    lemma_path_fields(p, e);
    assert(s.subrange(16, 20) =~= p.subrange(0, 4));
    assert(s.subrange(20, 24) =~= p.subrange(4, 8));
    assert(s.subrange(24, 28) =~= p.subrange(8, 12));
    assert(s.subrange(28, 32) =~= p.subrange(12, 16));
    assert(s.subrange(32, 40) =~= p.subrange(16, 24));
    assert(s.subrange(40, 296) =~= p.subrange(24, 280));
    assert(s.subrange(296, 300) =~= p.subrange(280, 284));
    lemma_u32_field(s, 16, e.pid);
    lemma_u32_field(s, 20, e.tgid);
    lemma_i32_field(s, 24, e.dfd);
    lemma_u32_field(s, 28, e.flags);
    lemma_u64_field(s, 32, e.operation_id);
    lemma_u32_field(s, 296, e.path_len);
}

/// A record describes no more than one event.
pub proof fn law_a_record_describes_one_event(a: Event, b: Event, s: Seq<u8>)
    requires
        describes(a, s),
        describes(b, s),
    ensures
        a.source == b.source,
        a.timestamp_ns == b.timestamp_ns,
        a.payload.kind() == b.payload.kind(),
        payload_bytes(a.payload) == payload_bytes(b.payload),
{
}

/// The number that four bytes of a record stand for, the least significant first.
pub open spec fn number_at(s: Seq<u8>, at: int) -> int {
    s[at] as int + 256 * (s[at + 1] as int + 256 * (s[at + 2] as int + 256 * (s[at + 3] as int)))
}

/// Whether a number, signed or not, has the four bytes of a record as its bits.
pub open spec fn has_bits(n: int, s: Seq<u8>, at: int) -> bool {
    n == number_at(s, at) || n == number_at(s, at) - 0x1_0000_0000
}

/// Every field of a record stands at its place: the kind first, then the source,
/// the time, and behind them what the kind calls for, ids first.
pub proof fn law_fields_stand_at_their_places(event: Event, s: Seq<u8>)
    requires
        describes(event, s),
    ensures
        event.source == s[4],
        event.timestamp_ns == number_at(s, 8) + 0x1_0000_0000 * number_at(s, 12),
        match event.payload {
            EventPayload::FileOpen(p) => {
                &&& number_at(s, 0) == 1
                &&& p.pid == number_at(s, 16)
                &&& p.tgid == number_at(s, 20)
                &&& has_bits(p.fd as int, s, 24)
                &&& has_bits(p.dfd as int, s, 28)
                &&& p.flags == number_at(s, 32)
                &&& p.path@ == s.subrange(36, 292)
                &&& p.path_len == number_at(s, 292)
            },
            EventPayload::FileClose(p) => {
                &&& number_at(s, 0) == 2
                &&& p.pid == number_at(s, 16)
                &&& p.tgid == number_at(s, 20)
                &&& has_bits(p.fd as int, s, 24)
            },
            EventPayload::ProcessExec(p) => {
                &&& number_at(s, 0) == 3
                &&& p.pid == number_at(s, 16)
                &&& p.tgid == number_at(s, 20)
                &&& p.filename@ == s.subrange(24, 280)
                &&& p.filename_len == number_at(s, 280)
            },
            EventPayload::ProcessExit(p) => {
                &&& number_at(s, 0) == 4
                &&& p.pid == number_at(s, 16)
                &&& p.tgid == number_at(s, 20)
                &&& has_bits(p.exit_code as int, s, 24)
            },
            EventPayload::FileMmap(p) => {
                &&& number_at(s, 0) == 5
                &&& p.pid == number_at(s, 16)
                &&& p.tgid == number_at(s, 20)
                &&& has_bits(p.fd as int, s, 24)
                &&& p.prot == number_at(s, 28)
                &&& p.flags == number_at(s, 32)
            },
            EventPayload::FileRenameSource(p) => number_at(s, 0) == 6 && path_stands_at_its_place(
                p,
                s,
            ),
            EventPayload::FileRenameDestination(p) => number_at(s, 0) == 7
                && path_stands_at_its_place(p, s),
            EventPayload::FileUnlink(p) => number_at(s, 0) == 8 && path_stands_at_its_place(p, s),
            EventPayload::ProcessFork(p) => {
                &&& number_at(s, 0) == 9
                &&& p.parent_pid == number_at(s, 16)
                &&& p.child_pid == number_at(s, 20)
            },
        },
{
}

/// Where the parts of a path that is renamed or removed stand.
pub open spec fn path_stands_at_its_place(p: FilePathEvent, s: Seq<u8>) -> bool {
    &&& p.pid == number_at(s, 16)
    &&& p.tgid == number_at(s, 20)
    &&& has_bits(p.dfd as int, s, 24)
    &&& p.flags == number_at(s, 28)
    &&& p.operation_id == number_at(s, 32) + 0x1_0000_0000 * number_at(s, 36)
    &&& p.path@ == s.subrange(40, 296)
    &&& p.path_len == number_at(s, 296)
}

} // verus!
