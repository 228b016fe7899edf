//! Event canonicalization.
//!
//! Turns traced events into system-independent canonical operations:
//! - file paths are replaced with content hashes,
//! - reads of system state (/proc, /sys, etc.) are normalized,
//! - process ids are replaced with logical process indices,
//! - only the set of distinct operations is kept.

use crate::digest;
use crate::file_identity;
use crate::file_identity::{
    is_path_within, is_system_state, FileObservation, Observed, SYSTEM_STATE_SENTINEL,
};
use crate::merkle;
use crate::operation;
use crate::operation::{finalize_ops, CanonicalOp, OpType, OpView};
use crate::text;
use crate::text::{concat, format_signed, one};
use crate::tracer;
use crate::tracer::{Traced, TracedEvent};
use std::collections::HashMap;
use std::collections::HashSet;
use vstd::prelude::*;
use vstd::string::*;

verus! {

broadcast use vstd::std_specs::hash::group_hash_axioms;

// ---------------------------------------------------------------------------
// The model
// ---------------------------------------------------------------------------

/// Whether a path lies within one of the watched prefixes.
pub open spec fn watched(path: Seq<char>, prefixes: Seq<Seq<char>>) -> bool {
    exists|i: int| 0 <= i < prefixes.len() && file_identity::within(path, #[trigger] prefixes[i])
}

/// Whether an open with these flags can read (`O_RDONLY` or `O_RDWR`).
pub open spec fn can_read(flags: u32) -> bool {
    flags & 3 != 1
}

/// Whether an open with these flags can write (`O_WRONLY` or `O_RDWR`).
pub open spec fn can_write(flags: u32) -> bool {
    flags & 3 != 0
}

/// Whether a mapping writes back to its file: it is writable and shared.
pub open spec fn writes_back(prot: u32, flags: u32) -> bool {
    prot & 2 != 0 && flags & 1 != 0
}

/// An operation with the given parts.
pub open spec fn op(
    op_type: OpType,
    process_index: u32,
    tool_hash: Option<Seq<char>>,
    args: Seq<Seq<char>>,
    input_hashes: Seq<Seq<char>>,
) -> OpView {
    OpView { op_type, process_index, tool_hash, args, input_hashes, output_hashes: Seq::empty() }
}

/// The operation with one more output.
pub open spec fn with_output(op: OpView, hash: Seq<char>) -> OpView {
    OpView { output_hashes: op.output_hashes.push(hash), ..op }
}

/// What has been derived from the events so far.
#[verifier::ext_equal]
pub struct Canon {
    /// The operations of the process tree.
    pub ops: Seq<OpView>,
    /// The operations of other processes.
    pub external_ops: Seq<OpView>,
    /// The logical index of each process.
    pub indices: Map<u32, u32>,
    /// The next free logical index.
    pub next: int,
    /// The write that is open on a process's file descriptor, by its position.
    pub pending: Map<(u32, i32), int>,
    /// The same, for writes of other processes.
    pub external_pending: Map<(u32, i32), int>,
    /// The processes that are treated as outside the tree.
    pub outsiders: Set<u32>,
    /// The identity of the executable each process runs.
    pub tools: Map<u32, Seq<char>>,
}

impl Canon {
    /// Before any event: only the root process is known.
    pub open spec fn start(root: u32) -> Canon {
        Canon {
            ops: Seq::empty(),
            external_ops: Seq::empty(),
            indices: Map::empty().insert(root, 0u32),
            next: 1,
            pending: Map::empty(),
            external_pending: Map::empty(),
            outsiders: Set::empty(),
            tools: Map::empty(),
        }
    }

    /// With a process given the next index, unless it has one.
    pub open spec fn introduce(self, pid: u32) -> Canon {
        if self.indices.contains_key(pid) {
            self
        } else {
            Canon {
                indices: self.indices.insert(pid, self.next as u32),
                next: self.next + 1,
                ..self
            }
        }
    }

    /// The executable a process runs, where it is known.
    pub open spec fn tool(self, pid: u32) -> Option<Seq<char>> {
        if self.tools.contains_key(pid) {
            Some(self.tools[pid])
        } else {
            None
        }
    }

    /// With an operation of the process tree added.
    pub open spec fn add_op(self, op: OpView) -> Canon {
        Canon { ops: self.ops.push(op), ..self }
    }

    /// With an operation of another process added.
    pub open spec fn add_external(self, op: OpView) -> Canon {
        Canon { external_ops: self.external_ops.push(op), ..self }
    }

    /// With a write added that is open on a file descriptor.
    pub open spec fn add_write(self, pid: u32, fd: i32) -> Canon {
        Canon {
            pending: self.pending.insert((pid, fd), self.ops.len() as int),
            ..self.add_op(
                op(
                    OpType::FileWrite,
                    self.indices[pid],
                    self.tool(pid),
                    Seq::empty(),
                    Seq::empty(),
                ),
            )
        }
    }

    /// With a write of another process added that is open on a file descriptor.
    pub open spec fn add_external_write(self, pid: u32, fd: i32) -> Canon {
        Canon {
            external_pending: self.external_pending.insert(
                (pid, fd),
                self.external_ops.len() as int,
            ),
            ..self.add_external(
                op(OpType::ExternalFileWrite, u32::MAX, None, Seq::empty(), Seq::empty()),
            )
        }
    }

    /// Whether a process that was not marked as outside the tree has to be
    /// taken for an outsider: it touches a watched path, and no execution of it
    /// was seen or it was an outsider before.
    pub open spec fn is_stray(
        self,
        pid: u32,
        path: Seq<char>,
        root: u32,
        prefixes: Seq<Seq<char>>,
    ) -> bool {
        pid != root && watched(path, prefixes) && (self.outsiders.contains(pid)
            || !self.tools.contains_key(pid))
    }

    /// With a process taken for an outsider.
    pub open spec fn add_outsider(self, pid: u32) -> Canon {
        Canon { outsiders: self.outsiders.insert(pid), ..self }
    }

    /// After a process executed a binary.
    pub open spec fn exec(self, pid: u32, identity: Seq<char>) -> Canon {
        let s = self.introduce(pid);
        Canon { tools: s.tools.insert(pid, identity), ..s }.add_op(
            op(OpType::Exec, s.indices[pid], Some(identity), Seq::empty(), Seq::empty()),
        )
    }

    /// After a read of system state.
    pub open spec fn system_state(self, pid: u32) -> Canon {
        self.add_op(
            op(
                OpType::SystemStateRead,
                self.indices[pid],
                self.tool(pid),
                Seq::empty(),
                seq![SYSTEM_STATE_SENTINEL@],
            ),
        )
    }

    /// After a file was opened.
    pub open spec fn open(
        self,
        pid: u32,
        path: Seq<char>,
        flags: u32,
        fd: i32,
        external: bool,
        identity: Seq<char>,
        root: u32,
        prefixes: Seq<Seq<char>>,
    ) -> Canon {
        if external && !watched(path, prefixes) {
            self
        } else if external || self.is_stray(pid, path, root, prefixes) {
            let s = self.add_outsider(pid);
            let r = if can_read(flags) {
                s.add_external(
                    op(OpType::ExternalFileRead, u32::MAX, None, Seq::empty(), seq![identity]),
                )
            } else {
                s
            };
            if can_write(flags) {
                r.add_external_write(pid, fd)
            } else {
                r
            }
        } else {
            let s = self.introduce(pid);
            if file_identity::shows_system_state(path) {
                s.system_state(pid)
            } else {
                let r = if can_read(flags) {
                    s.add_op(
                        op(
                            OpType::FileRead,
                            s.indices[pid],
                            s.tool(pid),
                            Seq::empty(),
                            seq![identity],
                        ),
                    )
                } else {
                    s
                };
                if can_write(flags) {
                    r.add_write(pid, fd)
                } else {
                    r
                }
            }
        }
    }

    /// After a file at a known path was mapped.
    pub open spec fn mmap(
        self,
        pid: u32,
        fd: i32,
        prot: u32,
        flags: u32,
        path: Seq<char>,
        external: bool,
        identity: Seq<char>,
        root: u32,
        prefixes: Seq<Seq<char>>,
    ) -> Canon {
        if external && !watched(path, prefixes) {
            self
        } else if external || self.is_stray(pid, path, root, prefixes) {
            let r = self.add_outsider(pid).add_external(
                op(
                    OpType::ExternalFileRead,
                    u32::MAX,
                    None,
                    seq!["mmap"@],
                    seq![identity],
                ),
            );
            if writes_back(prot, flags) && !r.external_pending.contains_key((pid, fd)) {
                r.add_external_write(pid, fd)
            } else {
                r
            }
        } else {
            let s = self.introduce(pid);
            if file_identity::shows_system_state(path) {
                s.system_state(pid)
            } else {
                let r = s.add_op(
                    op(
                        OpType::FileRead,
                        s.indices[pid],
                        s.tool(pid),
                        seq!["mmap"@],
                        seq![identity],
                    ),
                );
                if writes_back(prot, flags) && !r.pending.contains_key((pid, fd)) {
                    r.add_write(pid, fd)
                } else {
                    r
                }
            }
        }
    }

    /// After a file at a known path was closed: the write that was open on the
    /// descriptor learns what was written, where that could be observed.
    pub open spec fn close(
        self,
        pid: u32,
        fd: i32,
        path: Seq<char>,
        external: bool,
        observation: Option<Observed>,
        root: u32,
        prefixes: Seq<Seq<char>>,
    ) -> Canon {
        let outside = external || (pid != root && self.outsiders.contains(pid) && watched(
            path,
            prefixes,
        ));
        let key = (pid, fd);
        if outside {
            if self.external_pending.contains_key(key) {
                let at = self.external_pending[key];
                Canon {
                    external_pending: self.external_pending.remove(key),
                    external_ops: match observation {
                        Some(o) => self.external_ops.update(
                            at,
                            with_output(self.external_ops[at], o.identity()),
                        ),
                        None => self.external_ops,
                    },
                    ..self
                }
            } else {
                self
            }
        } else if self.pending.contains_key(key) {
            let at = self.pending[key];
            Canon {
                pending: self.pending.remove(key),
                ops: match observation {
                    Some(o) => self.ops.update(at, with_output(self.ops[at], o.identity())),
                    None => self.ops,
                },
                ..self
            }
        } else {
            self
        }
    }

    /// After a process ended. Only the root's exit code is recorded: the probes
    /// cannot see those of its children.
    pub open spec fn exit(self, pid: u32, exit_code: i32, root: u32) -> Canon {
        if self.indices.contains_key(pid) {
            self.add_op(
                op(
                    OpType::Exit,
                    self.indices[pid],
                    self.tool(pid),
                    if pid == root {
                        seq!["exit:"@ + text::signed_decimal(exit_code as int)]
                    } else {
                        Seq::empty()
                    },
                    Seq::empty(),
                ),
            )
        } else {
            self
        }
    }

    /// After one more event.
    pub open spec fn step(self, event: Traced, root: u32, prefixes: Seq<Seq<char>>) -> Canon {
        match event {
            Traced::Exec { pid, observation } => self.exec(pid, observation.identity()),
            Traced::FileOpen { pid, path, flags, fd, external, observation } => self.open(
                pid,
                path,
                flags,
                fd,
                external,
                observation.identity(),
                root,
                prefixes,
            ),
            Traced::FileMmap { pid, fd, prot, flags, path, external, observation } => {
                match (path, observation) {
                    (Some(p), Some(o)) => self.mmap(
                        pid,
                        fd,
                        prot,
                        flags,
                        p,
                        external,
                        o.identity(),
                        root,
                        prefixes,
                    ),
                    _ => self,
                }
            },
            Traced::FileClose { pid, fd, path, external, observation } => match path {
                Some(p) => self.close(pid, fd, p, external, observation, root, prefixes),
                None => self,
            },
            Traced::Exit { pid, exit_code } => self.exit(pid, exit_code, root),
        }
    }
}

/// What the events amount to.
pub open spec fn run(events: Seq<Traced>, root: u32, prefixes: Seq<Seq<char>>) -> Canon
    decreases events.len(),
{
    if events.len() == 0 {
        Canon::start(root)
    } else {
        run(events.drop_last(), root, prefixes).step(events.last(), root, prefixes)
    }
}

/// The canonical operations of a trace.
pub open spec fn canonical_ops(
    events: Seq<Traced>,
    root: u32,
    prefixes: Seq<Seq<char>>,
) -> Seq<OpView> {
    let s = run(events, root, prefixes);
    operation::finalized(s.ops + s.external_ops)
}

// ---------------------------------------------------------------------------
// The canonicalizer
// ---------------------------------------------------------------------------

/// Whether a path lies within one of the watched prefixes.
pub fn is_watched_path(path: &str, watch_prefixes: &[String]) -> (yes: bool)
    ensures
        yes == watched(path@, text::texts(watch_prefixes@)),
{
    let ghost prefixes = text::texts(watch_prefixes@);
    for i in 0..watch_prefixes.len()
        invariant
            prefixes == text::texts(watch_prefixes@),
            forall|k: int| 0 <= k < i ==> !file_identity::within(path@, #[trigger] prefixes[k]),
    {
        if is_path_within(path, watch_prefixes[i].as_str()) {
            assert(file_identity::within(path@, prefixes[i as int]));
            return true;
        }
    }
    false
}

/// One number for a process and a file descriptor of it.
pub open spec fn slot(key: (u32, i32)) -> u64 {
    (key.0 * 0x1_0000_0000 + (key.1 + 0x8000_0000)) as u64
}

/// One number for a process and a file descriptor of it.
pub fn slot_of(pid: u32, fd: i32) -> (key: u64)
    ensures
        key == slot((pid, fd)),
{
    (pid as u64) * 0x1_0000_0000u64 + (fd as i64 + 0x8000_0000i64) as u64
}

/// Distinct descriptors have distinct numbers.
pub proof fn lemma_slot_injective(a: (u32, i32), b: (u32, i32))
    requires
        slot(a) == slot(b),
    ensures
        a == b,
{
}

/// A table by slot as a table by process and file descriptor.
spec fn by_slot(m: Map<u64, usize>) -> Map<(u32, i32), int> {
    Map::new(|k: (u32, i32)| m.contains_key(slot(k)), |k: (u32, i32)| m[slot(k)] as int)
}

proof fn lemma_by_slot_insert(m: Map<u64, usize>, key: (u32, i32), at: usize)
    ensures
        by_slot(m.insert(slot(key), at)) == by_slot(m).insert(key, at as int),
{
    assert forall|k: (u32, i32)| slot(k) == slot(key) implies k == key by {
        lemma_slot_injective(k, key);
    }
    assert(by_slot(m.insert(slot(key), at)) =~= by_slot(m).insert(key, at as int));
}

proof fn lemma_by_slot_remove(m: Map<u64, usize>, key: (u32, i32))
    ensures
        by_slot(m.remove(slot(key))) == by_slot(m).remove(key),
{
    assert forall|k: (u32, i32)| slot(k) == slot(key) implies k == key by {
        lemma_slot_injective(k, key);
    }
    assert(by_slot(m.remove(slot(key))) =~= by_slot(m).remove(key));
}

/// The texts of a table of strings.
spec fn text_map(m: Map<u32, String>) -> Map<u32, Seq<char>> {
    m.map_values(|s: String| s@)
}

struct Canonicalizer {
    ops: Vec<CanonicalOp>,
    external_ops: Vec<CanonicalOp>,
    indices: HashMap<u32, u32>,
    next_index: u32,
    pending: HashMap<u64, usize>,
    external_pending: HashMap<u64, usize>,
    outsiders: HashSet<u32>,
    tools: HashMap<u32, String>,
}

impl Canonicalizer {
    spec fn state(self) -> Canon {
        Canon {
            ops: operation::op_views(self.ops@),
            external_ops: operation::op_views(self.external_ops@),
            indices: self.indices@,
            next: self.next_index as int,
            pending: by_slot(self.pending@),
            external_pending: by_slot(self.external_pending@),
            outsiders: self.outsiders@,
            tools: text_map(self.tools@),
        }
    }

    /// Every open write stands at its position.
    spec fn well_formed(self) -> bool {
        &&& forall|k: u64| #[trigger]
            self.pending@.contains_key(k) ==> self.pending@[k] < self.ops.len()
        &&& forall|k: u64| #[trigger]
            self.external_pending@.contains_key(k) ==> self.external_pending@[k]
                < self.external_ops.len()
    }

    fn new(root_pid: u32) -> (c: Canonicalizer)
        ensures
            c.state() == Canon::start(root_pid),
            c.well_formed(),
            c.next_index == 1,
    {
        let mut indices: HashMap<u32, u32> = HashMap::new();
        indices.insert(root_pid, 0u32);
        let c = Canonicalizer {
            ops: Vec::new(),
            external_ops: Vec::new(),
            indices,
            next_index: 1,
            pending: HashMap::new(),
            external_pending: HashMap::new(),
            outsiders: HashSet::new(),
            tools: HashMap::new(),
        };
        assert(c.state() =~= Canon::start(root_pid));
        c
    }

    fn introduce(&mut self, pid: u32) -> (index: u32)
        requires
            old(self).well_formed(),
            old(self).next_index < u32::MAX,
        ensures
            final(self).state() == old(self).state().introduce(pid),
            final(self).well_formed(),
            final(self).next_index <= old(self).next_index + 1,
            final(self).state().indices.contains_key(pid),
            index == final(self).state().indices[pid],
    {
        if let Some(index) = self.indices.get(&pid) {
            return *index;
        }
        let index = self.next_index;
        self.indices.insert(pid, index);
        self.next_index = index + 1;
        assert(self.state() =~= old(self).state().introduce(pid));
        index
    }

    fn tool(&self, pid: u32) -> (tool: Option<String>)
        ensures
            text::opt_text(tool) == self.state().tool(pid),
    {
        match self.tools.get(&pid) {
            Some(tool) => Some(tool.clone()),
            None => None,
        }
    }

    fn add_op(
        &mut self,
        op_type: OpType,
        process_index: u32,
        tool_hash: Option<String>,
        args: Vec<String>,
        input_hashes: Vec<String>,
    )
        requires
            old(self).well_formed(),
        ensures
            final(self).state() == old(self).state().add_op(
                op(
                    op_type,
                    process_index,
                    text::opt_text(tool_hash),
                    text::texts(args@),
                    text::texts(input_hashes@),
                ),
            ),
            final(self).well_formed(),
            final(self).next_index == old(self).next_index,
            final(self).ops.len() == old(self).ops.len() + 1,
            final(self).pending == old(self).pending,
    {
        let added = CanonicalOp {
            op_type,
            process_index,
            tool_hash,
            args,
            input_hashes,
            output_hashes: Vec::new(),
        };
        self.ops.push(added);
        assert(added@.output_hashes =~= Seq::empty());
        assert(operation::op_views(self.ops@) =~= operation::op_views(old(self).ops@).push(added@));
    }

    fn add_external(&mut self, op_type: OpType, args: Vec<String>, input_hashes: Vec<String>)
        requires
            old(self).well_formed(),
        ensures
            final(self).state() == old(self).state().add_external(
                op(
                    op_type,
                    u32::MAX,
                    None,
                    text::texts(args@),
                    text::texts(input_hashes@),
                ),
            ),
            final(self).well_formed(),
            final(self).next_index == old(self).next_index,
            final(self).external_ops.len() == old(self).external_ops.len() + 1,
            final(self).external_pending == old(self).external_pending,
    {
        let added = CanonicalOp {
            op_type,
            process_index: u32::MAX,
            tool_hash: None,
            args,
            input_hashes,
            output_hashes: Vec::new(),
        };
        self.external_ops.push(added);
        assert(added@.output_hashes =~= Seq::empty());
        assert(operation::op_views(self.external_ops@) =~= operation::op_views(
            old(self).external_ops@,
        ).push(added@));
    }

    fn add_write(&mut self, pid: u32, fd: i32, process_index: u32)
        requires
            old(self).well_formed(),
            old(self).state().indices[pid] == process_index,
        ensures
            final(self).state() == old(self).state().add_write(pid, fd),
            final(self).well_formed(),
            final(self).next_index == old(self).next_index,
    {
        let at = self.ops.len();
        let tool = self.tool(pid);
        self.add_op(OpType::FileWrite, process_index, tool, Vec::new(), Vec::new());
        proof {
            assert(text::texts(Seq::<String>::empty()) =~= Seq::<Seq<char>>::empty());
            lemma_by_slot_insert(self.pending@, (pid, fd), at);
        }
        self.pending.insert(slot_of(pid, fd), at);
    }

    fn add_external_write(&mut self, pid: u32, fd: i32)
        requires
            old(self).well_formed(),
        ensures
            final(self).state() == old(self).state().add_external_write(pid, fd),
            final(self).well_formed(),
            final(self).next_index == old(self).next_index,
    {
        let at = self.external_ops.len();
        self.add_external(OpType::ExternalFileWrite, Vec::new(), Vec::new());
        proof {
            assert(text::texts(Seq::<String>::empty()) =~= Seq::<Seq<char>>::empty());
            lemma_by_slot_insert(self.external_pending@, (pid, fd), at);
        }
        self.external_pending.insert(slot_of(pid, fd), at);
    }

    fn is_stray(&self, pid: u32, path: &str, root_pid: u32, watch_prefixes: &[String]) -> (yes:
        bool)
        ensures
            yes == self.state().is_stray(pid, path@, root_pid, text::texts(watch_prefixes@)),
    {
        pid != root_pid && is_watched_path(path, watch_prefixes) && (self.outsiders.contains(&pid)
            || !self.tools.contains_key(&pid))
    }

    fn exec(&mut self, pid: u32, identity: String)
        requires
            old(self).well_formed(),
            old(self).next_index < u32::MAX,
        ensures
            final(self).state() == old(self).state().exec(pid, identity@),
            final(self).well_formed(),
            final(self).next_index <= old(self).next_index + 1,
    {
        let index = self.introduce(pid);
        let ghost before = *self;
        self.tools.insert(pid, identity.clone());
        proof {
            text::lemma_no_texts();
            assert(text_map(self.tools@) =~= text_map(before.tools@).insert(pid, identity@));
        }
        self.add_op(OpType::Exec, index, Some(identity), Vec::new(), Vec::new());
    }

    fn system_state(&mut self, pid: u32, index: u32)
        requires
            old(self).well_formed(),
            old(self).state().indices[pid] == index,
        ensures
            final(self).state() == old(self).state().system_state(pid),
            final(self).well_formed(),
            final(self).next_index == old(self).next_index,
    {
        let tool = self.tool(pid);
        proof {
            text::lemma_no_texts();
        }
        self.add_op(
            OpType::SystemStateRead,
            index,
            tool,
            Vec::new(),
            one(SYSTEM_STATE_SENTINEL.to_string()),
        );
    }

    fn open(
        &mut self,
        pid: u32,
        path: &str,
        flags: u32,
        fd: i32,
        external: bool,
        identity: String,
        root_pid: u32,
        watch_prefixes: &[String],
    )
        requires
            old(self).well_formed(),
            old(self).next_index < u32::MAX,
        ensures
            final(self).state() == old(self).state().open(
                pid,
                path@,
                flags,
                fd,
                external,
                identity@,
                root_pid,
                text::texts(watch_prefixes@),
            ),
            final(self).well_formed(),
            final(self).next_index <= old(self).next_index + 1,
    {
        proof {
            text::lemma_no_texts();
        }
        if external && !is_watched_path(path, watch_prefixes) {
            return;
        }
        let reads = flags & 3 != 1;
        let writes = flags & 3 != 0;
        if external || self.is_stray(pid, path, root_pid, watch_prefixes) {
            self.outsiders.insert(pid);
            assert(self.state() =~= old(self).state().add_outsider(pid));
            if reads {
                self.add_external(OpType::ExternalFileRead, Vec::new(), one(identity));
            }
            if writes {
                self.add_external_write(pid, fd);
            }
            return;
        }
        let index = self.introduce(pid);
        if is_system_state(path) {
            self.system_state(pid, index);
            return;
        }
        if reads {
            let tool = self.tool(pid);
            self.add_op(OpType::FileRead, index, tool, Vec::new(), one(identity));
        }
        if writes {
            self.add_write(pid, fd, index);
        }
    }

    fn mmap(
        &mut self,
        pid: u32,
        fd: i32,
        prot: u32,
        flags: u32,
        path: &str,
        external: bool,
        identity: String,
        root_pid: u32,
        watch_prefixes: &[String],
    )
        requires
            old(self).well_formed(),
            old(self).next_index < u32::MAX,
        ensures
            final(self).state() == old(self).state().mmap(
                pid,
                fd,
                prot,
                flags,
                path@,
                external,
                identity@,
                root_pid,
                text::texts(watch_prefixes@),
            ),
            final(self).well_formed(),
            final(self).next_index <= old(self).next_index + 1,
    {
        if external && !is_watched_path(path, watch_prefixes) {
            return;
        }
        let is_write = prot & 2 != 0 && flags & 1 != 0;
        if external || self.is_stray(pid, path, root_pid, watch_prefixes) {
            self.outsiders.insert(pid);
            assert(self.state() =~= old(self).state().add_outsider(pid));
            self.add_external(
                OpType::ExternalFileRead,
                one("mmap".to_string()),
                one(identity),
            );
            if is_write && !self.external_pending.contains_key(&slot_of(pid, fd)) {
                self.add_external_write(pid, fd);
            }
            return;
        }
        let index = self.introduce(pid);
        if is_system_state(path) {
            self.system_state(pid, index);
            return;
        }
        let tool = self.tool(pid);
        self.add_op(OpType::FileRead, index, tool, one("mmap".to_string()), one(identity));
        if is_write && !self.pending.contains_key(&slot_of(pid, fd)) {
            self.add_write(pid, fd, index);
        }
    }

    fn close(
        &mut self,
        pid: u32,
        fd: i32,
        path: &str,
        external: bool,
        observation: &Option<FileObservation>,
        root_pid: u32,
        watch_prefixes: &[String],
    )
        requires
            old(self).well_formed(),
        ensures
            final(self).state() == old(self).state().close(
                pid,
                fd,
                path@,
                external,
                tracer::opt_observed(*observation),
                root_pid,
                text::texts(watch_prefixes@),
            ),
            final(self).well_formed(),
            final(self).next_index == old(self).next_index,
    {
        let outside = external || (pid != root_pid && self.outsiders.contains(&pid)
            && is_watched_path(path, watch_prefixes));
        let key = slot_of(pid, fd);
        if outside {
            if let Some(at) = self.external_pending.remove(&key) {
                proof {
                    lemma_by_slot_remove(old(self).external_pending@, (pid, fd));
                    assert(at < self.external_ops.len());
                }
                if let Some(observation) = observation {
                    push_output(&mut self.external_ops, at, observation.identity());
                }
            } else {
                assert(self.external_pending@ =~= old(self).external_pending@);
            }
        } else {
            if let Some(at) = self.pending.remove(&key) {
                proof {
                    lemma_by_slot_remove(old(self).pending@, (pid, fd));
                    assert(at < self.ops.len());
                }
                if let Some(observation) = observation {
                    push_output(&mut self.ops, at, observation.identity());
                }
            } else {
                assert(self.pending@ =~= old(self).pending@);
            }
        }
    }

    fn exit(&mut self, pid: u32, exit_code: i32, root_pid: u32)
        requires
            old(self).well_formed(),
        ensures
            final(self).state() == old(self).state().exit(pid, exit_code, root_pid),
            final(self).well_formed(),
            final(self).next_index == old(self).next_index,
    {
        proof {
            text::lemma_no_texts();
        }
        let index = match self.indices.get(&pid) {
            Some(index) => *index,
            None => {
                return;
            },
        };
        let args = if pid == root_pid {
            one(concat("exit:", format_signed(exit_code).as_str()))
        } else {
            Vec::new()
        };
        let tool = self.tool(pid);
        self.add_op(OpType::Exit, index, tool, args, Vec::new());
    }

    fn step(&mut self, event: &TracedEvent, root_pid: u32, watch_prefixes: &[String])
        requires
            old(self).well_formed(),
            old(self).next_index < u32::MAX,
        ensures
            final(self).state() == old(self).state().step(
                event@,
                root_pid,
                text::texts(watch_prefixes@),
            ),
            final(self).well_formed(),
            final(self).next_index <= old(self).next_index + 1,
    {
        match event {
            TracedEvent::Exec { pid, observation } => {
                self.exec(*pid, observation.identity());
            },
            TracedEvent::FileOpen { pid, path, flags, fd, external, observation } => {
                self.open(
                    *pid,
                    path.as_str(),
                    *flags,
                    *fd,
                    *external,
                    observation.identity(),
                    root_pid,
                    watch_prefixes,
                );
            },
            TracedEvent::FileMmap { pid, fd, prot, flags, path, external, observation } => {
                if let (Some(path), Some(observation)) = (path, observation) {
                    self.mmap(
                        *pid,
                        *fd,
                        *prot,
                        *flags,
                        path.as_str(),
                        *external,
                        observation.identity(),
                        root_pid,
                        watch_prefixes,
                    );
                }
            },
            TracedEvent::FileClose { pid, fd, path, external, observation } => {
                if let Some(path) = path {
                    self.close(
                        *pid,
                        *fd,
                        path.as_str(),
                        *external,
                        observation,
                        root_pid,
                        watch_prefixes,
                    );
                }
            },
            TracedEvent::Exit { pid, exit_code } => {
                self.exit(*pid, *exit_code, root_pid);
            },
        }
    }
}

fn push_output(ops: &mut Vec<CanonicalOp>, at: usize, hash: String)
    requires
        at < old(ops).len(),
    ensures
        operation::op_views(final(ops)@) == operation::op_views(old(ops)@).update(
            at as int,
            with_output(old(ops)@[at as int]@, hash@),
        ),
        final(ops).len() == old(ops).len(),
{
    let mut changed = ops[at].duplicate();
    let ghost before = changed@;
    changed.output_hashes.push(hash);
    assert(changed@ == with_output(before, hash@)) by {
        assert(changed@.output_hashes =~= before.output_hashes.push(hash@));
    }
    ops.set(at, changed);
    assert(operation::op_views(ops@) =~= operation::op_views(old(ops)@).update(
        at as int,
        changed@,
    ));
}

/// Canonicalizes traced events into system-independent operations.
///
/// `root_pid` is the process id of the root traced process. It decides which
/// process has its exit code recorded: only the root, since the probes cannot
/// see the exit codes of child processes.
pub fn canonicalize_events(
    events: Vec<TracedEvent>,
    root_pid: u32,
    watch_prefixes: &[String],
) -> (ops: Vec<CanonicalOp>)
    requires
        events@.len() < u32::MAX,
    ensures
        operation::op_views(ops@) == canonical_ops(
            tracer::event_views(events@),
            root_pid,
            text::texts(watch_prefixes@),
        ),
{
    let ghost views = tracer::event_views(events@);
    let ghost prefixes = text::texts(watch_prefixes@);
    let mut c = Canonicalizer::new(root_pid);
    for i in 0..events.len()
        invariant
            events.len() < u32::MAX,
            views == tracer::event_views(events@),
            prefixes == text::texts(watch_prefixes@),
            c.well_formed(),
            c.next_index <= i + 1,
            c.state() == run(views.take(i as int), root_pid, prefixes),
    {
        proof {
            assert(views.take(i as int + 1).drop_last() == views.take(i as int));
        }
        c.step(&events[i], root_pid, watch_prefixes);
    }
    proof {
        assert(views.take(views.len() as int) == views);
    }
    let Canonicalizer { mut ops, mut external_ops, .. } = c;
    let ghost tree = ops@;
    let ghost outside = external_ops@;
    ops.append(&mut external_ops);
    proof {
        assert(operation::op_views(ops@) =~= operation::op_views(tree) + operation::op_views(
            outside,
        ));
    }
    finalize_ops(ops)
}

// ---------------------------------------------------------------------------
// Laws
// ---------------------------------------------------------------------------

/// Whether an event is an open or a mapping by a process outside the tree of a
/// path that is not watched, or of one that is not known.
pub open spec fn is_unwatched(event: Traced, prefixes: Seq<Seq<char>>) -> bool {
    match event {
        Traced::FileOpen { path, external, .. } => external && !watched(path, prefixes),
        Traced::FileMmap { path, external, .. } => external && match path {
            Some(p) => !watched(p, prefixes),
            None => true,
        },
        _ => false,
    }
}

proof fn lemma_unwatched_run(events: Seq<Traced>, i: int, root: u32, prefixes: Seq<Seq<char>>)
    requires
        0 <= i < events.len(),
        is_unwatched(events[i], prefixes),
    ensures
        run(events.remove(i), root, prefixes) == run(events, root, prefixes),
    decreases events.len(),
{
    if i == events.len() - 1 {
        assert(events.remove(i) =~= events.drop_last());
    } else {
        assert(events.remove(i).drop_last() =~= events.drop_last().remove(i));
        lemma_unwatched_run(events.drop_last(), i, root, prefixes);
    }
}

/// What processes outside the tree do outside the watched prefixes leaves no
/// trace: without such an open or mapping the canonical operations are the same.
pub proof fn law_unwatched_outsiders_add_nothing(
    events: Seq<Traced>,
    i: int,
    root: u32,
    prefixes: Seq<Seq<char>>,
)
    requires
        0 <= i < events.len(),
        is_unwatched(events[i], prefixes),
    ensures
        canonical_ops(events.remove(i), root, prefixes) == canonical_ops(events, root, prefixes),
{
    lemma_unwatched_run(events, i, root, prefixes);
}

/// A file of the build that is opened for reading and writing counts as both:
/// the read carries what was seen at the open, the write stays open until the
/// descriptor is closed.
pub proof fn law_read_write_open_is_both(
    s: Canon,
    pid: u32,
    path: Seq<char>,
    flags: u32,
    fd: i32,
    observation: Observed,
    root: u32,
    prefixes: Seq<Seq<char>>,
)
    requires
        flags & 3 == 2,
        !file_identity::shows_system_state(path),
        !s.is_stray(pid, path, root, prefixes),
    ensures
        ({
            let t = s.step(
                Traced::FileOpen { pid, path, flags, fd, external: false, observation },
                root,
                prefixes,
            );
            let index = s.introduce(pid).indices[pid];
            &&& t.ops == s.ops.push(
                op(
                    OpType::FileRead,
                    index,
                    s.tool(pid),
                    Seq::empty(),
                    seq![observation.identity()],
                ),
            ).push(op(OpType::FileWrite, index, s.tool(pid), Seq::empty(), Seq::empty()))
            &&& t.pending == s.pending.insert((pid, fd), s.ops.len() as int + 1)
            &&& t.external_ops == s.external_ops
        }),
{
}

/// A private mapping, even a writable one, never counts as a write: it adds at
/// most one operation, a read, and opens no write.
pub proof fn law_private_mapping_is_no_write(
    s: Canon,
    pid: u32,
    fd: i32,
    prot: u32,
    flags: u32,
    path: Option<Seq<char>>,
    external: bool,
    observation: Option<Observed>,
    root: u32,
    prefixes: Seq<Seq<char>>,
)
    requires
        flags & 1 == 0,
    ensures
        ({
            let t = s.step(
                Traced::FileMmap { pid, fd, prot, flags, path, external, observation },
                root,
                prefixes,
            );
            &&& t.pending == s.pending
            &&& t.external_pending == s.external_pending
            &&& t.ops == s.ops || (t.ops.drop_last() == s.ops && t.ops.len() == s.ops.len() + 1 && (
            t.ops.last().op_type == OpType::FileRead || t.ops.last().op_type
                == OpType::SystemStateRead))
            &&& t.external_ops == s.external_ops || (t.external_ops.drop_last() == s.external_ops
                && t.external_ops.len() == s.external_ops.len() + 1
                && t.external_ops.last().op_type == OpType::ExternalFileRead)
        }),
{
    if let (Some(p), Some(o)) = (path, observation) {
        let t = s.mmap(pid, fd, prot, flags, p, external, o.identity(), root, prefixes);
        if t.ops.len() > s.ops.len() {
            assert(t.ops.drop_last() =~= s.ops);
        }
        if t.external_ops.len() > s.external_ops.len() {
            assert(t.external_ops.drop_last() =~= s.external_ops);
        }
    }
}

/// Whether two events agree in all but the exit code of a process that is not
/// the root.
pub open spec fn same_but_child_exit_code(a: Traced, b: Traced, root: u32) -> bool {
    match (a, b) {
        (Traced::Exit { pid: p, .. }, Traced::Exit { pid: q, .. }) => a == b || (p == q && p
            != root),
        _ => a == b,
    }
}

/// The exit codes of processes other than the root do not matter: two traces
/// that differ only in them have the same canonical operations.
pub proof fn law_child_exit_codes_do_not_matter(
    a: Seq<Traced>,
    b: Seq<Traced>,
    root: u32,
    prefixes: Seq<Seq<char>>,
)
    requires
        a.len() == b.len(),
        forall|i: int|
            0 <= i < a.len() ==> same_but_child_exit_code(#[trigger] a[i], #[trigger] b[i], root),
    ensures
        canonical_ops(a, root, prefixes) == canonical_ops(b, root, prefixes),
{
    lemma_child_exit_codes_do_not_matter(a, b, root, prefixes);
}

proof fn lemma_child_exit_codes_do_not_matter(
    a: Seq<Traced>,
    b: Seq<Traced>,
    root: u32,
    prefixes: Seq<Seq<char>>,
)
    requires
        a.len() == b.len(),
        forall|i: int|
            0 <= i < a.len() ==> same_but_child_exit_code(#[trigger] a[i], #[trigger] b[i], root),
    ensures
        run(a, root, prefixes) == run(b, root, prefixes),
    decreases a.len(),
{
    if a.len() > 0 {
        lemma_child_exit_codes_do_not_matter(a.drop_last(), b.drop_last(), root, prefixes);
        assert(same_but_child_exit_code(a.last(), b.last(), root));
    }
}

/// An event with its process id replaced.
pub open spec fn renamed(event: Traced, f: spec_fn(u32) -> u32) -> Traced {
    match event {
        Traced::Exec { pid, observation } => Traced::Exec { pid: f(pid), observation },
        Traced::FileOpen { pid, path, flags, fd, external, observation } => Traced::FileOpen {
            pid: f(pid),
            path,
            flags,
            fd,
            external,
            observation,
        },
        Traced::FileClose { pid, fd, path, external, observation } => Traced::FileClose {
            pid: f(pid),
            fd,
            path,
            external,
            observation,
        },
        Traced::FileMmap { pid, fd, prot, flags, path, external, observation } => {
            Traced::FileMmap { pid: f(pid), fd, prot, flags, path, external, observation }
        },
        Traced::Exit { pid, exit_code } => Traced::Exit { pid: f(pid), exit_code },
    }
}

/// The events with their process ids replaced.
pub open spec fn renamed_events(events: Seq<Traced>, f: spec_fn(u32) -> u32) -> Seq<Traced> {
    Seq::new(events.len(), |i: int| renamed(events[i], f))
}

spec fn same_but_ids(s: Canon, t: Canon, f: spec_fn(u32) -> u32) -> bool {
    &&& s.ops == t.ops
    &&& s.external_ops == t.external_ops
    &&& s.next == t.next
    &&& forall|p: u32| #[trigger]
        s.indices.contains_key(p) == t.indices.contains_key(f(p)) && (s.indices.contains_key(p)
            ==> s.indices[p] == t.indices[f(p)])
    &&& forall|p: u32| #[trigger]
        s.tools.contains_key(p) == t.tools.contains_key(f(p)) && (s.tools.contains_key(p)
            ==> s.tools[p] == t.tools[f(p)])
    &&& forall|p: u32| #[trigger] s.outsiders.contains(p) == t.outsiders.contains(f(p))
    &&& forall|p: u32, d: i32| #[trigger]
        s.pending.contains_key((p, d)) == t.pending.contains_key((f(p), d)) && (
        s.pending.contains_key((p, d)) ==> s.pending[(p, d)] == t.pending[(f(p), d)])
    &&& forall|p: u32, d: i32| #[trigger]
        s.external_pending.contains_key((p, d)) == t.external_pending.contains_key((f(p), d)) && (
        s.external_pending.contains_key((p, d)) ==> s.external_pending[(p, d)]
            == t.external_pending[(f(p), d)])
}

proof fn lemma_renamed_step(
    s: Canon,
    t: Canon,
    event: Traced,
    f: spec_fn(u32) -> u32,
    root: u32,
    prefixes: Seq<Seq<char>>,
)
    requires
        same_but_ids(s, t, f),
        forall|a: u32, b: u32| #[trigger] f(a) == #[trigger] f(b) ==> a == b,
    ensures
        same_but_ids(s.step(event, root, prefixes), t.step(renamed(event, f), f(root), prefixes), f),
{
    let pid = match event {
        Traced::Exec { pid, .. } => pid,
        Traced::FileOpen { pid, .. } => pid,
        Traced::FileClose { pid, .. } => pid,
        Traced::FileMmap { pid, .. } => pid,
        Traced::Exit { pid, .. } => pid,
    };
    assert(s.indices.contains_key(pid) == t.indices.contains_key(f(pid)));
    assert(s.tools.contains_key(pid) == t.tools.contains_key(f(pid)));
    assert(s.outsiders.contains(pid) == t.outsiders.contains(f(pid)));
    assert(same_but_ids(s.introduce(pid), t.introduce(f(pid)), f));
    match event {
        Traced::FileOpen { fd, .. } => {
            assert(s.pending.contains_key((pid, fd)) == t.pending.contains_key((f(pid), fd)));
        },
        Traced::FileClose { fd, .. } => {
            assert(s.pending.contains_key((pid, fd)) == t.pending.contains_key((f(pid), fd)));
            assert(s.external_pending.contains_key((pid, fd)) == t.external_pending.contains_key(
                (f(pid), fd),
            ));
        },
        Traced::FileMmap { fd, .. } => {
            assert(s.pending.contains_key((pid, fd)) == t.pending.contains_key((f(pid), fd)));
            assert(s.external_pending.contains_key((pid, fd)) == t.external_pending.contains_key(
                (f(pid), fd),
            ));
        },
        _ => {},
    }
}

proof fn lemma_renamed_run(
    events: Seq<Traced>,
    f: spec_fn(u32) -> u32,
    root: u32,
    prefixes: Seq<Seq<char>>,
)
    requires
        forall|a: u32, b: u32| #[trigger] f(a) == #[trigger] f(b) ==> a == b,
    ensures
        same_but_ids(
            run(events, root, prefixes),
            run(renamed_events(events, f), f(root), prefixes),
            f,
        ),
    decreases events.len(),
{
    if events.len() > 0 {
        lemma_renamed_run(events.drop_last(), f, root, prefixes);
        let r = renamed_events(events, f);
        assert(r.drop_last() =~= renamed_events(events.drop_last(), f));
        lemma_renamed_step(
            run(events.drop_last(), root, prefixes),
            run(r.drop_last(), f(root), prefixes),
            events.last(),
            f,
            root,
            prefixes,
        );
    }
}

/// Process ids do not matter: two traces that differ only in which ids the
/// processes happened to get have the same canonical operations.
pub proof fn law_process_ids_do_not_matter(
    events: Seq<Traced>,
    f: spec_fn(u32) -> u32,
    root: u32,
    prefixes: Seq<Seq<char>>,
)
    requires
        forall|a: u32, b: u32| #[trigger] f(a) == #[trigger] f(b) ==> a == b,
    ensures
        canonical_ops(renamed_events(events, f), f(root), prefixes) == canonical_ops(
            events,
            root,
            prefixes,
        ),
{
    lemma_renamed_run(events, f, root, prefixes);
}

/// Whether two paths fall in the same classes: both show system state or
/// neither does, and both are watched or neither is.
pub open spec fn same_class(a: Seq<char>, b: Seq<char>, prefixes: Seq<Seq<char>>) -> bool {
    file_identity::shows_system_state(a) == file_identity::shows_system_state(b) && watched(
        a,
        prefixes,
    ) == watched(b, prefixes)
}

/// Whether two optional paths are both there, in the same classes, or both absent.
pub open spec fn same_class_option(
    a: Option<Seq<char>>,
    b: Option<Seq<char>>,
    prefixes: Seq<Seq<char>>,
) -> bool {
    match (a, b) {
        (Some(x), Some(y)) => same_class(x, y, prefixes),
        (None, None) => true,
        _ => false,
    }
}

/// Whether two events agree in all but their paths, which fall in the same classes.
pub open spec fn same_but_paths(a: Traced, b: Traced, prefixes: Seq<Seq<char>>) -> bool {
    match (a, b) {
        (
            Traced::FileOpen { pid, path, flags, fd, external, observation },
            Traced::FileOpen { path: other, .. },
        ) => same_class(path, other, prefixes) && b == (Traced::FileOpen {
            pid,
            path: other,
            flags,
            fd,
            external,
            observation,
        }),
        (
            Traced::FileClose { pid, fd, path, external, observation },
            Traced::FileClose { path: other, .. },
        ) => same_class_option(path, other, prefixes) && b == (Traced::FileClose {
            pid,
            fd,
            path: other,
            external,
            observation,
        }),
        (
            Traced::FileMmap { pid, fd, prot, flags, path, external, observation },
            Traced::FileMmap { path: other, .. },
        ) => same_class_option(path, other, prefixes) && b == (Traced::FileMmap {
            pid,
            fd,
            prot,
            flags,
            path: other,
            external,
            observation,
        }),
        _ => a == b,
    }
}

/// Paths do not matter beyond their classes: two traces that differ only in
/// where the same files lie have the same canonical operations.
pub proof fn law_paths_do_not_matter(
    a: Seq<Traced>,
    b: Seq<Traced>,
    root: u32,
    prefixes: Seq<Seq<char>>,
)
    requires
        a.len() == b.len(),
        forall|i: int|
            0 <= i < a.len() ==> same_but_paths(#[trigger] a[i], #[trigger] b[i], prefixes),
    ensures
        canonical_ops(a, root, prefixes) == canonical_ops(b, root, prefixes),
{
    lemma_paths_do_not_matter(a, b, root, prefixes);
}

proof fn lemma_paths_do_not_matter(
    a: Seq<Traced>,
    b: Seq<Traced>,
    root: u32,
    prefixes: Seq<Seq<char>>,
)
    requires
        a.len() == b.len(),
        forall|i: int|
            0 <= i < a.len() ==> same_but_paths(#[trigger] a[i], #[trigger] b[i], prefixes),
    ensures
        run(a, root, prefixes) == run(b, root, prefixes),
    decreases a.len(),
{
    if a.len() > 0 {
        lemma_paths_do_not_matter(a.drop_last(), b.drop_last(), root, prefixes);
        assert(same_but_paths(a.last(), b.last(), prefixes));
    }
}

/// Whether one list of operations goes on from another: nothing is taken away or
/// changed, but that writes may have learned what was written.
pub open spec fn goes_on(a: Seq<OpView>, b: Seq<OpView>) -> bool {
    a.len() <= b.len() && forall|k: int|
        0 <= k < a.len() ==> (#[trigger] a[k] == b[k] || (is_write_op(a[k]) && (OpView {
            output_hashes: a[k].output_hashes,
            ..b[k]
        }) == a[k]))
}

/// Whether an operation is a write.
pub open spec fn is_write_op(op: OpView) -> bool {
    op.op_type == OpType::FileWrite || op.op_type == OpType::ExternalFileWrite
}

/// Every open write stands at its position.
pub(crate) open spec fn positions_hold(s: Canon) -> bool {
    &&& forall|k: (u32, i32)| #[trigger]
        s.pending.contains_key(k) ==> 0 <= s.pending[k] < s.ops.len() && is_write_op(
            s.ops[s.pending[k]],
        )
    &&& forall|k: (u32, i32)| #[trigger]
        s.external_pending.contains_key(k) ==> 0 <= s.external_pending[k] < s.external_ops.len()
            && is_write_op(s.external_ops[s.external_pending[k]])
}

pub(crate) proof fn lemma_step_goes_on(s: Canon, event: Traced, root: u32, prefixes: Seq<Seq<char>>)
    requires
        positions_hold(s),
    ensures
        positions_hold(s.step(event, root, prefixes)),
        goes_on(s.ops, s.step(event, root, prefixes).ops),
        goes_on(s.external_ops, s.step(event, root, prefixes).external_ops),
{
}

pub(crate) proof fn lemma_run_goes_on(events: Seq<Traced>, n: int, root: u32, prefixes: Seq<Seq<char>>)
    requires
        0 <= n <= events.len(),
    ensures
        positions_hold(run(events, root, prefixes)),
        goes_on(run(events.take(n), root, prefixes).ops, run(events, root, prefixes).ops),
        goes_on(
            run(events.take(n), root, prefixes).external_ops,
            run(events, root, prefixes).external_ops,
        ),
    decreases events.len(),
{
    if events.len() == 0 {
        assert(events.take(n) =~= events);
    } else {
        let before = run(events.drop_last(), root, prefixes);
        if n == events.len() {
            assert(events.take(n) =~= events);
            lemma_run_goes_on(events.drop_last(), 0, root, prefixes);
            lemma_step_goes_on(before, events.last(), root, prefixes);
        } else {
            assert(events.drop_last().take(n) =~= events.take(n));
            lemma_run_goes_on(events.drop_last(), n, root, prefixes);
            lemma_step_goes_on(before, events.last(), root, prefixes);
        }
    }
}

pub(crate) proof fn lemma_recorded(events: Seq<Traced>, o: OpView, root: u32, prefixes: Seq<Seq<char>>)
    requires
        run(events, root, prefixes).ops.contains(o) || run(
            events,
            root,
            prefixes,
        ).external_ops.contains(o),
    ensures
        operation::op_hashes(canonical_ops(events, root, prefixes)).contains(o.normalized().hash()),
{
    let s = run(events, root, prefixes);
    let all = s.ops + s.external_ops;
    if s.ops.contains(o) {
        let k = choose|k: int| 0 <= k < s.ops.len() && s.ops[k] == o;
        assert(all[k] == o);
    } else {
        let k = choose|k: int| 0 <= k < s.external_ops.len() && s.external_ops[k] == o;
        assert(all[s.ops.len() + k] == o);
    }
    let k = choose|k: int| 0 <= k < all.len() && all[k] == o;
    assert(operation::op_hashes(operation::normalized_ops(all))[k] == o.normalized().hash());
    operation::law_finalized_ops_are_a_sorted_set(all);
}

/// Whatever the build reads is recorded, available or not: an open for reading
/// by a process of the tree, wherever in the trace it stands, leaves a read with
/// what was seen at the open.
pub proof fn law_reads_of_the_build_are_recorded(
    events: Seq<Traced>,
    i: int,
    pid: u32,
    path: Seq<char>,
    flags: u32,
    fd: i32,
    observation: Observed,
    root: u32,
    prefixes: Seq<Seq<char>>,
)
    requires
        0 <= i < events.len(),
        events[i] == (Traced::FileOpen { pid, path, flags, fd, external: false, observation }),
        can_read(flags),
        !file_identity::shows_system_state(path),
        !run(events.take(i), root, prefixes).is_stray(pid, path, root, prefixes),
    ensures
        ({
            let before = run(events.take(i), root, prefixes);
            let read = op(
                OpType::FileRead,
                before.introduce(pid).indices[pid],
                before.tool(pid),
                Seq::empty(),
                seq![observation.identity()],
            );
            operation::op_hashes(canonical_ops(events, root, prefixes)).contains(
                read.normalized().hash(),
            )
        }),
{
    let before = run(events.take(i), root, prefixes);
    let after = run(events.take(i + 1), root, prefixes);
    assert(events.take(i + 1).drop_last() =~= events.take(i));
    let read = op(
        OpType::FileRead,
        before.introduce(pid).indices[pid],
        before.tool(pid),
        Seq::empty(),
        seq![observation.identity()],
    );
    let k = before.ops.len() as int;
    assert(after.ops[k] == read);
    lemma_run_goes_on(events, i + 1, root, prefixes);
    let ops = run(events, root, prefixes).ops;
    assert(ops[k] == read);
    lemma_recorded(events, read, root, prefixes);
}

proof fn lemma_root_is_first(events: Seq<Traced>, root: u32, prefixes: Seq<Seq<char>>)
    ensures
        run(events, root, prefixes).indices.contains_key(root),
        run(events, root, prefixes).indices[root] == 0,
    decreases events.len(),
{
    if events.len() > 0 {
        lemma_root_is_first(events.drop_last(), root, prefixes);
    }
}

/// The exit of the root is recorded with its exit code, wherever in the trace it
/// stands.
pub proof fn law_exit_of_the_root_is_recorded(
    events: Seq<Traced>,
    i: int,
    exit_code: i32,
    root: u32,
    prefixes: Seq<Seq<char>>,
)
    requires
        0 <= i < events.len(),
        events[i] == (Traced::Exit { pid: root, exit_code }),
    ensures
        operation::op_hashes(canonical_ops(events, root, prefixes)).contains(
            op(
                OpType::Exit,
                0,
                run(events.take(i), root, prefixes).tool(root),
                seq!["exit:"@ + text::signed_decimal(exit_code as int)],
                Seq::empty(),
            ).normalized().hash(),
        ),
{
    let before = run(events.take(i), root, prefixes);
    let after = run(events.take(i + 1), root, prefixes);
    assert(events.take(i + 1).drop_last() =~= events.take(i));
    lemma_root_is_first(events.take(i), root, prefixes);
    let exit = op(
        OpType::Exit,
        0,
        before.tool(root),
        seq!["exit:"@ + text::signed_decimal(exit_code as int)],
        Seq::empty(),
    );
    let k = before.ops.len() as int;
    assert(after.ops[k] == exit);
    lemma_run_goes_on(events, i + 1, root, prefixes);
    let ops = run(events, root, prefixes).ops;
    assert(ops[k] == exit);
    lemma_recorded(events, exit, root, prefixes);
}

/// Whether a write stands at `k`, open on the given descriptor alone.
pub(crate) open spec fn open_at(s: Canon, key: (u32, i32), k: int, write: OpView) -> bool {
    &&& 0 <= k < s.ops.len()
    &&& s.ops[k] == write
    &&& s.pending.contains_key(key)
    &&& s.pending[key] == k
    &&& forall|other: (u32, i32)| #[trigger]
        s.pending.contains_key(other) && other != key ==> s.pending[other] != k
}

/// Whether an operation stands at `k` that no descriptor leads to any more.
pub(crate) open spec fn settled_at(s: Canon, k: int, done: OpView) -> bool {
    &&& 0 <= k < s.ops.len()
    &&& s.ops[k] == done
    &&& forall|key: (u32, i32)| #[trigger] s.pending.contains_key(key) ==> s.pending[key] != k
}

/// Whether an event opens or closes a file on the descriptor of a process.
pub open spec fn reuses(event: Traced, process: u32, descriptor: i32) -> bool {
    match event {
        Traced::FileOpen { pid, fd, .. } => pid == process && fd == descriptor,
        Traced::FileClose { pid, fd, .. } => pid == process && fd == descriptor,
        _ => false,
    }
}

pub(crate) proof fn lemma_write_stays_open(
    events: Seq<Traced>,
    i: int,
    j: int,
    pid: u32,
    fd: i32,
    k: int,
    write: OpView,
    root: u32,
    prefixes: Seq<Seq<char>>,
)
    requires
        0 <= i <= j <= events.len(),
        open_at(run(events.take(i), root, prefixes), (pid, fd), k, write),
        forall|m: int| i <= m < j ==> !reuses(#[trigger] events[m], pid, fd),
    ensures
        open_at(run(events.take(j), root, prefixes), (pid, fd), k, write),
    decreases j,
{
    if i < j {
        lemma_write_stays_open(events, i, j - 1, pid, fd, k, write, root, prefixes);
        assert(events.take(j).drop_last() =~= events.take(j - 1));
        assert(!reuses(events[j - 1], pid, fd));
        let s = run(events.take(j - 1), root, prefixes);
        lemma_run_goes_on(events.take(j - 1), 0, root, prefixes);
        if let Traced::FileClose { pid: other, fd: descriptor, .. } = events[j - 1] {
            assert(s.pending.contains_key((other, descriptor)) ==> s.pending[(other, descriptor)]
                != k);
        }
    }
}

pub(crate) proof fn lemma_settled_stays(
    events: Seq<Traced>,
    i: int,
    j: int,
    k: int,
    done: OpView,
    root: u32,
    prefixes: Seq<Seq<char>>,
)
    requires
        0 <= i <= j <= events.len(),
        settled_at(run(events.take(i), root, prefixes), k, done),
    ensures
        settled_at(run(events.take(j), root, prefixes), k, done),
    decreases j,
{
    if i < j {
        lemma_settled_stays(events, i, j - 1, k, done, root, prefixes);
        assert(events.take(j).drop_last() =~= events.take(j - 1));
        lemma_run_goes_on(events.take(j - 1), 0, root, prefixes);
    }
}

/// Whatever the build writes is recorded: an open for writing by a process of
/// the tree, with the close of the descriptor, leaves a write with what was seen
/// at the close.
pub proof fn law_writes_of_the_build_are_recorded(
    events: Seq<Traced>,
    i: int,
    j: int,
    pid: u32,
    path: Seq<char>,
    flags: u32,
    fd: i32,
    opened: Observed,
    path_at_close: Seq<char>,
    closed: Observed,
    root: u32,
    prefixes: Seq<Seq<char>>,
)
    requires
        0 <= i < j < events.len(),
        events[i] == (Traced::FileOpen {
            pid,
            path,
            flags,
            fd,
            external: false,
            observation: opened,
        }),
        events[j] == (Traced::FileClose {
            pid,
            fd,
            path: Some(path_at_close),
            external: false,
            observation: Some(closed),
        }),
        forall|m: int| i < m < j ==> !reuses(#[trigger] events[m], pid, fd),
        can_write(flags),
        !file_identity::shows_system_state(path),
        !run(events.take(i), root, prefixes).is_stray(pid, path, root, prefixes),
        pid == root || !run(events.take(j), root, prefixes).outsiders.contains(pid) || !watched(
            path_at_close,
            prefixes,
        ),
    ensures
        ({
            let before = run(events.take(i), root, prefixes);
            let write = op(
                OpType::FileWrite,
                before.introduce(pid).indices[pid],
                before.tool(pid),
                Seq::empty(),
                Seq::empty(),
            );
            operation::op_hashes(canonical_ops(events, root, prefixes)).contains(
                with_output(write, closed.identity()).normalized().hash(),
            )
        }),
{
    let before = run(events.take(i), root, prefixes);
    let write = op(
        OpType::FileWrite,
        before.introduce(pid).indices[pid],
        before.tool(pid),
        Seq::empty(),
        Seq::empty(),
    );
    let done = with_output(write, closed.identity());
    lemma_run_goes_on(events.take(i), 0, root, prefixes);
    let after = run(events.take(i + 1), root, prefixes);
    assert(events.take(i + 1).drop_last() =~= events.take(i));
    let k = after.ops.len() - 1;
    assert(open_at(after, (pid, fd), k, write));
    lemma_write_stays_open(events, i + 1, j, pid, fd, k, write, root, prefixes);
    assert(events.take(j + 1).drop_last() =~= events.take(j));
    assert(settled_at(run(events.take(j + 1), root, prefixes), k, done));
    lemma_settled_stays(events, j + 1, events.len() as int, k, done, root, prefixes);
    assert(events.take(events.len() as int) =~= events);
    assert(run(events, root, prefixes).ops[k] == done);
    lemma_recorded(events, done, root, prefixes);
}

/// What the events amount to, before it is put in order.
pub open spec fn recorded_ops(
    events: Seq<Traced>,
    root: u32,
    prefixes: Seq<Seq<char>>,
) -> Seq<OpView> {
    let s = run(events, root, prefixes);
    s.ops + s.external_ops
}

/// Whether an event is an open for writing at a watched path by a process outside
/// the tree.
pub open spec fn tampers(event: Traced, prefixes: Seq<Seq<char>>) -> bool {
    match event {
        Traced::FileOpen { path, flags, external, .. } => external && can_write(flags) && watched(
            path,
            prefixes,
        ),
        _ => false,
    }
}

/// Tampering from outside shows: where a process outside the tree opens a
/// watched path for writing, wherever in the trace, an external write is
/// recorded, and the canonical operations hold one that stands for it.
pub proof fn law_watched_writes_are_recorded(
    events: Seq<Traced>,
    i: int,
    root: u32,
    prefixes: Seq<Seq<char>>,
)
    requires
        0 <= i < events.len(),
        tampers(events[i], prefixes),
    ensures
        ({
            let all = recorded_ops(events, root, prefixes);
            let ops = canonical_ops(events, root, prefixes);
            exists|j: int, k: int|
                0 <= j < all.len() && 0 <= k < ops.len() && (#[trigger] all[j]).op_type
                    == OpType::ExternalFileWrite && operation::stands_for(
                    #[trigger] ops[k],
                    all[j].normalized(),
                )
        }),
{
    let before = run(events.take(i), root, prefixes);
    let after = run(events.take(i + 1), root, prefixes);
    assert(events.take(i + 1).drop_last() =~= events.take(i));
    let m = after.external_ops.len() - 1;
    assert(after.external_ops[m].op_type == OpType::ExternalFileWrite);
    lemma_run_goes_on(events, i + 1, root, prefixes);
    let s = run(events, root, prefixes);
    assert(after.external_ops[m] == s.external_ops[m] || is_write_op(after.external_ops[m]));
    let all = recorded_ops(events, root, prefixes);
    let ops = canonical_ops(events, root, prefixes);
    let j = s.ops.len() + m;
    assert(all[j] == s.external_ops[m]);
    operation::law_every_operation_is_kept(all, j);
    let k = choose|k: int|
        0 <= k < ops.len() && operation::stands_for(#[trigger] ops[k], all[j].normalized());
    assert(all[j].op_type == OpType::ExternalFileWrite && operation::stands_for(
        ops[k],
        all[j].normalized(),
    ));
}

/// A trace with such tampering does not have the root of one whose operations
/// hold no external write, or SHA-256 collides: on what was hashed for the two
/// roots, or on two operations of the tampered trace.
pub proof fn law_tampering_changes_the_root(
    tampered: Seq<Traced>,
    i: int,
    root: u32,
    prefixes: Seq<Seq<char>>,
    clean: Seq<OpView>,
)
    requires
        0 <= i < tampered.len(),
        tampers(tampered[i], prefixes),
        forall|k: int|
            0 <= k < clean.len() ==> (#[trigger] clean[k]).op_type != OpType::ExternalFileWrite,
    ensures
        ({
            let all = recorded_ops(tampered, root, prefixes);
            let ops = canonical_ops(tampered, root, prefixes);
            ||| merkle::merkle_root(operation::op_hashes(ops)) != merkle::merkle_root(
                operation::op_hashes(clean),
            )
            ||| merkle::collision_between(
                merkle::hashed_for_ops(ops),
                merkle::hashed_for_ops(clean),
            )
            ||| exists|j: int, k: int|
                0 <= j < all.len() && 0 <= k < ops.len() && digest::collide(
                    (#[trigger] ops[k]).hashed_bytes(),
                    (#[trigger] all[j]).normalized().hashed_bytes(),
                )
        }),
{
    let all = recorded_ops(tampered, root, prefixes);
    let ops = canonical_ops(tampered, root, prefixes);
    let a = operation::op_hashes(ops);
    let b = operation::op_hashes(clean);
    if merkle::merkle_root(a) == merkle::merkle_root(b) {
        merkle::law_root_commits_to_the_operations(ops, clean);
        law_watched_writes_are_recorded(tampered, i, root, prefixes);
        let (j, k) = choose|j: int, k: int|
            0 <= j < all.len() && 0 <= k < ops.len() && (#[trigger] all[j]).op_type
                == OpType::ExternalFileWrite && operation::stands_for(
                #[trigger] ops[k],
                all[j].normalized(),
            );
        if a == b && ops[k].op_type == OpType::ExternalFileWrite {
            assert(a[k] == ops[k].hash() && b[k] == clean[k].hash());
            let x = ops[k].hashed_bytes();
            let y = clean[k].hashed_bytes();
            digest::law_equal_hashes_mean_equal_inputs(x, y);
            if x == y {
                operation::law_hashed_bytes_show_the_kind(ops[k], clean[k]);
            }
            assert(merkle::hashed_for_ops(ops).contains(x));
            assert(merkle::hashed_for_ops(clean).contains(y));
            assert(merkle::collision_between(
                merkle::hashed_for_ops(ops),
                merkle::hashed_for_ops(clean),
            ));
        } else if a == b {
            assert(digest::collide(ops[k].hashed_bytes(), all[j].normalized().hashed_bytes()));
        }
    }
}

/// Whether an event only reads: a file is opened for reading alone, or mapped
/// without being written back.
pub open spec fn only_reads(event: Traced) -> bool {
    match event {
        Traced::FileOpen { flags, .. } => !can_write(flags),
        Traced::FileMmap { prot, flags, .. } => !writes_back(prot, flags),
        _ => false,
    }
}

/// The positions of open writes once one operation is placed behind position `k`.
spec fn shifted(pending: Map<(u32, i32), int>, k: int) -> Map<(u32, i32), int> {
    pending.map_values(
        |at: int|
            if at > k {
                at + 1
            } else {
                at
            },
    )
}

/// Whether `t` is `s` with the operation at `k`, no write, there twice: among
/// those of other processes where `outside`, else among those of the tree.
spec fn repeats_at(s: Canon, t: Canon, k: int, outside: bool) -> bool {
    let from = if outside {
        s.external_ops
    } else {
        s.ops
    };
    let repeated = from.insert(k + 1, from[k]);
    &&& 0 <= k < from.len()
    &&& !is_write_op(from[k])
    &&& if outside {
        t == Canon {
            external_ops: repeated,
            external_pending: shifted(s.external_pending, k),
            ..s
        }
    } else {
        t == Canon { ops: repeated, pending: shifted(s.pending, k), ..s }
    }
}

proof fn lemma_repeat_add_op(s: Canon, t: Canon, k: int, outside: bool, o: OpView)
    requires
        repeats_at(s, t, k, outside),
    ensures
        repeats_at(s.add_op(o), t.add_op(o), k, outside),
{
    if !outside {
        assert(s.ops.insert(k + 1, s.ops[k]).push(o) =~= s.ops.push(o).insert(k + 1, s.ops[k]));
    }
}

proof fn lemma_repeat_add_external(s: Canon, t: Canon, k: int, outside: bool, o: OpView)
    requires
        repeats_at(s, t, k, outside),
    ensures
        repeats_at(s.add_external(o), t.add_external(o), k, outside),
{
    if outside {
        assert(s.external_ops.insert(k + 1, s.external_ops[k]).push(o) =~= s.external_ops.push(
            o,
        ).insert(k + 1, s.external_ops[k]));
    }
}

proof fn lemma_shifted_insert(
    pending: Map<(u32, i32), int>,
    k: int,
    key: (u32, i32),
    at: int,
)
    requires
        at > k,
    ensures
        shifted(pending.insert(key, at), k) == shifted(pending, k).insert(key, at + 1),
{
    assert(shifted(pending.insert(key, at), k) =~= shifted(pending, k).insert(key, at + 1));
}

proof fn lemma_repeat_add_write(s: Canon, t: Canon, k: int, outside: bool, pid: u32, fd: i32)
    requires
        repeats_at(s, t, k, outside),
    ensures
        repeats_at(s.add_write(pid, fd), t.add_write(pid, fd), k, outside),
        repeats_at(s.add_external_write(pid, fd), t.add_external_write(pid, fd), k, outside),
{
    let o = op(OpType::FileWrite, s.indices[pid], s.tool(pid), Seq::empty(), Seq::empty());
    let e = op(OpType::ExternalFileWrite, u32::MAX, None, Seq::empty(), Seq::empty());
    lemma_repeat_add_op(s, t, k, outside, o);
    lemma_repeat_add_external(s, t, k, outside, e);
    if outside {
        lemma_shifted_insert(s.external_pending, k, (pid, fd), s.external_ops.len() as int);
    } else {
        lemma_shifted_insert(s.pending, k, (pid, fd), s.ops.len() as int);
    }
}

proof fn lemma_repeat_close(
    s: Canon,
    t: Canon,
    k: int,
    outside: bool,
    pid: u32,
    fd: i32,
    path: Seq<char>,
    external: bool,
    observation: Option<Observed>,
    root: u32,
    prefixes: Seq<Seq<char>>,
)
    requires
        repeats_at(s, t, k, outside),
        positions_hold(s),
    ensures
        repeats_at(
            s.close(pid, fd, path, external, observation, root, prefixes),
            t.close(pid, fd, path, external, observation, root, prefixes),
            k,
            outside,
        ),
{
    let key = (pid, fd);
    let x = s.close(pid, fd, path, external, observation, root, prefixes);
    let y = t.close(pid, fd, path, external, observation, root, prefixes);
    assert(shifted(s.pending.remove(key), k) =~= shifted(s.pending, k).remove(key));
    assert(shifted(s.external_pending.remove(key), k) =~= shifted(s.external_pending, k).remove(
        key,
    ));
    if outside {
        assert(y.external_ops =~= x.external_ops.insert(k + 1, x.external_ops[k]));
    } else {
        assert(y.ops =~= x.ops.insert(k + 1, x.ops[k]));
    }
}

proof fn lemma_repeat_step(
    s: Canon,
    t: Canon,
    k: int,
    outside: bool,
    event: Traced,
    root: u32,
    prefixes: Seq<Seq<char>>,
)
    requires
        repeats_at(s, t, k, outside),
        positions_hold(s),
    ensures
        repeats_at(s.step(event, root, prefixes), t.step(event, root, prefixes), k, outside),
{
    match event {
        Traced::Exec { pid, observation } => {
            let identity = observation.identity();
            let a = s.introduce(pid);
            let b = t.introduce(pid);
            lemma_repeat_add_op(
                Canon { tools: a.tools.insert(pid, identity), ..a },
                Canon { tools: b.tools.insert(pid, identity), ..b },
                k,
                outside,
                op(OpType::Exec, a.indices[pid], Some(identity), Seq::empty(), Seq::empty()),
            );
        },
        Traced::FileOpen { pid, path, flags, fd, external, observation } => {
            lemma_repeat_open(
                s,
                t,
                k,
                outside,
                pid,
                path,
                flags,
                fd,
                external,
                observation.identity(),
                root,
                prefixes,
            );
        },
        Traced::FileMmap { pid, fd, prot, flags, path, external, observation } => {
            if let (Some(p), Some(o)) = (path, observation) {
                lemma_repeat_mmap(
                    s,
                    t,
                    k,
                    outside,
                    pid,
                    fd,
                    prot,
                    flags,
                    p,
                    external,
                    o.identity(),
                    root,
                    prefixes,
                );
            }
        },
        Traced::FileClose { pid, fd, path, external, observation } => {
            if let Some(p) = path {
                lemma_repeat_close(
                    s,
                    t,
                    k,
                    outside,
                    pid,
                    fd,
                    p,
                    external,
                    observation,
                    root,
                    prefixes,
                );
            }
        },
        Traced::Exit { pid, exit_code } => {
            if s.indices.contains_key(pid) {
                let x = s.exit(pid, exit_code, root);
                lemma_repeat_add_op(s, t, k, outside, x.ops.last());
            }
        },
    }
}

proof fn lemma_repeat_open(
    s: Canon,
    t: Canon,
    k: int,
    outside: bool,
    pid: u32,
    path: Seq<char>,
    flags: u32,
    fd: i32,
    external: bool,
    identity: Seq<char>,
    root: u32,
    prefixes: Seq<Seq<char>>,
)
    requires
        repeats_at(s, t, k, outside),
    ensures
        repeats_at(
            s.open(pid, path, flags, fd, external, identity, root, prefixes),
            t.open(pid, path, flags, fd, external, identity, root, prefixes),
            k,
            outside,
        ),
{
    if external && !watched(path, prefixes) {
    } else if external || s.is_stray(pid, path, root, prefixes) {
        let a = s.add_outsider(pid);
        let b = t.add_outsider(pid);
        let o = op(OpType::ExternalFileRead, u32::MAX, None, Seq::empty(), seq![identity]);
        lemma_repeat_add_external(a, b, k, outside, o);
        if can_read(flags) {
            lemma_repeat_add_write(a.add_external(o), b.add_external(o), k, outside, pid, fd);
        } else {
            lemma_repeat_add_write(a, b, k, outside, pid, fd);
        }
    } else {
        let a = s.introduce(pid);
        let b = t.introduce(pid);
        let o = op(
            OpType::FileRead,
            a.indices[pid],
            a.tool(pid),
            Seq::empty(),
            seq![identity],
        );
        if file_identity::shows_system_state(path) {
            lemma_repeat_add_op(a, b, k, outside, a.system_state(pid).ops.last());
        } else {
            lemma_repeat_add_op(a, b, k, outside, o);
            if can_read(flags) {
                lemma_repeat_add_write(a.add_op(o), b.add_op(o), k, outside, pid, fd);
            } else {
                lemma_repeat_add_write(a, b, k, outside, pid, fd);
            }
        }
    }
}

proof fn lemma_repeat_mmap(
    s: Canon,
    t: Canon,
    k: int,
    outside: bool,
    pid: u32,
    fd: i32,
    prot: u32,
    flags: u32,
    path: Seq<char>,
    external: bool,
    identity: Seq<char>,
    root: u32,
    prefixes: Seq<Seq<char>>,
)
    requires
        repeats_at(s, t, k, outside),
    ensures
        repeats_at(
            s.mmap(pid, fd, prot, flags, path, external, identity, root, prefixes),
            t.mmap(pid, fd, prot, flags, path, external, identity, root, prefixes),
            k,
            outside,
        ),
{
    if external && !watched(path, prefixes) {
    } else if external || s.is_stray(pid, path, root, prefixes) {
        let a = s.add_outsider(pid);
        let b = t.add_outsider(pid);
        let o = op(OpType::ExternalFileRead, u32::MAX, None, seq!["mmap"@], seq![identity]);
        lemma_repeat_add_external(a, b, k, outside, o);
        lemma_repeat_add_write(a.add_external(o), b.add_external(o), k, outside, pid, fd);
    } else {
        let a = s.introduce(pid);
        let b = t.introduce(pid);
        let o = op(
            OpType::FileRead,
            a.indices[pid],
            a.tool(pid),
            seq!["mmap"@],
            seq![identity],
        );
        if file_identity::shows_system_state(path) {
            lemma_repeat_add_op(a, b, k, outside, a.system_state(pid).ops.last());
        } else {
            lemma_repeat_add_op(a, b, k, outside, o);
            lemma_repeat_add_write(a.add_op(o), b.add_op(o), k, outside, pid, fd);
        }
    }
}

/// Whether `t` is `s`, or `s` with one operation, no write, there twice.
spec fn repeats(s: Canon, t: Canon) -> bool {
    s == t || exists|k: int, outside: bool| repeats_at(s, t, k, outside)
}

proof fn lemma_second_read(s: Canon, event: Traced, root: u32, prefixes: Seq<Seq<char>>)
    requires
        positions_hold(s),
        only_reads(event),
    ensures
        ({
            let once = s.step(event, root, prefixes);
            repeats(once, once.step(event, root, prefixes))
        }),
{
    let once = s.step(event, root, prefixes);
    let twice = once.step(event, root, prefixes);
    lemma_step_goes_on(s, event, root, prefixes);
    if once.ops.len() > s.ops.len() {
        let k = once.ops.len() - 1;
        assert(twice.ops =~= once.ops.insert(k + 1, once.ops[k]));
        assert(shifted(once.pending, k) =~= once.pending);
        assert(repeats_at(once, twice, k, false));
    } else if once.external_ops.len() > s.external_ops.len() {
        let k = once.external_ops.len() - 1;
        assert(twice.external_ops =~= once.external_ops.insert(k + 1, once.external_ops[k]));
        assert(shifted(once.external_pending, k) =~= once.external_pending);
        assert(once.outsiders =~= twice.outsiders);
        assert(repeats_at(once, twice, k, true));
    } else {
        assert(once == twice);
    }
}

proof fn lemma_repeated_run(
    events: Seq<Traced>,
    i: int,
    root: u32,
    prefixes: Seq<Seq<char>>,
)
    requires
        0 <= i < events.len(),
        only_reads(events[i]),
    ensures
        repeats(
            run(events, root, prefixes),
            run(events.insert(i + 1, events[i]), root, prefixes),
        ),
    decreases events.len(),
{
    let longer = events.insert(i + 1, events[i]);
    let before = run(events.drop_last(), root, prefixes);
    lemma_run_goes_on(events.drop_last(), 0, root, prefixes);
    if i == events.len() - 1 {
        assert(longer.drop_last() =~= events);
        lemma_second_read(before, events[i], root, prefixes);
    } else {
        assert(longer.drop_last() =~= events.drop_last().insert(i + 1, events[i]));
        lemma_repeated_run(events.drop_last(), i, root, prefixes);
        let other = run(longer.drop_last(), root, prefixes);
        if before != other {
            let (k, outside) = choose|k: int, outside: bool|
                repeats_at(before, other, k, outside);
            lemma_repeat_step(before, other, k, outside, events.last(), root, prefixes);
        }
    }
}

/// How often a file is read in a row does not matter: repeating an open for
/// reading alone, or a mapping that is not written back, leaves the canonical
/// operations as they are.
pub proof fn law_repeated_reads_do_not_matter(
    events: Seq<Traced>,
    i: int,
    root: u32,
    prefixes: Seq<Seq<char>>,
)
    requires
        0 <= i < events.len(),
        only_reads(events[i]),
    ensures
        canonical_ops(events.insert(i + 1, events[i]), root, prefixes) == canonical_ops(
            events,
            root,
            prefixes,
        ),
{
    lemma_repeated_run(events, i, root, prefixes);
    let s = run(events, root, prefixes);
    let t = run(events.insert(i + 1, events[i]), root, prefixes);
    if s != t {
        let (k, outside) = choose|k: int, outside: bool| repeats_at(s, t, k, outside);
        let all = s.ops + s.external_ops;
        let at = if outside {
            s.ops.len() + k
        } else {
            k
        };
        assert(t.ops + t.external_ops =~= all.insert(at + 1, all[at]));
        operation::law_repeated_operations_do_not_matter(all, at, at + 1);
    }
}

} // verus!
