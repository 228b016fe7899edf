//! What the canonical operations of a trace cover, told from its events alone.
//!
//! Nothing here runs. The laws say which operations each event leaves behind,
//! and that no operation comes from anywhere else.

use crate::canonicalize;
use crate::canonicalize::Canon;
use crate::file_identity;
use crate::file_identity::Observed;
use crate::operation;
use crate::operation::{OpType, OpView};
use crate::order;
use crate::text;
use crate::tracer::Traced;
use vstd::prelude::*;
use vstd::string::*;

verus! {

// ---------------------------------------------------------------------------
// Events
// ---------------------------------------------------------------------------

/// The identity of the executable that a process executed last.
pub open spec fn last_executed(events: Seq<Traced>, process: u32) -> Option<Seq<char>>
    decreases events.len(),
{
    if events.len() == 0 {
        None
    } else {
        match events.last() {
            Traced::Exec { pid, observation } => if pid == process {
                Some(observation.identity())
            } else {
                last_executed(events.drop_last(), process)
            },
            _ => last_executed(events.drop_last(), process),
        }
    }
}

/// Whether a path lies within one of the prefixes.
pub open spec fn lies_within_any(path: Seq<char>, prefixes: Seq<Seq<char>>) -> bool {
    exists|j: int| 0 <= j < prefixes.len() && file_identity::within(path, #[trigger] prefixes[j])
}

/// Whether the event at `m` shows a process at a watched path from outside the
/// tree: it is marked so, or the process is not the root and was not seen to
/// execute before.
pub open spec fn acts_outside(
    events: Seq<Traced>,
    m: int,
    process: u32,
    root: u32,
    prefixes: Seq<Seq<char>>,
) -> bool {
    match events[m] {
        Traced::FileOpen { pid, path, external, .. } => pid == process && lies_within_any(
            path,
            prefixes,
        ) && (external || (process != root && last_executed(events.take(m), process) is None)),
        Traced::FileMmap { pid, path: Some(path), external, observation: Some(_), .. } => pid
            == process && lies_within_any(path, prefixes) && (external || (process != root
            && last_executed(events.take(m), process) is None)),
        _ => false,
    }
}

/// Whether a process acted from outside the tree before position `i`.
pub open spec fn was_outside(
    events: Seq<Traced>,
    i: int,
    process: u32,
    root: u32,
    prefixes: Seq<Seq<char>>,
) -> bool {
    exists|m: int| 0 <= m < i && #[trigger] acts_outside(events, m, process, root, prefixes)
}

/// Whether what a process does at a path, in an event that is not marked, counts
/// as done by the tree: it is the root, the path is not watched, or the process was
/// seen to execute and never acted from outside.
pub open spec fn counts_for_the_tree(
    events: Seq<Traced>,
    i: int,
    process: u32,
    path: Seq<char>,
    root: u32,
    prefixes: Seq<Seq<char>>,
) -> bool {
    process == root || !lies_within_any(path, prefixes) || (last_executed(
        events.take(i),
        process,
    ) is Some && !was_outside(events, i, process, root, prefixes))
}

/// Whether what a process does at a path counts as done from outside: the path is
/// watched, and the event is marked so, or it does not count for the tree.
pub open spec fn counts_as_outside(
    events: Seq<Traced>,
    i: int,
    process: u32,
    path: Seq<char>,
    external: bool,
    root: u32,
    prefixes: Seq<Seq<char>>,
) -> bool {
    lies_within_any(path, prefixes) && (external || !counts_for_the_tree(
        events,
        i,
        process,
        path,
        root,
        prefixes,
    ))
}

/// Whether the event at `m` shows a process at work in the tree: it executes, or it
/// opens or maps a file in a way that counts for the tree.
pub open spec fn acts_inside(
    events: Seq<Traced>,
    m: int,
    process: u32,
    root: u32,
    prefixes: Seq<Seq<char>>,
) -> bool {
    match events[m] {
        Traced::Exec { pid, .. } => pid == process,
        Traced::FileOpen { pid, path, external, .. } => pid == process && !external
            && counts_for_the_tree(events, m, process, path, root, prefixes),
        Traced::FileMmap { pid, path: Some(path), external, observation: Some(_), .. } => pid
            == process && !external && counts_for_the_tree(
            events,
            m,
            process,
            path,
            root,
            prefixes,
        ),
        _ => false,
    }
}

/// Whether a process is known in the tree before position `i`: it is the root, or
/// it was seen at work there.
pub open spec fn is_in_the_tree(
    events: Seq<Traced>,
    i: int,
    process: u32,
    root: u32,
    prefixes: Seq<Seq<char>>,
) -> bool {
    process == root || exists|m: int|
        0 <= m < i && #[trigger] acts_inside(events, m, process, root, prefixes)
}

/// Whether the canonical operations of a trace hold the hash of an operation with
/// these parts.
pub open spec fn covers(
    events: Seq<Traced>,
    root: u32,
    prefixes: Seq<Seq<char>>,
    op_type: OpType,
    tool_hash: Option<Seq<char>>,
    args: Seq<Seq<char>>,
    input_hashes: Seq<Seq<char>>,
    output_hashes: Seq<Seq<char>>,
) -> bool {
    operation::op_hashes(canonicalize::canonical_ops(events, root, prefixes)).contains(
        (OpView { op_type, process_index: 0, tool_hash, args, input_hashes, output_hashes }).hash(),
    )
}

// ---------------------------------------------------------------------------
// How the events lead to the state
// ---------------------------------------------------------------------------

proof fn lemma_tool(events: Seq<Traced>, process: u32, root: u32, prefixes: Seq<Seq<char>>)
    ensures
        canonicalize::run(events, root, prefixes).tool(process) == last_executed(events, process),
    decreases events.len(),
{
    if events.len() > 0 {
        lemma_tool(events.drop_last(), process, root, prefixes);
        let s = canonicalize::run(events.drop_last(), root, prefixes);
        let t = canonicalize::run(events, root, prefixes);
        match events.last() {
            Traced::Exec { pid, .. } => {
                assert(t.tools.contains_key(pid));
            },
            _ => {
                assert(t.tools == s.tools);
            },
        }
    }
}

proof fn lemma_outsiders(
    events: Seq<Traced>,
    i: int,
    process: u32,
    root: u32,
    prefixes: Seq<Seq<char>>,
)
    requires
        0 <= i <= events.len(),
        process != root,
    ensures
        canonicalize::run(events.take(i), root, prefixes).outsiders.contains(process)
            == was_outside(events, i, process, root, prefixes),
    decreases i,
{
    if i > 0 {
        lemma_outsiders(events, i - 1, process, root, prefixes);
        assert(events.take(i).drop_last() =~= events.take(i - 1));
        lemma_tool(events.take(i - 1), process, root, prefixes);
        let s = canonicalize::run(events.take(i - 1), root, prefixes);
        let t = canonicalize::run(events.take(i), root, prefixes);
        match events[i - 1] {
            Traced::FileOpen { path, .. } => {
                assert(canonicalize::watched(path, prefixes) == lies_within_any(path, prefixes));
            },
            Traced::FileMmap { path: Some(path), .. } => {
                assert(canonicalize::watched(path, prefixes) == lies_within_any(path, prefixes));
            },
            _ => {},
        }
        if was_outside(events, i - 1, process, root, prefixes) {
            let m = choose|m: int|
                0 <= m < i - 1 && #[trigger] acts_outside(events, m, process, root, prefixes);
            assert(acts_outside(events, m, process, root, prefixes));
            assert(t.outsiders.contains(process));
        } else {
            assert(t.outsiders.contains(process) == acts_outside(
                events,
                i - 1,
                process,
                root,
                prefixes,
            ));
            if was_outside(events, i, process, root, prefixes) {
                let m = choose|m: int|
                    0 <= m < i && #[trigger] acts_outside(events, m, process, root, prefixes);
                assert(m == i - 1);
            }
        }
    }
}

proof fn lemma_side(
    events: Seq<Traced>,
    i: int,
    process: u32,
    path: Seq<char>,
    root: u32,
    prefixes: Seq<Seq<char>>,
)
    requires
        0 <= i <= events.len(),
    ensures
        canonicalize::watched(path, prefixes) == lies_within_any(path, prefixes),
        counts_for_the_tree(events, i, process, path, root, prefixes) == !canonicalize::run(
            events.take(i),
            root,
            prefixes,
        ).is_stray(process, path, root, prefixes),
        process != root ==> canonicalize::run(
            events.take(i),
            root,
            prefixes,
        ).outsiders.contains(process) == was_outside(events, i, process, root, prefixes),
{
    lemma_tool(events.take(i), process, root, prefixes);
    if process != root {
        lemma_outsiders(events, i, process, root, prefixes);
    }
}

pub(crate) proof fn lemma_plain(op: OpView)
    requires
        op.args.len() <= 1,
        op.input_hashes.len() <= 1,
        op.output_hashes.len() <= 1,
    ensures
        op.normalized() == op,
{
    lemma_short_list(op.args);
    lemma_short_list(op.input_hashes);
    lemma_short_list(op.output_hashes);
}

proof fn lemma_short_list(list: Seq<Seq<char>>)
    requires
        list.len() <= 1,
    ensures
        order::sorted_texts(list) == list,
{
    if list.len() == 1 {
        order::lemma_single_is_sorted(list[0]);
        assert(list =~= seq![list[0]]);
    }
}

/// An operation of the state after some of the events, no write, is covered.
proof fn lemma_covered(
    events: Seq<Traced>,
    n: int,
    k: int,
    outside: bool,
    op: OpView,
    root: u32,
    prefixes: Seq<Seq<char>>,
)
    requires
        0 <= n <= events.len(),
        ({
            let s = canonicalize::run(events.take(n), root, prefixes);
            let ops = if outside {
                s.external_ops
            } else {
                s.ops
            };
            0 <= k < ops.len() && ops[k] == op
        }),
        op.op_type != OpType::FileWrite,
        op.op_type != OpType::ExternalFileWrite,
        op.args.len() <= 1,
        op.input_hashes.len() <= 1,
        op.output_hashes.len() <= 1,
    ensures
        covers(
            events,
            root,
            prefixes,
            op.op_type,
            op.tool_hash,
            op.args,
            op.input_hashes,
            op.output_hashes,
        ),
{
    canonicalize::lemma_run_goes_on(events, n, root, prefixes);
    let s = canonicalize::run(events, root, prefixes);
    if outside {
        assert(s.external_ops[k] == op);
    } else {
        assert(s.ops[k] == op);
    }
    canonicalize::lemma_recorded(events, op, root, prefixes);
    lemma_plain(op);
    assert(op.hash() == (OpView { process_index: 0, ..op }).hash());
}

// ---------------------------------------------------------------------------
// What each event leaves behind
// ---------------------------------------------------------------------------

/// An execution is covered, with the identity of what was executed.
pub proof fn law_executions_are_covered(
    events: Seq<Traced>,
    i: int,
    pid: u32,
    observation: Observed,
    root: u32,
    prefixes: Seq<Seq<char>>,
)
    requires
        0 <= i < events.len(),
        events[i] == (Traced::Exec { pid, observation }),
    ensures
        covers(
            events,
            root,
            prefixes,
            OpType::Exec,
            Some(observation.identity()),
            Seq::empty(),
            Seq::empty(),
            Seq::empty(),
        ),
{
    let before = canonicalize::run(events.take(i), root, prefixes);
    let after = canonicalize::run(events.take(i + 1), root, prefixes);
    assert(events.take(i + 1).drop_last() =~= events.take(i));
    lemma_covered(events, i + 1, before.ops.len() as int, false, after.ops.last(), root, prefixes);
}

/// A file that a process of the tree opens for reading, or for reading and
/// writing, is covered as read: by the tool that the process executed last, with
/// what was seen at the open.
pub proof fn law_opened_inputs_are_covered(
    events: Seq<Traced>,
    i: int,
    pid: u32,
    path: Seq<char>,
    flags: u32,
    fd: i32,
    observation: Observed,
    root: u32,
    prefixes: Seq<Seq<char>>,
)
    requires
        0 <= i < events.len(),
        events[i] == (Traced::FileOpen { pid, path, flags, fd, external: false, observation }),
        flags & 3 != 1,
        !file_identity::shows_system_state(path),
        counts_for_the_tree(events, i, pid, path, root, prefixes),
    ensures
        covers(
            events,
            root,
            prefixes,
            OpType::FileRead,
            last_executed(events.take(i), pid),
            Seq::empty(),
            seq![observation.identity()],
            Seq::empty(),
        ),
{
    let before = canonicalize::run(events.take(i), root, prefixes);
    let after = canonicalize::run(events.take(i + 1), root, prefixes);
    assert(events.take(i + 1).drop_last() =~= events.take(i));
    lemma_side(events, i, pid, path, root, prefixes);
    lemma_tool(events.take(i), pid, root, prefixes);
    let k = before.ops.len() as int;
    lemma_covered(events, i + 1, k, false, after.ops[k], root, prefixes);
}

/// A file that a process of the tree maps is covered as read: by the tool that
/// the process executed last, with what was seen at the mapping.
pub proof fn law_mapped_inputs_are_covered(
    events: Seq<Traced>,
    i: int,
    pid: u32,
    fd: i32,
    prot: u32,
    flags: u32,
    path: Seq<char>,
    observation: Observed,
    root: u32,
    prefixes: Seq<Seq<char>>,
)
    requires
        0 <= i < events.len(),
        events[i] == (Traced::FileMmap {
            pid,
            fd,
            prot,
            flags,
            path: Some(path),
            external: false,
            observation: Some(observation),
        }),
        !file_identity::shows_system_state(path),
        counts_for_the_tree(events, i, pid, path, root, prefixes),
    ensures
        covers(
            events,
            root,
            prefixes,
            OpType::FileRead,
            last_executed(events.take(i), pid),
            seq!["mmap"@],
            seq![observation.identity()],
            Seq::empty(),
        ),
{
    let before = canonicalize::run(events.take(i), root, prefixes);
    let after = canonicalize::run(events.take(i + 1), root, prefixes);
    assert(events.take(i + 1).drop_last() =~= events.take(i));
    lemma_side(events, i, pid, path, root, prefixes);
    lemma_tool(events.take(i), pid, root, prefixes);
    let k = before.ops.len() as int;
    lemma_covered(events, i + 1, k, false, after.ops[k], root, prefixes);
}

/// Whether an event shows system state to a process of the tree.
pub open spec fn shows_state(event: Traced, process: u32, shown: Seq<char>) -> bool {
    match event {
        Traced::FileOpen { pid, path, external, .. } => !external && pid == process && path
            == shown,
        Traced::FileMmap { pid, path, external, observation, .. } => !external && pid == process
            && path == Some(shown) && observation is Some,
        _ => false,
    }
}

/// A look at the state of the system is covered as such, whatever was seen there
/// and however it was opened.
pub proof fn law_system_state_is_covered(
    events: Seq<Traced>,
    i: int,
    pid: u32,
    path: Seq<char>,
    root: u32,
    prefixes: Seq<Seq<char>>,
)
    requires
        0 <= i < events.len(),
        shows_state(events[i], pid, path),
        file_identity::shows_system_state(path),
        counts_for_the_tree(events, i, pid, path, root, prefixes),
    ensures
        covers(
            events,
            root,
            prefixes,
            OpType::SystemStateRead,
            last_executed(events.take(i), pid),
            Seq::empty(),
            seq![file_identity::SYSTEM_STATE_SENTINEL@],
            Seq::empty(),
        ),
{
    let before = canonicalize::run(events.take(i), root, prefixes);
    let after = canonicalize::run(events.take(i + 1), root, prefixes);
    assert(events.take(i + 1).drop_last() =~= events.take(i));
    lemma_side(events, i, pid, path, root, prefixes);
    lemma_tool(events.take(i), pid, root, prefixes);
    let k = before.ops.len() as int;
    lemma_covered(events, i + 1, k, false, after.ops[k], root, prefixes);
}

/// The end of a process that is known in the tree is covered. Of the root it
/// carries the exit code, of another process it does not.
pub proof fn law_exits_are_covered(
    events: Seq<Traced>,
    i: int,
    pid: u32,
    exit_code: i32,
    root: u32,
    prefixes: Seq<Seq<char>>,
)
    requires
        0 <= i < events.len(),
        events[i] == (Traced::Exit { pid, exit_code }),
        is_in_the_tree(events, i, pid, root, prefixes),
    ensures
        covers(
            events,
            root,
            prefixes,
            OpType::Exit,
            last_executed(events.take(i), pid),
            if pid == root {
                seq!["exit:"@ + text::signed_decimal(exit_code as int)]
            } else {
                Seq::empty()
            },
            Seq::empty(),
            Seq::empty(),
        ),
{
    let before = canonicalize::run(events.take(i), root, prefixes);
    let after = canonicalize::run(events.take(i + 1), root, prefixes);
    assert(events.take(i + 1).drop_last() =~= events.take(i));
    lemma_tool(events.take(i), pid, root, prefixes);
    lemma_indexed(events, i, pid, root, prefixes);
    let k = before.ops.len() as int;
    lemma_covered(events, i + 1, k, false, after.ops[k], root, prefixes);
}

proof fn lemma_indexed(
    events: Seq<Traced>,
    i: int,
    process: u32,
    root: u32,
    prefixes: Seq<Seq<char>>,
)
    requires
        0 <= i <= events.len(),
    ensures
        canonicalize::run(events.take(i), root, prefixes).indices.contains_key(process)
            == is_in_the_tree(events, i, process, root, prefixes),
    decreases i,
{
    if i > 0 {
        lemma_indexed(events, i - 1, process, root, prefixes);
        assert(events.take(i).drop_last() =~= events.take(i - 1));
        let s = canonicalize::run(events.take(i - 1), root, prefixes);
        let t = canonicalize::run(events.take(i), root, prefixes);
        match events[i - 1] {
            Traced::FileOpen { pid, path, .. } => {
                lemma_side(events, i - 1, pid, path, root, prefixes);
            },
            Traced::FileMmap { pid, path: Some(path), .. } => {
                lemma_side(events, i - 1, pid, path, root, prefixes);
            },
            _ => {},
        }
        assert(t.indices.contains_key(process) == (s.indices.contains_key(process)
            || acts_inside(events, i - 1, process, root, prefixes)));
        if process != root && is_in_the_tree(events, i - 1, process, root, prefixes) {
            let m = choose|m: int|
                0 <= m < i - 1 && #[trigger] acts_inside(events, m, process, root, prefixes);
            assert(acts_inside(events, m, process, root, prefixes));
        }
        if process != root && is_in_the_tree(events, i, process, root, prefixes) {
            let m = choose|m: int|
                0 <= m < i && #[trigger] acts_inside(events, m, process, root, prefixes);
            assert(m == i - 1 || is_in_the_tree(events, i - 1, process, root, prefixes));
        }
    }
}

/// What is opened for reading, or for reading and writing, at a watched path from
/// outside the tree is covered as an external read with what was seen at the
/// open, whoever read it.
pub proof fn law_external_opens_are_covered(
    events: Seq<Traced>,
    i: int,
    pid: u32,
    path: Seq<char>,
    flags: u32,
    fd: i32,
    external: bool,
    observation: Observed,
    root: u32,
    prefixes: Seq<Seq<char>>,
)
    requires
        0 <= i < events.len(),
        events[i] == (Traced::FileOpen { pid, path, flags, fd, external, observation }),
        flags & 3 != 1,
        counts_as_outside(events, i, pid, path, external, root, prefixes),
    ensures
        covers(
            events,
            root,
            prefixes,
            OpType::ExternalFileRead,
            None,
            Seq::empty(),
            seq![observation.identity()],
            Seq::empty(),
        ),
{
    let before = canonicalize::run(events.take(i), root, prefixes);
    let after = canonicalize::run(events.take(i + 1), root, prefixes);
    assert(events.take(i + 1).drop_last() =~= events.take(i));
    lemma_side(events, i, pid, path, root, prefixes);
    let k = before.external_ops.len() as int;
    lemma_covered(events, i + 1, k, true, after.external_ops[k], root, prefixes);
}

/// What is mapped at a watched path from outside the tree is covered as an
/// external read with what was seen at the mapping.
pub proof fn law_external_mappings_are_covered(
    events: Seq<Traced>,
    i: int,
    pid: u32,
    fd: i32,
    prot: u32,
    flags: u32,
    path: Seq<char>,
    external: bool,
    observation: Observed,
    root: u32,
    prefixes: Seq<Seq<char>>,
)
    requires
        0 <= i < events.len(),
        events[i] == (Traced::FileMmap {
            pid,
            fd,
            prot,
            flags,
            path: Some(path),
            external,
            observation: Some(observation),
        }),
        counts_as_outside(events, i, pid, path, external, root, prefixes),
    ensures
        covers(
            events,
            root,
            prefixes,
            OpType::ExternalFileRead,
            None,
            seq!["mmap"@],
            seq![observation.identity()],
            Seq::empty(),
        ),
{
    let before = canonicalize::run(events.take(i), root, prefixes);
    let after = canonicalize::run(events.take(i + 1), root, prefixes);
    assert(events.take(i + 1).drop_last() =~= events.take(i));
    lemma_side(events, i, pid, path, root, prefixes);
    let k = before.external_ops.len() as int;
    lemma_covered(events, i + 1, k, true, after.external_ops[k], root, prefixes);
}

// ---------------------------------------------------------------------------
// Writes
// ---------------------------------------------------------------------------

/// Whether an event opens a file for writing on a descriptor of a process, or
/// closes one there whose path is known.
pub open spec fn reuses(event: Traced, process: u32, descriptor: i32) -> bool {
    match event {
        Traced::FileOpen { pid, fd, flags, .. } => pid == process && fd == descriptor && flags & 3
            != 0,
        Traced::FileClose { pid, fd, path, .. } => pid == process && fd == descriptor && path
            is Some,
        _ => false,
    }
}

/// Whether a close is one by the tree: it is not marked as one from outside, and the
/// process is the root, the path is not watched, or the process never acted from
/// outside.
pub open spec fn closes_inside(
    events: Seq<Traced>,
    j: int,
    process: u32,
    path: Seq<char>,
    external: bool,
    root: u32,
    prefixes: Seq<Seq<char>>,
) -> bool {
    !external && (process == root || !lies_within_any(path, prefixes) || !was_outside(
        events,
        j,
        process,
        root,
        prefixes,
    ))
}

/// Whether an event makes a descriptor of a process one that is written through:
/// an open for writing, or a mapping that is writable and shared.
pub open spec fn writes_through(event: Traced, process: u32, descriptor: i32) -> bool {
    match event {
        Traced::FileOpen { pid, fd, flags, .. } => pid == process && fd == descriptor && flags & 3
            != 0,
        Traced::FileMmap { pid, fd, prot, flags, .. } => pid == process && fd == descriptor && prot
            & 2 == 2 && flags & 1 == 1,
        _ => false,
    }
}

proof fn lemma_write_flags(prot: u32, flags: u32)
    ensures
        (prot & 2 != 0) == (prot & 2 == 2),
        (flags & 1 != 0) == (flags & 1 == 1),
{
    assert(prot & 2 == 0 || prot & 2 == 2) by (bit_vector);
    assert(flags & 1 == 0 || flags & 1 == 1) by (bit_vector);
}

proof fn lemma_finished_write_is_covered(
    events: Seq<Traced>,
    n: int,
    k: int,
    done: OpView,
    root: u32,
    prefixes: Seq<Seq<char>>,
)
    requires
        0 <= n <= events.len(),
        canonicalize::settled_at(canonicalize::run(events.take(n), root, prefixes), k, done),
        done.args.len() <= 1,
        done.input_hashes.len() <= 1,
        done.output_hashes.len() <= 1,
    ensures
        covers(
            events,
            root,
            prefixes,
            done.op_type,
            done.tool_hash,
            done.args,
            done.input_hashes,
            done.output_hashes,
        ),
{
    canonicalize::lemma_settled_stays(
        events,
        n,
        events.len() as int,
        k,
        done,
        root,
        prefixes,
    );
    assert(events.take(events.len() as int) =~= events);
    assert(canonicalize::run(events, root, prefixes).ops[k] == done);
    canonicalize::lemma_recorded(events, done, root, prefixes);
    lemma_plain(done);
    assert(done.hash() == (OpView { process_index: 0, ..done }).hash());
}

proof fn lemma_stays_open_inside(
    events: Seq<Traced>,
    i: int,
    j: int,
    pid: u32,
    fd: i32,
    k: int,
    write: OpView,
    root: u32,
    prefixes: Seq<Seq<char>>,
)
    requires
        0 <= i <= j <= events.len(),
        canonicalize::open_at(
            canonicalize::run(events.take(i), root, prefixes),
            (pid, fd),
            k,
            write,
        ),
        forall|m: int| i <= m < j ==> !reuses(#[trigger] events[m], pid, fd),
    ensures
        canonicalize::open_at(
            canonicalize::run(events.take(j), root, prefixes),
            (pid, fd),
            k,
            write,
        ),
    decreases j,
{
    if i < j {
        lemma_stays_open_inside(events, i, j - 1, pid, fd, k, write, root, prefixes);
        assert(events.take(j).drop_last() =~= events.take(j - 1));
        assert(!reuses(events[j - 1], pid, fd));
        let s = canonicalize::run(events.take(j - 1), root, prefixes);
        canonicalize::lemma_run_goes_on(events.take(j - 1), 0, root, prefixes);
        if let Traced::FileClose { pid: other, fd: descriptor, .. } = events[j - 1] {
            if (other, descriptor) != (pid, fd) {
                assert(s.pending.contains_key((other, descriptor)) ==> s.pending[(
                    other,
                    descriptor,
                )] != k);
            }
        }
    }
}

/// The close of a write of the tree settles what was written.
proof fn lemma_close_settles(
    events: Seq<Traced>,
    i: int,
    j: int,
    pid: u32,
    fd: i32,
    k: int,
    write: OpView,
    path_at_close: Seq<char>,
    closed: Observed,
    root: u32,
    prefixes: Seq<Seq<char>>,
)
    requires
        0 <= i < j < events.len(),
        canonicalize::open_at(
            canonicalize::run(events.take(i + 1), root, prefixes),
            (pid, fd),
            k,
            write,
        ),
        forall|m: int| i < m < j ==> !reuses(#[trigger] events[m], pid, fd),
        events[j] == (Traced::FileClose {
            pid,
            fd,
            path: Some(path_at_close),
            external: false,
            observation: Some(closed),
        }),
        closes_inside(events, j, pid, path_at_close, false, root, prefixes),
        write.args.len() <= 1,
        write.input_hashes.len() <= 1,
        write.output_hashes.len() == 0,
    ensures
        covers(
            events,
            root,
            prefixes,
            write.op_type,
            write.tool_hash,
            write.args,
            write.input_hashes,
            seq![closed.identity()],
        ),
{
    lemma_stays_open_inside(events, i + 1, j, pid, fd, k, write, root, prefixes);
    assert(events.take(j + 1).drop_last() =~= events.take(j));
    let s = canonicalize::run(events.take(j), root, prefixes);
    canonicalize::lemma_run_goes_on(events.take(j), 0, root, prefixes);
    lemma_side(events, j, pid, path_at_close, root, prefixes);
    let done = OpView { output_hashes: seq![closed.identity()], ..write };
    let t = canonicalize::run(events.take(j + 1), root, prefixes);
    assert(t.ops[k].output_hashes =~= seq![closed.identity()]);
    assert(t.ops[k] == done);
    assert(canonicalize::settled_at(t, k, done));
    lemma_finished_write_is_covered(events, j + 1, k, done, root, prefixes);
}

/// What a process of the tree writes to a file that it opened for writing, or for
/// reading and writing, is covered: by the tool that the process had executed last
/// at the open, with what was seen at the close.
pub proof fn law_written_outputs_are_covered(
    events: Seq<Traced>,
    i: int,
    j: int,
    pid: u32,
    path: Seq<char>,
    flags: u32,
    fd: i32,
    opened: Observed,
    path_at_close: Seq<char>,
    closed: Observed,
    root: u32,
    prefixes: Seq<Seq<char>>,
)
    requires
        0 <= i < j < events.len(),
        events[i] == (Traced::FileOpen {
            pid,
            path,
            flags,
            fd,
            external: false,
            observation: opened,
        }),
        flags & 3 != 0,
        !file_identity::shows_system_state(path),
        counts_for_the_tree(events, i, pid, path, root, prefixes),
        forall|m: int| i < m < j ==> !reuses(#[trigger] events[m], pid, fd),
        events[j] == (Traced::FileClose {
            pid,
            fd,
            path: Some(path_at_close),
            external: false,
            observation: Some(closed),
        }),
        closes_inside(events, j, pid, path_at_close, false, root, prefixes),
    ensures
        covers(
            events,
            root,
            prefixes,
            OpType::FileWrite,
            last_executed(events.take(i), pid),
            Seq::empty(),
            Seq::empty(),
            seq![closed.identity()],
        ),
{
    let before = canonicalize::run(events.take(i), root, prefixes);
    let after = canonicalize::run(events.take(i + 1), root, prefixes);
    assert(events.take(i + 1).drop_last() =~= events.take(i));
    lemma_side(events, i, pid, path, root, prefixes);
    lemma_tool(events.take(i), pid, root, prefixes);
    canonicalize::lemma_run_goes_on(events.take(i), 0, root, prefixes);
    let k = after.ops.len() - 1;
    let write = after.ops[k];
    assert(canonicalize::open_at(after, (pid, fd), k, write));
    lemma_close_settles(
        events,
        i,
        j,
        pid,
        fd,
        k,
        write,
        path_at_close,
        closed,
        root,
        prefixes,
    );
}

proof fn lemma_not_written_through(
    events: Seq<Traced>,
    n: int,
    pid: u32,
    fd: i32,
    root: u32,
    prefixes: Seq<Seq<char>>,
)
    requires
        0 <= n <= events.len(),
        forall|m: int| 0 <= m < n ==> !writes_through(#[trigger] events[m], pid, fd),
    ensures
        !canonicalize::run(events.take(n), root, prefixes).pending.contains_key((pid, fd)),
        !canonicalize::run(events.take(n), root, prefixes).external_pending.contains_key(
            (pid, fd),
        ),
    decreases n,
{
    if n > 0 {
        lemma_not_written_through(events, n - 1, pid, fd, root, prefixes);
        assert(events.take(n).drop_last() =~= events.take(n - 1));
        let e = events[n - 1];
        assert(!writes_through(e, pid, fd));
        match e {
            Traced::FileOpen { flags, .. } => {
                        },
            Traced::FileMmap { prot, flags, .. } => {
                lemma_write_flags(prot, flags);
            },
            _ => {},
        }
    }
}

/// What a process of the tree writes to a file through a mapping that is writable
/// and shared is covered, with what was seen at the close, though the file was not
/// opened for writing.
pub proof fn law_mapped_outputs_are_covered(
    events: Seq<Traced>,
    i: int,
    j: int,
    pid: u32,
    fd: i32,
    prot: u32,
    flags: u32,
    path: Seq<char>,
    mapped: Observed,
    path_at_close: Seq<char>,
    closed: Observed,
    root: u32,
    prefixes: Seq<Seq<char>>,
)
    requires
        0 <= i < j < events.len(),
        events[i] == (Traced::FileMmap {
            pid,
            fd,
            prot,
            flags,
            path: Some(path),
            external: false,
            observation: Some(mapped),
        }),
        prot & 2 == 2,
        flags & 1 == 1,
        !file_identity::shows_system_state(path),
        counts_for_the_tree(events, i, pid, path, root, prefixes),
        forall|m: int| 0 <= m < i ==> !writes_through(#[trigger] events[m], pid, fd),
        forall|m: int| i < m < j ==> !reuses(#[trigger] events[m], pid, fd),
        events[j] == (Traced::FileClose {
            pid,
            fd,
            path: Some(path_at_close),
            external: false,
            observation: Some(closed),
        }),
        closes_inside(events, j, pid, path_at_close, false, root, prefixes),
    ensures
        covers(
            events,
            root,
            prefixes,
            OpType::FileWrite,
            last_executed(events.take(i), pid),
            Seq::empty(),
            Seq::empty(),
            seq![closed.identity()],
        ),
{
    let before = canonicalize::run(events.take(i), root, prefixes);
    let after = canonicalize::run(events.take(i + 1), root, prefixes);
    assert(events.take(i + 1).drop_last() =~= events.take(i));
    lemma_side(events, i, pid, path, root, prefixes);
    lemma_tool(events.take(i), pid, root, prefixes);
    lemma_write_flags(prot, flags);
    lemma_not_written_through(events, i, pid, fd, root, prefixes);
    canonicalize::lemma_run_goes_on(events.take(i), 0, root, prefixes);
    let k = after.ops.len() - 1;
    let write = after.ops[k];
    assert(canonicalize::open_at(after, (pid, fd), k, write));
    lemma_close_settles(
        events,
        i,
        j,
        pid,
        fd,
        k,
        write,
        path_at_close,
        closed,
        root,
        prefixes,
    );
}

/// Whether a write stands at `k` that at most the given descriptor leads to.
spec fn left_at(s: Canon, key: (u32, i32), k: int, write: OpView) -> bool {
    &&& 0 <= k < s.ops.len()
    &&& s.ops[k] == write
    &&& forall|other: (u32, i32)| #[trigger]
        s.pending.contains_key(other) && other != key ==> s.pending[other] != k
}

/// Whether an event closes a descriptor of a process and shows what it held.
pub open spec fn shows_at_close(event: Traced, process: u32, descriptor: i32) -> bool {
    match event {
        Traced::FileClose { pid, fd, path, observation, .. } => pid == process && fd == descriptor
            && path is Some && observation is Some,
        _ => false,
    }
}

proof fn lemma_left_stays(
    events: Seq<Traced>,
    i: int,
    j: int,
    pid: u32,
    fd: i32,
    k: int,
    write: OpView,
    root: u32,
    prefixes: Seq<Seq<char>>,
)
    requires
        0 <= i <= j <= events.len(),
        left_at(canonicalize::run(events.take(i), root, prefixes), (pid, fd), k, write),
        forall|m: int| i <= m < j ==> !shows_at_close(#[trigger] events[m], pid, fd),
    ensures
        left_at(canonicalize::run(events.take(j), root, prefixes), (pid, fd), k, write),
    decreases j,
{
    if i < j {
        lemma_left_stays(events, i, j - 1, pid, fd, k, write, root, prefixes);
        assert(events.take(j).drop_last() =~= events.take(j - 1));
        assert(!shows_at_close(events[j - 1], pid, fd));
        let s = canonicalize::run(events.take(j - 1), root, prefixes);
        canonicalize::lemma_run_goes_on(events.take(j - 1), 0, root, prefixes);
        if let Traced::FileClose { pid: other, fd: descriptor, .. } = events[j - 1] {
            if (other, descriptor) != (pid, fd) {
                assert(s.pending.contains_key((other, descriptor)) ==> s.pending[(
                    other,
                    descriptor,
                )] != k);
            }
        }
    }
}

/// A file that a process of the tree opens for writing, and of which no close shows
/// what it came to hold, is covered as written without it.
pub proof fn law_unfinished_writes_are_covered(
    events: Seq<Traced>,
    i: int,
    pid: u32,
    path: Seq<char>,
    flags: u32,
    fd: i32,
    observation: Observed,
    root: u32,
    prefixes: Seq<Seq<char>>,
)
    requires
        0 <= i < events.len(),
        events[i] == (Traced::FileOpen { pid, path, flags, fd, external: false, observation }),
        flags & 3 != 0,
        !file_identity::shows_system_state(path),
        counts_for_the_tree(events, i, pid, path, root, prefixes),
        forall|m: int| i < m < events.len() ==> !shows_at_close(#[trigger] events[m], pid, fd),
    ensures
        covers(
            events,
            root,
            prefixes,
            OpType::FileWrite,
            last_executed(events.take(i), pid),
            Seq::empty(),
            Seq::empty(),
            Seq::empty(),
        ),
{
    let after = canonicalize::run(events.take(i + 1), root, prefixes);
    assert(events.take(i + 1).drop_last() =~= events.take(i));
    lemma_side(events, i, pid, path, root, prefixes);
    lemma_tool(events.take(i), pid, root, prefixes);
    canonicalize::lemma_run_goes_on(events.take(i), 0, root, prefixes);
    let k = after.ops.len() - 1;
    let write = after.ops[k];
    assert(left_at(after, (pid, fd), k, write));
    lemma_left_stays(
        events,
        i + 1,
        events.len() as int,
        pid,
        fd,
        k,
        write,
        root,
        prefixes,
    );
    assert(events.take(events.len() as int) =~= events);
    assert(canonicalize::run(events, root, prefixes).ops[k] == write);
    canonicalize::lemma_recorded(events, write, root, prefixes);
    lemma_plain(write);
    assert(write.hash() == (OpView { process_index: 0, ..write }).hash());
}

/// Whether an external write stands at `k`, open on the given descriptor alone.
spec fn open_outside(s: Canon, key: (u32, i32), k: int, write: OpView) -> bool {
    &&& 0 <= k < s.external_ops.len()
    &&& s.external_ops[k] == write
    &&& s.external_pending.contains_key(key)
    &&& s.external_pending[key] == k
    &&& s.outsiders.contains(key.0)
    &&& forall|other: (u32, i32)| #[trigger]
        s.external_pending.contains_key(other) && other != key ==> s.external_pending[other] != k
}

spec fn settled_outside(s: Canon, k: int, done: OpView) -> bool {
    &&& 0 <= k < s.external_ops.len()
    &&& s.external_ops[k] == done
    &&& forall|key: (u32, i32)| #[trigger]
        s.external_pending.contains_key(key) ==> s.external_pending[key] != k
}

proof fn lemma_stays_open_outside(
    events: Seq<Traced>,
    i: int,
    j: int,
    pid: u32,
    fd: i32,
    k: int,
    write: OpView,
    root: u32,
    prefixes: Seq<Seq<char>>,
)
    requires
        0 <= i <= j <= events.len(),
        open_outside(canonicalize::run(events.take(i), root, prefixes), (pid, fd), k, write),
        forall|m: int| i <= m < j ==> !reuses(#[trigger] events[m], pid, fd),
    ensures
        open_outside(canonicalize::run(events.take(j), root, prefixes), (pid, fd), k, write),
    decreases j,
{
    if i < j {
        lemma_stays_open_outside(events, i, j - 1, pid, fd, k, write, root, prefixes);
        assert(events.take(j).drop_last() =~= events.take(j - 1));
        assert(!reuses(events[j - 1], pid, fd));
        let s = canonicalize::run(events.take(j - 1), root, prefixes);
        canonicalize::lemma_run_goes_on(events.take(j - 1), 0, root, prefixes);
        if let Traced::FileClose { pid: other, fd: descriptor, .. } = events[j - 1] {
            if (other, descriptor) != (pid, fd) {
                assert(s.external_pending.contains_key((other, descriptor))
                    ==> s.external_pending[(other, descriptor)] != k);
            }
        }
    }
}

proof fn lemma_stays_settled_outside(
    events: Seq<Traced>,
    i: int,
    j: int,
    k: int,
    done: OpView,
    root: u32,
    prefixes: Seq<Seq<char>>,
)
    requires
        0 <= i <= j <= events.len(),
        settled_outside(canonicalize::run(events.take(i), root, prefixes), k, done),
    ensures
        settled_outside(canonicalize::run(events.take(j), root, prefixes), k, done),
    decreases j,
{
    if i < j {
        lemma_stays_settled_outside(events, i, j - 1, k, done, root, prefixes);
        assert(events.take(j).drop_last() =~= events.take(j - 1));
        canonicalize::lemma_run_goes_on(events.take(j - 1), 0, root, prefixes);
    }
}

proof fn lemma_outside_close_settles(
    events: Seq<Traced>,
    i: int,
    j: int,
    pid: u32,
    fd: i32,
    k: int,
    write: OpView,
    path_at_close: Seq<char>,
    external_at_close: bool,
    closed: Observed,
    root: u32,
    prefixes: Seq<Seq<char>>,
)
    requires
        0 <= i < j < events.len(),
        open_outside(canonicalize::run(events.take(i + 1), root, prefixes), (pid, fd), k, write),
        forall|m: int| i < m < j ==> !reuses(#[trigger] events[m], pid, fd),
        events[j] == (Traced::FileClose {
            pid,
            fd,
            path: Some(path_at_close),
            external: external_at_close,
            observation: Some(closed),
        }),
        !closes_inside(events, j, pid, path_at_close, external_at_close, root, prefixes),
        write.args.len() <= 1,
        write.input_hashes.len() <= 1,
        write.output_hashes.len() == 0,
    ensures
        covers(
            events,
            root,
            prefixes,
            write.op_type,
            write.tool_hash,
            write.args,
            write.input_hashes,
            seq![closed.identity()],
        ),
{
    lemma_side(events, j, pid, path_at_close, root, prefixes);
    lemma_stays_open_outside(events, i + 1, j, pid, fd, k, write, root, prefixes);
    assert(events.take(j + 1).drop_last() =~= events.take(j));
    let s = canonicalize::run(events.take(j), root, prefixes);
    canonicalize::lemma_run_goes_on(events.take(j), 0, root, prefixes);
    let t = canonicalize::run(events.take(j + 1), root, prefixes);
    let done = OpView { output_hashes: seq![closed.identity()], ..write };
    assert(t.external_ops[k].output_hashes =~= seq![closed.identity()]);
    assert(t.external_ops[k] == done);
    assert(settled_outside(t, k, done));
    lemma_stays_settled_outside(
        events,
        j + 1,
        events.len() as int,
        k,
        done,
        root,
        prefixes,
    );
    assert(events.take(events.len() as int) =~= events);
    assert(canonicalize::run(events, root, prefixes).external_ops[k] == done);
    canonicalize::lemma_recorded(events, done, root, prefixes);
    lemma_plain(done);
    assert(done.hash() == (OpView { process_index: 0, ..done }).hash());
}

/// What is written from outside the tree to a file at a watched path that was
/// opened for writing, or for reading and writing, is covered as an external
/// write, with what was seen at the close.
pub proof fn law_external_writes_are_covered(
    events: Seq<Traced>,
    i: int,
    j: int,
    pid: u32,
    path: Seq<char>,
    flags: u32,
    fd: i32,
    external: bool,
    opened: Observed,
    path_at_close: Seq<char>,
    external_at_close: bool,
    closed: Observed,
    root: u32,
    prefixes: Seq<Seq<char>>,
)
    requires
        0 <= i < j < events.len(),
        events[i] == (Traced::FileOpen { pid, path, flags, fd, external, observation: opened }),
        flags & 3 != 0,
        counts_as_outside(events, i, pid, path, external, root, prefixes),
        forall|m: int| i < m < j ==> !reuses(#[trigger] events[m], pid, fd),
        events[j] == (Traced::FileClose {
            pid,
            fd,
            path: Some(path_at_close),
            external: external_at_close,
            observation: Some(closed),
        }),
        !closes_inside(events, j, pid, path_at_close, external_at_close, root, prefixes),
    ensures
        covers(
            events,
            root,
            prefixes,
            OpType::ExternalFileWrite,
            None,
            Seq::empty(),
            Seq::empty(),
            seq![closed.identity()],
        ),
{
    let before = canonicalize::run(events.take(i), root, prefixes);
    let after = canonicalize::run(events.take(i + 1), root, prefixes);
    assert(events.take(i + 1).drop_last() =~= events.take(i));
    lemma_side(events, i, pid, path, root, prefixes);
    lemma_side(events, j, pid, path_at_close, root, prefixes);
    canonicalize::lemma_run_goes_on(events.take(i), 0, root, prefixes);
    let k = after.external_ops.len() - 1;
    let write = after.external_ops[k];
    assert(open_outside(after, (pid, fd), k, write));
    lemma_outside_close_settles(
        events,
        i,
        j,
        pid,
        fd,
        k,
        write,
        path_at_close,
        external_at_close,
        closed,
        root,
        prefixes,
    );
}

/// What is written from outside the tree through a mapping at a watched path that
/// is writable and shared is covered as an external write, with what was seen at
/// the close, though the file was not opened for writing.
pub proof fn law_external_mapped_writes_are_covered(
    events: Seq<Traced>,
    i: int,
    j: int,
    pid: u32,
    fd: i32,
    prot: u32,
    flags: u32,
    path: Seq<char>,
    external: bool,
    mapped: Observed,
    path_at_close: Seq<char>,
    external_at_close: bool,
    closed: Observed,
    root: u32,
    prefixes: Seq<Seq<char>>,
)
    requires
        0 <= i < j < events.len(),
        events[i] == (Traced::FileMmap {
            pid,
            fd,
            prot,
            flags,
            path: Some(path),
            external,
            observation: Some(mapped),
        }),
        prot & 2 == 2,
        flags & 1 == 1,
        counts_as_outside(events, i, pid, path, external, root, prefixes),
        forall|m: int| 0 <= m < i ==> !writes_through(#[trigger] events[m], pid, fd),
        forall|m: int| i < m < j ==> !reuses(#[trigger] events[m], pid, fd),
        events[j] == (Traced::FileClose {
            pid,
            fd,
            path: Some(path_at_close),
            external: external_at_close,
            observation: Some(closed),
        }),
        !closes_inside(events, j, pid, path_at_close, external_at_close, root, prefixes),
    ensures
        covers(
            events,
            root,
            prefixes,
            OpType::ExternalFileWrite,
            None,
            Seq::empty(),
            Seq::empty(),
            seq![closed.identity()],
        ),
{
    let after = canonicalize::run(events.take(i + 1), root, prefixes);
    assert(events.take(i + 1).drop_last() =~= events.take(i));
    lemma_side(events, i, pid, path, root, prefixes);
    lemma_write_flags(prot, flags);
    lemma_not_written_through(events, i, pid, fd, root, prefixes);
    canonicalize::lemma_run_goes_on(events.take(i), 0, root, prefixes);
    let k = after.external_ops.len() - 1;
    let write = after.external_ops[k];
    assert(open_outside(after, (pid, fd), k, write));
    lemma_outside_close_settles(
        events,
        i,
        j,
        pid,
        fd,
        k,
        write,
        path_at_close,
        external_at_close,
        closed,
        root,
        prefixes,
    );
}

// ---------------------------------------------------------------------------
// Nothing else is covered
// ---------------------------------------------------------------------------

/// Whether the outputs of a write are those of a write that was opened at `i`, by
/// the tree or from outside: none as long as nothing was seen at a close of its
/// descriptor from the same side, or what was.
pub open spec fn are_outputs_of(
    events: Seq<Traced>,
    i: int,
    process: u32,
    descriptor: i32,
    inside: bool,
    root: u32,
    prefixes: Seq<Seq<char>>,
    outputs: Seq<Seq<char>>,
) -> bool {
    outputs.len() == 0 || exists|j: int|
        i < j < events.len() && #[trigger] closes_with(
            events,
            j,
            process,
            descriptor,
            inside,
            root,
            prefixes,
            outputs,
        )
}

/// Whether the event at `j` closes a descriptor of a process, by the tree or from
/// outside, and shows what it held.
pub open spec fn closes_with(
    events: Seq<Traced>,
    j: int,
    process: u32,
    descriptor: i32,
    inside: bool,
    root: u32,
    prefixes: Seq<Seq<char>>,
    outputs: Seq<Seq<char>>,
) -> bool {
    match events[j] {
        Traced::FileClose { pid, fd, path: Some(path), external, observation: Some(o) } => pid
            == process && fd == descriptor && outputs == seq![o.identity()] && closes_inside(
            events,
            j,
            process,
            path,
            external,
            root,
            prefixes,
        ) == inside,
        _ => false,
    }
}

/// Whether the event at `m` opens a file for writing on a descriptor of a process,
/// by the tree or from outside.
pub open spec fn opens_for_writing(
    events: Seq<Traced>,
    m: int,
    process: u32,
    descriptor: i32,
    inside: bool,
    root: u32,
    prefixes: Seq<Seq<char>>,
) -> bool {
    match events[m] {
        Traced::FileOpen { pid, path, flags, fd, external, .. } => pid == process && fd
            == descriptor && flags & 3 != 0 && if inside {
            !external && counts_for_the_tree(events, m, process, path, root, prefixes)
                && !file_identity::shows_system_state(path)
        } else {
            counts_as_outside(events, m, process, path, external, root, prefixes)
        },
        _ => false,
    }
}

/// Whether the event at `m` closes a descriptor of a process, by the tree or from
/// outside.
pub open spec fn closes_from(
    events: Seq<Traced>,
    m: int,
    process: u32,
    descriptor: i32,
    inside: bool,
    root: u32,
    prefixes: Seq<Seq<char>>,
) -> bool {
    match events[m] {
        Traced::FileClose { pid, fd, path: Some(path), external, .. } => pid == process && fd
            == descriptor && closes_inside(events, m, process, path, external, root, prefixes)
            == inside,
        _ => false,
    }
}

/// Whether a descriptor of a process is open for writing when the event at `i`
/// arrives.
pub open spec fn is_open_for_writing(
    events: Seq<Traced>,
    i: int,
    process: u32,
    descriptor: i32,
    inside: bool,
    root: u32,
    prefixes: Seq<Seq<char>>,
) -> bool {
    exists|m: int|
        0 <= m < i && #[trigger] opens_for_writing(
            events,
            m,
            process,
            descriptor,
            inside,
            root,
            prefixes,
        ) && forall|k: int|
            m < k < i ==> !#[trigger] closes_from(
                events,
                k,
                process,
                descriptor,
                inside,
                root,
                prefixes,
            )
}

proof fn lemma_open_for_writing(
    events: Seq<Traced>,
    m: int,
    i: int,
    process: u32,
    descriptor: i32,
    inside: bool,
    root: u32,
    prefixes: Seq<Seq<char>>,
)
    requires
        0 <= m < i <= events.len(),
        opens_for_writing(events, m, process, descriptor, inside, root, prefixes),
        forall|k: int|
            m < k < i ==> !#[trigger] closes_from(
                events,
                k,
                process,
                descriptor,
                inside,
                root,
                prefixes,
            ),
    ensures
        ({
            let s = canonicalize::run(events.take(i), root, prefixes);
            if inside {
                s.pending.contains_key((process, descriptor))
            } else {
                s.external_pending.contains_key((process, descriptor))
            }
        }),
    decreases i,
{
    assert(events.take(i).drop_last() =~= events.take(i - 1));
    if i == m + 1 {
        if let Traced::FileOpen { path, .. } = events[m] {
            lemma_side(events, m, process, path, root, prefixes);
        }
    } else {
        lemma_open_for_writing(
            events,
            m,
            i - 1,
            process,
            descriptor,
            inside,
            root,
            prefixes,
        );
        assert(!closes_from(events, i - 1, process, descriptor, inside, root, prefixes));
        if let Traced::FileClose { pid, path: Some(path), .. } = events[i - 1] {
            lemma_side(events, i - 1, pid, path, root, prefixes);
        }
    }
}

/// The logical index of a process once the event at `i` is known.
pub open spec fn index_at(
    events: Seq<Traced>,
    i: int,
    process: u32,
    root: u32,
    prefixes: Seq<Seq<char>>,
) -> u32 {
    canonicalize::run(events.take(i + 1), root, prefixes).indices[process]
}

/// Whether an operation has just these parts besides its outputs.
pub open spec fn has_parts(
    op: OpView,
    op_type: OpType,
    process_index: u32,
    tool_hash: Option<Seq<char>>,
    args: Seq<Seq<char>>,
    input_hashes: Seq<Seq<char>>,
) -> bool {
    op.op_type == op_type && op.process_index == process_index && op.tool_hash == tool_hash && op.args == args && op.input_hashes
        == input_hashes
}

/// Whether an operation is one that an access to a file leaves: a read if `reads`,
/// a write if `writes`, unless a mapping finds one open, both with what the tree or
/// an outsider is known by.
pub open spec fn comes_from_access(
    events: Seq<Traced>,
    i: int,
    process: u32,
    descriptor: i32,
    path: Seq<char>,
    external: bool,
    reads: bool,
    writes: bool,
    is_mapping: bool,
    args: Seq<Seq<char>>,
    identity: Seq<char>,
    root: u32,
    prefixes: Seq<Seq<char>>,
    op: OpView,
) -> bool {
    let inside = !external && counts_for_the_tree(events, i, process, path, root, prefixes);
    let outside = counts_as_outside(events, i, process, path, external, root, prefixes);
    let tool = last_executed(events.take(i), process);
    let index = index_at(events, i, process, root, prefixes);
    let state = file_identity::shows_system_state(path);
    ||| inside && !state && reads && has_parts(
        op,
        OpType::FileRead,
        index,
        tool,
        args,
        seq![identity],
    )
        && op.output_hashes.len() == 0
    ||| inside && !state && writes && !(is_mapping && is_open_for_writing(
        events,
        i,
        process,
        descriptor,
        true,
        root,
        prefixes,
    )) && has_parts(
        op,
        OpType::FileWrite,
        index,
        tool,
        Seq::empty(),
        Seq::empty(),
    ) && are_outputs_of(
        events,
        i,
        process,
        descriptor,
        true,
        root,
        prefixes,
        op.output_hashes,
    )
    ||| inside && state && has_parts(
        op,
        OpType::SystemStateRead,
        index,
        tool,
        Seq::empty(),
        seq![file_identity::SYSTEM_STATE_SENTINEL@],
    ) && op.output_hashes.len() == 0
    ||| outside && reads && has_parts(
        op,
        OpType::ExternalFileRead,
        u32::MAX,
        None,
        args,
        seq![identity],
    ) && op.output_hashes.len() == 0
    ||| outside && writes && !(is_mapping && is_open_for_writing(
        events,
        i,
        process,
        descriptor,
        false,
        root,
        prefixes,
    )) && has_parts(
        op,
        OpType::ExternalFileWrite,
        u32::MAX,
        None,
        Seq::empty(),
        Seq::empty(),
    ) && are_outputs_of(
        events,
        i,
        process,
        descriptor,
        false,
        root,
        prefixes,
        op.output_hashes,
    )
}

/// Whether an operation comes from the event at `i`.
pub open spec fn comes_from(
    events: Seq<Traced>,
    i: int,
    root: u32,
    prefixes: Seq<Seq<char>>,
    op: OpView,
) -> bool {
    match events[i] {
        Traced::Exec { pid, observation } => has_parts(
            op,
            OpType::Exec,
            index_at(events, i, pid, root, prefixes),
            Some(observation.identity()),
            Seq::empty(),
            Seq::empty(),
        ) && op.output_hashes.len() == 0,
        Traced::FileOpen { pid, path, flags, fd, external, observation } => comes_from_access(
            events,
            i,
            pid,
            fd,
            path,
            external,
            flags & 3 != 1,
            flags & 3 != 0,
            false,
            Seq::empty(),
            observation.identity(),
            root,
            prefixes,
            op,
        ),
        Traced::FileMmap { pid, fd, prot, flags, path, external, observation } => match (
            path,
            observation,
        ) {
            (Some(p), Some(o)) => comes_from_access(
                events,
                i,
                pid,
                fd,
                p,
                external,
                true,
                prot & 2 != 0 && flags & 1 != 0,
                true,
                seq!["mmap"@],
                o.identity(),
                root,
                prefixes,
                op,
            ),
            _ => false,
        },
        Traced::FileClose { .. } => false,
        Traced::Exit { pid, exit_code } => is_in_the_tree(
            events,
            i,
            pid,
            root,
            prefixes,
        ) && has_parts(
            op,
            OpType::Exit,
            index_at(events, i, pid, root, prefixes),
            last_executed(events.take(i), pid),
            if pid == root {
                seq!["exit:"@ + text::signed_decimal(exit_code as int)]
            } else {
                Seq::empty()
            },
            Seq::empty(),
        ) && op.output_hashes.len() == 0,
    }
}

/// Whether an operation comes from some event.
pub open spec fn has_source(
    events: Seq<Traced>,
    root: u32,
    prefixes: Seq<Seq<char>>,
    op: OpView,
) -> bool {
    exists|i: int| 0 <= i < events.len() && #[trigger] comes_from(events, i, root, prefixes, op)
}

spec fn uses(event: Traced, key: (u32, i32)) -> bool {
    match event {
        Traced::FileOpen { pid, fd, .. } => (pid, fd) == key,
        Traced::FileMmap { pid, fd, .. } => (pid, fd) == key,
        _ => false,
    }
}

spec fn has_open_source(
    events: Seq<Traced>,
    root: u32,
    prefixes: Seq<Seq<char>>,
    op: OpView,
    key: (u32, i32),
) -> bool {
    op.output_hashes.len() == 0 && exists|i: int|
        0 <= i < events.len() && #[trigger] comes_from(events, i, root, prefixes, op) && uses(
            events[i],
            key,
        )
}

proof fn lemma_source_stays(
    events: Seq<Traced>,
    root: u32,
    prefixes: Seq<Seq<char>>,
    op: OpView,
    i: int,
)
    requires
        events.len() > 0,
        0 <= i < events.len() - 1,
        comes_from(events.drop_last(), i, root, prefixes, op),
    ensures
        comes_from(events, i, root, prefixes, op),
{
    let d = events.drop_last();
    assert(d.take(i) =~= events.take(i));
    assert(d.take(i + 1) =~= events.take(i + 1));
    assert(d[i] == events[i]);
    assert forall|process: u32| #[trigger]
        was_outside(d, i, process, root, prefixes) == was_outside(
        events,
        i,
        process,
        root,
        prefixes,
    ) by {
        lemma_was_outside_stays(events, i, process, root, prefixes);
    }
    assert forall|process: u32| #[trigger]
        is_in_the_tree(d, i, process, root, prefixes) == is_in_the_tree(
        events,
        i,
        process,
        root,
        prefixes,
    ) by {
        lemma_in_the_tree_stays(events, i, process, root, prefixes);
    }
    assert forall|process: u32, descriptor: i32, inside: bool| #[trigger]
        is_open_for_writing(d, i, process, descriptor, inside, root, prefixes)
            == is_open_for_writing(events, i, process, descriptor, inside, root, prefixes) by {
        lemma_open_stays(events, i, process, descriptor, inside, root, prefixes);
    }
    assert forall|
        process: u32,
        descriptor: i32,
        inside: bool,
        outputs: Seq<Seq<char>>,
    | #[trigger]
        are_outputs_of(d, i, process, descriptor, inside, root, prefixes, outputs) implies
        are_outputs_of(events, i, process, descriptor, inside, root, prefixes, outputs) by {
        if outputs.len() > 0 {
            let j = choose|j: int|
                i < j < d.len() && #[trigger] closes_with(
                    d,
                    j,
                    process,
                    descriptor,
                    inside,
                    root,
                    prefixes,
                    outputs,
                );
            assert(d[j] == events[j]);
            lemma_was_outside_stays(events, j, process, root, prefixes);
            assert(closes_with(events, j, process, descriptor, inside, root, prefixes, outputs));
        }
    }
}

proof fn lemma_in_the_tree_stays(
    events: Seq<Traced>,
    i: int,
    process: u32,
    root: u32,
    prefixes: Seq<Seq<char>>,
)
    requires
        events.len() > 0,
        0 <= i < events.len(),
    ensures
        is_in_the_tree(events.drop_last(), i, process, root, prefixes) == is_in_the_tree(
            events,
            i,
            process,
            root,
            prefixes,
        ),
{
    let d = events.drop_last();
    assert forall|m: int| 0 <= m < i implies #[trigger] acts_inside(
        d,
        m,
        process,
        root,
        prefixes,
    ) == acts_inside(events, m, process, root, prefixes) by {
        assert(d[m] == events[m]);
        assert(d.take(m) =~= events.take(m));
        lemma_was_outside_stays(events, m, process, root, prefixes);
    }
    if process != root && is_in_the_tree(d, i, process, root, prefixes) {
        let m = choose|m: int|
            0 <= m < i && #[trigger] acts_inside(d, m, process, root, prefixes);
        assert(acts_inside(events, m, process, root, prefixes));
    }
    if process != root && is_in_the_tree(events, i, process, root, prefixes) {
        let m = choose|m: int|
            0 <= m < i && #[trigger] acts_inside(events, m, process, root, prefixes);
        assert(acts_inside(d, m, process, root, prefixes));
    }
}

proof fn lemma_open_stays(
    events: Seq<Traced>,
    i: int,
    process: u32,
    descriptor: i32,
    inside: bool,
    root: u32,
    prefixes: Seq<Seq<char>>,
)
    requires
        events.len() > 0,
        0 <= i < events.len(),
    ensures
        is_open_for_writing(
            events.drop_last(),
            i,
            process,
            descriptor,
            inside,
            root,
            prefixes,
        ) == is_open_for_writing(events, i, process, descriptor, inside, root, prefixes),
{
    let d = events.drop_last();
    assert forall|m: int| 0 <= m < i implies #[trigger] opens_for_writing(
        d,
        m,
        process,
        descriptor,
        inside,
        root,
        prefixes,
    ) == opens_for_writing(events, m, process, descriptor, inside, root, prefixes) by {
        assert(d[m] == events[m]);
        assert(d.take(m) =~= events.take(m));
        lemma_was_outside_stays(events, m, process, root, prefixes);
    }
    assert forall|m: int| 0 <= m < i implies #[trigger] closes_from(
        d,
        m,
        process,
        descriptor,
        inside,
        root,
        prefixes,
    ) == closes_from(events, m, process, descriptor, inside, root, prefixes) by {
        assert(d[m] == events[m]);
        lemma_was_outside_stays(events, m, process, root, prefixes);
    }
    if is_open_for_writing(d, i, process, descriptor, inside, root, prefixes) {
        let m = choose|m: int|
            0 <= m < i && #[trigger] opens_for_writing(
                d,
                m,
                process,
                descriptor,
                inside,
                root,
                prefixes,
            ) && forall|k: int|
                m < k < i ==> !#[trigger] closes_from(
                    d,
                    k,
                    process,
                    descriptor,
                    inside,
                    root,
                    prefixes,
                );
        assert(opens_for_writing(events, m, process, descriptor, inside, root, prefixes));
        assert forall|k: int| m < k < i implies !#[trigger] closes_from(
            events,
            k,
            process,
            descriptor,
            inside,
            root,
            prefixes,
        ) by {
            assert(!closes_from(d, k, process, descriptor, inside, root, prefixes));
        }
    }
    if is_open_for_writing(events, i, process, descriptor, inside, root, prefixes) {
        let m = choose|m: int|
            0 <= m < i && #[trigger] opens_for_writing(
                events,
                m,
                process,
                descriptor,
                inside,
                root,
                prefixes,
            ) && forall|k: int|
                m < k < i ==> !#[trigger] closes_from(
                    events,
                    k,
                    process,
                    descriptor,
                    inside,
                    root,
                    prefixes,
                );
        assert(opens_for_writing(d, m, process, descriptor, inside, root, prefixes));
        assert forall|k: int| m < k < i implies !#[trigger] closes_from(
            d,
            k,
            process,
            descriptor,
            inside,
            root,
            prefixes,
        ) by {
            assert(!closes_from(events, k, process, descriptor, inside, root, prefixes));
        }
    }
}

proof fn lemma_was_outside_stays(
    events: Seq<Traced>,
    i: int,
    process: u32,
    root: u32,
    prefixes: Seq<Seq<char>>,
)
    requires
        events.len() > 0,
        0 <= i < events.len(),
    ensures
        was_outside(events.drop_last(), i, process, root, prefixes) == was_outside(
            events,
            i,
            process,
            root,
            prefixes,
        ),
{
    let d = events.drop_last();
    assert forall|m: int| 0 <= m < i implies #[trigger] acts_outside(
        d,
        m,
        process,
        root,
        prefixes,
    ) == acts_outside(events, m, process, root, prefixes) by {
        assert(d[m] == events[m]);
        assert(d.take(m) =~= events.take(m));
    }
    if was_outside(d, i, process, root, prefixes) {
        let m = choose|m: int|
            0 <= m < i && #[trigger] acts_outside(d, m, process, root, prefixes);
        assert(acts_outside(events, m, process, root, prefixes));
    }
    if was_outside(events, i, process, root, prefixes) {
        let m = choose|m: int|
            0 <= m < i && #[trigger] acts_outside(events, m, process, root, prefixes);
        assert(acts_outside(d, m, process, root, prefixes));
    }
}

spec fn sourced(events: Seq<Traced>, root: u32, prefixes: Seq<Seq<char>>, s: Canon) -> bool {
    &&& canonicalize::positions_hold(s)
    &&& forall|k: int|
        0 <= k < s.ops.len() ==> has_source(events, root, prefixes, #[trigger] s.ops[k])
    &&& forall|k: int|
        0 <= k < s.external_ops.len() ==> has_source(
            events,
            root,
            prefixes,
            #[trigger] s.external_ops[k],
        )
    &&& forall|key: (u32, i32)| #[trigger]
        s.pending.contains_key(key) ==> has_open_source(
            events,
            root,
            prefixes,
            s.ops[s.pending[key]],
            key,
        ) && s.ops[s.pending[key]].op_type == OpType::FileWrite
    &&& forall|key: (u32, i32)| #[trigger]
        s.external_pending.contains_key(key) ==> has_open_source(
            events,
            root,
            prefixes,
            s.external_ops[s.external_pending[key]],
            key,
        ) && s.external_ops[s.external_pending[key]].op_type == OpType::ExternalFileWrite
    &&& forall|a: (u32, i32), b: (u32, i32)| #[trigger]
        s.pending.contains_key(a) && #[trigger] s.pending.contains_key(b) && a != b
            ==> s.pending[a] != s.pending[b]
    &&& forall|a: (u32, i32), b: (u32, i32)| #[trigger]
        s.external_pending.contains_key(a) && #[trigger] s.external_pending.contains_key(b) && a
            != b ==> s.external_pending[a] != s.external_pending[b]
}

proof fn lemma_sources_stay(
    events: Seq<Traced>,
    root: u32,
    prefixes: Seq<Seq<char>>,
    s: Canon,
)
    requires
        events.len() > 0,
        sourced(events.drop_last(), root, prefixes, s),
    ensures
        sourced(events, root, prefixes, s),
{
    let d = events.drop_last();
    assert forall|op: OpView| #[trigger] has_source(d, root, prefixes, op) implies has_source(
        events,
        root,
        prefixes,
        op,
    ) by {
        let i = choose|i: int|
            0 <= i < d.len() && #[trigger] comes_from(d, i, root, prefixes, op);
        lemma_source_stays(events, root, prefixes, op, i);
    }
    assert forall|op: OpView, key: (u32, i32)| #[trigger]
        has_open_source(d, root, prefixes, op, key) implies has_open_source(
        events,
        root,
        prefixes,
        op,
        key,
    ) by {
        let i = choose|i: int|
            0 <= i < d.len() && #[trigger] comes_from(d, i, root, prefixes, op) && uses(d[i], key);
        lemma_source_stays(events, root, prefixes, op, i);
        assert(uses(events[i], key));
    }
    assert forall|k: int| 0 <= k < s.ops.len() implies has_source(
        events,
        root,
        prefixes,
        #[trigger] s.ops[k],
    ) by {
        assert(has_source(d, root, prefixes, s.ops[k]));
    }
    assert forall|k: int| 0 <= k < s.external_ops.len() implies has_source(
        events,
        root,
        prefixes,
        #[trigger] s.external_ops[k],
    ) by {
        assert(has_source(d, root, prefixes, s.external_ops[k]));
    }
}

proof fn lemma_output_has_source(
    events: Seq<Traced>,
    root: u32,
    prefixes: Seq<Seq<char>>,
    op: OpView,
    key: (u32, i32),
    closed: Observed,
)
    requires
        events.len() > 0,
        has_open_source(events.drop_last(), root, prefixes, op, key),
        op.op_type == OpType::FileWrite || op.op_type == OpType::ExternalFileWrite,
        closes_with(
            events,
            events.len() - 1,
            key.0,
            key.1,
            op.op_type == OpType::FileWrite,
            root,
            prefixes,
            seq![closed.identity()],
        ),
    ensures
        has_source(
            events,
            root,
            prefixes,
            canonicalize::with_output(op, closed.identity()),
        ),
{
    let d = events.drop_last();
    let i = choose|i: int|
        0 <= i < d.len() && #[trigger] comes_from(d, i, root, prefixes, op) && uses(d[i], key);
    lemma_source_stays(events, root, prefixes, op, i);
    let after = canonicalize::with_output(op, closed.identity());
    assert(after.output_hashes =~= seq![closed.identity()]);
    let inside = op.op_type == OpType::FileWrite;
    let j = events.len() - 1;
    assert(closes_with(events, j, key.0, key.1, inside, root, prefixes, after.output_hashes));
    assert(are_outputs_of(events, i, key.0, key.1, inside, root, prefixes, after.output_hashes));
    assert(uses(events[i], key));
    assert(comes_from(events, i, root, prefixes, after));
}

proof fn lemma_sourced(events: Seq<Traced>, root: u32, prefixes: Seq<Seq<char>>)
    ensures
        sourced(events, root, prefixes, canonicalize::run(events, root, prefixes)),
    decreases events.len(),
{
    if events.len() > 0 {
        let d = events.drop_last();
        let n = d.len() as int;
        let s = canonicalize::run(d, root, prefixes);
        let t = canonicalize::run(events, root, prefixes);
        lemma_sourced(d, root, prefixes);
        lemma_sources_stay(events, root, prefixes, s);
        canonicalize::lemma_step_goes_on(s, events.last(), root, prefixes);
        assert(events.take(n) =~= d);
        assert(events.take(n + 1) =~= events);
        assert(events[n] == events.last());
        match events[n] {
            Traced::Exec { pid, .. } => {
                assert(comes_from(events, n, root, prefixes, t.ops.last()));
            },
            Traced::FileOpen { pid, fd, .. } => {
                lemma_access_sourced(events, root, prefixes, s, t, (pid, fd));
            },
            Traced::FileMmap { pid, fd, path, observation, .. } => {
                if let (Some(p), Some(o)) = (path, observation) {
                    lemma_access_sourced(events, root, prefixes, s, t, (pid, fd));
                }
            },
            Traced::FileClose { pid, fd, path, external, observation } => {
                let key = (pid, fd);
                if let (Some(p), Some(o)) = (path, observation) {
                    lemma_side(events, n, pid, p, root, prefixes);
                    let inside = closes_inside(events, n, pid, p, external, root, prefixes);
                    assert(closes_with(
                        events,
                        n,
                        pid,
                        fd,
                        inside,
                        root,
                        prefixes,
                        seq![o.identity()],
                    ));
                    if inside && s.pending.contains_key(key) {
                        assert(has_open_source(d, root, prefixes, s.ops[s.pending[key]], key)) by {
                            lemma_sourced(d, root, prefixes);
                        }
                        lemma_output_has_source(
                            events,
                            root,
                            prefixes,
                            s.ops[s.pending[key]],
                            key,
                            o,
                        );
                    }
                    if !inside && s.external_pending.contains_key(key) {
                        assert(has_open_source(
                            d,
                            root,
                            prefixes,
                            s.external_ops[s.external_pending[key]],
                            key,
                        )) by {
                            lemma_sourced(d, root, prefixes);
                        }
                        lemma_output_has_source(
                            events,
                            root,
                            prefixes,
                            s.external_ops[s.external_pending[key]],
                            key,
                            o,
                        );
                    }
                }
            },
            Traced::Exit { pid, .. } => {
                lemma_tool(d, pid, root, prefixes);
                lemma_indexed(events, n, pid, root, prefixes);
                if t.ops.len() > s.ops.len() {
                    assert(comes_from(events, n, root, prefixes, t.ops.last()));
                }
            },
        }
    }
}

/// An access adds at most two operations, both from the event.
proof fn lemma_access_sourced(
    events: Seq<Traced>,
    root: u32,
    prefixes: Seq<Seq<char>>,
    s: Canon,
    t: Canon,
    key: (u32, i32),
)
    requires
        events.len() > 0,
        s == canonicalize::run(events.drop_last(), root, prefixes),
        t == s.step(events.last(), root, prefixes),
        sourced(events, root, prefixes, s),
        uses(events.last(), key),
        canonicalize::positions_hold(t),
        match events.last() {
            Traced::FileOpen { .. } => true,
            Traced::FileMmap { path: Some(_), observation: Some(_), .. } => true,
            _ => false,
        },
    ensures
        sourced(events, root, prefixes, t),
{
    let n = events.len() - 1;
    assert(events.take(n) =~= events.drop_last());
    assert(events.take(n + 1) =~= events);
    assert(events[n] == events.last());
    lemma_tool(events.drop_last(), key.0, root, prefixes);
    match events.last() {
        Traced::FileOpen { path, .. } => {
            lemma_side(events, n, key.0, path, root, prefixes);
        },
        Traced::FileMmap { path: Some(p), .. } => {
            lemma_side(events, n, key.0, p, root, prefixes);
        },
        _ => {},
    }
    assert forall|inside: bool| #[trigger]
        is_open_for_writing(events, n, key.0, key.1, inside, root, prefixes) implies (if inside {
        s.pending.contains_key(key)
    } else {
        s.external_pending.contains_key(key)
    }) by {
        let m = choose|m: int|
            0 <= m < n && #[trigger] opens_for_writing(
                events,
                m,
                key.0,
                key.1,
                inside,
                root,
                prefixes,
            ) && forall|k: int|
                m < k < n ==> !#[trigger] closes_from(
                    events,
                    k,
                    key.0,
                    key.1,
                    inside,
                    root,
                    prefixes,
                );
        lemma_open_for_writing(events, m, n, key.0, key.1, inside, root, prefixes);
    }
    assert forall|k: int| s.ops.len() <= k < t.ops.len() implies comes_from(
        events,
        n,
        root,
        prefixes,
        #[trigger] t.ops[k],
    ) && t.ops[k].output_hashes.len() == 0 by {
        assert(are_outputs_of(
            events,
            n,
            key.0,
            key.1,
            true,
            root,
            prefixes,
            t.ops[k].output_hashes,
        ));
    }
    assert forall|k: int| s.external_ops.len() <= k < t.external_ops.len() implies comes_from(
        events,
        n,
        root,
        prefixes,
        #[trigger] t.external_ops[k],
    ) && t.external_ops[k].output_hashes.len() == 0 by {
        assert(are_outputs_of(
            events,
            n,
            key.0,
            key.1,
            false,
            root,
            prefixes,
            t.external_ops[k].output_hashes,
        ));
    }
    assert forall|k: int| 0 <= k < t.ops.len() implies has_source(
        events,
        root,
        prefixes,
        #[trigger] t.ops[k],
    ) by {
        if k < s.ops.len() {
            assert(t.ops[k] == s.ops[k]);
        }
    }
    assert forall|k: int| 0 <= k < t.external_ops.len() implies has_source(
        events,
        root,
        prefixes,
        #[trigger] t.external_ops[k],
    ) by {
        if k < s.external_ops.len() {
            assert(t.external_ops[k] == s.external_ops[k]);
        }
    }
    assert forall|other: (u32, i32)| #[trigger] t.pending.contains_key(other) implies
        has_open_source(events, root, prefixes, t.ops[t.pending[other]], other) && t.ops[t.pending[other]].op_type == OpType::FileWrite by {
        if s.pending.contains_key(other) && s.pending[other] == t.pending[other] {
            assert(t.ops[t.pending[other]] == s.ops[s.pending[other]]);
        }
    }
    assert forall|other: (u32, i32)| #[trigger] t.external_pending.contains_key(other) implies
        has_open_source(events, root, prefixes, t.external_ops[t.external_pending[other]], other) && t.external_ops[t.external_pending[other]].op_type == OpType::ExternalFileWrite by {
        if s.external_pending.contains_key(other) && s.external_pending[other]
            == t.external_pending[other] {
            assert(t.external_ops[t.external_pending[other]]
                == s.external_ops[s.external_pending[other]]);
        }
    }
}

proof fn lemma_source_is_plain(
    events: Seq<Traced>,
    root: u32,
    prefixes: Seq<Seq<char>>,
    op: OpView,
)
    requires
        has_source(events, root, prefixes, op),
    ensures
        op.normalized() == op,
{
    lemma_plain(op);
}

/// Nothing is covered but what some event left behind.
pub proof fn law_every_operation_has_a_source(
    events: Seq<Traced>,
    root: u32,
    prefixes: Seq<Seq<char>>,
    k: int,
)
    requires
        0 <= k < canonicalize::canonical_ops(events, root, prefixes).len(),
    ensures
        has_source(
            events,
            root,
            prefixes,
            canonicalize::canonical_ops(events, root, prefixes)[k],
        ),
{
    let s = canonicalize::run(events, root, prefixes);
    let all = s.ops + s.external_ops;
    lemma_sourced(events, root, prefixes);
    let m = operation::lemma_finalized_op_is_given(all, k);
    if m < s.ops.len() {
        assert(all[m] == s.ops[m]);
    } else {
        assert(all[m] == s.external_ops[m - s.ops.len()]);
    }
    lemma_source_is_plain(events, root, prefixes, all[m]);
}

proof fn lemma_indices_are_distinct(events: Seq<Traced>, root: u32, prefixes: Seq<Seq<char>>)
    requires
        events.len() < u32::MAX,
    ensures
        ({
            let s = canonicalize::run(events, root, prefixes);
            &&& 1 <= s.next <= events.len() + 1
            &&& s.indices.contains_key(root) && s.indices[root] == 0
            &&& forall|p: u32| #[trigger] s.indices.contains_key(p) ==> s.indices[p] < s.next
            &&& forall|p: u32, q: u32| #[trigger]
                s.indices.contains_key(p) && #[trigger] s.indices.contains_key(q) && p != q
                    ==> s.indices[p] != s.indices[q]
        }),
    decreases events.len(),
{
    if events.len() > 0 {
        lemma_indices_are_distinct(events.drop_last(), root, prefixes);
    }
}

/// Processes have distinct logical indices, and that of the root is zero.
pub proof fn law_processes_have_distinct_indices(
    events: Seq<Traced>,
    root: u32,
    prefixes: Seq<Seq<char>>,
    p: u32,
    q: u32,
)
    requires
        events.len() < u32::MAX,
        p != q,
    ensures
        ({
            let indices = canonicalize::run(events, root, prefixes).indices;
            &&& indices[root] == 0
            &&& indices.contains_key(p) && indices.contains_key(q) ==> indices[p] != indices[q]
        }),
{
    lemma_indices_are_distinct(events, root, prefixes);
}

} // verus!
