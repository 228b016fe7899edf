//! What collecting the records of a trace amounts to.
//!
//! Nothing here runs. A record is taken as the tracer takes it: a file is probed
//! when the record of its open or mapping arrives, and when that of its close
//! does, if it was open for writing.

use crate::canonicalize;
use crate::coverage;
use crate::file_identity;
use crate::file_identity::FileProbe;
use crate::tracer::{ClosingView, Collected, MappingView, Traced};
use vstd::prelude::*;

verus! {

/// A record, with what the file that it speaks of holds as it arrives.
pub enum Record {
    Open { pid: u32, fd: i32, flags: u32, external: bool, path: Seq<char>, held: FileProbe },
    Mmap { pid: u32, fd: i32, prot: u32, flags: u32, external: bool, held: FileProbe },
    Close { pid: u32, fd: i32, external: bool, held: FileProbe },
    Exec { pid: u32, path: Seq<char>, held: FileProbe },
    Exit { pid: u32, exit_code: i32 },
}

/// After one more record.
pub open spec fn taken(c: Collected, record: Record, prefixes: Seq<Seq<char>>) -> Collected {
    match record {
        Record::Open { pid, fd, flags, external, path, held } => c.open(
            pid,
            fd,
            flags,
            external,
            path,
            file_identity::observed(path, held),
            prefixes,
        ),
        Record::Mmap { pid, fd, prot, flags, external, held } => c.mmap(
            pid,
            fd,
            prot,
            flags,
            external,
            Some(held),
        ),
        Record::Close { pid, fd, external, held } => {
            let rest = Collected { files: c.files.remove((pid, fd)), ..c };
            match c.closing(pid, fd, external) {
                ClosingView::Ignored => rest,
                ClosingView::Closed { path, observe } => rest.add(
                    Traced::FileClose {
                        pid,
                        fd,
                        path,
                        external,
                        observation: match path {
                            Some(p) => if observe {
                                Some(file_identity::observed(p, held))
                            } else {
                                None
                            },
                            None => None,
                        },
                    },
                ),
            }
        },
        Record::Exec { pid, path, held } => c.add(
            Traced::Exec { pid, observation: file_identity::observed(path, held) },
        ),
        Record::Exit { pid, exit_code } => c.add(Traced::Exit { pid, exit_code }),
    }
}

/// After all records.
pub open spec fn collected(records: Seq<Record>, prefixes: Seq<Seq<char>>) -> Collected
    decreases records.len(),
{
    if records.len() == 0 {
        Collected::start()
    } else {
        taken(collected(records.drop_last(), prefixes), records.last(), prefixes)
    }
}

/// Whether a record opens or closes a descriptor of a process.
pub open spec fn reuses(record: Record, process: u32, descriptor: i32) -> bool {
    match record {
        Record::Open { pid, fd, .. } => pid == process && fd == descriptor,
        Record::Close { pid, fd, .. } => pid == process && fd == descriptor,
        _ => false,
    }
}

/// Whether the record at `i` opens a file that a process still has open on a
/// descriptor when the record at `n` arrives: it was not passed over, and the
/// descriptor was neither opened nor closed since.
pub open spec fn is_open(
    records: Seq<Record>,
    i: int,
    n: int,
    process: u32,
    descriptor: i32,
    opened_path: Seq<char>,
    opened_flags: u32,
    prefixes: Seq<Seq<char>>,
) -> bool {
    &&& 0 <= i < n <= records.len()
    &&& descriptor >= 0
    &&& records[i] matches Record::Open { pid, fd, flags, external, path, .. } && pid == process
        && fd == descriptor && flags == opened_flags && path == opened_path && (!external
        || coverage::lies_within_any(path, prefixes))
    &&& forall|m: int| i < m < n ==> !reuses(#[trigger] records[m], process, descriptor)
}

proof fn lemma_open_is_known(
    records: Seq<Record>,
    i: int,
    n: int,
    pid: u32,
    fd: i32,
    path: Seq<char>,
    flags: u32,
    prefixes: Seq<Seq<char>>,
)
    requires
        is_open(records, i, n, pid, fd, path, flags, prefixes),
    ensures
        ({
            let files = collected(records.take(n), prefixes).files;
            &&& files.contains_key((pid, fd))
            &&& files[(pid, fd)].path == path
            &&& files[(pid, fd)].flags == flags
        }),
    decreases n,
{
    assert(records.take(n).drop_last() =~= records.take(n - 1));
    if n == i + 1 {
        assert(canonicalize::watched(path, prefixes) == coverage::lies_within_any(path, prefixes));
    } else {
        lemma_open_is_known(records, i, n - 1, pid, fd, path, flags, prefixes);
        assert(!reuses(records[n - 1], pid, fd));
    }
}

/// Events are never taken back: each record adds at most one.
proof fn lemma_events_stay(records: Seq<Record>, n: int, prefixes: Seq<Seq<char>>)
    requires
        0 <= n <= records.len(),
    ensures
        ({
            let a = collected(records.take(n), prefixes).events;
            let b = collected(records, prefixes).events;
            &&& a.len() <= b.len() <= a.len() + (records.len() - n)
            &&& forall|k: int| 0 <= k < a.len() ==> #[trigger] b[k] == a[k]
        }),
    decreases records.len(),
{
    if n == records.len() {
        assert(records.take(n) =~= records);
    } else {
        assert(records.drop_last().take(n) =~= records.take(n));
        lemma_events_stay(records.drop_last(), n, prefixes);
    }
}

/// Whether collecting gives an event.
pub open spec fn gives(records: Seq<Record>, prefixes: Seq<Seq<char>>, event: Traced) -> bool {
    collected(records, prefixes).events.contains(event)
}

proof fn lemma_given(records: Seq<Record>, i: int, prefixes: Seq<Seq<char>>, event: Traced)
    requires
        0 <= i < records.len(),
        ({
            let before = collected(records.take(i), prefixes);
            let after = taken(before, records[i], prefixes);
            after.events.len() > 0 && after.events.last() == event
        }),
    ensures
        gives(records, prefixes, event),
{
    assert(records.take(i + 1).drop_last() =~= records.take(i));
    let after = collected(records.take(i + 1), prefixes);
    lemma_events_stay(records, i + 1, prefixes);
    let all = collected(records, prefixes).events;
    assert(all[after.events.len() - 1] == event);
}

/// An open gives an event with what the file held when the record arrived, unless
/// it is one from outside the tree at a path that is not watched. One without a
/// descriptor leaves no file open.
pub proof fn law_opens_are_collected(
    records: Seq<Record>,
    i: int,
    pid: u32,
    fd: i32,
    flags: u32,
    external: bool,
    path: Seq<char>,
    held: FileProbe,
    prefixes: Seq<Seq<char>>,
)
    requires
        0 <= i < records.len(),
        records[i] == (Record::Open { pid, fd, flags, external, path, held }),
    ensures
        !external || coverage::lies_within_any(path, prefixes) ==> gives(
            records,
            prefixes,
            Traced::FileOpen {
                pid,
                path,
                flags,
                fd,
                external,
                observation: file_identity::observed(path, held),
            },
        ),
        external && !coverage::lies_within_any(path, prefixes) ==> taken(
            collected(records.take(i), prefixes),
            records[i],
            prefixes,
        ) == collected(records.take(i), prefixes),
        fd < 0 ==> taken(collected(records.take(i), prefixes), records[i], prefixes).files
            == collected(records.take(i), prefixes).files,
{
    assert(canonicalize::watched(path, prefixes) == coverage::lies_within_any(path, prefixes));
    if !external || coverage::lies_within_any(path, prefixes) {
        lemma_given(
            records,
            i,
            prefixes,
            Traced::FileOpen {
                pid,
                path,
                flags,
                fd,
                external,
                observation: file_identity::observed(path, held),
            },
        );
    }
}

/// What a close asks for goes by how the file was opened: one that was opened for
/// writing, alone or with reading, is to be observed at its close, and one that
/// was opened for reading alone is not.
pub proof fn law_closes_observe_what_was_written(
    records: Seq<Record>,
    i: int,
    n: int,
    pid: u32,
    fd: i32,
    path: Seq<char>,
    flags: u32,
    external: bool,
    prefixes: Seq<Seq<char>>,
)
    requires
        is_open(records, i, n, pid, fd, path, flags, prefixes),
    ensures
        ({
            let closing = collected(records.take(n), prefixes).closing(pid, fd, external);
            &&& flags & 3 == 0 ==> closing == (ClosingView::Closed {
                path: Some(path),
                observe: false,
            })
            &&& flags & 3 == 1 || flags & 3 == 2 || flags & 3 == 3 ==> closing == (
            ClosingView::Closed { path: Some(path), observe: true })
        }),
{
    lemma_open_is_known(records, i, n, pid, fd, path, flags, prefixes);
}

/// The close of a file that was opened for writing gives an event with what the
/// file held when the record of the close arrived; that of a file that was opened
/// for reading alone gives one without.
pub proof fn law_closes_are_collected(
    records: Seq<Record>,
    i: int,
    j: int,
    pid: u32,
    fd: i32,
    path: Seq<char>,
    flags: u32,
    external: bool,
    held: FileProbe,
    prefixes: Seq<Seq<char>>,
)
    requires
        is_open(records, i, j, pid, fd, path, flags, prefixes),
        j < records.len(),
        records[j] == (Record::Close { pid, fd, external, held }),
    ensures
        gives(
            records,
            prefixes,
            Traced::FileClose {
                pid,
                fd,
                path: Some(path),
                external,
                observation: if flags & 3 == 0 {
                    None
                } else {
                    Some(file_identity::observed(path, held))
                },
            },
        ),
        !collected(records.take(j + 1), prefixes).files.contains_key((pid, fd)),
{
    lemma_open_is_known(records, i, j, pid, fd, path, flags, prefixes);
    assert(records.take(j + 1).drop_last() =~= records.take(j));
    lemma_given(
        records,
        j,
        prefixes,
        Traced::FileClose {
            pid,
            fd,
            path: Some(path),
            external,
            observation: if flags & 3 == 0 {
                None
            } else {
                Some(file_identity::observed(path, held))
            },
        },
    );
}

/// A mapping of a file that is open gives an event with the path of the file and
/// with what it held when the record of the mapping arrived.
pub proof fn law_mappings_are_collected(
    records: Seq<Record>,
    i: int,
    j: int,
    pid: u32,
    fd: i32,
    path: Seq<char>,
    open_flags: u32,
    prot: u32,
    flags: u32,
    external: bool,
    held: FileProbe,
    prefixes: Seq<Seq<char>>,
)
    requires
        is_open(records, i, j, pid, fd, path, open_flags, prefixes),
        j < records.len(),
        records[j] == (Record::Mmap { pid, fd, prot, flags, external, held }),
    ensures
        gives(
            records,
            prefixes,
            Traced::FileMmap {
                pid,
                fd,
                prot,
                flags,
                path: Some(path),
                external,
                observation: Some(file_identity::observed(path, held)),
            },
        ),
{
    lemma_open_is_known(records, i, j, pid, fd, path, open_flags, prefixes);
    lemma_given(
        records,
        j,
        prefixes,
        Traced::FileMmap {
            pid,
            fd,
            prot,
            flags,
            path: Some(path),
            external,
            observation: Some(file_identity::observed(path, held)),
        },
    );
}

/// Whether no record before `n` opens a descriptor of a process.
pub open spec fn never_opened(records: Seq<Record>, n: int, process: u32, descriptor: i32) -> bool {
    forall|m: int|
        0 <= m < n ==> !(#[trigger] records[m] matches Record::Open { pid, fd, .. } && pid
            == process && fd == descriptor)
}

proof fn lemma_never_opened(
    records: Seq<Record>,
    n: int,
    pid: u32,
    fd: i32,
    prefixes: Seq<Seq<char>>,
)
    requires
        0 <= n <= records.len(),
        never_opened(records, n, pid, fd),
    ensures
        !collected(records.take(n), prefixes).files.contains_key((pid, fd)),
    decreases n,
{
    if n > 0 {
        assert(records.take(n).drop_last() =~= records.take(n - 1));
        lemma_never_opened(records, n - 1, pid, fd, prefixes);
        assert(!(records[n - 1] matches Record::Open { pid: p, fd: f, .. } && p == pid && f == fd));
    }
}

/// Closes and mappings of what was never opened are passed over where they come
/// from outside the tree; those of the tree give events without a path and without
/// an observation.
pub proof fn law_unknown_files_have_no_path(
    records: Seq<Record>,
    n: int,
    pid: u32,
    fd: i32,
    prefixes: Seq<Seq<char>>,
)
    requires
        0 <= n <= records.len(),
        never_opened(records, n, pid, fd),
    ensures
        ({
            let c = collected(records.take(n), prefixes);
            &&& c.closing(pid, fd, true) == ClosingView::Ignored
            &&& c.closing(pid, fd, false) == (ClosingView::Closed { path: None, observe: false })
            &&& c.mapping(pid, fd, true) == MappingView::Ignored
            &&& c.mapping(pid, fd, false) == (MappingView::Mapped { path: None })
        }),
{
    lemma_never_opened(records, n, pid, fd, prefixes);
}

/// Executions and exits give events as they are reported.
pub proof fn law_executions_and_exits_are_collected(
    records: Seq<Record>,
    i: int,
    prefixes: Seq<Seq<char>>,
)
    requires
        0 <= i < records.len(),
    ensures
        match records[i] {
            Record::Exec { pid, path, held } => gives(
                records,
                prefixes,
                Traced::Exec { pid, observation: file_identity::observed(path, held) },
            ),
            Record::Exit { pid, exit_code } => gives(
                records,
                prefixes,
                Traced::Exit { pid, exit_code },
            ),
            _ => true,
        },
{
    match records[i] {
        Record::Exec { pid, path, held } => {
            lemma_given(
                records,
                i,
                prefixes,
                Traced::Exec { pid, observation: file_identity::observed(path, held) },
            );
        },
        Record::Exit { pid, exit_code } => {
            lemma_given(records, i, prefixes, Traced::Exit { pid, exit_code });
        },
        _ => {},
    }
}

/// No record gives more than one event.
pub proof fn law_records_give_at_most_one_event(records: Seq<Record>, prefixes: Seq<Seq<char>>)
    ensures
        collected(records, prefixes).events.len() <= records.len(),
{
    lemma_events_stay(records, 0, prefixes);
    assert(records.take(0).len() == 0);
}

/// Whether an event is one that a record gives.
pub open spec fn stems_from(event: Traced, record: Record) -> bool {
    match (event, record) {
        (
            Traced::FileOpen { pid, path, flags, fd, external, observation },
            Record::Open { pid: p, fd: f, flags: g, external: e, path: q, held },
        ) => pid == p && fd == f && flags == g && external == e && path == q && observation
            == file_identity::observed(q, held),
        (
            Traced::FileMmap { pid, fd, prot, flags, path, external, observation },
            Record::Mmap { pid: p, fd: f, prot: r, flags: g, external: e, held },
        ) => pid == p && fd == f && prot == r && flags == g && external == e && observation == (
        match path {
            Some(q) => Some(file_identity::observed(q, held)),
            None => None,
        }),
        (
            Traced::FileClose { pid, fd, path, external, observation },
            Record::Close { pid: p, fd: f, external: e, held },
        ) => pid == p && fd == f && external == e && match observation {
            Some(o) => path matches Some(q) && o == file_identity::observed(q, held),
            None => true,
        },
        (Traced::Exec { pid, observation }, Record::Exec { pid: p, path, held }) => pid == p
            && observation == file_identity::observed(path, held),
        (Traced::Exit { pid, exit_code }, Record::Exit { pid: p, exit_code: c }) => pid == p
            && exit_code == c,
        _ => false,
    }
}

/// No event is made up: each stems from a record.
pub proof fn law_events_stem_from_records(records: Seq<Record>, prefixes: Seq<Seq<char>>, k: int)
    requires
        0 <= k < collected(records, prefixes).events.len(),
    ensures
        exists|i: int|
            0 <= i < records.len() && stems_from(
                collected(records, prefixes).events[k],
                #[trigger] records[i],
            ),
    decreases records.len(),
{
    if records.len() > 0 {
        let d = records.drop_last();
        let before = collected(d, prefixes);
        let after = collected(records, prefixes);
        let n = records.len() - 1;
        if k < before.events.len() {
            law_events_stem_from_records(d, prefixes, k);
            let i = choose|i: int|
                0 <= i < d.len() && stems_from(before.events[k], #[trigger] d[i]);
            assert(records[i] == d[i]);
            assert(after.events[k] == before.events[k]);
            assert(stems_from(after.events[k], records[i]));
        } else {
            assert(records[n] == records.last());
            assert(stems_from(after.events[k], records[n]));
        }
    }
}

} // verus!
