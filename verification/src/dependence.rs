//! What a slice of a trace holds, told from the events alone.
//!
//! Nothing here runs. The laws say what each process read, wrote, moved and ran,
//! which processes outputs depend on, and which operations that leaves.

use crate::coverage;
use crate::file_identity;
use crate::file_identity::Observed;
use crate::operation;
use crate::operation::{OpType, OpView};
use crate::order;
use crate::provenance;
use crate::provenance::Scan;
use crate::slice;
use crate::text;
use crate::tracer::{Happened, ProcessInstance, ProcessLifetime};
use crate::workspace::Output;
use vstd::prelude::*;
use vstd::string::*;

verus! {

// ---------------------------------------------------------------------------
// What the events show
// ---------------------------------------------------------------------------

/// The content that looking at a path shows: a fixed sentinel for the state of
/// the system, else the hash of the content where there was any.
pub open spec fn shown(path: Seq<char>, observation: Observed) -> Option<Seq<char>> {
    if file_identity::shows_system_state(path) {
        Some(file_identity::SYSTEM_STATE_SENTINEL@)
    } else {
        match observation {
            Observed::Content(h) => Some(h),
            _ => None,
        }
    }
}

/// Whether an event shows that a process of the tree read some content: it opened
/// a file otherwise than for writing alone, mapped one, or moved one.
pub open spec fn shows_read(event: Happened, p: ProcessInstance, h: Seq<char>) -> bool {
    match event {
        Happened::FileOpen { process, path, flags, external, observation, .. } => process == p
            && !external && flags & 3 != 1 && shown(path, observation) == Some(h),
        Happened::FileMmap {
            process,
            path: Some(path),
            external,
            observation: Some(observation),
            ..
        } => process == p && !external && shown(path, observation) == Some(h),
        Happened::FileRename { process, external, observation, .. } => process == p && !external
            && observation == Observed::Content(h),
        _ => false,
    }
}

/// Whether an event shows that a process of the tree moved some content.
pub open spec fn shows_move(event: Happened, p: ProcessInstance, h: Seq<char>) -> bool {
    match event {
        Happened::FileRename { process, external, observation, .. } => process == p && !external
            && observation == Observed::Content(h),
        _ => false,
    }
}

/// Whether an event shows that a process executed a binary.
pub open spec fn shows_exec(event: Happened, p: ProcessInstance) -> bool {
    match event {
        Happened::Exec { process, .. } => process == p,
        _ => false,
    }
}

/// Whether an event lets a process of the tree write through a descriptor: it
/// opened a file otherwise than for reading alone, or mapped one writable and
/// shared.
pub open spec fn lets_write(event: Happened, p: ProcessInstance, descriptor: i32) -> bool {
    match event {
        Happened::FileOpen { process, flags, fd, external, .. } => process == p && fd
            == descriptor && !external && flags & 3 != 0,
        Happened::FileMmap {
            process,
            fd,
            prot,
            flags,
            path: Some(_),
            external,
            observation: Some(_),
        } => process == p && fd == descriptor && !external && prot & 2 != 0 && flags & 1 != 0,
        _ => false,
    }
}

/// Whether an event is a close by the tree that shows some content.
pub open spec fn shows_written(event: Happened, h: Seq<char>) -> bool {
    match event {
        Happened::FileClose { external, observation: Some(o), .. } => !external && o
            == Observed::Content(h),
        _ => false,
    }
}

/// Whether a process read some content.
pub open spec fn did_read(events: Seq<Happened>, p: ProcessInstance, h: Seq<char>) -> bool {
    exists|i: int| 0 <= i < events.len() && shows_read(#[trigger] events[i], p, h)
}

/// Whether a process moved some content.
pub open spec fn did_move(events: Seq<Happened>, p: ProcessInstance, h: Seq<char>) -> bool {
    exists|i: int| 0 <= i < events.len() && shows_move(#[trigger] events[i], p, h)
}

/// Whether a process executed a binary.
pub open spec fn did_exec(events: Seq<Happened>, p: ProcessInstance) -> bool {
    exists|i: int| 0 <= i < events.len() && shows_exec(#[trigger] events[i], p)
}

/// The executable that a process runs: the one it executed last, or the one its
/// parent ran when it was forked, whichever came later.
pub open spec fn runs(events: Seq<Happened>, p: ProcessInstance) -> Option<Seq<char>>
    decreases events.len(),
{
    if events.len() == 0 {
        None
    } else {
        let before = events.drop_last();
        match events.last() {
            Happened::Exec { process, observation } => if process == p {
                Some(observation.identity())
            } else {
                runs(before, p)
            },
            Happened::Fork { parent, child } => if child == p {
                runs(before, parent)
            } else {
                runs(before, p)
            },
            _ => runs(before, p),
        }
    }
}

/// The last exit of a lifetime.
pub open spec fn last_exit(events: Seq<Happened>, lifetime: ProcessLifetime) -> Option<
    (ProcessInstance, i32),
>
    decreases events.len(),
{
    if events.len() == 0 {
        None
    } else {
        match events.last() {
            Happened::Exit { process, exit_code } => if process.lifetime == lifetime {
                Some((process, exit_code))
            } else {
                last_exit(events.drop_last(), lifetime)
            },
            _ => last_exit(events.drop_last(), lifetime),
        }
    }
}

proof fn lemma_last_event(events: Seq<Happened>, p: ProcessInstance, h: Seq<char>)
    requires
        events.len() > 0,
    ensures
        did_read(events, p, h) <==> did_read(events.drop_last(), p, h) || shows_read(
            events.last(),
            p,
            h,
        ),
        did_move(events, p, h) <==> did_move(events.drop_last(), p, h) || shows_move(
            events.last(),
            p,
            h,
        ),
        did_exec(events, p) <==> did_exec(events.drop_last(), p) || shows_exec(events.last(), p),
{
    let d = events.drop_last();
    let n = d.len() as int;
    assert(events[n] == events.last());
    if did_read(d, p, h) {
        let i = choose|i: int| 0 <= i < d.len() && shows_read(#[trigger] d[i], p, h);
        assert(shows_read(events[i], p, h));
    }
    if did_read(events, p, h) {
        let i = choose|i: int| 0 <= i < events.len() && shows_read(#[trigger] events[i], p, h);
        assert(i < n ==> d[i] == events[i]);
    }
    if did_move(d, p, h) {
        let i = choose|i: int| 0 <= i < d.len() && shows_move(#[trigger] d[i], p, h);
        assert(shows_move(events[i], p, h));
    }
    if did_move(events, p, h) {
        let i = choose|i: int| 0 <= i < events.len() && shows_move(#[trigger] events[i], p, h);
        assert(i < n ==> d[i] == events[i]);
    }
    if did_exec(d, p) {
        let i = choose|i: int| 0 <= i < d.len() && shows_exec(#[trigger] d[i], p);
        assert(shows_exec(events[i], p));
    }
    if did_exec(events, p) {
        let i = choose|i: int| 0 <= i < events.len() && shows_exec(#[trigger] events[i], p);
        assert(i < n ==> d[i] == events[i]);
    }
}

/// What is gathered of a process is what the events show: what it read, what it
/// moved, what it runs, and whether it executed that itself.
pub proof fn law_flows_are_what_the_events_show(
    events: Seq<Happened>,
    root: ProcessInstance,
    p: ProcessInstance,
    h: Seq<char>,
)
    ensures
        ({
            let flow = provenance::scan(events, root).flow(p);
            &&& flow.reads.contains(h) <==> did_read(events, p, h)
            &&& flow.renames.contains(h) <==> did_move(events, p, h)
            &&& flow.tool == runs(events, p)
            &&& flow.has_exec == did_exec(events, p)
        }),
    decreases events.len(),
{
    if events.len() > 0 {
        let d = events.drop_last();
        law_flows_are_what_the_events_show(d, root, p, h);
        lemma_last_event(events, p, h);
        match events.last() {
            Happened::Fork { parent, child } => {
                law_flows_are_what_the_events_show(d, root, parent, h);
            },
            _ => {},
        }
    }
}

/// The exit that is recorded is the last one of the root's lifetime.
pub proof fn law_the_last_exit_of_the_root_counts(events: Seq<Happened>, root: ProcessInstance)
    ensures
        provenance::scan(events, root).root_exit == last_exit(events, root.lifetime),
        provenance::scan(events, root).settled().root_exit == last_exit(events, root.lifetime),
    decreases events.len(),
{
    if events.len() > 0 {
        law_the_last_exit_of_the_root_counts(events.drop_last(), root);
    }
}

/// Who is known to have produced some content is who wrote or moved it.
pub proof fn law_producers_wrote_or_moved(
    events: Seq<Happened>,
    root: ProcessInstance,
    p: ProcessInstance,
    h: Seq<char>,
)
    ensures
        ({
            let s = provenance::scan(events, root);
            s.by_hash.contains((h, p)) <==> s.flow(p).writes.contains(h) || s.flow(
                p,
            ).renames.contains(h)
        }),
    decreases events.len(),
{
    if events.len() > 0 {
        law_producers_wrote_or_moved(events.drop_last(), root, p, h);
    }
}

// ---------------------------------------------------------------------------
// Writes
// ---------------------------------------------------------------------------

/// What is gathered stays: later events add to it and take nothing away.
proof fn lemma_gathered_stays(
    events: Seq<Happened>,
    n: int,
    root: ProcessInstance,
    p: ProcessInstance,
    h: Seq<char>,
    path: Seq<char>,
)
    requires
        0 <= n <= events.len(),
    ensures
        ({
            let a = provenance::scan(events.take(n), root);
            let b = provenance::scan(events, root);
            &&& a.flow(p).writes.contains(h) ==> b.flow(p).writes.contains(h)
            &&& a.by_path.contains((path, p)) ==> b.by_path.contains((path, p))
        }),
    decreases events.len(),
{
    if n == events.len() {
        assert(events.take(n) =~= events);
    } else {
        let d = events.drop_last();
        assert(d.take(n) =~= events.take(n));
        lemma_gathered_stays(d, n, root, p, h, path);
    }
}

/// Whether an event may change which write is open on a descriptor of a lifetime:
/// another open or mapping for writing, a close, or a fork into the lifetime.
pub open spec fn disturbs(event: Happened, lifetime: ProcessLifetime, descriptor: i32) -> bool {
    match event {
        Happened::FileOpen { process, fd, .. } => process.lifetime == lifetime && lets_write(
            event,
            process,
            descriptor,
        ),
        Happened::FileMmap { process, fd, .. } => process.lifetime == lifetime && lets_write(
            event,
            process,
            descriptor,
        ),
        Happened::FileClose { process, fd, external, .. } => process.lifetime == lifetime && fd
            == descriptor && !external,
        Happened::Fork { child, .. } => child.lifetime == lifetime,
        _ => false,
    }
}

spec fn holds_write(
    s: Scan,
    lifetime: ProcessLifetime,
    descriptor: i32,
    p: ProcessInstance,
) -> bool {
    s.pending.contains_key((lifetime, descriptor)) && s.pending[(lifetime, descriptor)].process
        == p
}

proof fn lemma_write_stays_open(
    events: Seq<Happened>,
    i: int,
    j: int,
    root: ProcessInstance,
    lifetime: ProcessLifetime,
    fd: i32,
    p: ProcessInstance,
)
    requires
        0 <= i <= j <= events.len(),
        holds_write(provenance::scan(events.take(i), root), lifetime, fd, p),
        forall|m: int| i <= m < j ==> !disturbs(#[trigger] events[m], lifetime, fd),
    ensures
        holds_write(provenance::scan(events.take(j), root), lifetime, fd, p),
    decreases j,
{
    if i < j {
        lemma_write_stays_open(events, i, j - 1, root, lifetime, fd, p);
        assert(events.take(j).drop_last() =~= events.take(j - 1));
        assert(!disturbs(events[j - 1], lifetime, fd));
    }
}

proof fn lemma_lets_write(
    events: Seq<Happened>,
    i: int,
    root: ProcessInstance,
    fd: i32,
    p: ProcessInstance,
)
    requires
        0 <= i < events.len(),
        lets_write(events[i], p, fd),
    ensures
        holds_write(provenance::scan(events.take(i + 1), root), p.lifetime, fd, p),
{
    assert(events.take(i + 1).drop_last() =~= events.take(i));
}

proof fn lemma_close_credits(
    events: Seq<Happened>,
    j: int,
    root: ProcessInstance,
    closer: ProcessInstance,
    fd: i32,
    p: ProcessInstance,
    path: Seq<char>,
    observation: Observed,
)
    requires
        0 <= j < events.len(),
        events[j] == (Happened::FileClose {
            process: closer,
            fd,
            path: Some(path),
            external: false,
            observation: Some(observation),
        }),
        holds_write(provenance::scan(events.take(j), root), closer.lifetime, fd, p),
    ensures
        ({
            let s = provenance::scan(events, root);
            &&& s.by_path.contains((path, p))
            &&& observation matches Observed::Content(h) ==> s.flow(p).writes.contains(h)
        }),
{
    assert(events.take(j + 1).drop_last() =~= events.take(j));
    let h = match observation {
        Observed::Content(h) => h,
        _ => Seq::empty(),
    };
    lemma_gathered_stays(events, j + 1, root, p, h, path);
}

/// What is written through a descriptor is credited to the instance that opened
/// it for writing, or mapped it so, whichever instance of the same lifetime closes
/// it: the content that the close shows is among what it wrote, and it is a writer
/// of the path.
pub proof fn law_written_content_is_credited(
    events: Seq<Happened>,
    i: int,
    j: int,
    root: ProcessInstance,
    p: ProcessInstance,
    fd: i32,
    closer: ProcessInstance,
    path: Seq<char>,
    observation: Observed,
)
    requires
        0 <= i < j < events.len(),
        lets_write(events[i], p, fd),
        forall|m: int| i < m < j ==> !disturbs(#[trigger] events[m], p.lifetime, fd),
        closer.lifetime == p.lifetime,
        events[j] == (Happened::FileClose {
            process: closer,
            fd,
            path: Some(path),
            external: false,
            observation: Some(observation),
        }),
    ensures
        ({
            let s = provenance::scan(events, root);
            &&& s.by_path.contains((path, p))
            &&& observation matches Observed::Content(h) ==> s.flow(p).writes.contains(h)
        }),
{
    lemma_lets_write(events, i, root, fd, p);
    lemma_write_stays_open(events, i + 1, j, root, p.lifetime, fd, p);
    lemma_close_credits(events, j, root, closer, fd, p, path, observation);
}

/// What a child writes through a descriptor that it inherited is credited to the
/// instance that opened the descriptor.
pub proof fn law_inherited_writes_are_credited(
    events: Seq<Happened>,
    i: int,
    f: int,
    j: int,
    root: ProcessInstance,
    p: ProcessInstance,
    parent: ProcessInstance,
    child: ProcessInstance,
    fd: i32,
    closer: ProcessInstance,
    path: Seq<char>,
    observation: Observed,
)
    requires
        0 <= i < f < j < events.len(),
        lets_write(events[i], p, fd),
        forall|m: int| i < m < f ==> !disturbs(#[trigger] events[m], p.lifetime, fd),
        events[f] == (Happened::Fork { parent, child }),
        parent.lifetime == p.lifetime,
        forall|m: int| f < m < j ==> !disturbs(#[trigger] events[m], child.lifetime, fd),
        closer.lifetime == child.lifetime,
        events[j] == (Happened::FileClose {
            process: closer,
            fd,
            path: Some(path),
            external: false,
            observation: Some(observation),
        }),
    ensures
        ({
            let s = provenance::scan(events, root);
            &&& s.by_path.contains((path, p))
            &&& observation matches Observed::Content(h) ==> s.flow(p).writes.contains(h)
        }),
{
    lemma_lets_write(events, i, root, fd, p);
    lemma_write_stays_open(events, i + 1, f, root, p.lifetime, fd, p);
    assert(events.take(f + 1).drop_last() =~= events.take(f));
    assert(holds_write(
        provenance::scan(events.take(f + 1), root),
        child.lifetime,
        fd,
        p,
    ));
    lemma_write_stays_open(events, f + 1, j, root, child.lifetime, fd, p);
    lemma_close_credits(events, j, root, closer, fd, p, path, observation);
}

/// Whether some descriptor was opened for writing by a process before position `n`.
pub open spec fn could_write(events: Seq<Happened>, n: int, p: ProcessInstance) -> bool {
    exists|i: int, fd: i32| 0 <= i < n && #[trigger] lets_write(events[i], p, fd)
}

proof fn lemma_pending_was_let(
    events: Seq<Happened>,
    root: ProcessInstance,
    key: (ProcessLifetime, i32),
)
    requires
        provenance::scan(events, root).pending.contains_key(key),
    ensures
        could_write(
            events,
            events.len() as int,
            provenance::scan(events, root).pending[key].process,
        ),
    decreases events.len(),
{
    if events.len() > 0 {
        let d = events.drop_last();
        let n = d.len() as int;
        let s = provenance::scan(d, root);
        let t = provenance::scan(events, root);
        let p = t.pending[key].process;
        assert(events[n] == events.last());
        let old_key = match events.last() {
            Happened::Fork { parent, child } => if key.0 == child.lifetime
                && s.pending.contains_key((parent.lifetime, key.1)) {
                (parent.lifetime, key.1)
            } else {
                key
            },
            _ => key,
        };
        if s.pending.contains_key(old_key) && s.pending[old_key].process == p {
            lemma_pending_was_let(d, root, old_key);
            let (i, fd) = choose|i: int, fd: i32|
                0 <= i < n && #[trigger] lets_write(d[i], p, fd);
            assert(lets_write(events[i], p, fd));
        } else {
            assert(lets_write(events[n], p, key.1));
        }
    }
}

/// Nothing else is credited: what a process is held to have written, some close
/// showed, after the process had opened or mapped a file for writing.
pub proof fn law_credited_content_was_written(
    events: Seq<Happened>,
    root: ProcessInstance,
    p: ProcessInstance,
    h: Seq<char>,
)
    requires
        provenance::scan(events, root).flow(p).writes.contains(h),
    ensures
        exists|j: int|
            0 <= j < events.len() && shows_written(#[trigger] events[j], h) && could_write(
                events,
                j,
                p,
            ),
    decreases events.len(),
{
    if events.len() > 0 {
        let d = events.drop_last();
        let n = d.len() as int;
        assert(events[n] == events.last());
        if provenance::scan(d, root).flow(p).writes.contains(h) {
            law_credited_content_was_written(d, root, p, h);
            let j = choose|j: int|
                0 <= j < d.len() && shows_written(#[trigger] d[j], h) && could_write(d, j, p);
            let (i, fd) = choose|i: int, fd: i32|
                0 <= i < j && #[trigger] lets_write(d[i], p, fd);
            assert(lets_write(events[i], p, fd));
            assert(shows_written(events[j], h) && could_write(events, j, p));
        } else {
            let s = provenance::scan(d, root);
            match events.last() {
                Happened::FileClose { process, fd, .. } => {
                    let key = (process.lifetime, fd);
                    lemma_pending_was_let(d, root, key);
                    let (i, f) = choose|i: int, f: i32|
                        0 <= i < n && #[trigger] lets_write(d[i], p, f);
                    assert(lets_write(events[i], p, f));
                    assert(could_write(events, n, p));
                    assert(shows_written(events[n], h));
                },
                _ => {
                    assert(false);
                },
            }
        }
    }
}

// ---------------------------------------------------------------------------
// Paths
// ---------------------------------------------------------------------------

/// Whether an event is a renaming by a process of the tree.
pub open spec fn renames(
    event: Happened,
    p: ProcessInstance,
    from: Seq<char>,
    to: Seq<char>,
) -> bool {
    match event {
        Happened::FileRename { process, from_path, to_path, external, .. } => process == p
            && from_path == from && to_path == to && !external,
        _ => false,
    }
}

/// Whether a process is held to be a writer of a path, once all events are known.
pub open spec fn is_writer_of(
    events: Seq<Happened>,
    root: ProcessInstance,
    path: Seq<char>,
    p: ProcessInstance,
) -> bool {
    provenance::scan(events, root).settled().by_path.contains((path, p))
}

proof fn lemma_renames_listed(events: Seq<Happened>, i: int, root: ProcessInstance)
    requires
        0 <= i < events.len(),
    ensures
        forall|p: ProcessInstance, from: Seq<char>, to: Seq<char>| #[trigger]
            renames(events[i], p, from, to) ==> {
                &&& provenance::scan(events, root).renames.contains((from, to))
                &&& provenance::scan(events, root).by_path.contains((to, p))
            },
    decreases events.len(),
{
    let d = events.drop_last();
    let s = provenance::scan(d, root);
    let t = provenance::scan(events, root);
    if i < d.len() {
        lemma_renames_listed(d, i, root);
        assert forall|p: ProcessInstance, from: Seq<char>, to: Seq<char>| #[trigger]
            renames(events[i], p, from, to) implies t.renames.contains((from, to))
            && t.by_path.contains((to, p)) by {
            assert(renames(d[i], p, from, to));
            let k = choose|k: int| 0 <= k < s.renames.len() && s.renames[k] == (from, to);
            assert(t.renames[k] == (from, to));
            lemma_gathered_stays(events, d.len() as int, root, p, Seq::empty(), to);
            assert(events.take(d.len() as int) =~= d);
        }
    } else {
        assert forall|p: ProcessInstance, from: Seq<char>, to: Seq<char>| #[trigger]
            renames(events[i], p, from, to) implies t.renames.contains((from, to))
            && t.by_path.contains((to, p)) by {
            assert(t.renames[s.renames.len() as int] == (from, to));
        }
    }
}

/// Who renames a file is a writer of its new place, and so is whoever wrote the
/// file at its old place or, where a directory was renamed, a file below it, in
/// whatever order the events arrived.
pub proof fn law_writers_follow_renames(
    events: Seq<Happened>,
    i: int,
    root: ProcessInstance,
    p: ProcessInstance,
    from: Seq<char>,
    to: Seq<char>,
    q: ProcessInstance,
    rest: Seq<char>,
)
    requires
        0 <= i < events.len(),
        renames(events[i], p, from, to),
    ensures
        is_writer_of(events, root, to, p),
        provenance::scan(events, root).by_path.contains((from, q)) ==> is_writer_of(
            events,
            root,
            to,
            q,
        ),
        provenance::scan(events, root).by_path.contains((from + seq!['/'] + rest, q))
            ==> is_writer_of(events, root, to + seq!['/'] + rest, q),
{
    let s = provenance::scan(events, root);
    lemma_renames_listed(events, i, root);
    provenance::lemma_aliases_grow(s.by_path, s.renames);
    let k = choose|k: int| 0 <= k < s.renames.len() && s.renames[k] == (from, to);
    if s.by_path.contains((from, q)) {
        provenance::law_late_writes_follow_renames(s, k, from, q);
    }
    let below = from + seq!['/'] + rest;
    if s.by_path.contains((below, q)) {
        assert(below.subrange(0, from.len() as int) =~= from);
        assert(below[from.len() as int] == '/');
        assert(to + below.skip(from.len() as int) =~= to + seq!['/'] + rest);
        provenance::law_late_writes_follow_renames(s, k, below, q);
    }
}

/// Who wrote a path stays a writer of it.
pub proof fn law_writers_stay(
    events: Seq<Happened>,
    root: ProcessInstance,
    path: Seq<char>,
    p: ProcessInstance,
)
    requires
        provenance::scan(events, root).by_path.contains((path, p)),
    ensures
        is_writer_of(events, root, path, p),
{
    let s = provenance::scan(events, root);
    provenance::lemma_aliases_grow(s.by_path, s.renames);
}

// ---------------------------------------------------------------------------
// What outputs depend on
// ---------------------------------------------------------------------------

/// Whether some output has this content.
pub open spec fn is_output(outputs: Seq<Output>, h: Seq<char>) -> bool {
    exists|i: int| 0 <= i < outputs.len() && (#[trigger] outputs[i]).hash == h
}

/// Whether a process wrote or moved some content.
pub open spec fn did_produce(
    events: Seq<Happened>,
    root: ProcessInstance,
    p: ProcessInstance,
    h: Seq<char>,
) -> bool {
    provenance::scan(events, root).flow(p).writes.contains(h) || did_move(events, p, h)
}

/// Whether a set holds the writers of all outputs, and of every process in it also
/// those that produced what it read, unless that is itself an output.
pub open spec fn is_closed(
    events: Seq<Happened>,
    root: ProcessInstance,
    outputs: Seq<Output>,
    set: Set<ProcessInstance>,
) -> bool {
    &&& forall|i: int, p: ProcessInstance|
        0 <= i < outputs.len() && #[trigger] is_writer_of(events, root, outputs[i].path, p)
            ==> set.contains(p)
    &&& forall|p: ProcessInstance, q: ProcessInstance, h: Seq<char>|
        set.contains(p) && #[trigger] did_read(events, p, h) && !is_output(outputs, h)
            && #[trigger] did_produce(events, root, q, h) ==> set.contains(q)
}

/// Whether the outputs depend on a process: it is in every such set.
pub open spec fn depended_on(
    events: Seq<Happened>,
    root: ProcessInstance,
    outputs: Seq<Output>,
    p: ProcessInstance,
) -> bool {
    forall|set: Set<ProcessInstance>| #[trigger]
        is_closed(events, root, outputs, set) ==> set.contains(p)
}

proof fn lemma_settled_flows(events: Seq<Happened>, root: ProcessInstance, p: ProcessInstance)
    ensures
        provenance::scan(events, root).settled().flow(p) == provenance::scan(events, root).flow(p),
        provenance::scan(events, root).settled().by_hash == provenance::scan(events, root).by_hash,
{
}

proof fn lemma_included_is_closed(
    events: Seq<Happened>,
    root: ProcessInstance,
    outputs: Seq<Output>,
)
    ensures
        is_closed(
            events,
            root,
            outputs,
            slice::included(provenance::scan(events, root).settled(), outputs),
        ),
{
    let s = provenance::scan(events, root).settled();
    let set = slice::included(s, outputs);
    assert forall|i: int, p: ProcessInstance|
        0 <= i < outputs.len() && #[trigger] is_writer_of(
            events,
            root,
            outputs[i].path,
            p,
        ) implies set.contains(p) by {
        assert(s.by_path.contains((outputs[i].path, p)));
        assert(slice::is_seed(s, outputs, p));
        slice::lemma_seed_included(s, outputs, p);
    }
    assert forall|p: ProcessInstance, q: ProcessInstance, h: Seq<char>|
        set.contains(p) && #[trigger] did_read(events, p, h) && !is_output(outputs, h)
            && #[trigger] did_produce(events, root, q, h) implies set.contains(q) by {
        law_flows_are_what_the_events_show(events, root, p, h);
        law_flows_are_what_the_events_show(events, root, q, h);
        law_producers_wrote_or_moved(events, root, q, h);
        lemma_settled_flows(events, root, p);
        assert(slice::output_hashes(outputs).contains(h) == is_output(outputs, h));
        assert(s.flow(p).reads.contains(h));
        assert(slice::depends(s, outputs, p, q));
        slice::lemma_dependency_included(s, outputs, p, q);
    }
}

proof fn lemma_dependence(
    events: Seq<Happened>,
    root: ProcessInstance,
    outputs: Seq<Output>,
    p: ProcessInstance,
)
    ensures
        slice::included(provenance::scan(events, root).settled(), outputs).contains(p)
            == depended_on(events, root, outputs, p),
{
    let s = provenance::scan(events, root).settled();
    let set = slice::included(s, outputs);
    lemma_included_is_closed(events, root, outputs);
    if set.contains(p) {
        assert forall|other: Set<ProcessInstance>| #[trigger]
            is_closed(events, root, outputs, other) implies other.contains(p) by {
            assert forall|a: ProcessInstance| slice::is_seed(s, outputs, a) implies #[trigger]
                other.contains(a) by {
                let i = choose|i: int|
                    0 <= i < outputs.len() && s.by_path.contains(((#[trigger] outputs[i]).path, a));
                assert(is_writer_of(events, root, outputs[i].path, a));
            }
            assert forall|a: ProcessInstance, b: ProcessInstance|
                #![trigger other.contains(a), other.contains(b)]
                other.contains(a) && slice::depends(s, outputs, a, b) implies other.contains(b) by {
                let h = choose|h: Seq<char>| #[trigger]
                    s.flow(a).reads.contains(h) && !slice::output_hashes(outputs).contains(h)
                        && s.by_hash.contains((h, b));
                law_flows_are_what_the_events_show(events, root, a, h);
                law_flows_are_what_the_events_show(events, root, b, h);
                law_producers_wrote_or_moved(events, root, b, h);
                lemma_settled_flows(events, root, a);
                assert(slice::output_hashes(outputs).contains(h) == is_output(outputs, h));
                assert(did_read(events, a, h) && did_produce(events, root, b, h));
            }
            slice::lemma_closed_contains_included(s, outputs, other);
        }
    }
}

/// Outputs depend on their writers, and on whoever produced what the processes
/// that they depend on read, unless that is itself an output.
pub proof fn law_dependence_goes_back_along_content(
    events: Seq<Happened>,
    root: ProcessInstance,
    outputs: Seq<Output>,
    i: int,
    p: ProcessInstance,
    q: ProcessInstance,
    h: Seq<char>,
)
    ensures
        0 <= i < outputs.len() && is_writer_of(events, root, outputs[i].path, p) ==> depended_on(
            events,
            root,
            outputs,
            p,
        ),
        depended_on(events, root, outputs, p) && did_read(events, p, h) && !is_output(outputs, h)
            && did_produce(events, root, q, h) ==> depended_on(events, root, outputs, q),
{
}

/// Whether a slice holds the hash of an operation with these parts.
pub open spec fn in_slice(
    events: Seq<Happened>,
    root: ProcessInstance,
    outputs: Seq<Output>,
    op_type: OpType,
    tool_hash: Option<Seq<char>>,
    args: Seq<Seq<char>>,
    input_hashes: Seq<Seq<char>>,
    output_hashes: Seq<Seq<char>>,
) -> bool {
    operation::op_hashes(slice::output_slice(events, root, outputs)).contains(
        (OpView { op_type, process_index: 0, tool_hash, args, input_hashes, output_hashes }).hash(),
    )
}

proof fn lemma_plain(op: OpView)
    requires
        op.args.len() <= 1,
        op.input_hashes.len() <= 1,
        op.output_hashes.len() <= 1,
    ensures
        op.normalized() == op,
        op.hash() == (OpView { process_index: 0, ..op }).hash(),
{
    coverage::lemma_plain(op);
}

/// What an included process contributes is in the slice.
proof fn lemma_flow_op_in_slice(
    events: Seq<Happened>,
    root: ProcessInstance,
    outputs: Seq<Output>,
    p: ProcessInstance,
    k: int,
)
    requires
        outputs.len() > 0,
        ({
            let s = provenance::scan(events, root).settled();
            &&& slice::included(s, outputs).contains(p)
            &&& 0 <= k < slice::flow_ops(
                s.flow(p),
                slice::slice_numbering(s, root, outputs).indices[p],
                slice::relevant(s, outputs),
            ).len()
        }),
    ensures
        ({
            let s = provenance::scan(events, root).settled();
            operation::op_hashes(slice::output_slice(events, root, outputs)).contains(
                slice::flow_ops(
                    s.flow(p),
                    slice::slice_numbering(s, root, outputs).indices[p],
                    slice::relevant(s, outputs),
                )[k].normalized().hash(),
            )
        }),
{
    let s = provenance::scan(events, root).settled();
    let known = provenance::actors(events);
    provenance::lemma_scan_speaks_of_actors(events, root);
    provenance::lemma_finite_flows(events, root);
    slice::lemma_included_is_known(s, outputs, known);
    vstd::set_lib::lemma_len_subset(slice::included(s, outputs), known);
    slice::lemma_processes_listed(slice::included(s, outputs));
    let list = slice::process_listing(slice::included(s, outputs));
    let numbers = slice::slice_numbering(s, root, outputs);
    let matters = slice::relevant(s, outputs);
    let left = order::text_listing(slice::orphans(s, outputs));
    let ops = slice::slice_ops(s, root, outputs);
    let flow_part = slice::all_flow_ops(s, numbers, matters, list);
    let mine = slice::flow_ops(s.flow(p), numbers.indices[p], matters);
    assert(list.contains(p));
    if !s.flows.contains_key(p) {
        lemma_no_flow_no_ops(numbers.indices[p], matters);
    }
    slice::lemma_flow_op_listed(s, numbers, matters, list, p, k);
    let j = choose|j: int| 0 <= j < flow_part.len() && flow_part[j] == mine[k];
    assert(ops[j] == mine[k]);
    slice::lemma_kept_when_finalized(ops, j);
}

proof fn lemma_no_flow_no_ops(index: u32, matters: Set<Seq<char>>)
    ensures
        slice::flow_ops(provenance::Flow::none(), index, matters).len() == 0,
{
    let none = Set::<Seq<char>>::empty();
    order::lemma_texts_listed(none);
    let list = order::text_listing(none);
    if list.len() > 0 {
        assert(list.contains(list[0]));
    }
    assert(none.intersect(matters) =~= none);
}

/// Where the parts of what a process contributes begin.
proof fn lemma_flow_parts(
    events: Seq<Happened>,
    root: ProcessInstance,
    p: ProcessInstance,
    index: u32,
    matters: Set<Seq<char>>,
    h: Seq<char>,
)
    ensures
        ({
            let flow = provenance::scan(events, root).flow(p);
            let ops = slice::flow_ops(flow, index, matters);
            &&& did_read(events, p, h) ==> exists|k: int|
                0 <= k < ops.len() && #[trigger] ops[k] == (OpView {
                    op_type: OpType::FileRead,
                    process_index: index,
                    tool_hash: runs(events, p),
                    args: Seq::empty(),
                    input_hashes: seq![h],
                    output_hashes: Seq::empty(),
                })
            &&& flow.writes.contains(h) && matters.contains(h) ==> exists|k: int|
                0 <= k < ops.len() && #[trigger] ops[k] == (OpView {
                    op_type: OpType::FileWrite,
                    process_index: index,
                    tool_hash: runs(events, p),
                    args: Seq::empty(),
                    input_hashes: Seq::empty(),
                    output_hashes: seq![h],
                })
            &&& did_move(events, p, h) && matters.contains(h) ==> exists|k: int|
                0 <= k < ops.len() && #[trigger] ops[k] == (OpView {
                    op_type: OpType::FileRename,
                    process_index: index,
                    tool_hash: runs(events, p),
                    args: Seq::empty(),
                    input_hashes: seq![h],
                    output_hashes: seq![h],
                })
            &&& did_exec(events, p) && runs(events, p) is Some ==> exists|k: int|
                0 <= k < ops.len() && #[trigger] ops[k] == (OpView {
                    op_type: OpType::Exec,
                    process_index: index,
                    tool_hash: runs(events, p),
                    args: Seq::empty(),
                    input_hashes: Seq::empty(),
                    output_hashes: Seq::empty(),
                })
        }),
{
    let flow = provenance::scan(events, root).flow(p);
    let ops = slice::flow_ops(flow, index, matters);
    provenance::lemma_finite_flows(events, root);
    law_flows_are_what_the_events_show(events, root, p, h);
    order::lemma_texts_listed(flow.reads);
    order::lemma_texts_listed(flow.writes.intersect(matters));
    order::lemma_texts_listed(flow.renames.intersect(matters));
    let reads = order::text_listing(flow.reads);
    let writes = order::text_listing(flow.writes.intersect(matters));
    let moves = order::text_listing(flow.renames.intersect(matters));
    let first = ops.len() - reads.len() - writes.len() - moves.len();
    if did_read(events, p, h) {
        assert(reads.contains(h));
        let m = choose|m: int| 0 <= m < reads.len() && reads[m] == h;
        assert(ops[first + m].input_hashes == seq![h]);
    }
    if flow.writes.contains(h) && matters.contains(h) {
        assert(writes.contains(h));
        let m = choose|m: int| 0 <= m < writes.len() && writes[m] == h;
        assert(ops[first + reads.len() + m].output_hashes == seq![h]);
    }
    if did_move(events, p, h) && matters.contains(h) {
        assert(moves.contains(h));
        let m = choose|m: int| 0 <= m < moves.len() && moves[m] == h;
        assert(ops[first + reads.len() + writes.len() + m].output_hashes == seq![h]);
    }
    if did_exec(events, p) && runs(events, p) is Some {
        assert(ops[0].op_type == OpType::Exec);
    }
}

proof fn lemma_dependence_means_outputs(
    events: Seq<Happened>,
    root: ProcessInstance,
    outputs: Seq<Output>,
    p: ProcessInstance,
)
    requires
        depended_on(events, root, outputs, p),
    ensures
        outputs.len() > 0,
{
    if outputs.len() == 0 {
        let none = Set::<ProcessInstance>::empty();
        assert(is_closed(events, root, outputs, none));
    }
}

/// What a process read that outputs depend on is in the slice, with the tool that
/// read it.
pub proof fn law_slices_hold_what_was_read(
    events: Seq<Happened>,
    root: ProcessInstance,
    outputs: Seq<Output>,
    p: ProcessInstance,
    h: Seq<char>,
)
    requires
        depended_on(events, root, outputs, p),
        did_read(events, p, h),
    ensures
        in_slice(
            events,
            root,
            outputs,
            OpType::FileRead,
            runs(events, p),
            Seq::empty(),
            seq![h],
            Seq::empty(),
        ),
{
    let s = provenance::scan(events, root).settled();
    let index = slice::slice_numbering(s, root, outputs).indices[p];
    let matters = slice::relevant(s, outputs);
    lemma_dependence(events, root, outputs, p);
    lemma_dependence_means_outputs(events, root, outputs, p);
    lemma_settled_flows(events, root, p);
    lemma_flow_parts(events, root, p, index, matters, h);
    let ops = slice::flow_ops(s.flow(p), index, matters);
    let op = OpView {
        op_type: OpType::FileRead,
        process_index: index,
        tool_hash: runs(events, p),
        args: Seq::empty(),
        input_hashes: seq![h],
        output_hashes: Seq::empty(),
    };
    let k = choose|k: int| 0 <= k < ops.len() && #[trigger] ops[k] == op;
    lemma_flow_op_in_slice(events, root, outputs, p, k);
    lemma_plain(op);
}

/// The execution of a process that outputs depend on is in the slice.
pub proof fn law_slices_hold_what_was_executed(
    events: Seq<Happened>,
    root: ProcessInstance,
    outputs: Seq<Output>,
    p: ProcessInstance,
)
    requires
        depended_on(events, root, outputs, p),
        did_exec(events, p),
        runs(events, p) is Some,
    ensures
        in_slice(
            events,
            root,
            outputs,
            OpType::Exec,
            runs(events, p),
            Seq::empty(),
            Seq::empty(),
            Seq::empty(),
        ),
{
    let s = provenance::scan(events, root).settled();
    let index = slice::slice_numbering(s, root, outputs).indices[p];
    let matters = slice::relevant(s, outputs);
    lemma_dependence(events, root, outputs, p);
    lemma_dependence_means_outputs(events, root, outputs, p);
    lemma_settled_flows(events, root, p);
    lemma_flow_parts(events, root, p, index, matters, Seq::empty());
    let ops = slice::flow_ops(s.flow(p), index, matters);
    let op = OpView {
        op_type: OpType::Exec,
        process_index: index,
        tool_hash: runs(events, p),
        args: Seq::empty(),
        input_hashes: Seq::empty(),
        output_hashes: Seq::empty(),
    };
    let k = choose|k: int| 0 <= k < ops.len() && #[trigger] ops[k] == op;
    lemma_flow_op_in_slice(events, root, outputs, p, k);
    lemma_plain(op);
}

/// Whether content matters to outputs: it is an output, or a process that they
/// depend on read it.
pub open spec fn matters(
    events: Seq<Happened>,
    root: ProcessInstance,
    outputs: Seq<Output>,
    h: Seq<char>,
) -> bool {
    is_output(outputs, h) || exists|p: ProcessInstance| #[trigger]
        depended_on(events, root, outputs, p) && did_read(events, p, h)
}

proof fn lemma_matters(
    events: Seq<Happened>,
    root: ProcessInstance,
    outputs: Seq<Output>,
    h: Seq<char>,
)
    ensures
        slice::relevant(provenance::scan(events, root).settled(), outputs).contains(h) == matters(
            events,
            root,
            outputs,
            h,
        ),
{
    let s = provenance::scan(events, root).settled();
    assert(slice::output_hashes(outputs).contains(h) == is_output(outputs, h));
    if slice::relevant(s, outputs).contains(h) && !is_output(outputs, h) {
        let p = choose|p: ProcessInstance| #[trigger]
            slice::included(s, outputs).contains(p) && s.flow(p).reads.contains(h);
        lemma_dependence(events, root, outputs, p);
        lemma_settled_flows(events, root, p);
        law_flows_are_what_the_events_show(events, root, p, h);
        assert(depended_on(events, root, outputs, p) && did_read(events, p, h));
    }
    if matters(events, root, outputs, h) && !is_output(outputs, h) {
        let p = choose|p: ProcessInstance| #[trigger]
            depended_on(events, root, outputs, p) && did_read(events, p, h);
        lemma_dependence(events, root, outputs, p);
        lemma_settled_flows(events, root, p);
        law_flows_are_what_the_events_show(events, root, p, h);
        assert(slice::included(s, outputs).contains(p) && s.flow(p).reads.contains(h));
    }
}

/// What a process wrote or moved that outputs depend on is in the slice, as far as
/// the content matters.
pub proof fn law_slices_hold_what_was_produced(
    events: Seq<Happened>,
    root: ProcessInstance,
    outputs: Seq<Output>,
    p: ProcessInstance,
    h: Seq<char>,
)
    requires
        depended_on(events, root, outputs, p),
        matters(events, root, outputs, h),
    ensures
        provenance::scan(events, root).flow(p).writes.contains(h) ==> in_slice(
            events,
            root,
            outputs,
            OpType::FileWrite,
            runs(events, p),
            Seq::empty(),
            Seq::empty(),
            seq![h],
        ),
        did_move(events, p, h) ==> in_slice(
            events,
            root,
            outputs,
            OpType::FileRename,
            runs(events, p),
            Seq::empty(),
            seq![h],
            seq![h],
        ),
{
    let s = provenance::scan(events, root).settled();
    let index = slice::slice_numbering(s, root, outputs).indices[p];
    let relevant = slice::relevant(s, outputs);
    lemma_dependence(events, root, outputs, p);
    lemma_dependence_means_outputs(events, root, outputs, p);
    lemma_settled_flows(events, root, p);
    lemma_matters(events, root, outputs, h);
    lemma_flow_parts(events, root, p, index, relevant, h);
    let ops = slice::flow_ops(s.flow(p), index, relevant);
    if s.flow(p).writes.contains(h) {
        let op = OpView {
            op_type: OpType::FileWrite,
            process_index: index,
            tool_hash: runs(events, p),
            args: Seq::empty(),
            input_hashes: Seq::empty(),
            output_hashes: seq![h],
        };
        let k = choose|k: int| 0 <= k < ops.len() && #[trigger] ops[k] == op;
        lemma_flow_op_in_slice(events, root, outputs, p, k);
        lemma_plain(op);
    }
    if did_move(events, p, h) {
        let op = OpView {
            op_type: OpType::FileRename,
            process_index: index,
            tool_hash: runs(events, p),
            args: Seq::empty(),
            input_hashes: seq![h],
            output_hashes: seq![h],
        };
        let k = choose|k: int| 0 <= k < ops.len() && #[trigger] ops[k] == op;
        lemma_flow_op_in_slice(events, root, outputs, p, k);
        lemma_plain(op);
    }
}

// ---------------------------------------------------------------------------
// Outputs that no such process produced
// ---------------------------------------------------------------------------

/// Whether one process comes before another, or is it: by process id, then by
/// execution.
pub open spec fn comes_first(p: ProcessInstance, q: ProcessInstance) -> bool {
    p.lifetime.pid < q.lifetime.pid || (p.lifetime.pid == q.lifetime.pid && p.exec_epoch
        <= q.exec_epoch)
}

/// Whether an output was produced by no process that the outputs depend on.
pub open spec fn is_left_over(
    events: Seq<Happened>,
    root: ProcessInstance,
    outputs: Seq<Output>,
    h: Seq<char>,
) -> bool {
    is_output(outputs, h) && forall|p: ProcessInstance|
        #![trigger did_produce(events, root, p, h)]
        depended_on(events, root, outputs, p) ==> !did_produce(events, root, p, h)
}

proof fn lemma_produced(
    events: Seq<Happened>,
    root: ProcessInstance,
    p: ProcessInstance,
    h: Seq<char>,
)
    ensures
        ({
            let s = provenance::scan(events, root).settled();
            &&& slice::produced(s, p, h) == did_produce(events, root, p, h)
            &&& slice::producers(s, h).contains(p) == did_produce(events, root, p, h)
        }),
{
    law_flows_are_what_the_events_show(events, root, p, h);
    law_producers_wrote_or_moved(events, root, p, h);
    lemma_settled_flows(events, root, p);
}

proof fn lemma_left_over(
    events: Seq<Happened>,
    root: ProcessInstance,
    outputs: Seq<Output>,
    h: Seq<char>,
)
    ensures
        slice::orphans(provenance::scan(events, root).settled(), outputs).contains(h)
            == is_left_over(events, root, outputs, h),
{
    let s = provenance::scan(events, root).settled();
    assert(slice::output_hashes(outputs).contains(h) == is_output(outputs, h));
    assert forall|p: ProcessInstance|
        slice::included(s, outputs).contains(p) == depended_on(events, root, outputs, p)
            && slice::produced(s, p, h) == #[trigger] did_produce(events, root, p, h) by {
        lemma_dependence(events, root, outputs, p);
        lemma_produced(events, root, p, h);
    }
    if slice::orphans(s, outputs).contains(h) {
        assert forall|p: ProcessInstance|
            #![trigger did_produce(events, root, p, h)]
            depended_on(events, root, outputs, p) implies !did_produce(events, root, p, h) by {
            lemma_dependence(events, root, outputs, p);
            assert(slice::produced(s, p, h) == did_produce(events, root, p, h));
        }
    }
    if is_left_over(events, root, outputs, h) {
        assert forall|p: ProcessInstance| #[trigger]
            slice::included(s, outputs).contains(p) implies !slice::produced(s, p, h) by {
            assert(slice::produced(s, p, h) == did_produce(events, root, p, h));
        }
    }
}

proof fn lemma_first_producer(
    events: Seq<Happened>,
    root: ProcessInstance,
    h: Seq<char>,
)
    ensures
        ({
            let s = provenance::scan(events, root).settled();
            match slice::first_producer(s, h) {
                Some(q) => did_produce(events, root, q, h) && forall|p: ProcessInstance| #[trigger]
                    did_produce(events, root, p, h) ==> comes_first(q, p),
                None => forall|q: ProcessInstance| #[trigger]
                    did_produce(events, root, q, h) ==> exists|p: ProcessInstance| #[trigger]
                        did_produce(events, root, p, h) && !comes_first(q, p),
            }
        }),
{
    let s = provenance::scan(events, root).settled();
    let set = slice::producers(s, h);
    assert forall|p: ProcessInstance| #[trigger] set.contains(p) == did_produce(
        events,
        root,
        p,
        h,
    ) by {
        lemma_produced(events, root, p, h);
    }
    match slice::first_producer(s, h) {
        Some(q) => {
            assert(slice::is_least(q, set));
            assert(set.contains(q));
            assert forall|p: ProcessInstance| #[trigger]
                did_produce(events, root, p, h) implies comes_first(q, p) by {
                assert(set.contains(p));
            }
        },
        None => {
            assert forall|q: ProcessInstance| #[trigger]
                did_produce(events, root, q, h) implies exists|p: ProcessInstance| #[trigger]
                did_produce(events, root, p, h) && !comes_first(q, p) by {
                assert(set.contains(q));
                assert(!slice::is_least(q, set));
                let p = choose|p: ProcessInstance| #[trigger] set.contains(p) && !(q.rank()
                    <= p.rank());
                assert(did_produce(events, root, p, h) && !comes_first(q, p));
            }
        },
    }
}

/// The operation that stands for a left over output, but for its process index.
spec fn left_over_op(s: Scan, h: Seq<char>, index: u32) -> OpView {
    match slice::first_producer(s, h) {
        Some(p) => OpView {
            op_type: OpType::FileWrite,
            process_index: index,
            tool_hash: s.flow(p).tool,
            args: Seq::empty(),
            input_hashes: Seq::empty(),
            output_hashes: seq![h],
        },
        None => OpView {
            op_type: OpType::FileWrite,
            process_index: index,
            tool_hash: None,
            args: seq!["output"@],
            input_hashes: Seq::empty(),
            output_hashes: seq![h],
        },
    }
}

proof fn lemma_orphan_op(
    s: Scan,
    numbers: slice::Numbering,
    list: Seq<Seq<char>>,
    h: Seq<char>,
)
    requires
        list.contains(h),
    ensures
        exists|k: int|
            0 <= k < slice::orphan_ops(s, numbers, list).len() && left_over_op(
                s,
                h,
                (#[trigger] slice::orphan_ops(s, numbers, list)[k]).process_index,
            ) == slice::orphan_ops(s, numbers, list)[k],
    decreases list.len(),
{
    let ops = slice::orphan_ops(s, numbers, list);
    if list.last() == h {
        assert(left_over_op(s, h, ops[ops.len() - 1].process_index) == ops[ops.len() - 1]);
    } else {
        let i = choose|i: int| 0 <= i < list.len() && list[i] == h;
        assert(list.drop_last()[i] == h);
        lemma_orphan_op(s, numbers, list.drop_last(), h);
        let before = slice::orphan_ops(s, numbers, list.drop_last());
        let k = choose|k: int|
            0 <= k < before.len() && left_over_op(s, h, (#[trigger] before[k]).process_index)
                == before[k];
        assert(ops[k] == before[k]);
    }
}

proof fn lemma_orphans_listed(
    events: Seq<Happened>,
    root: ProcessInstance,
    outputs: Seq<Output>,
)
    ensures
        ({
            let s = provenance::scan(events, root).settled();
            order::lists_texts(
                order::text_listing(slice::orphans(s, outputs)),
                slice::orphans(s, outputs),
            )
        }),
{
    let s = provenance::scan(events, root).settled();
    assert(outputs.take(outputs.len() as int) =~= outputs);
    slice::lemma_output_hashes_finite(outputs, outputs.len() as int);
    vstd::set_lib::lemma_len_subset(slice::orphans(s, outputs), slice::output_hashes(outputs));
    order::lemma_texts_listed(slice::orphans(s, outputs));
}

proof fn lemma_left_over_in_slice(
    events: Seq<Happened>,
    root: ProcessInstance,
    outputs: Seq<Output>,
    h: Seq<char>,
)
    requires
        is_left_over(events, root, outputs, h),
    ensures
        operation::op_hashes(slice::output_slice(events, root, outputs)).contains(
            left_over_op(provenance::scan(events, root).settled(), h, 0).hash(),
        ),
{
    let s = provenance::scan(events, root).settled();
    lemma_left_over(events, root, outputs, h);
    lemma_orphans_listed(events, root, outputs);
    let left = order::text_listing(slice::orphans(s, outputs));
    let list = slice::process_listing(slice::included(s, outputs));
    let numbers = slice::slice_numbering(s, root, outputs);
    let flow_part = slice::all_flow_ops(s, numbers, slice::relevant(s, outputs), list);
    let orphan_part = slice::orphan_ops(s, numbers, left);
    let ops = slice::slice_ops(s, root, outputs);
    assert(left.contains(h));
    lemma_orphan_op(s, numbers, left, h);
    let k = choose|k: int|
        0 <= k < orphan_part.len() && left_over_op(
            s,
            h,
            (#[trigger] orphan_part[k]).process_index,
        ) == orphan_part[k];
    let op = orphan_part[k];
    assert(ops[flow_part.len() + k] == op);
    slice::lemma_kept_when_finalized(ops, flow_part.len() + k);
    lemma_plain(op);
    assert(op.hash() == left_over_op(s, h, 0).hash());
}

/// An output that no process is known to have produced is in the slice as such.
pub proof fn law_outputs_without_a_producer_are_in_the_slice(
    events: Seq<Happened>,
    root: ProcessInstance,
    outputs: Seq<Output>,
    h: Seq<char>,
)
    requires
        is_output(outputs, h),
        forall|p: ProcessInstance| !#[trigger] did_produce(events, root, p, h),
    ensures
        in_slice(
            events,
            root,
            outputs,
            OpType::FileWrite,
            None,
            seq!["output"@],
            Seq::empty(),
            seq![h],
        ),
{
    lemma_left_over_in_slice(events, root, outputs, h);
    lemma_first_producer(events, root, h);
}

/// An output that only processes produced that the outputs do not depend on is in
/// the slice as written by the first of them.
pub proof fn law_outputs_of_other_producers_are_in_the_slice(
    events: Seq<Happened>,
    root: ProcessInstance,
    outputs: Seq<Output>,
    h: Seq<char>,
    q: ProcessInstance,
)
    requires
        is_left_over(events, root, outputs, h),
        did_produce(events, root, q, h),
        forall|p: ProcessInstance| #[trigger]
            did_produce(events, root, p, h) ==> comes_first(q, p),
    ensures
        in_slice(
            events,
            root,
            outputs,
            OpType::FileWrite,
            runs(events, q),
            Seq::empty(),
            Seq::empty(),
            seq![h],
        ),
{
    let s = provenance::scan(events, root).settled();
    lemma_left_over_in_slice(events, root, outputs, h);
    lemma_first_producer(events, root, h);
    let first = slice::first_producer(s, h);
    assert(first is Some);
    assert(comes_first(q, first->0) && comes_first(first->0, q));
    assert(first->0 == q);
    law_flows_are_what_the_events_show(events, root, q, h);
    lemma_settled_flows(events, root, q);
}

/// The last exit of the root is in the slice, with its exit code.
pub proof fn law_slices_hold_the_exit_of_the_root(
    events: Seq<Happened>,
    root: ProcessInstance,
    outputs: Seq<Output>,
    p: ProcessInstance,
    exit_code: i32,
)
    requires
        outputs.len() > 0,
        last_exit(events, root.lifetime) == Some((p, exit_code)),
    ensures
        in_slice(
            events,
            root,
            outputs,
            OpType::Exit,
            runs(events, p),
            seq!["exit:"@ + text::signed_decimal(exit_code as int)],
            Seq::empty(),
            Seq::empty(),
        ),
{
    let s = provenance::scan(events, root).settled();
    law_the_last_exit_of_the_root_counts(events, root);
    law_flows_are_what_the_events_show(events, root, p, Seq::empty());
    lemma_settled_flows(events, root, p);
    let ops = slice::slice_ops(s, root, outputs);
    let k = ops.len() - 1;
    let op = ops[k];
    slice::lemma_kept_when_finalized(ops, k);
    lemma_plain(op);
}

// ---------------------------------------------------------------------------
// Nothing else is in a slice
// ---------------------------------------------------------------------------

/// The logical index of a process in a slice.
pub open spec fn index_in_slice(
    events: Seq<Happened>,
    root: ProcessInstance,
    outputs: Seq<Output>,
    p: ProcessInstance,
) -> u32 {
    slice::slice_numbering(provenance::scan(events, root).settled(), root, outputs).indices[p]
}

/// Whether an operation is one that a process contributes.
pub open spec fn contributes(
    events: Seq<Happened>,
    root: ProcessInstance,
    outputs: Seq<Output>,
    p: ProcessInstance,
    op: OpView,
) -> bool {
    let flow = provenance::scan(events, root).flow(p);
    op.process_index == index_in_slice(events, root, outputs, p) && op.tool_hash == runs(
        events,
        p,
    ) && op.args.len() == 0 && match op.op_type {
        OpType::Exec => did_exec(events, p) && op.tool_hash is Some && op.input_hashes.len() == 0
            && op.output_hashes.len() == 0,
        OpType::FileRead => op.input_hashes.len() == 1 && op.output_hashes.len() == 0 && did_read(
            events,
            p,
            op.input_hashes[0],
        ),
        OpType::FileWrite => op.input_hashes.len() == 0 && op.output_hashes.len() == 1
            && flow.writes.contains(op.output_hashes[0]) && matters(
            events,
            root,
            outputs,
            op.output_hashes[0],
        ),
        OpType::FileRename => op.input_hashes.len() == 1 && op.input_hashes == op.output_hashes
            && did_move(events, p, op.output_hashes[0]) && matters(
            events,
            root,
            outputs,
            op.output_hashes[0],
        ),
        _ => false,
    }
}

/// Whether an operation stands for an output that was left over.
pub open spec fn stands_for_left_over(
    events: Seq<Happened>,
    root: ProcessInstance,
    outputs: Seq<Output>,
    op: OpView,
) -> bool {
    &&& op.op_type == OpType::FileWrite
    &&& op.input_hashes.len() == 0
    &&& op.output_hashes.len() == 1
    &&& is_left_over(events, root, outputs, op.output_hashes[0])
    &&& ((op.tool_hash is None && op.args == seq!["output"@]) || (op.args.len() == 0 && exists|
        q: ProcessInstance,
    | #[trigger]
        did_produce(events, root, q, op.output_hashes[0]) && op.tool_hash == runs(events, q)))
}

/// Whether an operation is the exit of the root.
pub open spec fn is_exit_of_the_root(
    events: Seq<Happened>,
    root: ProcessInstance,
    op: OpView,
) -> bool {
    match last_exit(events, root.lifetime) {
        Some((p, exit_code)) => op.op_type == OpType::Exit && op.tool_hash == runs(events, p)
            && op.args == seq!["exit:"@ + text::signed_decimal(exit_code as int)]
            && op.input_hashes.len() == 0 && op.output_hashes.len() == 0,
        None => false,
    }
}

/// Whether there is a reason for an operation to be in a slice.
pub open spec fn has_reason(
    events: Seq<Happened>,
    root: ProcessInstance,
    outputs: Seq<Output>,
    op: OpView,
) -> bool {
    ||| exists|p: ProcessInstance| #[trigger]
        depended_on(events, root, outputs, p) && contributes(events, root, outputs, p, op)
    ||| stands_for_left_over(events, root, outputs, op)
    ||| is_exit_of_the_root(events, root, op)
}

proof fn lemma_flow_op_reason(
    events: Seq<Happened>,
    root: ProcessInstance,
    outputs: Seq<Output>,
    p: ProcessInstance,
    index: u32,
    k: int,
)
    requires
        ({
            let s = provenance::scan(events, root).settled();
            &&& slice::included(s, outputs).contains(p)
            &&& 0 <= k < slice::flow_ops(
                s.flow(p),
                index,
                slice::relevant(s, outputs),
            ).len()
        }),
        index == index_in_slice(events, root, outputs, p),
    ensures
        ({
            let s = provenance::scan(events, root).settled();
            let op = slice::flow_ops(s.flow(p), index, slice::relevant(s, outputs))[k];
            &&& has_reason(events, root, outputs, op)
            &&& op.args.len() <= 1 && op.input_hashes.len() <= 1 && op.output_hashes.len() <= 1
        }),
{
    let s = provenance::scan(events, root).settled();
    let set = slice::relevant(s, outputs);
    let flow = s.flow(p);
    let ops = slice::flow_ops(flow, index, set);
    let op = ops[k];
    lemma_settled_flows(events, root, p);
    lemma_dependence(events, root, outputs, p);
    provenance::lemma_finite_flows(events, root);
    law_flows_are_what_the_events_show(events, root, p, Seq::empty());
    order::lemma_texts_listed(flow.reads);
    order::lemma_texts_listed(flow.writes.intersect(set));
    order::lemma_texts_listed(flow.renames.intersect(set));
    let reads = order::text_listing(flow.reads);
    let writes = order::text_listing(flow.writes.intersect(set));
    let moves = order::text_listing(flow.renames.intersect(set));
    let first = ops.len() - reads.len() - writes.len() - moves.len();
    if k < first {
        assert(op == slice::exec_op(index, flow.tool->0));
    } else if k < first + reads.len() {
        let h = reads[k - first];
        assert(op == slice::read_op(index, flow.tool, h));
        assert(reads.contains(h));
        law_flows_are_what_the_events_show(events, root, p, h);
    } else if k < first + reads.len() + writes.len() {
        let h = writes[k - first - reads.len()];
        assert(op == slice::write_op(index, flow.tool, h));
        assert(writes.contains(h));
        lemma_matters(events, root, outputs, h);
    } else {
        let h = moves[k - first - reads.len() - writes.len()];
        assert(op == slice::rename_op(index, flow.tool, h));
        assert(moves.contains(h));
        lemma_matters(events, root, outputs, h);
        law_flows_are_what_the_events_show(events, root, p, h);
    }
    assert(contributes(events, root, outputs, p, op));
}

proof fn lemma_orphan_op_reason(
    events: Seq<Happened>,
    root: ProcessInstance,
    outputs: Seq<Output>,
    numbers: slice::Numbering,
    list: Seq<Seq<char>>,
    k: int,
)
    requires
        ({
            let s = provenance::scan(events, root).settled();
            0 <= k < slice::orphan_ops(s, numbers, list).len()
        }),
        forall|i: int|
            0 <= i < list.len() ==> is_left_over(events, root, outputs, #[trigger] list[i]),
    ensures
        ({
            let s = provenance::scan(events, root).settled();
            let op = slice::orphan_ops(s, numbers, list)[k];
            &&& has_reason(events, root, outputs, op)
            &&& op.args.len() <= 1 && op.input_hashes.len() <= 1 && op.output_hashes.len() <= 1
        }),
    decreases list.len(),
{
    if list.len() > 0 {
        let s = provenance::scan(events, root).settled();
        let ops = slice::orphan_ops(s, numbers, list);
        let before = slice::orphan_ops(s, numbers, list.drop_last());
        if k < before.len() {
            lemma_orphan_op_reason(events, root, outputs, numbers, list.drop_last(), k);
            assert(ops[k] == before[k]);
        } else {
            let h = list[list.len() - 1];
            assert(is_left_over(events, root, outputs, h));
            lemma_first_producer(events, root, h);
            let op = ops[k];
            assert(op.output_hashes[0] == h);
            if let Some(q) = slice::first_producer(s, h) {
                law_flows_are_what_the_events_show(events, root, q, h);
                lemma_settled_flows(events, root, q);
                assert(did_produce(events, root, q, h) && op.tool_hash == runs(events, q));
            }
            assert(stands_for_left_over(events, root, outputs, op));
        }
    }
}

/// Nothing is in a slice without a reason.
pub proof fn law_everything_in_a_slice_has_a_reason(
    events: Seq<Happened>,
    root: ProcessInstance,
    outputs: Seq<Output>,
    k: int,
)
    requires
        0 <= k < slice::output_slice(events, root, outputs).len(),
    ensures
        has_reason(events, root, outputs, slice::output_slice(events, root, outputs)[k]),
{
    let s = provenance::scan(events, root).settled();
    let ops = slice::slice_ops(s, root, outputs);
    let m = operation::lemma_finalized_op_is_given(ops, k);
    let list = slice::process_listing(slice::included(s, outputs));
    let numbers = slice::slice_numbering(s, root, outputs);
    let set = slice::relevant(s, outputs);
    let left = order::text_listing(slice::orphans(s, outputs));
    let flow_part = slice::all_flow_ops(s, numbers, set, list);
    let orphan_part = slice::orphan_ops(s, numbers, left);
    let op = ops[m];
    if m < flow_part.len() {
        assert(op == flow_part[m]);
        slice::lemma_flow_op_owner(s, numbers, set, list, m);
        let p = choose|p: ProcessInstance| #[trigger]
            list.contains(p) && slice::flow_ops(s.flow(p), numbers.indices[p], set).contains(op);
        let known = provenance::actors(events);
        provenance::lemma_scan_speaks_of_actors(events, root);
        slice::lemma_included_is_known(s, outputs, known);
        vstd::set_lib::lemma_len_subset(slice::included(s, outputs), known);
        slice::lemma_processes_listed(slice::included(s, outputs));
        let mine = slice::flow_ops(s.flow(p), numbers.indices[p], set);
        let n = choose|n: int| 0 <= n < mine.len() && mine[n] == op;
        lemma_flow_op_reason(events, root, outputs, p, numbers.indices[p], n);
    } else if m < flow_part.len() + orphan_part.len() {
        lemma_orphans_listed(events, root, outputs);
        assert forall|i: int| 0 <= i < left.len() implies is_left_over(
            events,
            root,
            outputs,
            #[trigger] left[i],
        ) by {
            assert(left.contains(left[i]));
            lemma_left_over(events, root, outputs, left[i]);
        }
        assert(op == orphan_part[m - flow_part.len()]);
        lemma_orphan_op_reason(events, root, outputs, numbers, left, m - flow_part.len());
    } else {
        law_the_last_exit_of_the_root_counts(events, root);
        let (p, _) = s.root_exit->0;
        law_flows_are_what_the_events_show(events, root, p, Seq::empty());
        lemma_settled_flows(events, root, p);
    }
    lemma_plain(op);
}

// ---------------------------------------------------------------------------
// Nobody else is a writer of a path
// ---------------------------------------------------------------------------

/// Whether a set of paths follows the renamings of the tree: with the old path of
/// a file or of something below a directory it holds the new one.
pub open spec fn follows_renames(events: Seq<Happened>, set: Set<Seq<char>>) -> bool {
    forall|i: int, p: ProcessInstance, from: Seq<char>, to: Seq<char>|
        0 <= i < events.len() && #[trigger] renames(events[i], p, from, to) ==> moves_along(
            set,
            from,
            to,
        )
}

/// Whether a set of paths follows one renaming.
pub open spec fn moves_along(set: Set<Seq<char>>, from: Seq<char>, to: Seq<char>) -> bool {
    &&& set.contains(from) ==> set.contains(to)
    &&& forall|rest: Seq<char>|
        set.contains(from + seq!['/'] + rest) ==> #[trigger] set.contains(to + seq!['/'] + rest)
}

/// Whether a path can have become another by renamings of the tree.
pub open spec fn becomes(events: Seq<Happened>, a: Seq<char>, b: Seq<char>) -> bool {
    forall|set: Set<Seq<char>>| #[trigger]
        follows_renames(events, set) && set.contains(a) ==> set.contains(b)
}

/// Whether a path is one at which a process is seen to write: it opened or mapped
/// it for writing, it renamed something to it, or it was named at a close after the
/// process had opened or mapped something for writing.
pub open spec fn is_seen_at(events: Seq<Happened>, p: ProcessInstance, path: Seq<char>) -> bool {
    exists|i: int| 0 <= i < events.len() && #[trigger] shows_at(events, i, p, path)
}

/// Whether the event at `i` shows a process at a path.
pub open spec fn shows_at(
    events: Seq<Happened>,
    i: int,
    p: ProcessInstance,
    at: Seq<char>,
) -> bool {
    match events[i] {
        Happened::FileOpen { path, fd, .. } => path == at && lets_write(events[i], p, fd),
        Happened::FileMmap { path, fd, .. } => path == Some(at) && lets_write(events[i], p, fd),
        Happened::FileRename { process, to_path, external, .. } => process == p && to_path == at
            && !external,
        Happened::FileClose { path, external, observation, .. } => path == Some(at) && !external
            && observation is Some && could_write(events, i, p),
        _ => false,
    }
}

/// Whether a path is where a file may lie that a process wrote.
pub open spec fn may_have_written(
    events: Seq<Happened>,
    p: ProcessInstance,
    path: Seq<char>,
) -> bool {
    exists|origin: Seq<char>| #[trigger]
        is_seen_at(events, p, origin) && becomes(events, origin, path)
}

proof fn lemma_may_stays(events: Seq<Happened>, p: ProcessInstance, path: Seq<char>)
    requires
        events.len() > 0,
        may_have_written(events.drop_last(), p, path),
    ensures
        may_have_written(events, p, path),
{
    let d = events.drop_last();
    let origin = choose|origin: Seq<char>| #[trigger]
        is_seen_at(d, p, origin) && becomes(d, origin, path);
    let i = choose|i: int| 0 <= i < d.len() && #[trigger] shows_at(d, i, p, origin);
    assert(d[i] == events[i]);
    if could_write(d, i, p) {
        let (j, fd) = choose|j: int, fd: i32| 0 <= j < i && #[trigger] lets_write(d[j], p, fd);
        assert(lets_write(events[j], p, fd));
    }
    assert(shows_at(events, i, p, origin));
    assert forall|set: Set<Seq<char>>| #[trigger]
        follows_renames(events, set) && set.contains(origin) implies set.contains(path) by {
        assert(follows_renames(d, set)) by {
            assert forall|i: int, p: ProcessInstance, from: Seq<char>, to: Seq<char>|
                0 <= i < d.len() && #[trigger] renames(d[i], p, from, to) implies moves_along(
                set,
                from,
                to,
            ) by {
                assert(renames(events[i], p, from, to));
            }
        }
    }
    assert(is_seen_at(events, p, origin) && becomes(events, origin, path));
}

proof fn lemma_may_here(events: Seq<Happened>, i: int, p: ProcessInstance, path: Seq<char>)
    requires
        0 <= i < events.len(),
        shows_at(events, i, p, path),
    ensures
        may_have_written(events, p, path),
{
    assert(is_seen_at(events, p, path));
    assert(becomes(events, path, path));
}

proof fn lemma_may_follow(
    events: Seq<Happened>,
    i: int,
    renamer: ProcessInstance,
    from: Seq<char>,
    to: Seq<char>,
    p: ProcessInstance,
    path: Seq<char>,
)
    requires
        0 <= i < events.len(),
        renames(events[i], renamer, from, to),
        may_have_written(events, p, path),
        provenance::rewritten(path, from, to) is Some,
    ensures
        may_have_written(events, p, provenance::rewritten(path, from, to)->0),
{
    let new_path = provenance::rewritten(path, from, to)->0;
    let origin = choose|origin: Seq<char>| #[trigger]
        is_seen_at(events, p, origin) && becomes(events, origin, path);
    assert forall|set: Set<Seq<char>>| #[trigger]
        follows_renames(events, set) && set.contains(origin) implies set.contains(new_path) by {
        assert(set.contains(path));
        assert(moves_along(set, from, to));
        if path != from {
            let n = from.len() as int;
            let rest = path.skip(n + 1);
            assert(from == path.subrange(0, n));
            if path.len() == n {
                assert(path =~= from);
            }
            assert(path =~= from + seq!['/'] + rest) by {
                assert forall|k: int| 0 <= k < n implies path[k] == from[k] by {
                    assert(path.subrange(0, n)[k] == path[k]);
                }
            }
            assert(new_path =~= to + seq!['/'] + rest);
        }
    }
    assert(is_seen_at(events, p, origin) && becomes(events, origin, new_path));
}

spec fn all_may(events: Seq<Happened>, s: Scan) -> bool {
    &&& forall|path: Seq<char>, p: ProcessInstance| #[trigger]
        s.by_path.contains((path, p)) ==> may_have_written(events, p, path)
    &&& forall|key: (ProcessLifetime, i32)| #[trigger]
        s.pending.contains_key(key) ==> may_have_written(
            events,
            s.pending[key].process,
            s.pending[key].path,
        )
    &&& forall|k: int|
        0 <= k < s.renames.len() ==> was_renamed(
            events,
            (#[trigger] s.renames[k]).0,
            s.renames[k].1,
        )
}

spec fn was_renamed(events: Seq<Happened>, from: Seq<char>, to: Seq<char>) -> bool {
    exists|i: int, p: ProcessInstance|
        0 <= i < events.len() && #[trigger] renames(events[i], p, from, to)
}

proof fn lemma_all_may(events: Seq<Happened>, root: ProcessInstance)
    ensures
        all_may(events, provenance::scan(events, root)),
    decreases events.len(),
{
    if events.len() > 0 {
        let d = events.drop_last();
        let n = d.len() as int;
        let s = provenance::scan(d, root);
        let t = provenance::scan(events, root);
        lemma_all_may(d, root);
        assert(events[n] == events.last());
        assert forall|path: Seq<char>, p: ProcessInstance| #[trigger]
            s.by_path.contains((path, p)) implies may_have_written(events, p, path) by {
            lemma_may_stays(events, p, path);
        }
        assert forall|key: (ProcessLifetime, i32)| #[trigger]
            s.pending.contains_key(key) implies may_have_written(
            events,
            s.pending[key].process,
            s.pending[key].path,
        ) by {
            lemma_may_stays(events, s.pending[key].process, s.pending[key].path);
        }
        assert forall|k: int| 0 <= k < s.renames.len() implies was_renamed(
            events,
            (#[trigger] s.renames[k]).0,
            s.renames[k].1,
        ) by {
            let (i, p) = choose|i: int, p: ProcessInstance|
                0 <= i < d.len() && #[trigger] renames(d[i], p, s.renames[k].0, s.renames[k].1);
            assert(renames(events[i], p, s.renames[k].0, s.renames[k].1));
        }
        match events[n] {
            Happened::FileOpen { process, path, flags, fd, external, .. } => {
                if !external && flags & 3 != 0 {
                    assert(shows_at(events, n, process, path));
                    lemma_may_here(events, n, process, path);
                }
            },
            Happened::FileMmap { process, fd, prot, flags, path, external, observation } => {
                if let (Some(p), Some(o)) = (path, observation) {
                    if !external && prot & 2 != 0 && flags & 1 != 0 {
                        assert(shows_at(events, n, process, p));
                        lemma_may_here(events, n, process, p);
                    }
                }
            },
            Happened::FileClose { process, fd, path, external, observation } => {
                let key = (process.lifetime, fd);
                if !external && observation is Some && s.pending.contains_key(key) {
                    let writer = s.pending[key].process;
                    lemma_pending_was_let(d, root, key);
                    let (i, f) = choose|i: int, f: i32|
                        0 <= i < n && #[trigger] lets_write(d[i], writer, f);
                    assert(lets_write(events[i], writer, f));
                    assert(could_write(events, n, writer));
                    if let Some(p) = path {
                        assert(shows_at(events, n, writer, p));
                        lemma_may_here(events, n, writer, p);
                    }
                }
            },
            Happened::FileRename { process, from_path, to_path, external, .. } => {
                if !external {
                    assert(renames(events[n], process, from_path, to_path));
                    assert(shows_at(events, n, process, to_path));
                    lemma_may_here(events, n, process, to_path);
                    assert forall|path: Seq<char>, p: ProcessInstance| #[trigger]
                        t.by_path.contains((path, p)) implies may_have_written(
                        events,
                        p,
                        path,
                    ) by {
                        if !s.by_path.contains((path, p)) && (path, p) != (to_path, process) {
                            let old_path = choose|old_path: Seq<char>|
                                #![trigger provenance::rewritten(old_path, from_path, to_path)]
                                s.by_path.contains((old_path, p)) && provenance::rewritten(
                                    old_path,
                                    from_path,
                                    to_path,
                                ) == Some(path);
                            lemma_may_follow(events, n, process, from_path, to_path, p, old_path);
                        }
                    }
                    assert forall|key: (ProcessLifetime, i32)| #[trigger]
                        t.pending.contains_key(key) implies may_have_written(
                        events,
                        t.pending[key].process,
                        t.pending[key].path,
                    ) by {
                        assert(s.pending.contains_key(key));
                        let w = s.pending[key];
                        if provenance::rewritten(w.path, from_path, to_path) is Some {
                            lemma_may_follow(
                                events,
                                n,
                                process,
                                from_path,
                                to_path,
                                w.process,
                                w.path,
                            );
                        }
                    }
                }
            },
            _ => {},
        }
    }
}

proof fn lemma_aliases_may(
    events: Seq<Happened>,
    writers: Set<(Seq<char>, ProcessInstance)>,
    list: Seq<(Seq<char>, Seq<char>)>,
)
    requires
        forall|path: Seq<char>, p: ProcessInstance| #[trigger]
            writers.contains((path, p)) ==> may_have_written(events, p, path),
        forall|k: int|
            0 <= k < list.len() ==> was_renamed(events, (#[trigger] list[k]).0, list[k].1),
    ensures
        forall|path: Seq<char>, p: ProcessInstance| #[trigger]
            provenance::with_all_aliases(writers, list).contains((path, p)) ==> may_have_written(
                events,
                p,
                path,
            ),
    decreases list.len(),
{
    if list.len() > 0 {
        let init = provenance::with_all_aliases(writers, list.drop_last());
        lemma_aliases_may(events, writers, list.drop_last());
        let (from, to) = list[list.len() - 1];
        assert(was_renamed(events, list[list.len() - 1].0, list[list.len() - 1].1));
        let (i, renamer) = choose|i: int, renamer: ProcessInstance|
            0 <= i < events.len() && #[trigger] renames(events[i], renamer, from, to);
        assert forall|path: Seq<char>, p: ProcessInstance| #[trigger]
            provenance::with_all_aliases(writers, list).contains(
                (path, p),
            ) implies may_have_written(events, p, path) by {
            if !init.contains((path, p)) {
                let old_path = choose|old_path: Seq<char>|
                    #![trigger provenance::rewritten(old_path, from, to)]
                    init.contains((old_path, p)) && provenance::rewritten(old_path, from, to)
                        == Some(path);
                lemma_may_follow(events, i, renamer, from, to, p, old_path);
            }
        }
    }
}

/// Nobody is held to be a writer of a path but who was seen to write at it, or at a
/// path that can have become it by renamings.
pub proof fn law_writers_were_seen(
    events: Seq<Happened>,
    root: ProcessInstance,
    path: Seq<char>,
    p: ProcessInstance,
)
    requires
        is_writer_of(events, root, path, p),
    ensures
        may_have_written(events, p, path),
{
    let s = provenance::scan(events, root);
    lemma_all_may(events, root);
    lemma_aliases_may(events, s.by_path, s.renames);
}

/// A close that names no path is taken for one at the path that was opened, as
/// long as nothing was renamed since.
pub proof fn law_closes_without_a_path_go_by_the_open(
    events: Seq<Happened>,
    i: int,
    j: int,
    root: ProcessInstance,
    p: ProcessInstance,
    path: Seq<char>,
    flags: u32,
    fd: i32,
    opened: Observed,
    closer: ProcessInstance,
    closed: Observed,
)
    requires
        0 <= i < j < events.len(),
        events[i] == (Happened::FileOpen {
            process: p,
            path,
            flags,
            fd,
            external: false,
            observation: opened,
        }),
        flags & 3 != 0,
        forall|m: int|
            i < m < j ==> !disturbs(#[trigger] events[m], p.lifetime, fd) && !(
            events[m] is FileRename),
        closer.lifetime == p.lifetime,
        events[j] == (Happened::FileClose {
            process: closer,
            fd,
            path: None,
            external: false,
            observation: Some(closed),
        }),
    ensures
        is_writer_of(events, root, path, p),
{
    assert(events.take(i + 1).drop_last() =~= events.take(i));
    lemma_path_stays(events, i + 1, j, root, p.lifetime, fd, p, path);
    assert(events.take(j + 1).drop_last() =~= events.take(j));
    lemma_gathered_stays(events, j + 1, root, p, Seq::empty(), path);
    law_writers_stay(events, root, path, p);
}

proof fn lemma_path_stays(
    events: Seq<Happened>,
    i: int,
    j: int,
    root: ProcessInstance,
    lifetime: ProcessLifetime,
    fd: i32,
    p: ProcessInstance,
    path: Seq<char>,
)
    requires
        0 <= i <= j <= events.len(),
        ({
            let s = provenance::scan(events.take(i), root);
            holds_write(s, lifetime, fd, p) && s.pending[(lifetime, fd)].path == path
        }),
        forall|m: int|
            i <= m < j ==> !disturbs(#[trigger] events[m], lifetime, fd) && !(
            events[m] is FileRename),
    ensures
        ({
            let s = provenance::scan(events.take(j), root);
            holds_write(s, lifetime, fd, p) && s.pending[(lifetime, fd)].path == path
        }),
    decreases j,
{
    if i < j {
        lemma_path_stays(events, i, j - 1, root, lifetime, fd, p, path);
        assert(events.take(j).drop_last() =~= events.take(j - 1));
        assert(!disturbs(events[j - 1], lifetime, fd) && !(events[j - 1] is FileRename));
    }
}

proof fn lemma_numbering(root: ProcessInstance, list: Seq<ProcessInstance>)
    requires
        list.len() < u32::MAX,
    ensures
        ({
            let n = slice::Numbering::start(root).add_all(list);
            &&& 1 <= n.next <= list.len() + 1
            &&& n.indices.contains_key(root) && n.indices[root] == 0
            &&& forall|i: int| 0 <= i < list.len() ==> n.indices.contains_key(#[trigger] list[i])
            &&& forall|p: ProcessInstance| #[trigger]
                n.indices.contains_key(p) ==> n.indices[p] < n.next
            &&& forall|p: ProcessInstance, q: ProcessInstance| #[trigger]
                n.indices.contains_key(p) && #[trigger] n.indices.contains_key(q) && p != q
                    ==> n.indices[p] != n.indices[q]
        }),
    decreases list.len(),
{
    if list.len() > 0 {
        let d = list.drop_last();
        lemma_numbering(root, d);
        let before = slice::Numbering::start(root).add_all(d);
        let after = slice::Numbering::start(root).add_all(list);
        assert forall|i: int| 0 <= i < list.len() implies after.indices.contains_key(
            #[trigger] list[i],
        ) by {
            if i < d.len() {
                assert(before.indices.contains_key(d[i]));
            }
        }
    }
}

/// The processes of a slice have distinct logical indices, and that of the root is
/// zero.
pub proof fn law_slices_number_their_processes(
    events: Seq<Happened>,
    root: ProcessInstance,
    outputs: Seq<Output>,
    p: ProcessInstance,
    q: ProcessInstance,
)
    requires
        events.len() < u32::MAX,
        depended_on(events, root, outputs, p),
        depended_on(events, root, outputs, q),
        p != q,
    ensures
        index_in_slice(events, root, outputs, root) == 0,
        index_in_slice(events, root, outputs, p) != index_in_slice(events, root, outputs, q),
{
    let s = provenance::scan(events, root).settled();
    let known = provenance::actors(events);
    let set = slice::included(s, outputs);
    provenance::lemma_scan_speaks_of_actors(events, root);
    slice::lemma_included_is_known(s, outputs, known);
    vstd::set_lib::lemma_len_subset(set, known);
    slice::lemma_processes_listed(set);
    lemma_dependence(events, root, outputs, p);
    lemma_dependence(events, root, outputs, q);
    let list = slice::process_listing(set);
    assert(list.no_duplicates()) by {
        assert forall|i: int, j: int| 0 <= i < j < list.len() implies list[i] != list[j] by {
            assert(list[i].rank() < list[j].rank());
        }
    }
    list.unique_seq_to_set();
    assert(list.to_set() =~= set);
    lemma_numbering(root, list);
    assert(list.contains(p) && list.contains(q));
    let i = choose|i: int| 0 <= i < list.len() && list[i] == p;
    let j = choose|j: int| 0 <= j < list.len() && list[j] == q;
    let n = slice::Numbering::start(root).add_all(list);
    assert(n.indices.contains_key(list[i]) && n.indices.contains_key(list[j]));
}

} // verus!
