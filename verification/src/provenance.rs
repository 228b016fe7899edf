//! Which process read, wrote and renamed what: the flows behind a trace.

use crate::canonicalize;
use crate::file_identity;
use crate::file_identity::{is_system_state, FileObservation, Observed, SYSTEM_STATE_SENTINEL};
use crate::text;
use crate::text::{chars_of, concat, starts_with, string_of, text_eq};
use crate::tracer;
use crate::tracer::{Happened, ProcessEvent, ProcessInstance, ProcessLifetime};
use crate::writers::Writers;
use std::collections::HashMap;
use vstd::hash_map::*;
use vstd::prelude::*;
use vstd::string::*;

verus! {

broadcast use vstd::std_specs::hash::group_hash_axioms;

// ---------------------------------------------------------------------------
// The model
// ---------------------------------------------------------------------------

/// What one process instance ran, read, wrote and renamed.
#[verifier::ext_equal]
pub struct Flow {
    /// The identity of its executable, its own or inherited.
    pub tool: Option<Seq<char>>,
    /// Whether it executed that binary itself.
    pub has_exec: bool,
    /// The content it read.
    pub reads: Set<Seq<char>>,
    /// The content it wrote.
    pub writes: Set<Seq<char>>,
    /// The content it moved to another path.
    pub renames: Set<Seq<char>>,
}

impl Flow {
    /// The flow of a process that did nothing.
    pub open spec fn none() -> Flow {
        Flow {
            tool: None,
            has_exec: false,
            reads: Set::empty(),
            writes: Set::empty(),
            renames: Set::empty(),
        }
    }
}

/// A write that is open on a file descriptor.
pub struct OpenedWrite {
    /// The instance that opened it.
    pub process: ProcessInstance,
    /// Where the file lies now.
    pub path: Seq<char>,
}

/// A path after `from` was renamed to `to`, where the renaming concerns it.
pub open spec fn rewritten(path: Seq<char>, from: Seq<char>, to: Seq<char>) -> Option<Seq<char>> {
    if path == from {
        Some(to)
    } else if from.is_prefix_of(path) && path[from.len() as int] == '/' {
        Some(to + path.skip(from.len() as int))
    } else {
        None
    }
}

/// An open write after `from` was renamed to `to`.
pub open spec fn relocated(write: OpenedWrite, from: Seq<char>, to: Seq<char>) -> OpenedWrite {
    match rewritten(write.path, from, to) {
        Some(path) => OpenedWrite { path, ..write },
        None => write,
    }
}

/// The writers, with those of each renamed path also at its new place.
pub open spec fn with_aliases(
    writers: Set<(Seq<char>, ProcessInstance)>,
    from: Seq<char>,
    to: Seq<char>,
) -> Set<(Seq<char>, ProcessInstance)> {
    Set::new(
        |x: (Seq<char>, ProcessInstance)|
            writers.contains(x) || exists|p: Seq<char>|
                #![trigger rewritten(p, from, to)]
                writers.contains((p, x.1)) && rewritten(p, from, to) == Some(x.0),
    )
}

/// The writers after every renaming of a list was applied in turn.
pub open spec fn with_all_aliases(
    writers: Set<(Seq<char>, ProcessInstance)>,
    renames: Seq<(Seq<char>, Seq<char>)>,
) -> Set<(Seq<char>, ProcessInstance)>
    decreases renames.len(),
{
    if renames.len() == 0 {
        writers
    } else {
        with_aliases(
            with_all_aliases(writers, renames.drop_last()),
            renames.last().0,
            renames.last().1,
        )
    }
}

/// The content that a process is held to have read: nothing where it was not
/// available.
pub open spec fn content_seen(path: Seq<char>, observation: Observed) -> Option<Seq<char>> {
    if file_identity::shows_system_state(path) {
        Some(SYSTEM_STATE_SENTINEL@)
    } else {
        observation.content_hash()
    }
}

/// The open writes after a fork: the child holds what its parent holds.
pub open spec fn inherited(
    pending: Map<(ProcessLifetime, i32), OpenedWrite>,
    parent: ProcessLifetime,
    child: ProcessLifetime,
) -> Map<(ProcessLifetime, i32), OpenedWrite> {
    let inherits = |k: (ProcessLifetime, i32)|
        k.0 == child && pending.contains_key((parent, k.1));
    Map::new(
        |k: (ProcessLifetime, i32)| pending.contains_key(k) || inherits(k),
        |k: (ProcessLifetime, i32)|
            if inherits(k) {
                pending[(parent, k.1)]
            } else {
                pending[k]
            },
    )
}

/// What has been gathered from the events so far.
#[verifier::ext_equal]
pub struct Scan {
    pub flows: Map<ProcessInstance, Flow>,
    /// The writes that are open, by lifetime and file descriptor.
    pub pending: Map<(ProcessLifetime, i32), OpenedWrite>,
    /// Who wrote or moved which content.
    pub by_hash: Set<(Seq<char>, ProcessInstance)>,
    /// Who wrote or moved the file at which path.
    pub by_path: Set<(Seq<char>, ProcessInstance)>,
    /// The last exit of the root's lifetime.
    pub root_exit: Option<(ProcessInstance, i32)>,
    /// The renamings, oldest first.
    pub renames: Seq<(Seq<char>, Seq<char>)>,
}

impl Scan {
    /// Before any event.
    pub open spec fn start() -> Scan {
        Scan {
            flows: Map::empty(),
            pending: Map::empty(),
            by_hash: Set::empty(),
            by_path: Set::empty(),
            root_exit: None,
            renames: Seq::empty(),
        }
    }

    /// The flow of a process.
    pub open spec fn flow(self, process: ProcessInstance) -> Flow {
        if self.flows.contains_key(process) {
            self.flows[process]
        } else {
            Flow::none()
        }
    }

    /// With the flow of a process replaced.
    pub open spec fn with_flow(self, process: ProcessInstance, flow: Flow) -> Scan {
        Scan { flows: self.flows.insert(process, flow), ..self }
    }

    /// With a read recorded, where content was seen.
    pub open spec fn read(self, process: ProcessInstance, content: Option<Seq<char>>) -> Scan {
        match content {
            Some(h) => self.with_flow(
                process,
                Flow { reads: self.flow(process).reads.insert(h), ..self.flow(process) },
            ),
            None => self,
        }
    }

    /// With a write opened on a file descriptor.
    pub open spec fn open_write(self, process: ProcessInstance, fd: i32, path: Seq<char>) -> Scan {
        Scan {
            pending: self.pending.insert((process.lifetime, fd), OpenedWrite { process, path }),
            ..self
        }
    }

    /// After a process forked: the child runs the same executable and holds the
    /// same open writes.
    pub open spec fn fork(self, parent: ProcessInstance, child: ProcessInstance) -> Scan {
        Scan {
            pending: inherited(self.pending, parent.lifetime, child.lifetime),
            ..self.with_flow(child, Flow { tool: self.flow(parent).tool, ..self.flow(child) })
        }
    }

    /// After a file descriptor was closed: the write that was open on it, if
    /// any, is credited to the instance that opened it.
    pub open spec fn close(
        self,
        process: ProcessInstance,
        fd: i32,
        path: Option<Seq<char>>,
        observation: Option<Observed>,
    ) -> Scan {
        let key = (process.lifetime, fd);
        let rest = Scan { pending: self.pending.remove(key), ..self };
        if self.pending.contains_key(key) && observation is Some {
            let write = self.pending[key];
            let at = match path {
                Some(p) => p,
                None => write.path,
            };
            let placed = Scan { by_path: rest.by_path.insert((at, write.process)), ..rest };
            match observation->0.content_hash() {
                Some(h) => Scan {
                    by_hash: placed.by_hash.insert((h, write.process)),
                    ..placed.with_flow(
                        write.process,
                        Flow {
                            writes: self.flow(write.process).writes.insert(h),
                            ..self.flow(write.process)
                        },
                    )
                },
                None => placed,
            }
        } else {
            rest
        }
    }

    /// After a file or directory was renamed: open writes and recorded writers
    /// follow it, and who renamed it is a writer of its new place.
    pub open spec fn rename(
        self,
        process: ProcessInstance,
        from: Seq<char>,
        to: Seq<char>,
        observation: Observed,
    ) -> Scan {
        let placed = Scan {
            pending: self.pending.map_values(
                |w: OpenedWrite| relocated(w, from, to),
            ),
            by_path: with_aliases(self.by_path, from, to).insert((to, process)),
            renames: self.renames.push((from, to)),
            ..self
        };
        match observation.content_hash() {
            Some(h) => Scan {
                by_hash: placed.by_hash.insert((h, process)),
                ..placed.with_flow(
                    process,
                    Flow {
                        reads: self.flow(process).reads.insert(h),
                        renames: self.flow(process).renames.insert(h),
                        ..self.flow(process)
                    },
                )
            },
            None => placed,
        }
    }

    /// After one more event.
    pub open spec fn step(self, event: Happened, root: ProcessInstance) -> Scan {
        match event {
            Happened::Exec { process, observation } => self.with_flow(
                process,
                Flow {
                    tool: Some(observation.identity()),
                    has_exec: true,
                    ..self.flow(process)
                },
            ),
            Happened::Fork { parent, child } => self.fork(parent, child),
            Happened::FileOpen { process, path, flags, fd, external, observation } => {
                if external {
                    self
                } else {
                    let s = if canonicalize::can_read(flags) {
                        self.read(process, content_seen(path, observation))
                    } else {
                        self
                    };
                    if canonicalize::can_write(flags) {
                        s.open_write(process, fd, path)
                    } else {
                        s
                    }
                }
            },
            Happened::FileMmap { process, fd, prot, flags, path, external, observation } => {
                match (path, observation) {
                    (Some(p), Some(o)) => if external {
                        self
                    } else {
                        let s = self.read(process, content_seen(p, o));
                        if canonicalize::writes_back(prot, flags) {
                            s.open_write(process, fd, p)
                        } else {
                            s
                        }
                    },
                    _ => self,
                }
            },
            Happened::FileClose { process, fd, path, external, observation } => if external {
                self
            } else {
                self.close(process, fd, path, observation)
            },
            Happened::FileRename { process, from_path, to_path, external, observation, .. } => {
                if external {
                    self
                } else {
                    self.rename(process, from_path, to_path, observation)
                }
            },
            Happened::FileUnlink { .. } => self,
            Happened::Exit { process, exit_code } => if process.lifetime == root.lifetime {
                Scan { root_exit: Some((process, exit_code)), ..self }
            } else {
                self
            },
        }
    }

    /// With every renaming applied once more, to writes that were reported only
    /// after the renaming of their file.
    pub open spec fn settled(self) -> Scan {
        Scan { by_path: with_all_aliases(self.by_path, self.renames), ..self }
    }
}

/// What the events amount to.
pub open spec fn scan(events: Seq<Happened>, root: ProcessInstance) -> Scan
    decreases events.len(),
{
    if events.len() == 0 {
        Scan::start()
    } else {
        scan(events.drop_last(), root).step(events.last(), root)
    }
}

// ---------------------------------------------------------------------------
// Renaming
// ---------------------------------------------------------------------------

/// A path after `from_path` was renamed to `to_path`, where that concerns it.
pub fn rewrite_path_prefix(path: &str, from_path: &str, to_path: &str) -> (result: Option<String>)
    ensures
        text::opt_text(result) == rewritten(path@, from_path@, to_path@),
{
    if text_eq(path, from_path) {
        return Some(to_path.to_string());
    }
    if !starts_with(path, from_path) {
        return None;
    }
    let chars = chars_of(path);
    let from = chars_of(from_path);
    if from.len() == chars.len() {
        assert(path@ =~= from_path@);
        return None;
    }
    if chars[from.len()] != '/' {
        return None;
    }
    let suffix = string_of(vstd::slice::slice_subrange(chars.as_slice(), from.len(), chars.len()));
    assert(suffix@ =~= path@.skip(from_path@.len() as int));
    Some(concat(to_path, suffix.as_str()))
}

// ---------------------------------------------------------------------------
// Flows
// ---------------------------------------------------------------------------

/// The texts of a list as a set.
pub open spec fn text_set(list: Seq<String>) -> Set<Seq<char>> {
    Set::new(|t: Seq<char>| text::texts(list).contains(t))
}

/// Adding a text to a list adds it to the set.
pub proof fn lemma_text_set_push(list: Seq<String>, s: String)
    ensures
        text_set(list.push(s)) == text_set(list).insert(s@),
{
    let a = text::texts(list);
    let b = text::texts(list.push(s));
    assert forall|t: Seq<char>| b.contains(t) <==> a.contains(t) || t == s@ by {
        if b.contains(t) {
            let k = choose|k: int| 0 <= k < b.len() && b[k] == t;
            if k < a.len() {
                assert(a[k] == t);
            }
        }
        if a.contains(t) {
            let k = choose|k: int| 0 <= k < a.len() && a[k] == t;
            assert(b[k] == t);
        }
        assert(b[a.len() as int] == s@);
    }
    assert(text_set(list.push(s)) =~= text_set(list).insert(s@));
}

/// What one process instance ran, read, wrote and renamed; the lists may name
/// the same content more than once.
pub struct ProcessFlow {
    pub tool_hash: Option<String>,
    pub has_exec: bool,
    pub reads: Vec<String>,
    pub writes: Vec<String>,
    pub renames: Vec<String>,
}

impl View for ProcessFlow {
    type V = Flow;

    open spec fn view(&self) -> Flow {
        Flow {
            tool: text::opt_text(self.tool_hash),
            has_exec: self.has_exec,
            reads: text_set(self.reads@),
            writes: text_set(self.writes@),
            renames: text_set(self.renames@),
        }
    }
}

impl ProcessFlow {
    fn none() -> (flow: ProcessFlow)
        ensures
            flow@ == Flow::none(),
    {
        let flow = ProcessFlow {
            tool_hash: None,
            has_exec: false,
            reads: Vec::new(),
            writes: Vec::new(),
            renames: Vec::new(),
        };
        assert(flow@ =~= Flow::none());
        flow
    }

    fn add_read(&mut self, hash: String)
        ensures
            final(self)@ == (Flow { reads: old(self)@.reads.insert(hash@), ..old(self)@ }),
    {
        proof {
            lemma_text_set_push(self.reads@, hash);
        }
        self.reads.push(hash);
    }

    fn add_write(&mut self, hash: String)
        ensures
            final(self)@ == (Flow { writes: old(self)@.writes.insert(hash@), ..old(self)@ }),
    {
        proof {
            lemma_text_set_push(self.writes@, hash);
        }
        self.writes.push(hash);
    }

    fn add_rename(&mut self, hash: String)
        ensures
            final(self)@ == (Flow { renames: old(self)@.renames.insert(hash@), ..old(self)@ }),
    {
        proof {
            lemma_text_set_push(self.renames@, hash);
        }
        self.renames.push(hash);
    }
}

/// The flows of all processes.
pub struct Flows {
    table: HashMap<u64, ProcessFlow>,
}

impl View for Flows {
    type V = Map<ProcessInstance, Flow>;

    closed spec fn view(&self) -> Map<ProcessInstance, Flow> {
        Map::new(
            |p: ProcessInstance| self.table@.contains_key(p.rank()),
            |p: ProcessInstance| self.table@[p.rank()]@,
        )
    }
}

impl Flows {
    fn new() -> (flows: Flows)
        ensures
            flows@ == Map::<ProcessInstance, Flow>::empty(),
    {
        let flows = Flows { table: HashMap::new() };
        assert(flows@ =~= Map::<ProcessInstance, Flow>::empty());
        flows
    }

    /// The flow of a process, where it has one.
    pub fn get(&self, process: ProcessInstance) -> (flow: Option<&ProcessFlow>)
        ensures
            match flow {
                Some(f) => self@.contains_key(process) && f@ == self@[process],
                None => !self@.contains_key(process),
            },
    {
        self.table.get(&process.place())
    }

    fn take(&mut self, process: ProcessInstance) -> (flow: ProcessFlow)
        ensures
            final(self)@ == old(self)@.remove(process),
            old(self)@.contains_key(process) ==> flow@ == old(self)@[process],
            !old(self)@.contains_key(process) ==> flow@ == Flow::none(),
    {
        let flow = self.table.remove(&process.place());
        proof {
            assert forall|p: ProcessInstance| p.rank() == process.rank() implies p == process by {
                tracer::lemma_rank_injective(p, process);
            }
            assert(self@ =~= old(self)@.remove(process));
        }
        match flow {
            Some(flow) => flow,
            None => ProcessFlow::none(),
        }
    }

    fn put(&mut self, process: ProcessInstance, flow: ProcessFlow)
        ensures
            final(self)@ == old(self)@.insert(process, flow@),
    {
        self.table.insert(process.place(), flow);
        proof {
            assert forall|p: ProcessInstance| p.rank() == process.rank() implies p == process by {
                tracer::lemma_rank_injective(p, process);
            }
            assert(self@ =~= old(self)@.insert(process, flow@));
        }
    }
}

// ---------------------------------------------------------------------------
// Open writes
// ---------------------------------------------------------------------------

struct PendingWrite {
    lifetime: ProcessLifetime,
    fd: i32,
    process: ProcessInstance,
    path: String,
}

impl PendingWrite {
    spec fn key(self) -> (ProcessLifetime, i32) {
        (self.lifetime, self.fd)
    }

    spec fn value(self) -> OpenedWrite {
        OpenedWrite { process: self.process, path: self.path@ }
    }
}

struct PendingWrites {
    list: Vec<PendingWrite>,
}

impl PendingWrites {
    /// No descriptor occurs twice.
    spec fn well_formed(self) -> bool {
        forall|i: int, j: int|
            0 <= i < j < self.list@.len() ==> (#[trigger] self.list@[i]).key() != (
            #[trigger] self.list@[j]).key()
    }

    spec fn at(self, i: int, k: (ProcessLifetime, i32)) -> bool {
        0 <= i < self.list@.len() && self.list@[i].key() == k
    }

    spec fn passed(
        self,
        n: int,
        parent: ProcessLifetime,
        child: ProcessLifetime,
        k: (ProcessLifetime, i32),
    ) -> bool {
        k.0 == child && exists|j: int| 0 <= j < n && self.at(j, (parent, k.1))
    }

    spec fn map(self) -> Map<(ProcessLifetime, i32), OpenedWrite> {
        Map::new(
            |k: (ProcessLifetime, i32)| exists|i: int| self.at(i, k),
            |k: (ProcessLifetime, i32)| self.list@[choose|i: int| self.at(i, k)].value(),
        )
    }

    proof fn lemma_at(self, i: int)
        requires
            self.well_formed(),
            0 <= i < self.list@.len(),
        ensures
            self.map().contains_key(self.list@[i].key()),
            self.map()[self.list@[i].key()] == self.list@[i].value(),
    {
        let k = self.list@[i].key();
        assert(self.at(i, k));
        let j = choose|j: int| self.at(j, k);
        assert(self.at(j, k));
        if j != i {
            if j < i {
                assert(self.list@[j].key() != self.list@[i].key());
            } else {
                assert(self.list@[i].key() != self.list@[j].key());
            }
        }
    }

    proof fn lemma_all(self)
        requires
            self.well_formed(),
        ensures
            forall|i: int|
                #![trigger self.list@[i]]
                0 <= i < self.list@.len() ==> self.map().contains_key(self.list@[i].key())
                    && self.map()[self.list@[i].key()] == self.list@[i].value(),
            forall|k: (ProcessLifetime, i32)| #[trigger]
                self.map().contains_key(k) ==> exists|i: int| self.at(i, k),
    {
        assert forall|i: int|
            #![trigger self.list@[i]]
            0 <= i < self.list@.len() implies self.map().contains_key(self.list@[i].key())
            && self.map()[self.list@[i].key()] == self.list@[i].value() by {
            self.lemma_at(i);
        }
    }

    fn new() -> (pending: PendingWrites)
        ensures
            pending.well_formed(),
            pending.map() == Map::<(ProcessLifetime, i32), OpenedWrite>::empty(),
    {
        let pending = PendingWrites { list: Vec::new() };
        assert(pending.map() =~= Map::<(ProcessLifetime, i32), OpenedWrite>::empty());
        pending
    }

    fn find(&self, lifetime: ProcessLifetime, fd: i32) -> (found: Option<usize>)
        requires
            self.well_formed(),
        ensures
            match found {
                Some(i) => self.at(i as int, (lifetime, fd)),
                None => !self.map().contains_key((lifetime, fd)),
            },
    {
        for i in 0..self.list.len()
            invariant
                forall|k: int| 0 <= k < i ==> !self.at(k, (lifetime, fd)),
        {
            if self.list[i].lifetime == lifetime && self.list[i].fd == fd {
                return Some(i);
            }
        }
        proof {
            self.lemma_all();
        }
        None
    }

    fn insert(&mut self, lifetime: ProcessLifetime, fd: i32, process: ProcessInstance, path: String)
        requires
            old(self).well_formed(),
        ensures
            final(self).well_formed(),
            final(self).map() == old(self).map().insert(
                (lifetime, fd),
                OpenedWrite { process, path: path@ },
            ),
            final(self).list@.len() >= old(self).list@.len(),
            forall|i: int|
                #![trigger final(self).list@[i]]
                0 <= i < old(self).list@.len() && old(self).list@[i].lifetime != lifetime
                    ==> final(self).list@[i] == old(self).list@[i],
            forall|i: int|
                #![trigger final(self).list@[i]]
                0 <= i < old(self).list@.len() ==> final(self).list@[i].lifetime == old(
                    self,
                ).list@[i].lifetime,
    {
        let ghost key = (lifetime, fd);
        let ghost value = OpenedWrite { process, path: path@ };
        let found = self.find(lifetime, fd);
        let write = PendingWrite { lifetime, fd, process, path };
        match found {
            Some(i) => {
                self.list.set(i, write);
            },
            None => {
                proof {
                    self.lemma_all();
                }
                self.list.push(write);
            },
        }
        proof {
            old(self).lemma_all();
            assert(self.well_formed());
            self.lemma_all();
            let a = old(self).map();
            let b = self.map();
            assert forall|k: (ProcessLifetime, i32)| #[trigger]
                b.contains_key(k) <==> a.insert(key, value).contains_key(k) by {
                if b.contains_key(k) {
                    let i = choose|i: int| self.at(i, k);
                    assert(self.at(i, k));
                    if k != key {
                        assert(old(self).at(i, k));
                    }
                }
                if a.contains_key(k) {
                    let i = choose|i: int| old(self).at(i, k);
                    assert(old(self).at(i, k));
                    assert(self.at(i, k));
                }
                if k == key {
                    match found {
                        Some(i) => {
                            assert(self.at(i as int, k));
                        },
                        None => {
                            assert(self.at(self.list@.len() - 1, k));
                        },
                    }
                }
            }
            assert forall|k: (ProcessLifetime, i32)| b.contains_key(k) implies #[trigger] b[k]
                == a.insert(key, value)[k] by {
                let i = choose|i: int| self.at(i, k);
                assert(self.at(i, k));
                if k != key {
                    assert(old(self).at(i, k));
                }
            }
            assert(b =~= a.insert(key, value));
        }
    }

    fn remove(&mut self, lifetime: ProcessLifetime, fd: i32) -> (write: Option<PendingWrite>)
        requires
            old(self).well_formed(),
        ensures
            final(self).well_formed(),
            final(self).map() == old(self).map().remove((lifetime, fd)),
            match write {
                Some(w) => old(self).map().contains_key((lifetime, fd)) && old(self).map()[(
                    lifetime,
                    fd,
                )] == w.value(),
                None => !old(self).map().contains_key((lifetime, fd)),
            },
    {
        let ghost key = (lifetime, fd);
        match self.find(lifetime, fd) {
            None => {
                assert(self.map() =~= old(self).map().remove(key));
                None
            },
            Some(at) => {
                let write = self.list.remove(at);
                proof {
                    old(self).lemma_all();
                    old(self).lemma_at(at as int);
                    let o = old(self).list@;
                    let n = self.list@;
                    assert(n == o.remove(at as int));
                    assert forall|i: int| 0 <= i < n.len() implies #[trigger] n[i] == o[if i < at {
                        i
                    } else {
                        i + 1
                    }] by {}
                    assert forall|i: int, j: int| 0 <= i < j < n.len() implies (
                    #[trigger] n[i]).key() != (#[trigger] n[j]).key() by {
                        let x = if i < at { i } else { i + 1 };
                        let y = if j < at { j } else { j + 1 };
                        assert(o[x].key() != o[y].key());
                    }
                    assert(self.well_formed());
                    self.lemma_all();
                    let a = old(self).map();
                    let b = self.map();
                    assert forall|k: (ProcessLifetime, i32)| #[trigger]
                        b.contains_key(k) <==> a.remove(key).contains_key(k) by {
                        if b.contains_key(k) {
                            let i = choose|i: int| self.at(i, k);
                            assert(self.at(i, k));
                            let x = if i < at { i } else { i + 1 };
                            assert(old(self).at(x, k));
                            if k == key {
                                if x < at {
                                    assert(o[x].key() != o[at as int].key());
                                } else {
                                    assert(o[at as int].key() != o[x].key());
                                }
                            }
                        }
                        if a.contains_key(k) && k != key {
                            let i = choose|i: int| old(self).at(i, k);
                            assert(old(self).at(i, k));
                            let x = if i < at { i } else { i - 1 };
                            assert(self.at(x, k));
                        }
                    }
                    assert forall|k: (ProcessLifetime, i32)| b.contains_key(k) implies #[trigger] b[k]
                        == a.remove(key)[k] by {
                        let i = choose|i: int| self.at(i, k);
                        assert(self.at(i, k));
                        let x = if i < at { i } else { i + 1 };
                        assert(old(self).at(x, k));
                        assert(n[i] == o[x]);
                    }
                    assert(b =~= a.remove(key));
                }
                Some(write)
            },
        }
    }

    fn inherit(&mut self, parent: ProcessLifetime, child: ProcessLifetime)
        requires
            old(self).well_formed(),
        ensures
            final(self).well_formed(),
            final(self).map() == inherited(old(self).map(), parent, child),
    {
        if parent == child {
            assert(inherited(self.map(), parent, child) =~= self.map());
            return;
        }
        let count = self.list.len();
        let ghost start = *self;
        for i in 0..count
            invariant
                parent != child,
                start == *old(self),
                start.well_formed(),
                self.well_formed(),
                count == start.list@.len(),
                count <= self.list@.len(),
                forall|j: int|
                    #![trigger self.list@[j]]
                    0 <= j < count && start.list@[j].lifetime == parent ==> self.list@[j]
                        == start.list@[j],
                forall|j: int|
                    #![trigger self.list@[j]]
                    0 <= j < count ==> self.list@[j].lifetime == start.list@[j].lifetime,
                forall|k: (ProcessLifetime, i32)| #[trigger]
                    self.map().contains_key(k) <==> start.map().contains_key(k) || start.passed(
                        i as int,
                        parent,
                        child,
                        k,
                    ),
                forall|k: (ProcessLifetime, i32)|
                    self.map().contains_key(k) ==> #[trigger] self.map()[k] == if start.passed(
                        i as int,
                        parent,
                        child,
                        k,
                    ) {
                        start.map()[(parent, k.1)]
                    } else {
                        start.map()[k]
                    },
        {
            let ghost before = *self;
            let ghost next = i as int + 1;
            let fd = self.list[i].fd;
            if self.list[i].lifetime == parent {
                let process = self.list[i].process;
                let path = self.list[i].path.clone();
                proof {
                    start.lemma_at(i as int);
                    assert(start.at(i as int, (parent, fd)));
                }
                self.insert(child, fd, process, path);
                proof {
                    assert forall|k: (ProcessLifetime, i32)| #[trigger]
                        start.passed(next, parent, child, k) <==> start.passed(
                            i as int,
                            parent,
                            child,
                            k,
                        ) || k == (child, fd) by {
                        if start.passed(i as int, parent, child, k) {
                            let j = choose|j: int|
                                0 <= j < i as int && start.at(j, (parent, k.1));
                            assert(0 <= j < i + 1 && start.at(j, (parent, k.1)));
                        }
                        if start.passed(next, parent, child, k) {
                            let j = choose|j: int| 0 <= j < i + 1 && start.at(j, (parent, k.1));
                            assert(start.at(j, (parent, k.1)));
                            if j < i {
                                assert(start.passed(i as int, parent, child, k));
                            }
                        }
                        if k == (child, fd) {
                            assert(0 <= i < i + 1 && start.at(i as int, (parent, k.1)));
                        }
                    }
                    assert forall|k: (ProcessLifetime, i32)| self.map().contains_key(
                        k,
                    ) implies #[trigger] self.map()[k] == if start.passed(next, parent, child, k) {
                        start.map()[(parent, k.1)]
                    } else {
                        start.map()[k]
                    } by {
                        if k != (child, fd) {
                            assert(before.map().contains_key(k));
                            assert(self.map()[k] == before.map()[k]);
                        }
                    }
                }
            } else {
                proof {
                    assert forall|k: (ProcessLifetime, i32)| #[trigger]
                        start.passed(next, parent, child, k) <==> start.passed(
                            i as int,
                            parent,
                            child,
                            k,
                        ) by {
                        if start.passed(i as int, parent, child, k) {
                            let j = choose|j: int|
                                0 <= j < i as int && start.at(j, (parent, k.1));
                            assert(0 <= j < i + 1 && start.at(j, (parent, k.1)));
                        }
                        if start.passed(next, parent, child, k) {
                            let j = choose|j: int| 0 <= j < i + 1 && start.at(j, (parent, k.1));
                            assert(start.at(j, (parent, k.1)));
                            assert(self.list@[i as int].lifetime == start.list@[i as int].lifetime);
                            assert(j < i);
                            assert(start.passed(i as int, parent, child, k));
                        }
                    }
                }
            }
        }
        proof {
            start.lemma_all();
            let want = inherited(start.map(), parent, child);
            assert forall|k: (ProcessLifetime, i32)| #[trigger]
                start.passed(count as int, parent, child, k) <==> (k.0 == child
                    && start.map().contains_key((parent, k.1))) by {
                if k.0 == child && start.map().contains_key((parent, k.1)) {
                    let j = choose|j: int| start.at(j, (parent, k.1));
                    assert(start.at(j, (parent, k.1)));
                }
            }
            assert forall|k: (ProcessLifetime, i32)| #[trigger]
                self.map().contains_key(k) <==> want.contains_key(k) by {
                assert(start.passed(count as int, parent, child, k) <==> (k.0 == child
                    && start.map().contains_key(
                    (parent, k.1),
                )));
            }
            assert forall|k: (ProcessLifetime, i32)| self.map().contains_key(
                k,
            ) implies #[trigger] self.map()[k] == want[k] by {
                assert(start.passed(count as int, parent, child, k) <==> (k.0 == child
                    && start.map().contains_key(
                    (parent, k.1),
                )));
            }
            assert(self.map() =~= want);
        }
    }

    fn rename(&mut self, from: &str, to: &str)
        requires
            old(self).well_formed(),
        ensures
            final(self).well_formed(),
            final(self).map() == old(self).map().map_values(
                |w: OpenedWrite| relocated(w, from@, to@),
            ),
    {
        let ghost f = |w: OpenedWrite| relocated(w, from@, to@);
        let count = self.list.len();
        for i in 0..count
            invariant
                count == self.list@.len(),
                self.list@.len() == old(self).list@.len(),
                f == |w: OpenedWrite| relocated(w, from@, to@),
                forall|j: int|
                    #![trigger self.list@[j]]
                    0 <= j < self.list@.len() ==> self.list@[j].key() == old(self).list@[j].key(),
                forall|j: int|
                    #![trigger self.list@[j]]
                    0 <= j < i ==> self.list@[j].value() == f(old(self).list@[j].value()),
                forall|j: int|
                    #![trigger self.list@[j]]
                    i <= j < self.list@.len() ==> self.list@[j] == old(self).list@[j],
        {
            if let Some(path) = rewrite_path_prefix(self.list[i].path.as_str(), from, to) {
                let write = PendingWrite {
                    lifetime: self.list[i].lifetime,
                    fd: self.list[i].fd,
                    process: self.list[i].process,
                    path,
                };
                self.list.set(i, write);
            }
        }
        proof {
            let o = *old(self);
            assert forall|i: int, j: int| 0 <= i < j < self.list@.len() implies (
            #[trigger] self.list@[i]).key() != (#[trigger] self.list@[j]).key() by {
                assert(o.list@[i].key() != o.list@[j].key());
            }
            o.lemma_all();
            self.lemma_all();
            let want = o.map().map_values(f);
            assert forall|k: (ProcessLifetime, i32)| #[trigger]
                self.map().contains_key(k) <==> want.contains_key(k) by {
                if self.map().contains_key(k) {
                    let i = choose|i: int| self.at(i, k);
                    assert(self.at(i, k));
                    assert(o.at(i, k));
                }
                if o.map().contains_key(k) {
                    let i = choose|i: int| o.at(i, k);
                    assert(o.at(i, k));
                    assert(self.at(i, k));
                }
            }
            assert forall|k: (ProcessLifetime, i32)| self.map().contains_key(
                k,
            ) implies #[trigger] self.map()[k] == want[k] by {
                let i = choose|i: int| self.at(i, k);
                assert(self.at(i, k));
                assert(o.at(i, k));
            }
            assert(self.map() =~= want);
        }
    }
}

// ---------------------------------------------------------------------------
// The scanner
// ---------------------------------------------------------------------------

/// The texts of a list of renamings.
pub open spec fn rename_texts(renames: Seq<(String, String)>) -> Seq<(Seq<char>, Seq<char>)> {
    Seq::new(renames.len(), |i: int| (renames[i].0@, renames[i].1@))
}

/// Gathers the flows of a trace event by event.
pub struct Scanner {
    flows: Flows,
    pending: PendingWrites,
    by_hash: Writers,
    by_path: Writers,
    root_exit: Option<(ProcessInstance, i32)>,
    renames: Vec<(String, String)>,
}

fn seen_content(path: &str, observation: &FileObservation) -> (hash: Option<String>)
    ensures
        text::opt_text(hash) == content_seen(path@, observation@),
{
    if is_system_state(path) {
        return Some(SYSTEM_STATE_SENTINEL.to_string());
    }
    match observation.content_hash() {
        Some(hash) => Some(hash.to_string()),
        None => None,
    }
}

impl Scanner {
    /// What has been gathered.
    pub closed spec fn state(&self) -> Scan {
        Scan {
            flows: self.flows@,
            pending: self.pending.map(),
            by_hash: self.by_hash@,
            by_path: self.by_path@,
            root_exit: self.root_exit,
            renames: rename_texts(self.renames@),
        }
    }

    /// The tables are consistent.
    pub closed spec fn well_formed(&self) -> bool {
        self.pending.well_formed() && self.by_hash.well_formed() && self.by_path.well_formed()
    }

    /// Before any event.
    pub fn new() -> (scanner: Scanner)
        ensures
            scanner.well_formed(),
            scanner.state() == Scan::start(),
    {
        let scanner = Scanner {
            flows: Flows::new(),
            pending: PendingWrites::new(),
            by_hash: Writers::new(),
            by_path: Writers::new(),
            root_exit: None,
            renames: Vec::new(),
        };
        assert(scanner.state() =~= Scan::start());
        scanner
    }

    fn read(&mut self, process: ProcessInstance, content: Option<String>)
        requires
            old(self).well_formed(),
        ensures
            final(self).well_formed(),
            final(self).state() == old(self).state().read(process, text::opt_text(content)),
    {
        if let Some(hash) = content {
            let mut flow = self.flows.take(process);
            assert(flow@ == old(self).state().flow(process));
            flow.add_read(hash);
            self.flows.put(process, flow);
            assert(self.flows@ =~= old(self).flows@.insert(process, flow@));
        }
    }

    fn open_write(&mut self, process: ProcessInstance, fd: i32, path: String)
        requires
            old(self).well_formed(),
        ensures
            final(self).well_formed(),
            final(self).state() == old(self).state().open_write(process, fd, path@),
    {
        self.pending.insert(process.lifetime, fd, process, path);
    }

    fn exec(&mut self, process: ProcessInstance, identity: String)
        requires
            old(self).well_formed(),
        ensures
            final(self).well_formed(),
            final(self).state() == old(self).state().with_flow(
                process,
                Flow { tool: Some(identity@), has_exec: true, ..old(self).state().flow(process) },
            ),
    {
        let mut flow = self.flows.take(process);
        assert(flow@ == old(self).state().flow(process));
        flow.tool_hash = Some(identity);
        flow.has_exec = true;
        self.flows.put(process, flow);
        assert(self.flows@ =~= old(self).flows@.insert(process, flow@));
    }

    fn fork(&mut self, parent: ProcessInstance, child: ProcessInstance)
        requires
            old(self).well_formed(),
        ensures
            final(self).well_formed(),
            final(self).state() == old(self).state().fork(parent, child),
    {
        let tool = match self.flows.get(parent) {
            Some(flow) => flow.tool_hash.clone(),
            None => None,
        };
        assert(text::opt_text(tool) == self.state().flow(parent).tool);
        let mut flow = self.flows.take(child);
        assert(flow@ == old(self).state().flow(child));
        flow.tool_hash = tool;
        self.flows.put(child, flow);
        assert(self.flows@ =~= old(self).flows@.insert(child, flow@));
        self.pending.inherit(parent.lifetime, child.lifetime);
    }

    fn close(
        &mut self,
        process: ProcessInstance,
        fd: i32,
        path: &Option<String>,
        observation: &Option<FileObservation>,
    )
        requires
            old(self).well_formed(),
        ensures
            final(self).well_formed(),
            final(self).state() == old(self).state().close(
                process,
                fd,
                text::opt_text(*path),
                tracer::opt_observed(*observation),
            ),
    {
        let write = match self.pending.remove(process.lifetime, fd) {
            Some(write) => write,
            None => {
                return;
            },
        };
        let observation = match observation {
            Some(observation) => observation,
            None => {
                return;
            },
        };
        match path {
            Some(path) => {
                self.by_path.add(path.as_str(), write.process);
            },
            None => {
                self.by_path.add(write.path.as_str(), write.process);
            },
        }
        if let Some(hash) = observation.content_hash() {
            let mut flow = self.flows.take(write.process);
            assert(flow@ == old(self).state().flow(write.process));
            flow.add_write(hash.to_string());
            self.flows.put(write.process, flow);
            assert(self.flows@ =~= old(self).flows@.insert(write.process, flow@));
            self.by_hash.add(hash, write.process);
        }
    }

    fn rename(
        &mut self,
        process: ProcessInstance,
        from_path: &str,
        to_path: &str,
        observation: &FileObservation,
    )
        requires
            old(self).well_formed(),
        ensures
            final(self).well_formed(),
            final(self).state() == old(self).state().rename(
                process,
                from_path@,
                to_path@,
                observation@,
            ),
    {
        self.pending.rename(from_path, to_path);
        self.by_path.add_aliases(from_path, to_path);
        self.by_path.add(to_path, process);
        self.renames.push((from_path.to_string(), to_path.to_string()));
        assert(rename_texts(self.renames@) =~= rename_texts(old(self).renames@).push(
            (from_path@, to_path@),
        ));
        if let Some(hash) = observation.content_hash() {
            let mut flow = self.flows.take(process);
            assert(flow@ == old(self).state().flow(process));
            flow.add_read(hash.to_string());
            flow.add_rename(hash.to_string());
            self.flows.put(process, flow);
            assert(self.flows@ =~= old(self).flows@.insert(process, flow@));
            self.by_hash.add(hash, process);
        }
    }

    /// Takes in one more event.
    pub fn step(&mut self, event: &ProcessEvent, root_process: ProcessInstance)
        requires
            old(self).well_formed(),
        ensures
            final(self).well_formed(),
            final(self).state() == old(self).state().step(event@, root_process),
    {
        match event {
            ProcessEvent::Exec { process, observation } => {
                self.exec(*process, observation.identity());
            },
            ProcessEvent::Fork { parent, child } => {
                self.fork(*parent, *child);
            },
            ProcessEvent::FileOpen { process, path, flags, fd, external, observation } => {
                if !*external {
                    if *flags & 3 != 1 {
                        let content = seen_content(path.as_str(), observation);
                        self.read(*process, content);
                    }
                    if *flags & 3 != 0 {
                        self.open_write(*process, *fd, path.clone());
                    }
                }
            },
            ProcessEvent::FileMmap { process, fd, prot, flags, path, external, observation } => {
                if !*external {
                    if let (Some(path), Some(observation)) = (path, observation) {
                        let content = seen_content(path.as_str(), observation);
                        self.read(*process, content);
                        if *prot & 2 != 0 && *flags & 1 != 0 {
                            self.open_write(*process, *fd, path.clone());
                        }
                    }
                }
            },
            ProcessEvent::FileClose { process, fd, path, external, observation } => {
                if !*external {
                    self.close(*process, *fd, path, observation);
                }
            },
            ProcessEvent::FileRename {
                process,
                from_path,
                to_path,
                flags,
                external,
                observation,
            } => {
                if !*external {
                    self.rename(*process, from_path.as_str(), to_path.as_str(), observation);
                }
            },
            ProcessEvent::FileUnlink { .. } => {},
            ProcessEvent::Exit { process, exit_code } => {
                if process.lifetime == root_process.lifetime {
                    self.root_exit = Some((*process, *exit_code));
                }
            },
        }
    }

    /// Applies every renaming once more, to writes that were reported only
    /// after the renaming of their file.
    pub fn settle(&mut self)
        requires
            old(self).well_formed(),
        ensures
            final(self).well_formed(),
            final(self).state() == old(self).state().settled(),
    {
        let count = self.renames.len();
        let ghost all = rename_texts(self.renames@);
        for i in 0..count
            invariant
                count == self.renames@.len(),
                all == rename_texts(self.renames@),
                self.well_formed(),
                self.flows == old(self).flows,
                self.pending == old(self).pending,
                self.by_hash == old(self).by_hash,
                self.root_exit == old(self).root_exit,
                self.renames == old(self).renames,
                self.by_path@ == with_all_aliases(old(self).by_path@, all.take(i as int)),
        {
            proof {
                assert(all.take(i as int + 1).drop_last() =~= all.take(i as int));
            }
            let from = self.renames[i].0.clone();
            let to = self.renames[i].1.clone();
            self.by_path.add_aliases(from.as_str(), to.as_str());
        }
        assert(all.take(count as int) =~= all);
    }

    /// The flow of a process, where it has one.
    pub fn flow(&self, process: ProcessInstance) -> (flow: Option<&ProcessFlow>)
        ensures
            match flow {
                Some(f) => self.state().flows.contains_key(process) && f@
                    == self.state().flows[process],
                None => !self.state().flows.contains_key(process),
            },
    {
        self.flows.get(process)
    }

    /// Who wrote or moved the content with a hash.
    pub fn writers_of_content(&self, hash: &str) -> (list: Vec<ProcessInstance>)
        requires
            self.well_formed(),
        ensures
            forall|p: ProcessInstance| #[trigger]
                list@.contains(p) <==> self.state().by_hash.contains((hash@, p)),
    {
        self.by_hash.of(hash)
    }

    /// Who wrote or moved the file at a path.
    pub fn writers_of_path(&self, path: &str) -> (list: Vec<ProcessInstance>)
        requires
            self.well_formed(),
        ensures
            forall|p: ProcessInstance| #[trigger]
                list@.contains(p) <==> self.state().by_path.contains((path@, p)),
    {
        self.by_path.of(path)
    }

    /// The last exit of the root's lifetime.
    pub fn root_exit(&self) -> (exit: Option<(ProcessInstance, i32)>)
        ensures
            exit == self.state().root_exit,
    {
        self.root_exit
    }
}

/// Gathers the flows of a trace.
pub fn scan_events(events: &Vec<ProcessEvent>, root_process: ProcessInstance) -> (scanner: Scanner)
    ensures
        scanner.well_formed(),
        scanner.state() == scan(tracer::happenings(events@), root_process).settled(),
{
    let ghost views = tracer::happenings(events@);
    let mut scanner = Scanner::new();
    for i in 0..events.len()
        invariant
            views == tracer::happenings(events@),
            scanner.well_formed(),
            scanner.state() == scan(views.take(i as int), root_process),
    {
        proof {
            assert(views.take(i as int + 1).drop_last() =~= views.take(i as int));
        }
        scanner.step(&events[i], root_process);
    }
    assert(views.take(views.len() as int) =~= views);
    scanner.settle();
    scanner
}

// ---------------------------------------------------------------------------
// How many processes a trace can speak of
// ---------------------------------------------------------------------------

/// The process that an event can bring into play.
pub open spec fn actor(event: Happened) -> ProcessInstance {
    match event {
        Happened::Exec { process, .. } => process,
        Happened::Fork { child, .. } => child,
        Happened::FileOpen { process, .. } => process,
        Happened::FileClose { process, .. } => process,
        Happened::FileMmap { process, .. } => process,
        Happened::FileRename { process, .. } => process,
        Happened::FileUnlink { process, .. } => process,
        Happened::Exit { process, .. } => process,
    }
}

/// The processes that the events bring into play.
pub open spec fn actors(events: Seq<Happened>) -> Set<ProcessInstance>
    decreases events.len(),
{
    if events.len() == 0 {
        Set::empty()
    } else {
        actors(events.drop_last()).insert(actor(events.last()))
    }
}

impl Scan {
    /// Whether only processes of a set occur.
    pub open spec fn speaks_of(self, known: Set<ProcessInstance>) -> bool {
        &&& forall|p: ProcessInstance| #[trigger] self.flows.contains_key(p) ==> known.contains(p)
        &&& forall|k: (ProcessLifetime, i32)| #[trigger]
            self.pending.contains_key(k) ==> known.contains(self.pending[k].process)
        &&& forall|x: (Seq<char>, ProcessInstance)| #[trigger]
            self.by_hash.contains(x) ==> known.contains(x.1)
        &&& forall|x: (Seq<char>, ProcessInstance)| #[trigger]
            self.by_path.contains(x) ==> known.contains(x.1)
        &&& self.root_exit matches Some((p, _)) ==> known.contains(p)
    }
}

proof fn lemma_step_speaks_of(
    s: Scan,
    event: Happened,
    root: ProcessInstance,
    known: Set<ProcessInstance>,
)
    requires
        s.speaks_of(known),
    ensures
        s.step(event, root).speaks_of(known.insert(actor(event))),
{
    let t = s.step(event, root);
    match event {
        Happened::Fork { parent, child } => {
            assert forall|k: (ProcessLifetime, i32)| #[trigger]
                t.pending.contains_key(k) implies known.contains(t.pending[k].process) by {
                if k.0 == child.lifetime && s.pending.contains_key((parent.lifetime, k.1)) {
                } else {
                    assert(s.pending.contains_key(k));
                }
            }
        },
        Happened::FileClose { process, fd, .. } => {
            assert(s.pending.contains_key((process.lifetime, fd)) ==> known.contains(
                s.pending[(process.lifetime, fd)].process,
            ));
        },
        Happened::FileRename { from_path, to_path, .. } => {
            assert forall|k: (ProcessLifetime, i32)| #[trigger]
                t.pending.contains_key(k) implies known.contains(t.pending[k].process) by {
                assert(s.pending.contains_key(k));
            }
            assert forall|x: (Seq<char>, ProcessInstance)| #[trigger]
                t.by_path.contains(x) implies known.insert(actor(event)).contains(x.1) by {
                lemma_aliases_speak_of(s.by_path, from_path, to_path, known);
            }
        },
        _ => {},
    }
}

proof fn lemma_aliases_speak_of(
    writers: Set<(Seq<char>, ProcessInstance)>,
    from: Seq<char>,
    to: Seq<char>,
    known: Set<ProcessInstance>,
)
    requires
        forall|x: (Seq<char>, ProcessInstance)| #[trigger]
            writers.contains(x) ==> known.contains(x.1),
    ensures
        forall|x: (Seq<char>, ProcessInstance)| #[trigger]
            with_aliases(writers, from, to).contains(x) ==> known.contains(x.1),
{
}

proof fn lemma_all_aliases_speak_of(
    writers: Set<(Seq<char>, ProcessInstance)>,
    renames: Seq<(Seq<char>, Seq<char>)>,
    known: Set<ProcessInstance>,
)
    requires
        forall|x: (Seq<char>, ProcessInstance)| #[trigger]
            writers.contains(x) ==> known.contains(x.1),
    ensures
        forall|x: (Seq<char>, ProcessInstance)| #[trigger]
            with_all_aliases(writers, renames).contains(x) ==> known.contains(x.1),
    decreases renames.len(),
{
    if renames.len() > 0 {
        lemma_all_aliases_speak_of(writers, renames.drop_last(), known);
        lemma_aliases_speak_of(
            with_all_aliases(writers, renames.drop_last()),
            renames.last().0,
            renames.last().1,
            known,
        );
    }
}

/// Every event brings at most one process into play, and no other occurs in
/// what is gathered.
pub proof fn lemma_scan_speaks_of_actors(events: Seq<Happened>, root: ProcessInstance)
    ensures
        scan(events, root).speaks_of(actors(events)),
        scan(events, root).settled().speaks_of(actors(events)),
        actors(events).finite(),
        actors(events).len() <= events.len(),
    decreases events.len(),
{
    if events.len() > 0 {
        lemma_scan_speaks_of_actors(events.drop_last(), root);
        lemma_step_speaks_of(
            scan(events.drop_last(), root),
            events.last(),
            root,
            actors(events.drop_last()),
        );
    }
    let s = scan(events, root);
    lemma_all_aliases_speak_of(s.by_path, s.renames, actors(events));
}

// ---------------------------------------------------------------------------
// Laws
// ---------------------------------------------------------------------------

/// Whether an event leaves no trace: it is one of a process outside the tree, it
/// removes a file, or it reads content that was not available.
pub open spec fn leaves_no_trace(event: Happened) -> bool {
    match event {
        Happened::FileOpen { path, flags, external, observation, .. } => external || (
        !canonicalize::can_write(flags) && content_seen(path, observation) is None),
        Happened::FileMmap { prot, flags, path, external, observation, .. } => external || match (
            path,
            observation,
        ) {
            (Some(p), Some(o)) => !canonicalize::writes_back(prot, flags) && content_seen(
                p,
                o,
            ) is None,
            _ => true,
        },
        Happened::FileClose { external, .. } => external,
        Happened::FileRename { external, .. } => external,
        Happened::FileUnlink { .. } => true,
        _ => false,
    }
}

/// What processes outside the tree do, what is removed, and reads of what was
/// not available do not matter: without such an event the rest amounts to the
/// same.
pub proof fn law_some_events_leave_no_trace(events: Seq<Happened>, i: int, root: ProcessInstance)
    requires
        0 <= i < events.len(),
        leaves_no_trace(events[i]),
    ensures
        scan(events.remove(i), root) == scan(events, root),
    decreases events.len(),
{
    if i == events.len() - 1 {
        assert(events.remove(i) =~= events.drop_last());
    } else {
        assert(events.remove(i).drop_last() =~= events.drop_last().remove(i));
        law_some_events_leave_no_trace(events.drop_last(), i, root);
    }
}

/// Whether an event only reads: a file is opened for reading alone, or mapped
/// without being written back.
pub open spec fn only_reads(event: Happened) -> bool {
    match event {
        Happened::FileOpen { flags, .. } => !canonicalize::can_write(flags),
        Happened::FileMmap { prot, flags, .. } => !canonicalize::writes_back(prot, flags),
        _ => false,
    }
}

proof fn lemma_second_read(s: Scan, event: Happened, root: ProcessInstance)
    requires
        only_reads(event),
    ensures
        s.step(event, root).step(event, root) == s.step(event, root),
{
    let process = actor(event);
    let once = s.step(event, root);
    let twice = once.step(event, root);
    assert(twice.flow(process).reads =~= once.flow(process).reads);
    assert(twice.flows =~= once.flows);
}

/// How often a file is read in a row does not matter.
pub proof fn law_repeated_reads_leave_one_trace(
    events: Seq<Happened>,
    i: int,
    root: ProcessInstance,
)
    requires
        0 <= i < events.len(),
        only_reads(events[i]),
    ensures
        scan(events.insert(i + 1, events[i]), root) == scan(events, root),
    decreases events.len(),
{
    let longer = events.insert(i + 1, events[i]);
    if i == events.len() - 1 {
        assert(longer.drop_last() =~= events);
        lemma_second_read(scan(events.drop_last(), root), events[i], root);
    } else {
        assert(longer.drop_last() =~= events.drop_last().insert(i + 1, events[i]));
        law_repeated_reads_leave_one_trace(events.drop_last(), i, root);
    }
}

/// A close of a descriptor that no write is open on claims no authorship.
pub proof fn law_reading_claims_no_authorship(
    s: Scan,
    process: ProcessInstance,
    fd: i32,
    path: Option<Seq<char>>,
    observation: Option<Observed>,
    root: ProcessInstance,
)
    requires
        !s.pending.contains_key((process.lifetime, fd)),
    ensures
        s.step(
            (Happened::FileClose { process, fd, path, external: false, observation }),
            root,
        ) == s,
{
    assert(s.pending.remove((process.lifetime, fd)) =~= s.pending);
}

/// Content that was not available is not held to have been read.
pub proof fn law_unavailable_content_is_not_read(
    s: Scan,
    process: ProcessInstance,
    path: Seq<char>,
    flags: u32,
    fd: i32,
    observation: Observed,
    root: ProcessInstance,
)
    requires
        !file_identity::shows_system_state(path),
        observation.content_hash() is None,
    ensures
        s.step(
            (Happened::FileOpen { process, path, flags, fd, external: false, observation }),
            root,
        ).flows == s.flows,
{
}

/// A write belongs to the instance that opened it, whoever closes the
/// descriptor: a later execution of the process, or a child that inherited it.
pub proof fn law_writes_belong_to_their_opener(
    s: Scan,
    closer: ProcessInstance,
    fd: i32,
    path: Seq<char>,
    hash: Seq<char>,
    root: ProcessInstance,
)
    requires
        s.pending.contains_key((closer.lifetime, fd)),
    ensures
        ({
            let opener = s.pending[(closer.lifetime, fd)].process;
            let t = s.step(
                Happened::FileClose {
                    process: closer,
                    fd,
                    path: Some(path),
                    external: false,
                    observation: Some(Observed::Content(hash)),
                },
                root,
            );
            &&& t.by_path == s.by_path.insert((path, opener))
            &&& t.by_hash == s.by_hash.insert((hash, opener))
            &&& t.flow(opener).writes == s.flow(opener).writes.insert(hash)
            &&& forall|p: ProcessInstance| p != opener ==> #[trigger] t.flow(p) == s.flow(p)
        }),
{
}

/// A forked child runs its parent's executable, without having executed it, and
/// holds its parent's open writes.
pub proof fn law_children_inherit(
    s: Scan,
    parent: ProcessInstance,
    child: ProcessInstance,
    fd: i32,
    root: ProcessInstance,
)
    ensures
        ({
            let t = s.step(Happened::Fork { parent, child }, root);
            &&& t.flow(child).tool == s.flow(parent).tool
            &&& t.flow(child).has_exec == s.flow(child).has_exec
            &&& s.pending.contains_key((parent.lifetime, fd)) ==> t.pending.contains_key(
                (child.lifetime, fd),
            ) && t.pending[(child.lifetime, fd)] == s.pending[(parent.lifetime, fd)]
        }),
{
}

pub(crate) proof fn lemma_aliases_grow(
    writers: Set<(Seq<char>, ProcessInstance)>,
    renames: Seq<(Seq<char>, Seq<char>)>,
)
    ensures
        writers.subset_of(with_all_aliases(writers, renames)),
    decreases renames.len(),
{
    if renames.len() > 0 {
        lemma_aliases_grow(writers, renames.drop_last());
    }
}

proof fn lemma_alias_applied(
    writers: Set<(Seq<char>, ProcessInstance)>,
    renames: Seq<(Seq<char>, Seq<char>)>,
    i: int,
    path: Seq<char>,
    p: ProcessInstance,
)
    requires
        0 <= i < renames.len(),
        writers.contains((path, p)),
        rewritten(path, renames[i].0, renames[i].1) is Some,
    ensures
        with_all_aliases(writers, renames).contains(
            (rewritten(path, renames[i].0, renames[i].1)->0, p),
        ),
    decreases renames.len(),
{
    let init = with_all_aliases(writers, renames.drop_last());
    if i < renames.len() - 1 {
        assert(renames.drop_last()[i] == renames[i]);
        lemma_alias_applied(writers, renames.drop_last(), i, path, p);
    } else {
        lemma_aliases_grow(writers, renames.drop_last());
        assert(init.contains((path, p)));
    }
}

/// A write is credited to the new place of a renamed file or directory in
/// whatever order the two were reported.
pub proof fn law_late_writes_follow_renames(s: Scan, i: int, path: Seq<char>, p: ProcessInstance)
    requires
        0 <= i < s.renames.len(),
        s.by_path.contains((path, p)),
        rewritten(path, s.renames[i].0, s.renames[i].1) is Some,
    ensures
        s.settled().by_path.contains((rewritten(path, s.renames[i].0, s.renames[i].1)->0, p)),
        s.settled().by_path.contains((path, p)),
{
    lemma_alias_applied(s.by_path, s.renames, i, path, p);
    lemma_aliases_grow(s.by_path, s.renames);
}

impl Scan {
    /// Whether every process read, wrote and moved finitely many contents.
    pub open spec fn has_finite_flows(self) -> bool {
        forall|p: ProcessInstance|
            (#[trigger] self.flow(p)).reads.finite() && self.flow(p).writes.finite() && self.flow(
                p,
            ).renames.finite()
    }
}

/// The flows of a trace are finite.
pub proof fn lemma_finite_flows(events: Seq<Happened>, root: ProcessInstance)
    ensures
        scan(events, root).has_finite_flows(),
        scan(events, root).settled().has_finite_flows(),
    decreases events.len(),
{
    if events.len() > 0 {
        lemma_finite_flows(events.drop_last(), root);
        let s = scan(events.drop_last(), root);
        let t = s.step(events.last(), root);
        assert forall|p: ProcessInstance|
            (#[trigger] t.flow(p)).reads.finite() && t.flow(p).writes.finite() && t.flow(
                p,
            ).renames.finite() by {
            assert(s.flow(p).reads.finite());
            match events.last() {
                Happened::Fork { parent, child } => {
                    assert(s.flow(child).reads.finite());
                },
                Happened::FileClose { process, fd, .. } => {
                    if s.pending.contains_key((process.lifetime, fd)) {
                        assert(s.flow(s.pending[(process.lifetime, fd)].process).reads.finite());
                    }
                },
                _ => {},
            }
        }
    }
    let s = scan(events, root);
    assert forall|p: ProcessInstance| #[trigger] s.settled().flow(p) == s.flow(p) by {}
}

/// The content that an event shows as written or moved.
pub open spec fn content_produced(event: Happened) -> Option<Seq<char>> {
    match event {
        Happened::FileClose { observation: Some(o), .. } => o.content_hash(),
        Happened::FileRename { observation, .. } => observation.content_hash(),
        _ => None,
    }
}

/// Whether some event shows content as written or moved.
pub open spec fn is_produced(events: Seq<Happened>, h: Seq<char>) -> bool {
    exists|i: int| 0 <= i < events.len() && content_produced(#[trigger] events[i]) == Some(h)
}

/// What a process wrote or moved, some event shows.
pub proof fn lemma_production_is_seen(
    events: Seq<Happened>,
    root: ProcessInstance,
    p: ProcessInstance,
    h: Seq<char>,
)
    requires
        ({
            let flow = scan(events, root).flow(p);
            flow.writes.contains(h) || flow.renames.contains(h)
        }),
    ensures
        is_produced(events, h),
    decreases events.len(),
{
    if events.len() > 0 {
        let d = events.drop_last();
        let s = scan(d, root);
        let before = s.flow(p);
        if before.writes.contains(h) || before.renames.contains(h) {
            lemma_production_is_seen(d, root, p, h);
            let i = choose|i: int| 0 <= i < d.len() && content_produced(#[trigger] d[i]) == Some(h);
            assert(content_produced(events[i]) == Some(h));
        } else {
            assert(content_produced(events[events.len() - 1]) == Some(h));
        }
    }
}

} // verus!
