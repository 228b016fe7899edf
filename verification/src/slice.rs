//! The part of a trace that a set of outputs depends on.

use crate::digest;
use crate::operation;
use crate::operation::{finalize_ops, CanonicalOp, OpType, OpView};
use crate::order;
use crate::order::sort_set;
use crate::provenance;
use crate::provenance::{scan_events, ProcessFlow, Scan, Scanner};
use crate::text;
use crate::text::{concat, format_signed, one, text_eq};
use crate::tracer;
use crate::tracer::{Happened, ProcessEvent, ProcessInstance};
use crate::workspace;
use crate::workspace::{Output, OutputFile};
use std::collections::HashMap;
use std::collections::HashSet;
use vstd::hash_set::*;
use vstd::prelude::*;
use vstd::string::*;
use vstd::utf8::*;

verus! {

broadcast use vstd::std_specs::hash::group_hash_axioms;

// ---------------------------------------------------------------------------
// Which processes the outputs depend on
// ---------------------------------------------------------------------------

/// The content hashes of the outputs.
pub open spec fn output_hashes(outputs: Seq<Output>) -> Set<Seq<char>> {
    Set::new(|h: Seq<char>| exists|i: int| 0 <= i < outputs.len() && (#[trigger] outputs[i]).hash == h)
}

/// Whether a process wrote the file at the path of an output.
pub open spec fn is_seed(s: Scan, outputs: Seq<Output>, p: ProcessInstance) -> bool {
    exists|i: int| 0 <= i < outputs.len() && s.by_path.contains(((#[trigger] outputs[i]).path, p))
}

/// Whether `p` read content that `q` wrote or moved. Content that is itself an
/// output is not followed: its writer is known by its path.
pub open spec fn depends(s: Scan, outputs: Seq<Output>, p: ProcessInstance, q: ProcessInstance) -> bool {
    exists|h: Seq<char>| #[trigger]
        s.flow(p).reads.contains(h) && !output_hashes(outputs).contains(h) && s.by_hash.contains(
            (h, q),
        )
}

/// Whether a list of processes leads from the writer of an output along
/// dependencies.
pub open spec fn is_chain(s: Scan, outputs: Seq<Output>, chain: Seq<ProcessInstance>) -> bool {
    &&& chain.len() > 0
    &&& is_seed(s, outputs, chain[0])
    &&& forall|i: int|
        1 <= i < chain.len() ==> depends(s, outputs, chain[i - 1], #[trigger] chain[i])
}

/// Whether a chain ends in a process.
pub open spec fn ends_in(chain: Seq<ProcessInstance>, p: ProcessInstance) -> bool {
    chain.last() == p
}

/// The processes that the outputs depend on.
pub open spec fn included(s: Scan, outputs: Seq<Output>) -> Set<ProcessInstance> {
    Set::new(
        |p: ProcessInstance|
            exists|chain: Seq<ProcessInstance>|
                is_chain(s, outputs, chain) && #[trigger] ends_in(chain, p),
    )
}

/// The content that matters: the outputs, and what the included processes read.
pub open spec fn relevant(s: Scan, outputs: Seq<Output>) -> Set<Seq<char>> {
    Set::new(
        |h: Seq<char>|
            output_hashes(outputs).contains(h) || exists|p: ProcessInstance| #[trigger]
                included(s, outputs).contains(p) && s.flow(p).reads.contains(h),
    )
}

pub(crate) proof fn lemma_seed_included(s: Scan, outputs: Seq<Output>, p: ProcessInstance)
    requires
        is_seed(s, outputs, p),
    ensures
        included(s, outputs).contains(p),
{
    let chain = seq![p];
    assert(is_chain(s, outputs, chain));
    assert(ends_in(chain, p));
}

pub(crate) proof fn lemma_dependency_included(
    s: Scan,
    outputs: Seq<Output>,
    p: ProcessInstance,
    q: ProcessInstance,
)
    requires
        included(s, outputs).contains(p),
        depends(s, outputs, p, q),
    ensures
        included(s, outputs).contains(q),
{
    let chain = choose|chain: Seq<ProcessInstance>|
        is_chain(s, outputs, chain) && #[trigger] ends_in(chain, p);
    let longer = chain.push(q);
    assert forall|i: int| 1 <= i < longer.len() implies depends(
        s,
        outputs,
        longer[i - 1],
        #[trigger] longer[i],
    ) by {
        if i < chain.len() {
            assert(depends(s, outputs, chain[i - 1], chain[i]));
        }
    }
    assert(longer[0] == chain[0]);
    assert(is_chain(s, outputs, longer));
    assert(ends_in(longer, q));
}

/// A set that holds the seeds and whatever its members depend on holds every
/// included process.
pub(crate) proof fn lemma_closed_contains_included(s: Scan, outputs: Seq<Output>, set: Set<ProcessInstance>)
    requires
        forall|p: ProcessInstance| is_seed(s, outputs, p) ==> #[trigger] set.contains(p),
        forall|p: ProcessInstance, q: ProcessInstance|
            #![trigger set.contains(p), set.contains(q)]
            set.contains(p) && depends(s, outputs, p, q) ==> set.contains(q),
    ensures
        forall|p: ProcessInstance| included(s, outputs).contains(p) ==> #[trigger] set.contains(p),
{
    assert forall|p: ProcessInstance| included(s, outputs).contains(p) implies #[trigger] set.contains(
    p) by {
        let chain = choose|chain: Seq<ProcessInstance>|
            is_chain(s, outputs, chain) && #[trigger] ends_in(chain, p);
        lemma_chain_in_closed(s, outputs, set, chain, chain.len() - 1);
    }
}

proof fn lemma_chain_in_closed(
    s: Scan,
    outputs: Seq<Output>,
    set: Set<ProcessInstance>,
    chain: Seq<ProcessInstance>,
    i: int,
)
    requires
        forall|p: ProcessInstance| is_seed(s, outputs, p) ==> #[trigger] set.contains(p),
        forall|p: ProcessInstance, q: ProcessInstance|
            #![trigger set.contains(p), set.contains(q)]
            set.contains(p) && depends(s, outputs, p, q) ==> set.contains(q),
        is_chain(s, outputs, chain),
        0 <= i < chain.len(),
    ensures
        set.contains(chain[i]),
    decreases i,
{
    if i > 0 {
        lemma_chain_in_closed(s, outputs, set, chain, i - 1);
        assert(depends(s, outputs, chain[i - 1], chain[i]));
        assert(set.contains(chain[i - 1]) ==> set.contains(chain[i]));
    } else {
        assert(is_seed(s, outputs, chain[0]));
    }
}

// ---------------------------------------------------------------------------
// Listings
// ---------------------------------------------------------------------------

/// Whether a list holds exactly the members of a set, in ascending order.
pub open spec fn lists_processes(list: Seq<ProcessInstance>, set: Set<ProcessInstance>) -> bool {
    &&& forall|i: int, j: int|
        0 <= i < j < list.len() ==> (#[trigger] list[i]).rank() < (#[trigger] list[j]).rank()
    &&& forall|p: ProcessInstance| #[trigger] list.contains(p) <==> set.contains(p)
}

/// The members of a finite set of processes in ascending order.
pub open spec fn process_listing(set: Set<ProcessInstance>) -> Seq<ProcessInstance> {
    choose|list: Seq<ProcessInstance>| lists_processes(list, set)
}

proof fn lemma_ascending_processes_unique(a: Seq<ProcessInstance>, b: Seq<ProcessInstance>, n: int)
    requires
        forall|i: int, j: int|
            0 <= i < j < a.len() ==> (#[trigger] a[i]).rank() < (#[trigger] a[j]).rank(),
        forall|i: int, j: int|
            0 <= i < j < b.len() ==> (#[trigger] b[i]).rank() < (#[trigger] b[j]).rank(),
        forall|p: ProcessInstance| #[trigger] a.contains(p) <==> b.contains(p),
        0 <= n <= a.len(),
    ensures
        n <= b.len(),
        forall|i: int| 0 <= i < n ==> #[trigger] a[i] == b[i],
    decreases n,
{
    if n > 0 {
        lemma_ascending_processes_unique(a, b, n - 1);
        let x = a[n - 1];
        assert(a.contains(x));
        assert(b.contains(x));
        let k = choose|k: int| 0 <= k < b.len() && b[k] == x;
        if k < n - 1 {
            assert(a[k] == b[k]);
            assert(a[k].rank() < a[n - 1].rank());
        }
        let y = b[n - 1];
        assert(b.contains(y));
        assert(a.contains(y));
        let m = choose|m: int| 0 <= m < a.len() && a[m] == y;
        if m < n - 1 {
            assert(a[m] == b[m]);
            assert(b[m].rank() < b[n - 1].rank());
        }
        if k > n - 1 {
            assert(b[n - 1].rank() < b[k].rank());
            if m > n - 1 {
                assert(a[n - 1].rank() < a[m].rank());
            }
        }
    }
}

proof fn lemma_process_listing(list: Seq<ProcessInstance>, set: Set<ProcessInstance>)
    requires
        lists_processes(list, set),
    ensures
        process_listing(set) == list,
{
    let chosen = process_listing(set);
    assert(lists_processes(chosen, set));
    assert forall|p: ProcessInstance| #[trigger] list.contains(p) <==> chosen.contains(p) by {
        assert(list.contains(p) <==> set.contains(p));
        assert(chosen.contains(p) <==> set.contains(p));
    }
    assert forall|p: ProcessInstance| #[trigger] chosen.contains(p) <==> list.contains(p) by {
        assert(list.contains(p) <==> set.contains(p));
    }
    lemma_ascending_processes_unique(list, chosen, list.len() as int);
    lemma_ascending_processes_unique(chosen, list, chosen.len() as int);
    assert(list =~= chosen);
}

// ---------------------------------------------------------------------------
// The operations of a slice
// ---------------------------------------------------------------------------

/// The logical index of each process, and the next free one.
#[verifier::ext_equal]
pub struct Numbering {
    pub indices: Map<ProcessInstance, u32>,
    pub next: int,
}

impl Numbering {
    /// The root has index zero.
    pub open spec fn start(root: ProcessInstance) -> Numbering {
        Numbering { indices: Map::empty().insert(root, 0u32), next: 1 }
    }

    /// With a process given the next index, unless it has one.
    pub open spec fn add(self, p: ProcessInstance) -> Numbering {
        if self.indices.contains_key(p) {
            self
        } else {
            Numbering { indices: self.indices.insert(p, self.next as u32), next: self.next + 1 }
        }
    }

    /// With each process of a list given an index in turn.
    pub open spec fn add_all(self, list: Seq<ProcessInstance>) -> Numbering
        decreases list.len(),
    {
        if list.len() == 0 {
            self
        } else {
            self.add_all(list.drop_last()).add(list.last())
        }
    }

    /// With the process that ended given the next index, unless it has one; the
    /// index stays free for another.
    pub open spec fn borrow(self, exit: Option<(ProcessInstance, i32)>) -> Numbering {
        match exit {
            Some((p, _)) => if self.indices.contains_key(p) {
                self
            } else {
                Numbering { indices: self.indices.insert(p, self.next as u32), ..self }
            },
            None => self,
        }
    }
}

/// A read of some content.
pub open spec fn read_op(index: u32, tool: Option<Seq<char>>, hash: Seq<char>) -> OpView {
    OpView {
        op_type: OpType::FileRead,
        process_index: index,
        tool_hash: tool,
        args: Seq::empty(),
        input_hashes: seq![hash],
        output_hashes: Seq::empty(),
    }
}

/// A write of some content.
pub open spec fn write_op(index: u32, tool: Option<Seq<char>>, hash: Seq<char>) -> OpView {
    OpView {
        op_type: OpType::FileWrite,
        process_index: index,
        tool_hash: tool,
        args: Seq::empty(),
        input_hashes: Seq::empty(),
        output_hashes: seq![hash],
    }
}

/// A move of some content to another path.
pub open spec fn rename_op(index: u32, tool: Option<Seq<char>>, hash: Seq<char>) -> OpView {
    OpView {
        op_type: OpType::FileRename,
        process_index: index,
        tool_hash: tool,
        args: Seq::empty(),
        input_hashes: seq![hash],
        output_hashes: seq![hash],
    }
}

/// An execution.
pub open spec fn exec_op(index: u32, tool: Seq<char>) -> OpView {
    OpView {
        op_type: OpType::Exec,
        process_index: index,
        tool_hash: Some(tool),
        args: Seq::empty(),
        input_hashes: Seq::empty(),
        output_hashes: Seq::empty(),
    }
}

/// An output that no process is known to have written.
pub open spec fn unattributed_op(hash: Seq<char>) -> OpView {
    OpView { args: seq!["output"@], ..write_op(u32::MAX, None, hash) }
}

/// The end of the root process.
pub open spec fn exit_op(index: u32, tool: Option<Seq<char>>, exit_code: i32) -> OpView {
    OpView {
        op_type: OpType::Exit,
        process_index: index,
        tool_hash: tool,
        args: seq!["exit:"@ + text::signed_decimal(exit_code as int)],
        input_hashes: Seq::empty(),
        output_hashes: Seq::empty(),
    }
}

/// What one process contributes: its execution, all it read, and of what it
/// wrote and moved the content that matters.
pub open spec fn flow_ops(
    flow: provenance::Flow,
    index: u32,
    relevant: Set<Seq<char>>,
) -> Seq<OpView> {
    let execs = match flow.tool {
        Some(tool) => if flow.has_exec {
            seq![exec_op(index, tool)]
        } else {
            Seq::empty()
        },
        None => Seq::empty(),
    };
    let reads = order::text_listing(flow.reads);
    let writes = order::text_listing(flow.writes.intersect(relevant));
    let renames = order::text_listing(flow.renames.intersect(relevant));
    execs + reads.map_values(|h: Seq<char>| read_op(index, flow.tool, h)) + writes.map_values(
        |h: Seq<char>| write_op(index, flow.tool, h),
    ) + renames.map_values(|h: Seq<char>| rename_op(index, flow.tool, h))
}

/// What the processes of a list contribute.
pub open spec fn all_flow_ops(
    s: Scan,
    numbers: Numbering,
    relevant: Set<Seq<char>>,
    list: Seq<ProcessInstance>,
) -> Seq<OpView>
    decreases list.len(),
{
    if list.len() == 0 {
        Seq::empty()
    } else {
        let p = list.last();
        let before = all_flow_ops(s, numbers, relevant, list.drop_last());
        if s.flows.contains_key(p) {
            before + flow_ops(s.flows[p], numbers.indices[p], relevant)
        } else {
            before
        }
    }
}

/// Whether a process wrote or moved some content.
pub open spec fn produced(s: Scan, p: ProcessInstance, h: Seq<char>) -> bool {
    s.flow(p).writes.contains(h) || s.flow(p).renames.contains(h)
}

/// The outputs whose content no included process produced.
pub open spec fn orphans(s: Scan, outputs: Seq<Output>) -> Set<Seq<char>> {
    Set::new(
        |h: Seq<char>|
            output_hashes(outputs).contains(h) && forall|p: ProcessInstance| #[trigger]
                included(s, outputs).contains(p) ==> !produced(s, p, h),
    )
}

/// The processes that produced some content.
pub open spec fn producers(s: Scan, h: Seq<char>) -> Set<ProcessInstance> {
    Set::new(|p: ProcessInstance| s.by_hash.contains((h, p)) && produced(s, p, h))
}

/// Whether a process is the first of a set.
pub open spec fn is_least(p: ProcessInstance, set: Set<ProcessInstance>) -> bool {
    set.contains(p) && forall|q: ProcessInstance| #[trigger] set.contains(q) ==> p.rank() <= q.rank()
}

/// The first process that produced some content, if any did.
pub open spec fn first_producer(s: Scan, h: Seq<char>) -> Option<ProcessInstance> {
    if exists|p: ProcessInstance| is_least(p, producers(s, h)) {
        Some(choose|p: ProcessInstance| is_least(p, producers(s, h)))
    } else {
        None
    }
}

/// The numbering after the outputs of a list were attributed in turn.
pub open spec fn numbering_after_orphans(
    s: Scan,
    numbers: Numbering,
    list: Seq<Seq<char>>,
) -> Numbering
    decreases list.len(),
{
    if list.len() == 0 {
        numbers
    } else {
        let before = numbering_after_orphans(s, numbers, list.drop_last());
        match first_producer(s, list.last()) {
            Some(p) => before.add(p),
            None => before,
        }
    }
}

/// One write for each output of a list: by the first process that produced its
/// content, or by none.
pub open spec fn orphan_ops(s: Scan, numbers: Numbering, list: Seq<Seq<char>>) -> Seq<OpView>
    decreases list.len(),
{
    if list.len() == 0 {
        Seq::empty()
    } else {
        let h = list.last();
        let after = numbering_after_orphans(s, numbers, list);
        orphan_ops(s, numbers, list.drop_last()).push(
            match first_producer(s, h) {
                Some(p) => write_op(after.indices[p], s.flow(p).tool, h),
                None => unattributed_op(h),
            },
        )
    }
}

/// The numbering of the included processes and of the one that ended.
pub open spec fn slice_numbering(
    s: Scan,
    root: ProcessInstance,
    outputs: Seq<Output>,
) -> Numbering {
    Numbering::start(root).add_all(process_listing(included(s, outputs))).borrow(s.root_exit)
}

/// The operations that a slice is made of, before they are put in order.
pub open spec fn slice_ops(s: Scan, root: ProcessInstance, outputs: Seq<Output>) -> Seq<OpView> {
    let list = process_listing(included(s, outputs));
    let numbers = slice_numbering(s, root, outputs);
    let left = order::text_listing(orphans(s, outputs));
    let after = numbering_after_orphans(s, numbers, left);
    let ops = all_flow_ops(s, numbers, relevant(s, outputs), list) + orphan_ops(s, numbers, left);
    match s.root_exit {
        Some((p, exit_code)) => ops.push(exit_op(after.indices[p], s.flow(p).tool, exit_code)),
        None => ops,
    }
}

/// The canonical operations that the outputs depend on.
pub open spec fn output_slice(
    events: Seq<Happened>,
    root: ProcessInstance,
    outputs: Seq<Output>,
) -> Seq<OpView> {
    if outputs.len() == 0 {
        Seq::empty()
    } else {
        operation::finalized(
            slice_ops(provenance::scan(events, root).settled(), root, outputs),
        )
    }
}

// ---------------------------------------------------------------------------
// Following the dependencies
// ---------------------------------------------------------------------------

/// A list of processes without repetitions.
struct Reached {
    list: Vec<ProcessInstance>,
    seen: HashSet<u64>,
}

impl Reached {
    spec fn well_formed(self) -> bool {
        &&& self.list@.no_duplicates()
        &&& forall|p: ProcessInstance|
            self.seen@.contains(#[trigger] p.rank()) <==> self.list@.contains(p)
    }

    spec fn set(self) -> Set<ProcessInstance> {
        self.list@.to_set()
    }

    fn new() -> (r: Reached)
        ensures
            r.well_formed(),
            r.list@.len() == 0,
    {
        Reached { list: Vec::new(), seen: HashSet::new() }
    }

    fn add(&mut self, p: ProcessInstance)
        requires
            old(self).well_formed(),
        ensures
            final(self).well_formed(),
            final(self).set() == old(self).set().insert(p),
            old(self).list@.is_prefix_of(final(self).list@),
    {
        let fresh = self.seen.insert(p.place());
        let ghost before = self.list@;
        if fresh {
            self.list.push(p);
        }
        proof {
            let after = self.list@;
            assert forall|q: ProcessInstance| after.contains(q) <==> before.contains(q) || q == p by {
                if fresh {
                    if after.contains(q) {
                        let k = choose|k: int| 0 <= k < after.len() && after[k] == q;
                        if k < before.len() {
                            assert(before[k] == q);
                        }
                    }
                    if before.contains(q) {
                        let k = choose|k: int| 0 <= k < before.len() && before[k] == q;
                        assert(after[k] == q);
                    }
                    assert(after[before.len() as int] == p);
                } else {
                    assert(old(self).seen@.contains(p.rank()));
                }
            }
            assert forall|q: ProcessInstance|
                self.seen@.contains(#[trigger] q.rank()) <==> after.contains(q) by {
                if q.rank() == p.rank() {
                    tracer::lemma_rank_injective(p, q);
                }
                assert(old(self).seen@.contains(q.rank()) <==> before.contains(q));
            }
            if fresh {
                assert(!before.contains(p)) by {
                    assert(old(self).seen@.contains(p.rank()) <==> before.contains(p));
                }
                assert(after.no_duplicates());
            }
            assert(self.set() =~= old(self).set().insert(p));
            assert(before =~= after.subrange(0, before.len() as int));
        }
    }

    /// Adds every process of a list.
    fn add_list(&mut self, list: &Vec<ProcessInstance>)
        requires
            old(self).well_formed(),
        ensures
            final(self).well_formed(),
            final(self).set() == old(self).set().union(list@.to_set()),
            old(self).list@.is_prefix_of(final(self).list@),
    {
        proof {
            assert(list@.take(0).to_set() =~= Set::empty());
            assert(self.set().union(list@.take(0).to_set()) =~= self.set());
            assert(self.list@ =~= self.list@.subrange(0, self.list@.len() as int));
        }
        for i in 0..list.len()
            invariant
                self.well_formed(),
                self.set() == old(self).set().union(list@.take(i as int).to_set()),
                old(self).list@.is_prefix_of(self.list@),
        {
            let ghost before = self.list@;
            self.add(list[i]);
            proof {
                let a = list@.take(i as int);
                let b = list@.take(i as int + 1);
                assert(b =~= a.push(list@[i as int]));
                assert(b.to_set() =~= a.to_set().insert(list@[i as int])) by {
                    assert forall|q: ProcessInstance| b.contains(q) <==> a.contains(q) || q
                        == list@[i as int] by {
                        if b.contains(q) {
                            let k = choose|k: int| 0 <= k < b.len() && b[k] == q;
                            if k < a.len() {
                                assert(a[k] == q);
                            }
                        }
                        if a.contains(q) {
                            let k = choose|k: int| 0 <= k < a.len() && a[k] == q;
                            assert(b[k] == q);
                        }
                        assert(b[a.len() as int] == list@[i as int]);
                    }
                }
                assert(self.set() =~= old(self).set().union(b.to_set()));
                lemma_prefix_transitive(old(self).list@, before, self.list@);
            }
        }
        assert(list@.take(list@.len() as int) =~= list@);
    }
}

proof fn lemma_prefix_transitive<T>(a: Seq<T>, b: Seq<T>, c: Seq<T>)
    requires
        a.is_prefix_of(b),
        b.is_prefix_of(c),
    ensures
        a.is_prefix_of(c),
{
    assert(a =~= c.subrange(0, a.len() as int)) by {
        assert forall|i: int| 0 <= i < a.len() implies a[i] == c[i] by {
            assert(a[i] == b.subrange(0, a.len() as int)[i]);
            assert(b[i] == c.subrange(0, b.len() as int)[i]);
        }
    }
}

fn hash_set_of(outputs: &[OutputFile]) -> (set: StringHashSet)
    ensures
        set@ == output_hashes(workspace::output_views(outputs@)),
{
    let ghost outs = workspace::output_views(outputs@);
    let mut set = StringHashSet::new();
    assert(set@ =~= output_hashes(outs.take(0)));
    for i in 0..outputs.len()
        invariant
            outs == workspace::output_views(outputs@),
            set@ == output_hashes(outs.take(i as int)),
    {
        set.insert(outputs[i].hash.clone());
        proof {
            lemma_output_hashes_push(outs, i as int);
        }
    }
    assert(outs.take(outs.len() as int) =~= outs);
    set
}

fn seeds_of(scanner: &Scanner, outputs: &[OutputFile]) -> (reached: Reached)
    requires
        scanner.well_formed(),
    ensures
        reached.well_formed(),
        forall|p: ProcessInstance| #[trigger]
            reached.set().contains(p) <==> is_seed(
                scanner.state(),
                workspace::output_views(outputs@),
                p,
            ),
{
    let ghost outs = workspace::output_views(outputs@);
    let ghost s = scanner.state();
    let mut reached = Reached::new();
    for i in 0..outputs.len()
        invariant
            outs == workspace::output_views(outputs@),
            s == scanner.state(),
            scanner.well_formed(),
            reached.well_formed(),
            forall|p: ProcessInstance| #[trigger]
                reached.set().contains(p) <==> is_seed(s, outs.take(i as int), p),
    {
        let ghost before = reached.set();
        let writers = scanner.writers_of_path(outputs[i].path.as_str());
        reached.add_list(&writers);
        proof {
            let a = outs.take(i as int);
            let b = outs.take(i as int + 1);
            assert forall|p: ProcessInstance| #[trigger]
                reached.set().contains(p) <==> is_seed(s, b, p) by {
                assert(reached.set().contains(p) <==> before.contains(p) || writers@.contains(p));
                if is_seed(s, b, p) {
                    let k = choose|k: int|
                        0 <= k < b.len() && s.by_path.contains(((#[trigger] b[k]).path, p));
                    if k < a.len() {
                        assert(s.by_path.contains((a[k].path, p)));
                        assert(is_seed(s, a, p));
                    }
                }
                if is_seed(s, a, p) {
                    let k = choose|k: int|
                        0 <= k < a.len() && s.by_path.contains(((#[trigger] a[k]).path, p));
                    assert(s.by_path.contains((b[k].path, p)));
                }
                if writers@.contains(p) {
                    assert(s.by_path.contains((b[i as int].path, p)));
                }
            }
        }
    }
    assert(outs.take(outs.len() as int) =~= outs);
    reached
}

/// Follows the dependencies of the outputs: the processes they depend on, and
/// the content that matters.
fn follow(scanner: &Scanner, outputs: &[OutputFile], Ghost(known): Ghost<Set<ProcessInstance>>) -> (r: (
    Reached,
    StringHashSet,
))
    requires
        scanner.well_formed(),
        scanner.state().speaks_of(known),
        known.finite(),
    ensures
        r.0.well_formed(),
        r.0.set() == included(scanner.state(), workspace::output_views(outputs@)),
        r.0.set().subset_of(known),
        r.1@ == relevant(scanner.state(), workspace::output_views(outputs@)),
{
    let ghost outs = workspace::output_views(outputs@);
    let ghost s = scanner.state();
    let ghost wanted = output_hashes(outs);
    let mut matters = hash_set_of(outputs);
    let mut reached = seeds_of(scanner, outputs);
    proof {
        assert forall|p: ProcessInstance| #[trigger] reached.set().contains(p) implies included(
            s,
            outs,
        ).contains(p) && known.contains(p) by {
            lemma_seed_included(s, outs, p);
        }
    }
    let mut head: usize = 0;
    proof {
        lemma_reached_bound(reached, known);
    }
    while head < reached.list.len()
        invariant
            outs == workspace::output_views(outputs@),
            s == scanner.state(),
            wanted == output_hashes(outs),
            scanner.well_formed(),
            s.speaks_of(known),
            known.finite(),
            reached.well_formed(),
            head <= reached.list@.len() <= known.len(),
            reached.set().subset_of(known),
            reached.set().subset_of(included(s, outs)),
            forall|p: ProcessInstance| is_seed(s, outs, p) ==> #[trigger] reached.set().contains(p),
            wanted.subset_of(matters@),
            matters@.subset_of(relevant(s, outs)),
            forall|h: Seq<char>, q: ProcessInstance|
                matters@.contains(h) && !wanted.contains(h) && #[trigger] s.by_hash.contains((h, q))
                    ==> reached.set().contains(q),
            forall|i: int, h: Seq<char>|
                0 <= i < head && s.flow(#[trigger] reached.list@[i]).reads.contains(h)
                    ==> #[trigger] matters@.contains(h),
        decreases known.len() - head,
    {
        let process = reached.list[head];
        assert(reached.set().contains(process));
        if let Some(flow) = scanner.flow(process) {
            for j in 0..flow.reads.len()
                invariant
                    outs == workspace::output_views(outputs@),
                    s == scanner.state(),
                    wanted == output_hashes(outs),
                    scanner.well_formed(),
                    s.speaks_of(known),
                    known.finite(),
                    s.flows.contains_key(process),
                    flow@ == s.flows[process],
                    reached.well_formed(),
                    head < reached.list@.len() <= known.len(),
                    reached.list@[head as int] == process,
                    included(s, outs).contains(process),
                    reached.set().subset_of(known),
                    reached.set().subset_of(included(s, outs)),
                    forall|p: ProcessInstance|
                        is_seed(s, outs, p) ==> #[trigger] reached.set().contains(p),
                    wanted.subset_of(matters@),
                    matters@.subset_of(relevant(s, outs)),
                    forall|h: Seq<char>, q: ProcessInstance|
                        matters@.contains(h) && !wanted.contains(h)
                            && #[trigger] s.by_hash.contains((h, q)) ==> reached.set().contains(q),
                    forall|i: int, h: Seq<char>|
                        0 <= i < head && s.flow(#[trigger] reached.list@[i]).reads.contains(h)
                            ==> #[trigger] matters@.contains(h),
                    forall|k: int|
                        0 <= k < j ==> matters@.contains((#[trigger] flow.reads@[k])@),
            {
                let ghost hash = flow.reads@[j as int]@;
                let ghost before = reached;
                assert(flow@.reads.contains(hash)) by {
                    assert(text::texts(flow.reads@)[j as int] == hash);
                }
                assert(s.flow(process).reads.contains(hash));
                let fresh = matters.insert(flow.reads[j].clone());
                if fresh {
                    let writers = scanner.writers_of_content(flow.reads[j].as_str());
                    reached.add_list(&writers);
                    proof {
                        assert forall|q: ProcessInstance| writers@.contains(q) implies included(
                            s,
                            outs,
                        ).contains(q) && known.contains(q) by {
                            assert(s.by_hash.contains((hash, q)));
                            assert(depends(s, outs, process, q));
                            lemma_dependency_included(s, outs, process, q);
                        }
                        assert forall|q: ProcessInstance| #[trigger]
                            reached.set().contains(q) implies included(s, outs).contains(q)
                            && known.contains(q) by {
                            if !before.set().contains(q) {
                                assert(writers@.contains(q));
                            }
                        }
                        assert forall|h: Seq<char>, q: ProcessInstance|
                            matters@.contains(h) && !wanted.contains(h)
                                && #[trigger] s.by_hash.contains((h, q)) implies reached.set().contains(
                        q) by {
                            if h == hash {
                                assert(writers@.contains(q));
                            } else {
                                assert(before.set().contains(q));
                            }
                        }
                        assert forall|i: int| 0 <= i < before.list@.len() implies reached.list@[i]
                            == #[trigger] before.list@[i] by {
                            assert(reached.list@.subrange(0, before.list@.len() as int)[i]
                                == reached.list@[i]);
                        }
                        lemma_reached_bound(reached, known);
                        assert forall|i: int, h: Seq<char>|
                            0 <= i < head && s.flow(#[trigger] reached.list@[i]).reads.contains(h)
                            implies #[trigger] matters@.contains(h) by {
                            assert(reached.list@[i] == before.list@[i]);
                        }
                    }
                }
            }
            proof {
                assert forall|h: Seq<char>| s.flow(process).reads.contains(
                    h,
                ) implies #[trigger] matters@.contains(h) by {
                    let t = text::texts(flow.reads@);
                    let k = choose|k: int| 0 <= k < t.len() && t[k] == h;
                    assert(matters@.contains(flow.reads@[k]@));
                }
            }
        }
        head = head + 1;
    }
    proof {
        let set = reached.set();
        assert forall|p: ProcessInstance, q: ProcessInstance|
            #![trigger set.contains(p), set.contains(q)]
            set.contains(p) && depends(s, outs, p, q) implies set.contains(q) by {
            let h = choose|h: Seq<char>| #[trigger]
                s.flow(p).reads.contains(h) && !wanted.contains(h) && s.by_hash.contains((h, q));
            let i = choose|i: int| 0 <= i < reached.list@.len() && reached.list@[i] == p;
            assert(s.flow(reached.list@[i]).reads.contains(h));
            assert(matters@.contains(h));
        }
        lemma_closed_contains_included(s, outs, set);
        assert(set =~= included(s, outs));
        assert forall|h: Seq<char>| relevant(s, outs).contains(h) implies matters@.contains(h) by {
            if !wanted.contains(h) {
                let p = choose|p: ProcessInstance| #[trigger]
                    included(s, outs).contains(p) && s.flow(p).reads.contains(h);
                assert(set.contains(p));
                let i = choose|i: int| 0 <= i < reached.list@.len() && reached.list@[i] == p;
                assert(s.flow(reached.list@[i]).reads.contains(h));
            }
        }
        assert(matters@ =~= relevant(s, outs));
    }
    (reached, matters)
}

proof fn lemma_reached_bound(reached: Reached, known: Set<ProcessInstance>)
    requires
        reached.well_formed(),
        reached.set().subset_of(known),
        known.finite(),
    ensures
        reached.list@.len() <= known.len(),
{
    reached.list@.unique_seq_to_set();
    vstd::set_lib::lemma_len_subset(reached.set(), known);
}

// ---------------------------------------------------------------------------
// Writing the operations down
// ---------------------------------------------------------------------------

/// The processes of a list in ascending order.
fn sorted_processes(list: &Vec<ProcessInstance>) -> (sorted: Vec<ProcessInstance>)
    requires
        list@.no_duplicates(),
    ensures
        sorted@ == process_listing(list@.to_set()),
        lists_processes(sorted@, list@.to_set()),
{
    let mut sorted: Vec<ProcessInstance> = Vec::new();
    assert(list@.take(0).to_set() =~= Set::empty());
    for i in 0..list.len()
        invariant
            list@.no_duplicates(),
            sorted@.len() == i,
            lists_processes(sorted@, list@.take(i as int).to_set()),
    {
        let p = list[i];
        let ghost before = sorted@;
        let mut at: usize = sorted.len();
        while at > 0 && p.place() < sorted[at - 1].place()
            invariant
                at <= sorted@.len(),
                forall|k: int|
                    at <= k < sorted@.len() ==> p.rank() < (#[trigger] sorted@[k]).rank(),
            decreases at,
        {
            at = at - 1;
        }
        sorted.insert(at, p);
        proof {
            let a = list@.take(i as int);
            let b = list@.take(i as int + 1);
            assert(b =~= a.push(p));
            assert(sorted@ == before.insert(at as int, p));
            assert(!before.contains(p)) by {
                if before.contains(p) {
                    assert(a.to_set().contains(p));
                    let k = choose|k: int| 0 <= k < a.len() && a[k] == p;
                    assert(list@[k] == list@[i as int]);
                }
            }
            assert forall|k: int| 0 <= k < at implies (#[trigger] before[k]).rank() < p.rank() by {
                assert(before.contains(before[k]));
                assert(before[at - 1].rank() <= p.rank());
                if before[at - 1].rank() == p.rank() {
                    tracer::lemma_rank_injective(before[at - 1], p);
                    assert(before.contains(before[at - 1]));
                }
                if k < at - 1 {
                    assert(before[k].rank() < before[at - 1].rank());
                }
            }
            assert forall|x: int, y: int| 0 <= x < y < sorted@.len() implies (
            #[trigger] sorted@[x]).rank() < (#[trigger] sorted@[y]).rank() by {
                let u = if x < at { x } else { x - 1 };
                let v = if y < at { y } else { y - 1 };
                if x != at && y != at {
                    assert(before[u].rank() < before[v].rank());
                } else if x == at {
                    assert(p.rank() < before[v].rank());
                } else {
                    assert(before[u].rank() < p.rank());
                }
            }
            assert forall|q: ProcessInstance| #[trigger]
                sorted@.contains(q) <==> b.to_set().contains(q) by {
                assert(before.contains(q) <==> a.to_set().contains(q));
                if sorted@.contains(q) {
                    let k = choose|k: int| 0 <= k < sorted@.len() && sorted@[k] == q;
                    if k != at {
                        let u = if k < at { k } else { k - 1 };
                        assert(before[u] == q);
                        assert(a.to_set().contains(q));
                        let m = choose|m: int| 0 <= m < a.len() && a[m] == q;
                        assert(b[m] == q);
                    } else {
                        assert(b[i as int] == q);
                    }
                }
                if b.to_set().contains(q) {
                    let k = choose|k: int| 0 <= k < b.len() && b[k] == q;
                    if k < i {
                        assert(a[k] == q);
                        let m = choose|m: int| 0 <= m < before.len() && before[m] == q;
                        let u = if m < at { m } else { m + 1 };
                        assert(sorted@[u] == q);
                    } else {
                        assert(sorted@[at as int] == q);
                    }
                }
            }
        }
    }
    proof {
        assert(list@.take(list@.len() as int) =~= list@);
        lemma_process_listing(sorted@, list@.to_set());
    }
    sorted
}

/// The texts of a list in ascending order, each once.
fn sorted_hashes(list: &Vec<String>) -> (sorted: Vec<String>)
    ensures
        text::texts(sorted@) == order::text_listing(provenance::text_set(list@)),
{
    let sorted = sort_set(list);
    proof {
        order::law_sorted_set(text::texts(list@));
        assert(order::lists_texts(text::texts(sorted@), provenance::text_set(list@)));
        order::lemma_text_listing(text::texts(sorted@), provenance::text_set(list@));
    }
    sorted
}

/// The texts of a list that lie in a set.
fn kept(list: &Vec<String>, set: &StringHashSet) -> (result: Vec<String>)
    ensures
        provenance::text_set(result@) == provenance::text_set(list@).intersect(set@),
{
    let mut result: Vec<String> = Vec::new();
    assert(provenance::text_set(result@) =~= provenance::text_set(list@.take(0)).intersect(set@));
    for i in 0..list.len()
        invariant
            provenance::text_set(result@) == provenance::text_set(
                list@.take(i as int),
            ).intersect(set@),
    {
        let ghost before = result@;
        proof {
            assert(list@.take(i as int + 1) =~= list@.take(i as int).push(list@[i as int]));
            provenance::lemma_text_set_push(list@.take(i as int), list@[i as int]);
        }
        if set.contains(list[i].as_str()) {
            result.push(list[i].clone());
            proof {
                provenance::lemma_text_set_push(before, result@.last());
                assert(result@ =~= before.push(result@.last()));
            }
        }
        assert(provenance::text_set(result@) =~= provenance::text_set(
            list@.take(i as int + 1),
        ).intersect(set@));
    }
    assert(list@.take(list@.len() as int) =~= list@);
    result
}

fn push_op(ops: &mut Vec<CanonicalOp>, op: CanonicalOp)
    ensures
        operation::op_views(final(ops)@) == operation::op_views(old(ops)@).push(op@),
{
    ops.push(op);
    assert(operation::op_views(ops@) =~= operation::op_views(old(ops)@).push(op@));
}

fn read_of(index: u32, tool: &Option<String>, hash: &String) -> (op: CanonicalOp)
    ensures
        op@ == read_op(index, text::opt_text(*tool), hash@),
{
    proof {
        text::lemma_no_texts();
    }
    CanonicalOp {
        op_type: OpType::FileRead,
        process_index: index,
        tool_hash: tool.clone(),
        args: Vec::new(),
        input_hashes: one(hash.clone()),
        output_hashes: Vec::new(),
    }
}

fn write_of(index: u32, tool: &Option<String>, hash: &String) -> (op: CanonicalOp)
    ensures
        op@ == write_op(index, text::opt_text(*tool), hash@),
{
    proof {
        text::lemma_no_texts();
    }
    CanonicalOp {
        op_type: OpType::FileWrite,
        process_index: index,
        tool_hash: tool.clone(),
        args: Vec::new(),
        input_hashes: Vec::new(),
        output_hashes: one(hash.clone()),
    }
}

fn rename_of(index: u32, tool: &Option<String>, hash: &String) -> (op: CanonicalOp)
    ensures
        op@ == rename_op(index, text::opt_text(*tool), hash@),
{
    proof {
        text::lemma_no_texts();
    }
    CanonicalOp {
        op_type: OpType::FileRename,
        process_index: index,
        tool_hash: tool.clone(),
        args: Vec::new(),
        input_hashes: one(hash.clone()),
        output_hashes: one(hash.clone()),
    }
}

fn add_flow_ops(ops: &mut Vec<CanonicalOp>, flow: &ProcessFlow, index: u32, matters: &StringHashSet)
    ensures
        operation::op_views(final(ops)@) == operation::op_views(old(ops)@) + flow_ops(
            flow@,
            index,
            matters@,
        ),
{
    let ghost start = operation::op_views(ops@);
    let ghost tool = text::opt_text(flow.tool_hash);
    let ghost mut execs: Seq<OpView> = Seq::empty();
    if flow.has_exec {
        if let Some(tool_hash) = &flow.tool_hash {
            proof {
                text::lemma_no_texts();
                execs = seq![exec_op(index, tool_hash@)];
            }
            let op = CanonicalOp {
                op_type: OpType::Exec,
                process_index: index,
                tool_hash: Some(tool_hash.clone()),
                args: Vec::new(),
                input_hashes: Vec::new(),
                output_hashes: Vec::new(),
            };
            push_op(ops, op);
        }
    }
    assert(operation::op_views(ops@) =~= start + execs);
    let ghost reads_done = start + execs;
    let reads = sorted_hashes(&flow.reads);
    let ghost r = text::texts(reads@).map_values(|h: Seq<char>| read_op(index, tool, h));
    for i in 0..reads.len()
        invariant
            tool == text::opt_text(flow.tool_hash),
            r == text::texts(reads@).map_values(|h: Seq<char>| read_op(index, tool, h)),
            operation::op_views(ops@) == reads_done + r.take(i as int),
    {
        push_op(ops, read_of(index, &flow.tool_hash, &reads[i]));
        assert(operation::op_views(ops@) =~= reads_done + r.take(i as int + 1));
    }
    let ghost writes_done = reads_done + r;
    assert(r.take(r.len() as int) =~= r);
    let writes = sorted_hashes(&kept(&flow.writes, matters));
    let ghost w = text::texts(writes@).map_values(|h: Seq<char>| write_op(index, tool, h));
    assert(operation::op_views(ops@) =~= writes_done + w.take(0));
    for i in 0..writes.len()
        invariant
            tool == text::opt_text(flow.tool_hash),
            w == text::texts(writes@).map_values(|h: Seq<char>| write_op(index, tool, h)),
            operation::op_views(ops@) == writes_done + w.take(i as int),
    {
        push_op(ops, write_of(index, &flow.tool_hash, &writes[i]));
        assert(operation::op_views(ops@) =~= writes_done + w.take(i as int + 1));
    }
    assert(w.take(w.len() as int) =~= w);
    let ghost renames_done = writes_done + w;
    let renames = sorted_hashes(&kept(&flow.renames, matters));
    let ghost n = text::texts(renames@).map_values(|h: Seq<char>| rename_op(index, tool, h));
    assert(operation::op_views(ops@) =~= renames_done + n.take(0));
    for i in 0..renames.len()
        invariant
            tool == text::opt_text(flow.tool_hash),
            n == text::texts(renames@).map_values(|h: Seq<char>| rename_op(index, tool, h)),
            operation::op_views(ops@) == renames_done + n.take(i as int),
    {
        push_op(ops, rename_of(index, &flow.tool_hash, &renames[i]));
        assert(operation::op_views(ops@) =~= renames_done + n.take(i as int + 1));
    }
    assert(n.take(n.len() as int) =~= n);
    assert(operation::op_views(ops@) =~= start + (execs + r + w + n));
}

// ---------------------------------------------------------------------------
// Logical indices
// ---------------------------------------------------------------------------

struct Numbers {
    table: HashMap<u64, u32>,
    next: u32,
}

impl Numbers {
    spec fn map(self) -> Map<ProcessInstance, u32> {
        Map::new(
            |p: ProcessInstance| self.table@.contains_key(p.rank()),
            |p: ProcessInstance| self.table@[p.rank()],
        )
    }

    spec fn state(self) -> Numbering {
        Numbering { indices: self.map(), next: self.next as int }
    }

    /// Only processes of `all` are numbered, and no more numbers are used than
    /// there are numbered processes.
    spec fn bounded(self, all: Set<ProcessInstance>) -> bool {
        &&& all.finite()
        &&& all.len() <= u32::MAX
        &&& self.map().dom().subset_of(all)
        &&& self.next <= self.map().dom().len()
    }

    proof fn lemma_room(self, all: Set<ProcessInstance>, p: ProcessInstance)
        requires
            self.bounded(all),
            all.contains(p),
            !self.map().contains_key(p),
        ensures
            self.next < u32::MAX,
            self.map().dom().insert(p).subset_of(all),
            self.map().dom().insert(p).len() == self.map().dom().len() + 1,
    {
        vstd::set_lib::lemma_len_subset(self.map().dom(), all);
        vstd::set_lib::lemma_len_subset(self.map().dom().insert(p), all);
    }

    fn new(root: ProcessInstance, Ghost(all): Ghost<Set<ProcessInstance>>) -> (n: Numbers)
        requires
            all.finite(),
            all.len() <= u32::MAX,
            all.contains(root),
        ensures
            n.state() == Numbering::start(root),
            n.bounded(all),
    {
        let mut table: HashMap<u64, u32> = HashMap::new();
        table.insert(root.place(), 0u32);
        let n = Numbers { table, next: 1 };
        proof {
            assert forall|p: ProcessInstance| p.rank() == root.rank() implies p == root by {
                tracer::lemma_rank_injective(p, root);
            }
            assert(n.map() =~= Map::empty().insert(root, 0u32));
            assert(n.map().dom() =~= Set::empty().insert(root));
        }
        n
    }

    fn set(&mut self, p: ProcessInstance, index: u32)
        ensures
            final(self).map() == old(self).map().insert(p, index),
            final(self).next == old(self).next,
    {
        self.table.insert(p.place(), index);
        proof {
            assert forall|q: ProcessInstance| q.rank() == p.rank() implies q == p by {
                tracer::lemma_rank_injective(q, p);
            }
            assert(self.map() =~= old(self).map().insert(p, index));
        }
    }

    fn get(&self, p: ProcessInstance) -> (index: Option<u32>)
        ensures
            match index {
                Some(i) => self.map().contains_key(p) && self.map()[p] == i,
                None => !self.map().contains_key(p),
            },
    {
        match self.table.get(&p.place()) {
            Some(index) => Some(*index),
            None => None,
        }
    }

    fn add(&mut self, p: ProcessInstance, Ghost(all): Ghost<Set<ProcessInstance>>) -> (index: u32)
        requires
            old(self).bounded(all),
            all.contains(p),
        ensures
            final(self).state() == old(self).state().add(p),
            final(self).bounded(all),
            final(self).map().contains_key(p),
            index == final(self).map()[p],
    {
        if let Some(index) = self.get(p) {
            return index;
        }
        let index = self.next;
        proof {
            self.lemma_room(all, p);
        }
        self.set(p, index);
        self.next = index + 1;
        assert(self.map().dom() =~= old(self).map().dom().insert(p));
        index
    }

    fn borrow(
        &mut self,
        exit: Option<(ProcessInstance, i32)>,
        Ghost(all): Ghost<Set<ProcessInstance>>,
    )
        requires
            old(self).bounded(all),
            exit matches Some((p, _)) ==> all.contains(p),
        ensures
            final(self).state() == old(self).state().borrow(exit),
            final(self).bounded(all),
    {
        if let Some((p, _)) = exit {
            if self.get(p).is_none() {
                proof {
                    self.lemma_room(all, p);
                }
                self.set(p, self.next);
                assert(self.map().dom() =~= old(self).map().dom().insert(p));
            }
        }
    }
}

// ---------------------------------------------------------------------------
// Outputs without a known writer
// ---------------------------------------------------------------------------

fn has_text(list: &Vec<String>, t: &str) -> (yes: bool)
    ensures
        yes == provenance::text_set(list@).contains(t@),
{
    for i in 0..list.len()
        invariant
            forall|k: int| 0 <= k < i ==> (#[trigger] list@[k])@ != t@,
    {
        if text_eq(list[i].as_str(), t) {
            assert(text::texts(list@)[i as int] == t@);
            return true;
        }
    }
    assert forall|k: int| 0 <= k < text::texts(list@).len() implies text::texts(list@)[k] != t@ by {
        assert(list@[k]@ != t@);
    }
    false
}

fn has_produced(scanner: &Scanner, p: ProcessInstance, hash: &str) -> (yes: bool)
    ensures
        yes == produced(scanner.state(), p, hash@),
{
    match scanner.flow(p) {
        Some(flow) => has_text(&flow.writes, hash) || has_text(&flow.renames, hash),
        None => false,
    }
}

/// The first process that produced some content, if any did.
fn find_producer(scanner: &Scanner, hash: &str) -> (p: Option<ProcessInstance>)
    requires
        scanner.well_formed(),
    ensures
        p == first_producer(scanner.state(), hash@),
{
    let ghost s = scanner.state();
    let ghost set = producers(s, hash@);
    let writers = scanner.writers_of_content(hash);
    let mut best: Option<ProcessInstance> = None;
    for i in 0..writers.len()
        invariant
            s == scanner.state(),
            set == producers(s, hash@),
            forall|p: ProcessInstance| #[trigger]
                writers@.contains(p) <==> s.by_hash.contains((hash@, p)),
            match best {
                Some(b) => set.contains(b) && forall|k: int|
                    0 <= k < i && set.contains(#[trigger] writers@[k]) ==> b.rank()
                        <= writers@[k].rank(),
                None => forall|k: int| 0 <= k < i ==> !set.contains(#[trigger] writers@[k]),
            },
    {
        let w = writers[i];
        assert(writers@.contains(w));
        if has_produced(scanner, w, hash) {
            assert(set.contains(w));
            let better = match best {
                Some(b) => w.place() < b.place(),
                None => true,
            };
            if better {
                best = Some(w);
            }
        }
    }
    proof {
        assert forall|q: ProcessInstance| set.contains(q) implies exists|k: int|
            0 <= k < writers@.len() && #[trigger] writers@[k] == q by {
            assert(writers@.contains(q));
        }
        match best {
            Some(b) => {
                assert forall|q: ProcessInstance| #[trigger] set.contains(q) implies b.rank()
                    <= q.rank() by {
                    let k = choose|k: int| 0 <= k < writers@.len() && #[trigger] writers@[k] == q;
                }
                assert(is_least(b, set));
                let chosen = choose|p: ProcessInstance| is_least(p, set);
                assert(is_least(chosen, set));
                assert(b.rank() <= chosen.rank() && chosen.rank() <= b.rank());
                tracer::lemma_rank_injective(b, chosen);
            },
            None => {
                assert forall|p: ProcessInstance| !is_least(p, set) by {
                    if set.contains(p) {
                        let k = choose|k: int|
                            0 <= k < writers@.len() && #[trigger] writers@[k] == p;
                    }
                }
            },
        }
    }
    best
}

/// The outputs whose content no process of a list produced.
fn left_over(scanner: &Scanner, list: &Vec<ProcessInstance>, outputs: &[OutputFile]) -> (left: Vec<
    String,
>)
    requires
        scanner.well_formed(),
        list@.to_set() == included(scanner.state(), workspace::output_views(outputs@)),
    ensures
        provenance::text_set(left@) == orphans(
            scanner.state(),
            workspace::output_views(outputs@),
        ),
{
    let ghost s = scanner.state();
    let ghost outs = workspace::output_views(outputs@);
    let mut made = StringHashSet::new();
    let ghost made_by = |n: int, h: Seq<char>|
        exists|i: int| 0 <= i < n && produced(s, #[trigger] list@[i], h);
    for i in 0..list.len()
        invariant
            s == scanner.state(),
            made_by == |n: int, h: Seq<char>|
                exists|i: int| 0 <= i < n && produced(s, #[trigger] list@[i], h),
            forall|h: Seq<char>| #[trigger] made@.contains(h) <==> made_by(i as int, h),
    {
        let ghost before = made@;
        let ghost p = list@[i as int];
        if let Some(flow) = scanner.flow(list[i]) {
            add_texts(&mut made, &flow.writes);
            add_texts(&mut made, &flow.renames);
        }
        proof {
            assert forall|h: Seq<char>| #[trigger] made@.contains(h) <==> made_by(i as int + 1, h) by {
                assert(made@.contains(h) <==> before.contains(h) || produced(s, p, h));
                assert(before.contains(h) <==> made_by(i as int, h));
                if made_by(i as int + 1, h) {
                    let k = choose|k: int| 0 <= k < i + 1 && produced(s, #[trigger] list@[k], h);
                    if k < i {
                        assert(made_by(i as int, h));
                    }
                }
                if made_by(i as int, h) {
                    let k = choose|k: int| 0 <= k < i && produced(s, #[trigger] list@[k], h);
                    assert(produced(s, list@[k], h) && 0 <= k < i + 1);
                }
                if produced(s, p, h) {
                    assert(produced(s, list@[i as int], h));
                }
            }
        }
    }
    let ghost orphan = |h: Seq<char>| !made@.contains(h);
    let mut left: Vec<String> = Vec::new();
    assert(provenance::text_set(left@) =~= output_hashes(outs.take(0)).filter(orphan));
    for i in 0..outputs.len()
        invariant
            outs == workspace::output_views(outputs@),
            orphan == |h: Seq<char>| !made@.contains(h),
            provenance::text_set(left@) == output_hashes(outs.take(i as int)).filter(orphan),
    {
        let ghost before = left@;
        let ghost h = outs[i as int].hash;
        if !made.contains(outputs[i].hash.as_str()) {
            left.push(outputs[i].hash.clone());
            proof {
                assert(left@ =~= before.push(left@.last()));
                provenance::lemma_text_set_push(before, left@.last());
            }
        }
        proof {
            lemma_output_hashes_push(outs, i as int);
            assert(provenance::text_set(left@) =~= output_hashes(outs.take(i as int + 1)).filter(
                orphan,
            ));
        }
    }
    proof {
        assert(outs.take(outs.len() as int) =~= outs);
        assert forall|h: Seq<char>| output_hashes(outs).filter(orphan).contains(h) <==> orphans(
            s,
            outs,
        ).contains(h) by {
            assert(made@.contains(h) <==> made_by(list@.len() as int, h));
            let set = included(s, outs);
            if made@.contains(h) {
                let k = choose|k: int| 0 <= k < list@.len() && produced(s, #[trigger] list@[k], h);
                assert(list@.contains(list@[k]));
                assert(set.contains(list@[k]));
            } else {
                assert forall|p: ProcessInstance| #[trigger] set.contains(p) implies !produced(
                    s,
                    p,
                    h,
                ) by {
                    assert(list@.to_set().contains(p));
                    let k = choose|k: int| 0 <= k < list@.len() && list@[k] == p;
                    if produced(s, p, h) {
                        assert(produced(s, list@[k], h));
                        assert(made_by(list@.len() as int, h));
                    }
                }
            }
        }
        assert(provenance::text_set(left@) =~= orphans(s, outs));
    }
    left
}

proof fn lemma_output_hashes_push(outs: Seq<Output>, i: int)
    requires
        0 <= i < outs.len(),
    ensures
        output_hashes(outs.take(i + 1)) == output_hashes(outs.take(i)).insert(outs[i].hash),
{
    let a = outs.take(i);
    let b = outs.take(i + 1);
    assert forall|h: Seq<char>| output_hashes(b).contains(h) <==> output_hashes(a).contains(h) || h
        == outs[i].hash by {
        if output_hashes(b).contains(h) {
            let k = choose|k: int| 0 <= k < b.len() && (#[trigger] b[k]).hash == h;
            if k < a.len() {
                assert(a[k].hash == h);
            }
        }
        if output_hashes(a).contains(h) {
            let k = choose|k: int| 0 <= k < a.len() && (#[trigger] a[k]).hash == h;
            assert(b[k].hash == h);
        }
        assert(b[i].hash == outs[i].hash);
    }
    assert(output_hashes(b) =~= output_hashes(a).insert(outs[i].hash));
}

fn add_texts(set: &mut StringHashSet, list: &Vec<String>)
    ensures
        final(set)@ == old(set)@.union(provenance::text_set(list@)),
{
    assert(set@ =~= old(set)@.union(provenance::text_set(list@.take(0))));
    for i in 0..list.len()
        invariant
            set@ == old(set)@.union(provenance::text_set(list@.take(i as int))),
    {
        set.insert(list[i].clone());
        proof {
            assert(list@.take(i as int + 1) =~= list@.take(i as int).push(list@[i as int]));
            provenance::lemma_text_set_push(list@.take(i as int), list@[i as int]);
            assert(set@ =~= old(set)@.union(provenance::text_set(list@.take(i as int + 1))));
        }
    }
    assert(list@.take(list@.len() as int) =~= list@);
}

// ---------------------------------------------------------------------------
// The slice
// ---------------------------------------------------------------------------

proof fn lemma_add_all_keeps(n: Numbering, list: Seq<ProcessInstance>, p: ProcessInstance)
    requires
        list.contains(p),
    ensures
        n.add_all(list).indices.contains_key(p),
    decreases list.len(),
{
    if list.last() != p {
        let k = choose|k: int| 0 <= k < list.len() && list[k] == p;
        assert(list.drop_last()[k] == p);
        lemma_add_all_keeps(n, list.drop_last(), p);
    }
}

fn number_all(
    list: &Vec<ProcessInstance>,
    root: ProcessInstance,
    Ghost(all): Ghost<Set<ProcessInstance>>,
) -> (numbers: Numbers)
    requires
        all.finite(),
        all.len() <= u32::MAX,
        all.contains(root),
        forall|p: ProcessInstance| #[trigger] list@.contains(p) ==> all.contains(p),
    ensures
        numbers.bounded(all),
        numbers.state() == Numbering::start(root).add_all(list@),
{
    let mut numbers = Numbers::new(root, Ghost(all));
    for i in 0..list.len()
        invariant
            forall|p: ProcessInstance| #[trigger] list@.contains(p) ==> all.contains(p),
            numbers.bounded(all),
            numbers.state() == Numbering::start(root).add_all(list@.take(i as int)),
    {
        proof {
            assert(list@.contains(list@[i as int]));
            assert(list@.take(i as int + 1).drop_last() =~= list@.take(i as int));
        }
        numbers.add(list[i], Ghost(all));
    }
    assert(list@.take(list@.len() as int) =~= list@);
    numbers
}

fn list_flow_ops(
    scanner: &Scanner,
    numbers: &Numbers,
    matters: &StringHashSet,
    list: &Vec<ProcessInstance>,
) -> (ops: Vec<CanonicalOp>)
    requires
        forall|p: ProcessInstance| #[trigger]
            list@.contains(p) ==> numbers.map().contains_key(p),
    ensures
        operation::op_views(ops@) == all_flow_ops(
            scanner.state(),
            numbers.state(),
            matters@,
            list@,
        ),
{
    let ghost s = scanner.state();
    let mut ops: Vec<CanonicalOp> = Vec::new();
    assert(operation::op_views(ops@) =~= Seq::empty());
    for i in 0..list.len()
        invariant
            s == scanner.state(),
            forall|p: ProcessInstance| #[trigger]
                list@.contains(p) ==> numbers.map().contains_key(p),
            operation::op_views(ops@) == all_flow_ops(
                s,
                numbers.state(),
                matters@,
                list@.take(i as int),
            ),
    {
        proof {
            assert(list@.contains(list@[i as int]));
            assert(list@.take(i as int + 1).drop_last() =~= list@.take(i as int));
        }
        if let Some(flow) = scanner.flow(list[i]) {
            if let Some(index) = numbers.get(list[i]) {
                add_flow_ops(&mut ops, flow, index, matters);
            }
        }
    }
    assert(list@.take(list@.len() as int) =~= list@);
    ops
}

fn add_orphan_ops(
    ops: &mut Vec<CanonicalOp>,
    scanner: &Scanner,
    numbers: &mut Numbers,
    left: &Vec<String>,
    Ghost(all): Ghost<Set<ProcessInstance>>,
)
    requires
        scanner.well_formed(),
        scanner.state().speaks_of(all),
        old(numbers).bounded(all),
    ensures
        final(numbers).bounded(all),
        final(numbers).state() == numbering_after_orphans(
            scanner.state(),
            old(numbers).state(),
            text::texts(left@),
        ),
        operation::op_views(final(ops)@) == operation::op_views(old(ops)@) + orphan_ops(
            scanner.state(),
            old(numbers).state(),
            text::texts(left@),
        ),
{
    let ghost s = scanner.state();
    let ghost start = operation::op_views(ops@);
    let ghost n0 = numbers.state();
    let ghost t = text::texts(left@);
    assert(operation::op_views(ops@) =~= start + orphan_ops(s, n0, t.take(0)));
    for i in 0..left.len()
        invariant
            s == scanner.state(),
            scanner.well_formed(),
            s.speaks_of(all),
            t == text::texts(left@),
            numbers.bounded(all),
            numbers.state() == numbering_after_orphans(s, n0, t.take(i as int)),
            operation::op_views(ops@) == start + orphan_ops(s, n0, t.take(i as int)),
    {
        let ghost before = operation::op_views(ops@);
        let ghost prefix = t.take(i as int + 1);
        proof {
            assert(prefix.drop_last() =~= t.take(i as int));
            assert(prefix.last() == left@[i as int]@);
        }
        match find_producer(scanner, left[i].as_str()) {
            Some(p) => {
                proof {
                    assert(is_least(p, producers(s, left@[i as int]@)));
                }
                let index = numbers.add(p, Ghost(all));
                let tool = match scanner.flow(p) {
                    Some(flow) => flow.tool_hash.clone(),
                    None => None,
                };
                assert(text::opt_text(tool) == s.flow(p).tool);
                push_op(ops, write_of(index, &tool, &left[i]));
            },
            None => {
                proof {
                    text::lemma_no_texts();
                }
                let op = CanonicalOp {
                    op_type: OpType::FileWrite,
                    process_index: u32::MAX,
                    tool_hash: None,
                    args: one("output".to_string()),
                    input_hashes: Vec::new(),
                    output_hashes: one(left[i].clone()),
                };
                assert(op@ == unattributed_op(left@[i as int]@));
                push_op(ops, op);
            },
        }
        assert(operation::op_views(ops@) =~= start + orphan_ops(s, n0, prefix));
    }
    assert(t.take(t.len() as int) =~= t);
}

/// Reduces a trace to the operations that its outputs depend on.
///
/// The writers of the output paths are followed back along the content they
/// read to the processes that produced it; what no output depends on is left
/// out. Every output is accounted for, if need be without a known writer.
pub fn canonicalize_output_slice(
    events: Vec<ProcessEvent>,
    root_process: ProcessInstance,
    outputs: &[OutputFile],
) -> (ops: Vec<CanonicalOp>)
    requires
        events@.len() < u32::MAX,
    ensures
        operation::op_views(ops@) == output_slice(
            tracer::happenings(events@),
            root_process,
            workspace::output_views(outputs@),
        ),
{
    let ghost views = tracer::happenings(events@);
    let ghost outs = workspace::output_views(outputs@);
    let scanner = scan_events(&events, root_process);
    if outputs.len() == 0 {
        let ops: Vec<CanonicalOp> = Vec::new();
        assert(operation::op_views(ops@) =~= Seq::empty());
        return ops;
    }
    let ghost s = scanner.state();
    let ghost known = provenance::actors(views);
    let ghost all = known.insert(root_process);
    proof {
        provenance::lemma_scan_speaks_of_actors(views, root_process);
    }
    let (reached, matters) = follow(&scanner, outputs, Ghost(known));
    let processes = sorted_processes(&reached.list);
    proof {
        assert(processes@ == process_listing(included(s, outs)));
        assert forall|p: ProcessInstance| #[trigger] processes@.contains(p) implies all.contains(
        p) by {
            assert(reached.set().contains(p));
        }
    }
    let mut numbers = number_all(&processes, root_process, Ghost(all));
    let exit = scanner.root_exit();
    numbers.borrow(exit, Ghost(all));
    proof {
        assert forall|p: ProcessInstance| #[trigger]
            processes@.contains(p) implies numbers.map().contains_key(p) by {
            lemma_add_all_keeps(Numbering::start(root_process), processes@, p);
        }
        assert(numbers.state() == slice_numbering(s, root_process, outs));
    }
    let mut ops = list_flow_ops(&scanner, &numbers, &matters, &processes);
    let left = sorted_hashes(&left_over(&scanner, &reached.list, outputs));
    add_orphan_ops(&mut ops, &scanner, &mut numbers, &left, Ghost(all));
    if let Some((process, exit_code)) = exit {
        proof {
            text::lemma_no_texts();
            lemma_orphans_keep(s, slice_numbering(s, root_process, outs), text::texts(left@), process);
        }
        let index = match numbers.get(process) {
            Some(index) => index,
            None => 0,
        };
        let tool = match scanner.flow(process) {
            Some(flow) => flow.tool_hash.clone(),
            None => None,
        };
        assert(text::opt_text(tool) == s.flow(process).tool);
        let op = CanonicalOp {
            op_type: OpType::Exit,
            process_index: index,
            tool_hash: tool,
            args: one(concat("exit:", format_signed(exit_code).as_str())),
            input_hashes: Vec::new(),
            output_hashes: Vec::new(),
        };
        push_op(&mut ops, op);
    }
    assert(operation::op_views(ops@) == slice_ops(s, root_process, outs));
    finalize_ops(ops)
}

proof fn lemma_orphans_keep(s: Scan, n: Numbering, list: Seq<Seq<char>>, p: ProcessInstance)
    requires
        n.indices.contains_key(p),
    ensures
        numbering_after_orphans(s, n, list).indices.contains_key(p),
    decreases list.len(),
{
    if list.len() > 0 {
        lemma_orphans_keep(s, n, list.drop_last(), p);
    }
}

// ---------------------------------------------------------------------------
// Laws
// ---------------------------------------------------------------------------

proof fn lemma_insert_process(
    list: Seq<ProcessInstance>,
    set: Set<ProcessInstance>,
    p: ProcessInstance,
    at: int,
)
    requires
        lists_processes(list, set),
        !set.contains(p),
        0 <= at <= list.len(),
        forall|k: int| 0 <= k < at ==> (#[trigger] list[k]).rank() < p.rank(),
        forall|k: int| at <= k < list.len() ==> p.rank() < (#[trigger] list[k]).rank(),
    ensures
        lists_processes(list.insert(at, p), set.insert(p)),
{
    let after = list.insert(at, p);
    assert forall|x: int, y: int| 0 <= x < y < after.len() implies (#[trigger] after[x]).rank() < (
    #[trigger] after[y]).rank() by {
        let u = if x < at { x } else { x - 1 };
        let v = if y < at { y } else { y - 1 };
        if x != at && y != at {
            assert(list[u].rank() < list[v].rank());
        } else if x == at {
            assert(p.rank() < list[v].rank());
        } else {
            assert(list[u].rank() < p.rank());
        }
    }
    assert forall|q: ProcessInstance| #[trigger] after.contains(q) <==> set.insert(p).contains(q) by {
        assert(list.contains(q) <==> set.contains(q));
        if after.contains(q) {
            let k = choose|k: int| 0 <= k < after.len() && after[k] == q;
            if k != at {
                let u = if k < at { k } else { k - 1 };
                assert(list[u] == q);
            }
        }
        if list.contains(q) {
            let m = choose|m: int| 0 <= m < list.len() && list[m] == q;
            let u = if m < at { m } else { m + 1 };
            assert(after[u] == q);
        }
        assert(after[at] == p);
    }
}

/// The position at which a process belongs in an ascending list.
spec fn place_in(list: Seq<ProcessInstance>, p: ProcessInstance) -> int
    decreases list.len(),
{
    if list.len() > 0 && p.rank() < list.last().rank() {
        place_in(list.drop_last(), p)
    } else {
        list.len() as int
    }
}

proof fn lemma_place_in(list: Seq<ProcessInstance>, p: ProcessInstance)
    requires
        forall|i: int, j: int|
            0 <= i < j < list.len() ==> (#[trigger] list[i]).rank() < (#[trigger] list[j]).rank(),
        !list.contains(p),
    ensures
        0 <= place_in(list, p) <= list.len(),
        forall|k: int| 0 <= k < place_in(list, p) ==> (#[trigger] list[k]).rank() < p.rank(),
        forall|k: int| place_in(list, p) <= k < list.len() ==> p.rank() < (#[trigger] list[k]).rank(),
    decreases list.len(),
{
    if list.len() > 0 {
        let l = list.last();
        if p.rank() < l.rank() {
            let init = list.drop_last();
            assert forall|k: int| 0 <= k < init.len() implies init[k] != p by {
                assert(init[k] == list[k]);
            }
            lemma_place_in(init, p);
            assert forall|k: int| 0 <= k < init.len() implies #[trigger] list[k] == init[k] by {}
        } else {
            if p.rank() == l.rank() {
                tracer::lemma_rank_injective(p, l);
                assert(list[list.len() - 1] == p);
            }
        }
    }
}

/// Every finite set of processes has a listing.
pub proof fn lemma_processes_listed(set: Set<ProcessInstance>)
    requires
        set.finite(),
    ensures
        lists_processes(process_listing(set), set),
    decreases set.len(),
{
    if set.len() == 0 {
        let none = Seq::<ProcessInstance>::empty();
        assert(set =~= Set::empty());
        assert(lists_processes(none, set));
    } else {
        let p = set.choose();
        let rest = set.remove(p);
        lemma_processes_listed(rest);
        let list = process_listing(rest);
        assert(list.contains(p) <==> rest.contains(p));
        lemma_place_in(list, p);
        lemma_insert_process(list, rest, p, place_in(list, p));
        assert(rest.insert(p) =~= set);
    }
}

pub(crate) proof fn lemma_output_hashes_finite(outputs: Seq<Output>, n: int)
    requires
        0 <= n <= outputs.len(),
    ensures
        output_hashes(outputs.take(n)).finite(),
    decreases n,
{
    if n == 0 {
        assert(output_hashes(outputs.take(0)) =~= Set::empty());
    } else {
        lemma_output_hashes_finite(outputs, n - 1);
        lemma_output_hashes_push(outputs, n - 1);
    }
}

pub(crate) proof fn lemma_included_is_known(s: Scan, outputs: Seq<Output>, known: Set<ProcessInstance>)
    requires
        s.speaks_of(known),
    ensures
        included(s, outputs).subset_of(known),
{
    lemma_closed_contains_included(s, outputs, known);
}

pub(crate) proof fn lemma_flow_op_listed(
    s: Scan,
    numbers: Numbering,
    matters: Set<Seq<char>>,
    list: Seq<ProcessInstance>,
    p: ProcessInstance,
    k: int,
)
    requires
        list.contains(p),
        s.flows.contains_key(p),
        0 <= k < flow_ops(s.flows[p], numbers.indices[p], matters).len(),
    ensures
        all_flow_ops(s, numbers, matters, list).contains(
            flow_ops(s.flows[p], numbers.indices[p], matters)[k],
        ),
    decreases list.len(),
{
    let mine = flow_ops(s.flows[p], numbers.indices[p], matters);
    let all = all_flow_ops(s, numbers, matters, list);
    let before = all_flow_ops(s, numbers, matters, list.drop_last());
    if list.last() == p {
        assert(all == before + mine);
        assert(all[before.len() + k] == mine[k]);
    } else {
        let i = choose|i: int| 0 <= i < list.len() && list[i] == p;
        assert(list.drop_last()[i] == p);
        lemma_flow_op_listed(s, numbers, matters, list.drop_last(), p, k);
        let j = choose|j: int| 0 <= j < before.len() && before[j] == mine[k];
        assert(all[j] == mine[k]);
    }
}

/// Whether an operation is a write or a move of some content.
pub open spec fn outputs_content(op: OpView, h: Seq<char>) -> bool {
    (op.op_type == OpType::FileWrite || op.op_type == OpType::FileRename) && op.output_hashes
        == seq![h]
}

pub(crate) proof fn lemma_orphan_op_listed(s: Scan, numbers: Numbering, list: Seq<Seq<char>>, h: Seq<char>)
    requires
        list.contains(h),
    ensures
        exists|k: int|
            0 <= k < orphan_ops(s, numbers, list).len() && outputs_content(
                #[trigger] orphan_ops(s, numbers, list)[k],
                h,
            ),
    decreases list.len(),
{
    let ops = orphan_ops(s, numbers, list);
    if list.last() == h {
        assert(outputs_content(ops[ops.len() - 1], h));
    } else {
        let i = choose|i: int| 0 <= i < list.len() && list[i] == h;
        assert(list.drop_last()[i] == h);
        lemma_orphan_op_listed(s, numbers, list.drop_last(), h);
        let before = orphan_ops(s, numbers, list.drop_last());
        let k = choose|k: int| 0 <= k < before.len() && outputs_content(#[trigger] before[k], h);
        assert(ops[k] == before[k]);
    }
}

pub(crate) proof fn lemma_kept_when_finalized(ops: Seq<OpView>, k: int)
    requires
        0 <= k < ops.len(),
    ensures
        operation::op_hashes(operation::finalized(ops)).contains(ops[k].normalized().hash()),
{
    operation::law_finalized_ops_are_a_sorted_set(ops);
    let hashes = operation::op_hashes(operation::normalized_ops(ops));
    assert(hashes[k] == ops[k].normalized().hash());
    assert(hashes.contains(hashes[k]));
}

/// Every output is accounted for: some operation writes or moves the output's
/// content, and the slice holds the hash of that operation.
pub proof fn law_every_output_is_accounted_for(
    events: Seq<Happened>,
    root: ProcessInstance,
    outputs: Seq<Output>,
    i: int,
)
    requires
        0 <= i < outputs.len(),
    ensures
        ({
            let ops = slice_ops(provenance::scan(events, root).settled(), root, outputs);
            exists|k: int|
                0 <= k < ops.len() && outputs_content(#[trigger] ops[k], outputs[i].hash)
                    && operation::op_hashes(output_slice(events, root, outputs)).contains(
                    ops[k].normalized().hash(),
                )
        }),
{
    let s = provenance::scan(events, root).settled();
    let h = outputs[i].hash;
    let known = provenance::actors(events);
    provenance::lemma_scan_speaks_of_actors(events, root);
    provenance::lemma_finite_flows(events, root);
    lemma_included_is_known(s, outputs, known);
    vstd::set_lib::lemma_len_subset(included(s, outputs), known);
    lemma_processes_listed(included(s, outputs));
    assert(outputs.take(outputs.len() as int) =~= outputs);
    lemma_output_hashes_finite(outputs, outputs.len() as int);
    vstd::set_lib::lemma_len_subset(orphans(s, outputs), output_hashes(outputs));
    order::lemma_texts_listed(orphans(s, outputs));
    let list = process_listing(included(s, outputs));
    let numbers = slice_numbering(s, root, outputs);
    let matters = relevant(s, outputs);
    let left = order::text_listing(orphans(s, outputs));
    let ops = slice_ops(s, root, outputs);
    let flow_part = all_flow_ops(s, numbers, matters, list);
    let orphan_part = orphan_ops(s, numbers, left);
    assert(output_hashes(outputs).contains(h));
    assert(matters.contains(h));
    if orphans(s, outputs).contains(h) {
        assert(left.contains(h));
        lemma_orphan_op_listed(s, numbers, left, h);
        let k = choose|k: int|
            0 <= k < orphan_part.len() && outputs_content(#[trigger] orphan_part[k], h);
        assert(ops[flow_part.len() + k] == orphan_part[k]);
        assert(outputs_content(ops[flow_part.len() + k], h));
        lemma_kept_when_finalized(ops, flow_part.len() + k);
    } else {
        let p = choose|p: ProcessInstance| #[trigger]
            included(s, outputs).contains(p) && produced(s, p, h);
        assert(list.contains(p));
        let flow = s.flow(p);
        assert(s.flows.contains_key(p));
        let index = numbers.indices[p];
        let mine = flow_ops(flow, index, matters);
        let writes = order::text_listing(flow.writes.intersect(matters));
        let renames = order::text_listing(flow.renames.intersect(matters));
        let reads = order::text_listing(flow.reads);
        order::lemma_texts_listed(flow.writes.intersect(matters));
        order::lemma_texts_listed(flow.renames.intersect(matters));
        let total = mine.len();
        let head = total - writes.len() - renames.len();
        let k = if flow.writes.contains(h) {
            assert(writes.contains(h));
            let m = choose|m: int| 0 <= m < writes.len() && writes[m] == h;
            assert(mine[head + m] == write_op(index, flow.tool, h));
            head + m
        } else {
            assert(renames.contains(h));
            let m = choose|m: int| 0 <= m < renames.len() && renames[m] == h;
            assert(mine[head + writes.len() + m] == rename_op(index, flow.tool, h));
            head + writes.len() + m
        };
        lemma_flow_op_listed(s, numbers, matters, list, p, k);
        let j = choose|j: int| 0 <= j < flow_part.len() && flow_part[j] == mine[k];
        assert(ops[j] == mine[k]);
        assert(outputs_content(ops[j], h));
        lemma_kept_when_finalized(ops, j);
    }
}

/// What no output depends on is left out: every execution, read and move in the
/// slice is one of an included process.
pub proof fn law_slices_hold_only_what_outputs_depend_on(
    events: Seq<Happened>,
    root: ProcessInstance,
    outputs: Seq<Output>,
    k: int,
)
    requires
        ({
            let ops = slice_ops(provenance::scan(events, root).settled(), root, outputs);
            &&& 0 <= k < ops.len()
            &&& ops[k].op_type == OpType::Exec || ops[k].op_type == OpType::FileRead
                || ops[k].op_type == OpType::FileRename
        }),
    ensures
        ({
            let s = provenance::scan(events, root).settled();
            let op = slice_ops(s, root, outputs)[k];
            exists|p: ProcessInstance| #[trigger]
                included(s, outputs).contains(p) && flow_ops(
                    s.flow(p),
                    slice_numbering(s, root, outputs).indices[p],
                    relevant(s, outputs),
                ).contains(op)
        }),
{
    let s = provenance::scan(events, root).settled();
    let known = provenance::actors(events);
    provenance::lemma_scan_speaks_of_actors(events, root);
    lemma_included_is_known(s, outputs, known);
    vstd::set_lib::lemma_len_subset(included(s, outputs), known);
    lemma_processes_listed(included(s, outputs));
    let list = process_listing(included(s, outputs));
    let numbers = slice_numbering(s, root, outputs);
    let matters = relevant(s, outputs);
    let left = order::text_listing(orphans(s, outputs));
    let ops = slice_ops(s, root, outputs);
    let flow_part = all_flow_ops(s, numbers, matters, list);
    let orphan_part = orphan_ops(s, numbers, left);
    if k < flow_part.len() {
        assert(ops[k] == flow_part[k]);
        lemma_flow_op_owner(s, numbers, matters, list, k);
        let p = choose|p: ProcessInstance| #[trigger]
            list.contains(p) && flow_ops(s.flow(p), numbers.indices[p], matters).contains(ops[k]);
        assert(included(s, outputs).contains(p));
    } else if k < flow_part.len() + orphan_part.len() {
        lemma_orphan_ops_are_writes(s, numbers, left);
        assert(ops[k] == orphan_part[k - flow_part.len()]);
    }
}

pub(crate) proof fn lemma_flow_op_owner(
    s: Scan,
    numbers: Numbering,
    matters: Set<Seq<char>>,
    list: Seq<ProcessInstance>,
    k: int,
)
    requires
        0 <= k < all_flow_ops(s, numbers, matters, list).len(),
    ensures
        exists|p: ProcessInstance| #[trigger]
            list.contains(p) && flow_ops(s.flow(p), numbers.indices[p], matters).contains(
                all_flow_ops(s, numbers, matters, list)[k],
            ),
    decreases list.len(),
{
    if list.len() > 0 {
        let all = all_flow_ops(s, numbers, matters, list);
        let before = all_flow_ops(s, numbers, matters, list.drop_last());
        let q = list.last();
        if k < before.len() {
            lemma_flow_op_owner(s, numbers, matters, list.drop_last(), k);
            let p = choose|p: ProcessInstance| #[trigger]
                list.drop_last().contains(p) && flow_ops(
                    s.flow(p),
                    numbers.indices[p],
                    matters,
                ).contains(before[k]);
            let i = choose|i: int| 0 <= i < list.drop_last().len() && list.drop_last()[i] == p;
            assert(list[i] == p);
            assert(list.contains(p));
        } else {
            let mine = flow_ops(s.flow(q), numbers.indices[q], matters);
            assert(all[k] == mine[k - before.len()]);
            assert(list[list.len() - 1] == q);
            assert(list.contains(q));
        }
    }
}

proof fn lemma_orphan_ops_are_writes(s: Scan, numbers: Numbering, list: Seq<Seq<char>>)
    ensures
        forall|k: int|
            0 <= k < orphan_ops(s, numbers, list).len() ==> (#[trigger] orphan_ops(
                s,
                numbers,
                list,
            )[k]).op_type == OpType::FileWrite,
    decreases list.len(),
{
    if list.len() > 0 {
        lemma_orphan_ops_are_writes(s, numbers, list.drop_last());
    }
}

/// A slice is a set of operations in canonical order, and the slice of no
/// outputs is empty.
pub proof fn law_slices_are_sorted_sets(
    events: Seq<Happened>,
    root: ProcessInstance,
    outputs: Seq<Output>,
)
    ensures
        order::strictly_ascending_texts(operation::op_hashes(output_slice(events, root, outputs))),
        outputs.len() == 0 ==> output_slice(events, root, outputs).len() == 0,
{
    operation::law_finalized_ops_are_a_sorted_set(
        slice_ops(provenance::scan(events, root).settled(), root, outputs),
    );
}

/// Events that leave no trace do not matter to a slice, and neither does how
/// often a file is read in a row.
pub proof fn law_slices_depend_on_traces_alone(
    events: Seq<Happened>,
    i: int,
    root: ProcessInstance,
    outputs: Seq<Output>,
)
    requires
        0 <= i < events.len(),
    ensures
        provenance::leaves_no_trace(events[i]) ==> output_slice(events.remove(i), root, outputs)
            == output_slice(events, root, outputs),
        provenance::only_reads(events[i]) ==> output_slice(
            events.insert(i + 1, events[i]),
            root,
            outputs,
        ) == output_slice(events, root, outputs),
{
    if provenance::leaves_no_trace(events[i]) {
        provenance::law_some_events_leave_no_trace(events, i, root);
    }
    if provenance::only_reads(events[i]) {
        provenance::law_repeated_reads_leave_one_trace(events, i, root);
    }
}

/// Whether an operation has no output and a kind that is neither a write nor a
/// move.
spec fn outputs_nothing(op: OpView) -> bool {
    op.op_type == OpType::Exec || op.op_type == OpType::FileRead || op.op_type == OpType::Exit
}

/// Whether an operation has no output, or writes or moves some content that was
/// produced or asked for.
spec fn outputs_known(op: OpView, events: Seq<Happened>, outputs: Seq<Output>) -> bool {
    outputs_nothing(op) || exists|h: Seq<char>| #[trigger]
        outputs_content(op, h) && (provenance::is_produced(events, h) || output_hashes(
            outputs,
        ).contains(h))
}

proof fn lemma_flow_outputs_known(
    events: Seq<Happened>,
    root: ProcessInstance,
    outputs: Seq<Output>,
    p: ProcessInstance,
    index: u32,
    matters: Set<Seq<char>>,
    k: int,
)
    requires
        0 <= k < flow_ops(provenance::scan(events, root).settled().flow(p), index, matters).len(),
    ensures
        outputs_known(
            flow_ops(provenance::scan(events, root).settled().flow(p), index, matters)[k],
            events,
            outputs,
        ),
{
    let s = provenance::scan(events, root).settled();
    let flow = s.flow(p);
    assert(flow == provenance::scan(events, root).flow(p));
    provenance::lemma_finite_flows(events, root);
    let mine = flow_ops(flow, index, matters);
    let op = mine[k];
    let writes = order::text_listing(flow.writes.intersect(matters));
    let renames = order::text_listing(flow.renames.intersect(matters));
    order::lemma_texts_listed(flow.writes.intersect(matters));
    order::lemma_texts_listed(flow.renames.intersect(matters));
    let head = mine.len() - writes.len() - renames.len();
    if head <= k {
        let h = if k < head + writes.len() {
            let h = writes[k - head];
            assert(op == write_op(index, flow.tool, h));
            assert(writes.contains(h));
            h
        } else {
            let h = renames[k - head - writes.len()];
            assert(op == rename_op(index, flow.tool, h));
            assert(renames.contains(h));
            h
        };
        provenance::lemma_production_is_seen(events, root, p, h);
        assert(outputs_content(op, h));
    }
}

proof fn lemma_orphan_outputs_known(
    s: Scan,
    numbers: Numbering,
    list: Seq<Seq<char>>,
    events: Seq<Happened>,
    outputs: Seq<Output>,
    k: int,
)
    requires
        0 <= k < orphan_ops(s, numbers, list).len(),
        forall|i: int| 0 <= i < list.len() ==> output_hashes(outputs).contains(#[trigger] list[i]),
    ensures
        outputs_known(orphan_ops(s, numbers, list)[k], events, outputs),
    decreases list.len(),
{
    if list.len() > 0 {
        let ops = orphan_ops(s, numbers, list);
        let before = orphan_ops(s, numbers, list.drop_last());
        if k < before.len() {
            lemma_orphan_outputs_known(s, numbers, list.drop_last(), events, outputs, k);
            assert(ops[k] == before[k]);
        } else {
            assert(output_hashes(outputs).contains(list[list.len() - 1]));
            assert(outputs_content(ops[k], list.last()));
        }
    }
}

proof fn lemma_slice_outputs_known(
    events: Seq<Happened>,
    root: ProcessInstance,
    outputs: Seq<Output>,
    k: int,
)
    requires
        0 <= k < slice_ops(provenance::scan(events, root).settled(), root, outputs).len(),
    ensures
        outputs_known(
            slice_ops(provenance::scan(events, root).settled(), root, outputs)[k],
            events,
            outputs,
        ),
{
    let s = provenance::scan(events, root).settled();
    let list = process_listing(included(s, outputs));
    let numbers = slice_numbering(s, root, outputs);
    let matters = relevant(s, outputs);
    let left = order::text_listing(orphans(s, outputs));
    let ops = slice_ops(s, root, outputs);
    let flow_part = all_flow_ops(s, numbers, matters, list);
    let orphan_part = orphan_ops(s, numbers, left);
    if k < flow_part.len() {
        assert(ops[k] == flow_part[k]);
        lemma_flow_op_owner(s, numbers, matters, list, k);
        let p = choose|p: ProcessInstance| #[trigger]
            list.contains(p) && flow_ops(s.flow(p), numbers.indices[p], matters).contains(ops[k]);
        let mine = flow_ops(s.flow(p), numbers.indices[p], matters);
        let m = choose|m: int| 0 <= m < mine.len() && mine[m] == ops[k];
        lemma_flow_outputs_known(events, root, outputs, p, numbers.indices[p], matters, m);
    } else if k < flow_part.len() + orphan_part.len() {
        assert(outputs.take(outputs.len() as int) =~= outputs);
        lemma_output_hashes_finite(outputs, outputs.len() as int);
        vstd::set_lib::lemma_len_subset(orphans(s, outputs), output_hashes(outputs));
        order::lemma_texts_listed(orphans(s, outputs));
        assert forall|i: int| 0 <= i < left.len() implies output_hashes(outputs).contains(
            #[trigger] left[i],
        ) by {
            assert(left.contains(left[i]));
        }
        assert(ops[k] == orphan_part[k - flow_part.len()]);
        lemma_orphan_outputs_known(s, numbers, left, events, outputs, k - flow_part.len());
    }
}

proof fn lemma_output_shows(x: OpView, y: OpView, h: Seq<char>, g: Seq<char>)
    requires
        x.output_hashes == seq![h],
        y.output_hashes == seq![g],
        digest::digest_sized(h),
        digest::digest_sized(g),
        x.hashed_bytes() == y.hashed_bytes(),
    ensures
        h == g,
{
    reveal_with_fuel(operation::joined_bytes, 2);
    let n = x.hashed_bytes().len() - 71;
    assert(x.output_hashes.drop_last().len() == 0);
    assert(y.output_hashes.drop_last().len() == 0);
    assert(operation::joined_bytes(x.output_hashes) =~= encode_utf8(h));
    assert(operation::joined_bytes(y.output_hashes) =~= encode_utf8(g));
    assert(x.hashed_bytes().skip(n) =~= encode_utf8(h));
    assert(y.hashed_bytes().skip(n) =~= encode_utf8(g));
    text::lemma_utf8_injective(h, g);
}

/// Every output is in the slice: the slice itself holds a write or a move of the
/// output's content, or SHA-256 collides on two operations that the slice is made
/// of. This is said of content that is known by digests, as all that is observed
/// is.
pub proof fn law_every_output_is_in_the_slice(
    events: Seq<Happened>,
    root: ProcessInstance,
    outputs: Seq<Output>,
    i: int,
)
    requires
        0 <= i < outputs.len(),
        forall|k: int| 0 <= k < outputs.len() ==> digest::digest_sized((#[trigger] outputs[k]).hash),
        forall|h: Seq<char>| #[trigger]
            provenance::is_produced(events, h) ==> digest::digest_sized(h),
    ensures
        ({
            let ops = slice_ops(provenance::scan(events, root).settled(), root, outputs);
            let slice = output_slice(events, root, outputs);
            ||| exists|k: int|
                0 <= k < slice.len() && outputs_content(#[trigger] slice[k], outputs[i].hash)
            ||| exists|k: int, j: int|
                0 <= k < ops.len() && 0 <= j < slice.len() && digest::collide(
                    (#[trigger] ops[k]).normalized().hashed_bytes(),
                    (#[trigger] slice[j]).hashed_bytes(),
                )
        }),
{
    let h = outputs[i].hash;
    let ops = slice_ops(provenance::scan(events, root).settled(), root, outputs);
    let slice = output_slice(events, root, outputs);
    law_every_output_is_accounted_for(events, root, outputs, i);
    let k = choose|k: int|
        0 <= k < ops.len() && outputs_content(#[trigger] ops[k], h) && operation::op_hashes(
            slice,
        ).contains(ops[k].normalized().hash());
    let x = ops[k].normalized();
    let hashes = operation::op_hashes(slice);
    let j = choose|j: int| 0 <= j < hashes.len() && hashes[j] == x.hash();
    let y = slice[j];
    let m = operation::lemma_finalized_op_is_given(ops, j);
    lemma_slice_outputs_known(events, root, outputs, m);
    order::lemma_single_is_sorted(h);
    digest::law_equal_hashes_mean_equal_inputs(x.hashed_bytes(), y.hashed_bytes());
    if x.hashed_bytes() == y.hashed_bytes() {
        if outputs_nothing(ops[m]) {
            operation::law_hashed_bytes_show_the_kind(x, y);
        } else {
            let g = choose|g: Seq<char>| #[trigger]
                outputs_content(ops[m], g) && (provenance::is_produced(events, g) || output_hashes(
                    outputs,
                ).contains(g));
            order::lemma_single_is_sorted(g);
            lemma_output_shows(x, y, h, g);
            assert(outputs_content(slice[j], h));
        }
    } else {
        assert(digest::collide(ops[k].normalized().hashed_bytes(), slice[j].hashed_bytes()));
    }
}

} // verus!
