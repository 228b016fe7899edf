//! Canonical build operations, their hashes, and the sorted set they form.

use crate::digest;
use crate::digest::hash_bytes;
use crate::order;
use crate::order::{sort_order, sort_texts};
use crate::text;
use crate::text::text_eq;
use vstd::prelude::*;
use vstd::string::*;
use vstd::utf8::*;

verus! {

/// The kind of a canonical operation.
#[derive(Debug, Clone, Copy, PartialEq, Eq, Structural)]
pub enum OpType {
    /// Process executed a binary.
    Exec,
    /// File was read (input).
    FileRead,
    /// File was written (output).
    FileWrite,
    /// File was renamed.
    FileRename,
    /// System state was accessed (normalized).
    SystemStateRead,
    /// Process exited.
    Exit,
    /// File was read by an external (non-fork-tree) process touching a watched path.
    ExternalFileRead,
    /// File was written by an external (non-fork-tree) process touching a watched path.
    ExternalFileWrite,
}

/// A canonicalized build operation, independent of any specific system.
#[derive(Debug, Clone)]
pub struct CanonicalOp {
    /// What kind of operation this is.
    pub op_type: OpType,
    /// Logical process index (0 = root process, 1 = first child, etc.)
    pub process_index: u32,
    /// Content hash of the executable that performed this operation.
    pub tool_hash: Option<String>,
    /// Non-path arguments (flags, options).
    pub args: Vec<String>,
    /// Content hashes of input files read.
    pub input_hashes: Vec<String>,
    /// Content hashes of output files written.
    pub output_hashes: Vec<String>,
}

/// A canonical operation as mathematical data.
pub struct OpView {
    pub op_type: OpType,
    pub process_index: u32,
    pub tool_hash: Option<Seq<char>>,
    pub args: Seq<Seq<char>>,
    pub input_hashes: Seq<Seq<char>>,
    pub output_hashes: Seq<Seq<char>>,
}

impl View for CanonicalOp {
    type V = OpView;

    open spec fn view(&self) -> OpView {
        OpView {
            op_type: self.op_type,
            process_index: self.process_index,
            tool_hash: text::opt_text(self.tool_hash),
            args: text::texts(self.args@),
            input_hashes: text::texts(self.input_hashes@),
            output_hashes: text::texts(self.output_hashes@),
        }
    }
}

/// The operations of a list as mathematical data.
pub open spec fn op_views(ops: Seq<CanonicalOp>) -> Seq<OpView> {
    Seq::new(ops.len(), |i: int| ops[i]@)
}

// ---------------------------------------------------------------------------
// Hashing
// ---------------------------------------------------------------------------

/// The tag that stands for an operation kind in the hash.
pub open spec fn tag_text(op_type: OpType) -> Seq<char> {
    match op_type {
        OpType::Exec => "exec"@,
        OpType::FileRead => "file_read"@,
        OpType::FileWrite => "file_write"@,
        OpType::FileRename => "file_rename"@,
        OpType::SystemStateRead => "system_state_read"@,
        OpType::Exit => "exit"@,
        OpType::ExternalFileRead => "external_file_read"@,
        OpType::ExternalFileWrite => "external_file_write"@,
    }
}

/// The bytes of strings, one behind the other.
pub open spec fn joined_bytes(s: Seq<Seq<char>>) -> Seq<u8>
    decreases s.len(),
{
    if s.len() == 0 {
        Seq::empty()
    } else {
        joined_bytes(s.drop_last()) + encode_utf8(s.last())
    }
}

/// The bytes of strings, each closed by a zero byte.
pub open spec fn terminated_bytes(s: Seq<Seq<char>>) -> Seq<u8>
    decreases s.len(),
{
    if s.len() == 0 {
        Seq::empty()
    } else {
        (terminated_bytes(s.drop_last()) + encode_utf8(s.last())).push(0u8)
    }
}

/// The bytes of an optional string; none where there is none.
pub open spec fn optional_bytes(s: Option<Seq<char>>) -> Seq<u8> {
    match s {
        Some(t) => encode_utf8(t),
        None => Seq::empty(),
    }
}

impl OpView {
    /// The bytes an operation is hashed over. The process index is left out:
    /// it depends on the order in which concurrent events arrive.
    pub open spec fn hashed_bytes(self) -> Seq<u8> {
        encode_utf8(tag_text(self.op_type)) + optional_bytes(self.tool_hash) + terminated_bytes(
            self.args,
        ) + joined_bytes(self.input_hashes) + joined_bytes(self.output_hashes)
    }

    /// The semantic hash of an operation.
    pub open spec fn hash(self) -> Seq<char> {
        digest::hash_text(self.hashed_bytes())
    }

    /// The operation with its lists sorted.
    pub open spec fn normalized(self) -> OpView {
        OpView {
            args: order::sorted_texts(self.args),
            input_hashes: order::sorted_texts(self.input_hashes),
            output_hashes: order::sorted_texts(self.output_hashes),
            ..self
        }
    }
}

/// The sort key of operations: their hash.
pub open spec fn op_key() -> spec_fn(OpView) -> Seq<char> {
    |op: OpView| op.hash()
}

/// The hashes of a list of operations.
pub open spec fn op_hashes(ops: Seq<OpView>) -> Seq<Seq<char>> {
    Seq::new(ops.len(), |i: int| ops[i].hash())
}

/// The operations with their lists sorted.
pub open spec fn normalized_ops(ops: Seq<OpView>) -> Seq<OpView> {
    Seq::new(ops.len(), |i: int| ops[i].normalized())
}

/// The distinct normalized operations in ascending order of their hashes; of
/// operations with the same hash the earliest stays.
pub open spec fn finalized(ops: Seq<OpView>) -> Seq<OpView> {
    order::dedup(order::stable_sort(normalized_ops(ops), op_key()), op_key())
}

fn extend_bytes(buf: &mut Vec<u8>, s: &str)
    ensures
        final(buf)@ == old(buf)@ + encode_utf8(s@),
{
    let bytes = s.as_bytes();
    buf.extend_from_slice(bytes);
    assert(buf@ == old(buf)@ + bytes@);
}

impl CanonicalOp {
    /// The tag of the operation's kind.
    pub fn op_tag(&self) -> (tag: &'static str)
        ensures
            tag@ == tag_text(self.op_type),
    {
        match self.op_type {
            OpType::Exec => "exec",
            OpType::FileRead => "file_read",
            OpType::FileWrite => "file_write",
            OpType::FileRename => "file_rename",
            OpType::SystemStateRead => "system_state_read",
            OpType::Exit => "exit",
            OpType::ExternalFileRead => "external_file_read",
            OpType::ExternalFileWrite => "external_file_write",
        }
    }

    /// Produces a deterministic hash of this operation for the Merkle tree.
    pub fn hash(&self) -> (hash: String)
        ensures
            hash@ == self@.hash(),
    {
        let mut buf: Vec<u8> = Vec::new();
        extend_bytes(&mut buf, self.op_tag());
        assert(buf@ == encode_utf8(tag_text(self.op_type)));
        if let Some(tool) = &self.tool_hash {
            extend_bytes(&mut buf, tool.as_str());
        }
        let ghost head = encode_utf8(tag_text(self.op_type)) + optional_bytes(
            text::opt_text(self.tool_hash),
        );
        assert(buf@ == head);
        for i in 0..self.args.len()
            invariant
                buf@ == head + terminated_bytes(text::texts(self.args@).take(i as int)),
        {
            let ghost before = buf@;
            extend_bytes(&mut buf, self.args[i].as_str());
            buf.push(0u8);
            proof {
                let p = text::texts(self.args@).take(i as int + 1);
                assert(p.drop_last() == text::texts(self.args@).take(i as int));
                assert(buf@ == head + terminated_bytes(p));
            }
        }
        assert(text::texts(self.args@).take(self.args@.len() as int) == text::texts(self.args@));
        push_all(&mut buf, &self.input_hashes);
        push_all(&mut buf, &self.output_hashes);
        assert(buf@ == self@.hashed_bytes());
        hash_bytes(buf.as_slice())
    }

    /// A copy of the operation.
    pub fn duplicate(&self) -> (op: CanonicalOp)
        ensures
            op@ == self@,
    {
        let op = CanonicalOp {
            op_type: self.op_type,
            process_index: self.process_index,
            tool_hash: self.tool_hash.clone(),
            args: self.args.clone(),
            input_hashes: self.input_hashes.clone(),
            output_hashes: self.output_hashes.clone(),
        };
        assert(op@ == self@);
        op
    }

    fn normalize(&self) -> (op: CanonicalOp)
        ensures
            op@ == self@.normalized(),
    {
        CanonicalOp {
            op_type: self.op_type,
            process_index: self.process_index,
            tool_hash: self.tool_hash.clone(),
            args: sort_texts(&self.args),
            input_hashes: sort_texts(&self.input_hashes),
            output_hashes: sort_texts(&self.output_hashes),
        }
    }
}

fn push_all(buf: &mut Vec<u8>, list: &Vec<String>)
    ensures
        final(buf)@ == old(buf)@ + joined_bytes(text::texts(list@)),
{
    let ghost head = buf@;
    assert(buf@ == head + joined_bytes(text::texts(list@).take(0)));
    for i in 0..list.len()
        invariant
            buf@ == head + joined_bytes(text::texts(list@).take(i as int)),
    {
        let ghost before = buf@;
        extend_bytes(buf, list[i].as_str());
        proof {
            let p = text::texts(list@).take(i as int + 1);
            assert(p.drop_last() == text::texts(list@).take(i as int));
            assert(buf@ == head + joined_bytes(p));
        }
    }
    assert(text::texts(list@).take(list@.len() as int) == text::texts(list@));
}

/// Sorts and deduplicates operations.
///
/// Canonical roots are file- and content-centric: how often and in which order
/// otherwise identical runs open, read and map files may vary, so only the set
/// of distinct operations is kept.
pub fn finalize_ops(ops: Vec<CanonicalOp>) -> (result: Vec<CanonicalOp>)
    ensures
        op_views(result@) == finalized(op_views(ops@)),
{
    let mut normal: Vec<CanonicalOp> = Vec::new();
    let mut keys: Vec<String> = Vec::new();
    for i in 0..ops.len()
        invariant
            normal.len() == i,
            keys.len() == i,
            forall|k: int| 0 <= k < i ==> (#[trigger] normal[k])@ == ops[k]@.normalized(),
            forall|k: int| 0 <= k < i ==> (#[trigger] keys[k])@ == ops[k]@.normalized().hash(),
    {
        let op = ops[i].normalize();
        keys.push(op.hash());
        normal.push(op);
    }
    let order = sort_order(&keys);
    let ghost views = normalized_ops(op_views(ops@));
    let ghost sorted = Seq::new(views.len(), |i: int| views[order@[i] as int]);
    proof {
        order::lemma_order_sorts(views, op_key(), text::texts(keys@), order@);
        assert(sorted == order::stable_sort(views, op_key()));
    }
    let mut result: Vec<CanonicalOp> = Vec::new();
    assert(op_views(result@) == order::dedup(sorted.take(0), op_key()));
    for i in 0..order.len()
        invariant
            normal.len() == ops.len(),
            keys.len() == ops.len(),
            order.len() == ops.len(),
            views == normalized_ops(op_views(ops@)),
            sorted == Seq::new(views.len(), |i: int| views[order@[i] as int]),
            forall|k: int| 0 <= k < normal.len() ==> (#[trigger] normal[k])@ == views[k],
            forall|k: int| 0 <= k < normal.len() ==> (#[trigger] keys[k])@ == views[k].hash(),
            forall|k: int| 0 <= k < order.len() ==> 0 <= #[trigger] order[k] < ops.len(),
            op_views(result@) == order::dedup(sorted.take(i as int), op_key()),
    {
        let ghost prefix = sorted.take(i as int + 1);
        proof {
            assert(prefix.drop_last() == sorted.take(i as int));
            assert(order[i as int] < ops.len());
        }
        let here = order[i];
        let repeats = i > 0 && text_eq(keys[order[i - 1]].as_str(), keys[here].as_str());
        proof {
            if i > 0 {
                assert(order[i - 1] < ops.len());
                assert(prefix[i - 1] == views[order[i - 1] as int]);
            }
            assert(prefix.last() == views[here as int]);
            assert(repeats == (prefix.len() > 1 && op_key()(prefix[prefix.len() - 2]) == op_key()(
                prefix.last(),
            )));
        }
        if !repeats {
            let ghost before = result@;
            result.push(normal[here].duplicate());
            assert(op_views(result@) == op_views(before).push(views[here as int]));
        }
    }
    assert(sorted.take(sorted.len() as int) == sorted);
    result
}

// ---------------------------------------------------------------------------
// Laws
// ---------------------------------------------------------------------------

/// The logical process index has no part in an operation's hash.
pub proof fn law_hash_ignores_the_process_index(op: OpView, index: u32)
    ensures
        (OpView { process_index: index, ..op }).hash() == op.hash(),
{
}

/// Finalized operations form a set in canonical order: their hashes strictly
/// ascend, and they are exactly the hashes of the normalized input.
pub proof fn law_finalized_ops_are_a_sorted_set(ops: Seq<OpView>)
    ensures
        order::strictly_ascending_texts(op_hashes(finalized(ops))),
        forall|t: Seq<char>| #[trigger]
            op_hashes(finalized(ops)).contains(t) <==> op_hashes(normalized_ops(ops)).contains(t),
{
    let n = normalized_ops(ops);
    let s = order::stable_sort(n, op_key());
    let r = finalized(ops);
    order::law_sort_is_an_ascending_rearrangement(n, op_key());
    order::law_dedup_of_ascending(s, op_key());
    let h = op_hashes(r);
    assert forall|i: int, j: int| 0 <= i < j < h.len() implies text::text_lt(
        #[trigger] h[i],
        #[trigger] h[j],
    ) by {
        assert(text::text_lt(op_key()(r[i]), op_key()(r[j])));
    }
    assert forall|t: Seq<char>| #[trigger] h.contains(t) <==> op_hashes(n).contains(t) by {
        if h.contains(t) {
            let i = choose|i: int| 0 <= i < h.len() && h[i] == t;
            let j = choose|j: int| #[trigger] order::is_first(s, op_key(), j) && s[j] == r[i];
            assert(s.contains(s[j]));
            assert(n.contains(s[j]));
            let k = choose|k: int| 0 <= k < n.len() && n[k] == s[j];
            assert(op_hashes(n)[k] == t);
        }
        if op_hashes(n).contains(t) {
            let k = choose|k: int| 0 <= k < n.len() && op_hashes(n)[k] == t;
            assert(n.contains(n[k]));
            assert(s.contains(n[k]));
            let j = choose|j: int| 0 <= j < s.len() && s[j] == n[k];
            assert(op_key()(s[j]) == t);
            assert(order::has_key(s, op_key(), t));
            let i = choose|i: int| 0 <= i < r.len() && op_key()(#[trigger] r[i]) == t;
            assert(h[i] == t);
        }
    }
}

/// Neither the order of operations nor how often each occurs matters: inputs
/// with the same set of hashes are finalized to the same list of hashes.
pub proof fn law_order_and_counts_do_not_matter(a: Seq<OpView>, b: Seq<OpView>)
    requires
        forall|t: Seq<char>| #[trigger]
            op_hashes(normalized_ops(a)).contains(t) <==> op_hashes(normalized_ops(b)).contains(t),
    ensures
        op_hashes(finalized(a)) == op_hashes(finalized(b)),
{
    law_finalized_ops_are_a_sorted_set(a);
    law_finalized_ops_are_a_sorted_set(b);
    order::lemma_strictly_ascending_unique(op_hashes(finalized(a)), op_hashes(finalized(b)));
}

/// An operation that comes again later does not matter, not even to what the
/// finalized operations hold besides their hashes.
pub proof fn law_repeated_operations_do_not_matter(ops: Seq<OpView>, k: int, n: int)
    requires
        0 <= k < n <= ops.len(),
    ensures
        finalized(ops.insert(n, ops[k])) == finalized(ops),
{
    let views = normalized_ops(ops);
    assert(normalized_ops(ops.insert(n, ops[k])) =~= views.insert(n, views[k]));
    order::law_repetitions_do_not_matter(views, k, n, op_key());
}

/// Every finalized operation is the normalized form of an operation of the input.
pub proof fn lemma_finalized_op_is_given(ops: Seq<OpView>, i: int) -> (k: int)
    requires
        0 <= i < finalized(ops).len(),
    ensures
        0 <= k < ops.len(),
        finalized(ops)[i] == ops[k].normalized(),
{
    let views = normalized_ops(ops);
    order::lemma_sorted_set_of_firsts(views, op_key());
    assert(order::comes_first(views, op_key(), finalized(ops)[i]));
    choose|k: int| #[trigger] order::is_first(views, op_key(), k) && views[k] == finalized(ops)[i]
}

/// What an operation is hashed over shows its kind: no tag is the beginning of
/// another.
pub proof fn law_hashed_bytes_show_the_kind(x: OpView, y: OpView)
    requires
        x.hashed_bytes() == y.hashed_bytes(),
    ensures
        x.op_type == y.op_type,
{
    lemma_tag_leads(x);
    lemma_tag_leads(y);
    reveal_strlit("exec");
    reveal_strlit("file_read");
    reveal_strlit("file_write");
    reveal_strlit("file_rename");
    reveal_strlit("system_state_read");
    reveal_strlit("exit");
    reveal_strlit("external_file_read");
    reveal_strlit("external_file_write");
    let a = tag_text(x.op_type);
    let b = tag_text(y.op_type);
    assert(a[0] == b[0]);
    assert(a[2] == b[2]);
    assert(a.len() > 7 && b.len() > 7 ==> a[5] == b[5] && a[7] == b[7]);
    assert(a.len() > 14 && b.len() > 14 ==> a[14] == b[14]);
}

proof fn lemma_tag_leads(x: OpView)
    ensures
        tag_text(x.op_type).len() >= 4,
        tag_text(x.op_type).len() <= x.hashed_bytes().len(),
        forall|i: int|
            0 <= i < tag_text(x.op_type).len() ==> (#[trigger] tag_text(x.op_type)[i]) as u8
                == x.hashed_bytes()[i] && (tag_text(x.op_type)[i] as u32) < 128,
{
    reveal_strlit("exec");
    reveal_strlit("file_read");
    reveal_strlit("file_write");
    reveal_strlit("file_rename");
    reveal_strlit("system_state_read");
    reveal_strlit("exit");
    reveal_strlit("external_file_read");
    reveal_strlit("external_file_write");
    let tag = tag_text(x.op_type);
    assert(is_ascii_chars(tag));
    is_ascii_chars_encode_utf8(tag);
    assert forall|i: int| 0 <= i < tag.len() implies (#[trigger] tag[i]) as u8
        == x.hashed_bytes()[i] by {
        assert(tag[i] as u8 == encode_utf8(tag)[i]);
    }
}

/// Whether an operation stands for another: it has the same hash and the same
/// kind, or SHA-256 collides on the two.
pub open spec fn stands_for(kept: OpView, op: OpView) -> bool {
    kept.hash() == op.hash() && (kept.op_type == op.op_type || digest::collide(
        kept.hashed_bytes(),
        op.hashed_bytes(),
    ))
}

/// No operation is lost: for each, the finalized operations hold one that stands
/// for it.
pub proof fn law_every_operation_is_kept(ops: Seq<OpView>, k: int)
    requires
        0 <= k < ops.len(),
    ensures
        exists|i: int|
            0 <= i < finalized(ops).len() && stands_for(
                #[trigger] finalized(ops)[i],
                ops[k].normalized(),
            ),
{
    let r = finalized(ops);
    let op = ops[k].normalized();
    law_finalized_ops_are_a_sorted_set(ops);
    assert(op_hashes(normalized_ops(ops))[k] == op.hash());
    assert(op_hashes(r).contains(op.hash()));
    let i = choose|i: int| 0 <= i < r.len() && op_hashes(r)[i] == op.hash();
    digest::law_equal_hashes_mean_equal_inputs(r[i].hashed_bytes(), op.hashed_bytes());
    if r[i].hashed_bytes() == op.hashed_bytes() {
        law_hashed_bytes_show_the_kind(r[i], op);
    }
    assert(stands_for(r[i], op));
}

/// The order in which an operation lists its arguments, inputs and outputs does
/// not matter, and nothing but their order is changed when it is normalized.
pub proof fn law_the_order_of_lists_does_not_matter(a: OpView, b: OpView)
    requires
        a.op_type == b.op_type,
        a.tool_hash == b.tool_hash,
        a.args.to_multiset() == b.args.to_multiset(),
        a.input_hashes.to_multiset() == b.input_hashes.to_multiset(),
        a.output_hashes.to_multiset() == b.output_hashes.to_multiset(),
    ensures
        a.normalized().hash() == b.normalized().hash(),
        a.normalized().op_type == a.op_type,
        a.normalized().tool_hash == a.tool_hash,
        a.normalized().process_index == a.process_index,
        a.normalized().args.to_multiset() == a.args.to_multiset(),
        a.normalized().input_hashes.to_multiset() == a.input_hashes.to_multiset(),
        a.normalized().output_hashes.to_multiset() == a.output_hashes.to_multiset(),
{
    let key = |t: Seq<char>| t;
    order::law_sorted_texts_depend_on_counts_alone(a.args, b.args);
    order::law_sorted_texts_depend_on_counts_alone(a.input_hashes, b.input_hashes);
    order::law_sorted_texts_depend_on_counts_alone(a.output_hashes, b.output_hashes);
    order::law_sort_is_an_ascending_rearrangement(a.args, key);
    order::law_sort_is_an_ascending_rearrangement(a.input_hashes, key);
    order::law_sort_is_an_ascending_rearrangement(a.output_hashes, key);
}

/// What an operation is hashed over, part by part: the tag, the tool, each
/// argument with a zero byte behind it, the inputs and the outputs.
pub proof fn law_every_part_is_hashed(op: OpView, t: Seq<char>)
    ensures
        (OpView {
            tool_hash: None,
            args: Seq::empty(),
            input_hashes: Seq::empty(),
            output_hashes: Seq::empty(),
            ..op
        }).hashed_bytes() == encode_utf8(tag_text(op.op_type)),
        (OpView { output_hashes: op.output_hashes.push(t), ..op }).hashed_bytes()
            == op.hashed_bytes() + encode_utf8(t),
        op.output_hashes.len() == 0 ==> (OpView {
            input_hashes: op.input_hashes.push(t),
            ..op
        }).hashed_bytes() == op.hashed_bytes() + encode_utf8(t),
        op.output_hashes.len() == 0 && op.input_hashes.len() == 0 ==> (OpView {
            args: op.args.push(t),
            ..op
        }).hashed_bytes() == op.hashed_bytes() + encode_utf8(t) + seq![0u8],
        op.output_hashes.len() == 0 && op.input_hashes.len() == 0 && op.args.len() == 0
            && op.tool_hash is None ==> (OpView { tool_hash: Some(t), ..op }).hashed_bytes()
            == op.hashed_bytes() + encode_utf8(t),
{
    let bare = OpView {
        tool_hash: None,
        args: Seq::empty(),
        input_hashes: Seq::empty(),
        output_hashes: Seq::empty(),
        ..op
    };
    assert(bare.hashed_bytes() =~= encode_utf8(tag_text(op.op_type)));
    assert(op.output_hashes.push(t).drop_last() =~= op.output_hashes);
    assert(op.input_hashes.push(t).drop_last() =~= op.input_hashes);
    assert(op.args.push(t).drop_last() =~= op.args);
    let o = OpView { output_hashes: op.output_hashes.push(t), ..op };
    assert(o.hashed_bytes() =~= op.hashed_bytes() + encode_utf8(t));
    if op.output_hashes.len() == 0 {
        let i = OpView { input_hashes: op.input_hashes.push(t), ..op };
        assert(i.hashed_bytes() =~= op.hashed_bytes() + encode_utf8(t));
        if op.input_hashes.len() == 0 {
            let a = OpView { args: op.args.push(t), ..op };
            assert(a.hashed_bytes() =~= op.hashed_bytes() + encode_utf8(t) + seq![0u8]);
            if op.args.len() == 0 && op.tool_hash is None {
                let x = OpView { tool_hash: Some(t), ..op };
                assert(x.hashed_bytes() =~= op.hashed_bytes() + encode_utf8(t));
            }
        }
    }
}

/// The tags of the kinds of operations.
pub proof fn law_kinds_have_their_tags()
    ensures
        tag_text(OpType::Exec) == "exec"@,
        tag_text(OpType::FileRead) == "file_read"@,
        tag_text(OpType::FileWrite) == "file_write"@,
        tag_text(OpType::FileRename) == "file_rename"@,
        tag_text(OpType::SystemStateRead) == "system_state_read"@,
        tag_text(OpType::Exit) == "exit"@,
        tag_text(OpType::ExternalFileRead) == "external_file_read"@,
        tag_text(OpType::ExternalFileWrite) == "external_file_write"@,
{
}

} // verus!
