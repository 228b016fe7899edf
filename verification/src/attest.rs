//! From a trace to an attestation, and from an attestation to a verdict.

use crate::attestation;
use crate::attestation::{Attestation, AttestedOutput, OutputSelection, Selection};
use crate::canonicalize;
use crate::canonicalize::canonicalize_events;
use crate::digest;
use crate::merkle;
use crate::merkle::build_merkle_tree;
use crate::operation;
use crate::operation::{CanonicalOp, OpView};
use crate::order;
use crate::order::sort_texts;
use crate::paths;
use crate::paths::is_absolute;
use crate::report;
use crate::report::{format_command, same_command, same_selection};
use crate::slice;
use crate::slice::canonicalize_output_slice;
use crate::text;
use crate::text::text_eq;
use crate::tracer;
use crate::tracer::{process_events, ProcessInstance, Traced, TraceResult};
use crate::workspace;
use crate::workspace::{display_path, Output, OutputFile, OutputMode, SelectedOutputs};
use vstd::prelude::*;
use vstd::string::*;

verus! {

// ---------------------------------------------------------------------------
// Dropped events
// ---------------------------------------------------------------------------

/// What dropped events mean for a trace.
#[derive(Debug, Clone, Copy, PartialEq, Eq, Structural)]
pub enum DropVerdict {
    /// None were dropped.
    Complete,
    /// Some were dropped, and that was allowed beforehand.
    Incomplete,
    /// Some were dropped: the trace is no basis for an attestation.
    Refused,
}

/// What dropped events mean for a trace. Without leave given beforehand, a
/// single one refuses it.
pub fn judge_dropped(dropped_events: u64, allow_dropped_events: bool) -> (verdict: DropVerdict)
    ensures
        verdict == (if dropped_events == 0 {
            DropVerdict::Complete
        } else if allow_dropped_events {
            DropVerdict::Incomplete
        } else {
            DropVerdict::Refused
        }),
{
    if dropped_events == 0 {
        DropVerdict::Complete
    } else if allow_dropped_events {
        DropVerdict::Incomplete
    } else {
        DropVerdict::Refused
    }
}

// ---------------------------------------------------------------------------
// Attesting
// ---------------------------------------------------------------------------

/// The operations that an attestation of a trace covers: those that its outputs
/// depend on, or all of them where it has no outputs.
pub open spec fn covered(
    events: Seq<Traced>,
    root_pid: u32,
    prefixes: Seq<Seq<char>>,
    outputs: Seq<Output>,
) -> Seq<OpView> {
    if outputs.len() == 0 {
        canonicalize::canonical_ops(events, root_pid, prefixes)
    } else {
        slice::output_slice(
            events.map_values(|e: Traced| tracer::by_instance(e)),
            tracer::sole_instance(root_pid),
            outputs,
        )
    }
}

/// The operations that an attestation of a trace covers.
pub fn covered_operations(
    trace: TraceResult,
    watch_prefixes: &[String],
    outputs: &[OutputFile],
) -> (ops: Vec<CanonicalOp>)
    requires
        trace.events@.len() < u32::MAX,
    ensures
        operation::op_views(ops@) == covered(
            tracer::event_views(trace.events@),
            trace.root_pid,
            text::texts(watch_prefixes@),
            workspace::output_views(outputs@),
        ),
{
    if outputs.len() == 0 {
        canonicalize_events(trace.events, trace.root_pid, watch_prefixes)
    } else {
        let events = process_events(&trace.events);
        canonicalize_output_slice(events, ProcessInstance::new(trace.root_pid, 0), outputs)
    }
}

/// A named path as an attestation records it: relative to the workspace where it
/// was named as an absolute path in it.
pub open spec fn recorded_path(root: Seq<char>, path: Seq<char>) -> Seq<char> {
    if paths::is_rooted(path) {
        workspace::shown_path(root, path)
    } else {
        path
    }
}

/// A named path as an attestation records it.
pub fn metadata_path(workspace_root: &str, path: &str) -> (recorded: String)
    ensures
        recorded@ == recorded_path(workspace_root@, path@),
{
    if is_absolute(path) {
        display_path(workspace_root, path)
    } else {
        path.to_string()
    }
}

/// The word for a mode.
pub open spec fn mode_text(mode: OutputMode) -> Seq<char> {
    match mode {
        OutputMode::Inferred => "inferred"@,
        OutputMode::Explicit => "explicit"@,
    }
}

/// The selection that an attestation records.
pub open spec fn recorded_selection(
    mode: OutputMode,
    root: Seq<char>,
    artifacts: Seq<Seq<char>>,
    output_roots: Seq<Seq<char>>,
) -> Selection {
    Selection {
        mode: mode_text(mode),
        artifacts: order::sorted_texts(
            artifacts.map_values(|p: Seq<char>| recorded_path(root, p)),
        ),
        output_roots: order::sorted_texts(
            output_roots.map_values(|p: Seq<char>| recorded_path(root, p)),
        ),
    }
}

fn recorded_paths(workspace_root: &str, list: &[String]) -> (sorted: Vec<String>)
    ensures
        text::texts(sorted@) == order::sorted_texts(
            text::texts(list@).map_values(|p: Seq<char>| recorded_path(workspace_root@, p)),
        ),
{
    let mut recorded: Vec<String> = Vec::new();
    for i in 0..list.len()
        invariant
            recorded@.len() == i,
            forall|k: int|
                0 <= k < i ==> (#[trigger] recorded@[k])@ == recorded_path(
                    workspace_root@,
                    list@[k]@,
                ),
    {
        recorded.push(metadata_path(workspace_root, list[i].as_str()));
    }
    assert(text::texts(recorded@) =~= text::texts(list@).map_values(
        |p: Seq<char>| recorded_path(workspace_root@, p),
    ));
    sort_texts(&recorded)
}

/// The selection that an attestation records.
pub fn output_selection_metadata(
    mode: OutputMode,
    workspace_root: &str,
    artifacts: &[String],
    output_roots: &[String],
) -> (selection: OutputSelection)
    ensures
        selection@ == recorded_selection(
            mode,
            workspace_root@,
            text::texts(artifacts@),
            text::texts(output_roots@),
        ),
{
    let mode = match mode {
        OutputMode::Inferred => "inferred".to_string(),
        OutputMode::Explicit => "explicit".to_string(),
    };
    OutputSelection {
        mode,
        artifacts: recorded_paths(workspace_root, artifacts),
        output_roots: recorded_paths(workspace_root, output_roots),
    }
}

/// The outputs that an attestation records.
pub open spec fn recorded_outputs(root: Seq<char>, outputs: Seq<Output>) -> Seq<Output> {
    outputs.map_values(
        |o: Output| Output { path: workspace::shown_path(root, o.path), hash: o.hash },
    )
}

/// The outputs that an attestation records.
pub fn attested_outputs_metadata(workspace_root: &str, outputs: &[OutputFile]) -> (recorded: Vec<
    AttestedOutput,
>)
    ensures
        attestation::attested_views(recorded@) == recorded_outputs(
            workspace_root@,
            workspace::output_views(outputs@),
        ),
{
    let mut recorded: Vec<AttestedOutput> = Vec::new();
    for i in 0..outputs.len()
        invariant
            recorded@.len() == i,
            forall|k: int|
                0 <= k < i ==> (#[trigger] recorded@[k]).path@ == workspace::shown_path(
                    workspace_root@,
                    outputs@[k].path@,
                ) && recorded@[k].hash@ == outputs@[k].hash@,
    {
        recorded.push(
            AttestedOutput {
                path: display_path(workspace_root, outputs[i].path.as_str()),
                hash: outputs[i].hash.clone(),
            },
        );
    }
    assert(attestation::attested_views(recorded@) =~= recorded_outputs(
        workspace_root@,
        workspace::output_views(outputs@),
    ));
    recorded
}

/// The attestation of operations, a command, a selection and outputs: its leaves
/// are the hashes of the operations.
pub open spec fn attested_build(
    ops: Seq<OpView>,
    command: Seq<Seq<char>>,
    selection: Selection,
    outputs: Seq<Output>,
) -> attestation::Document {
    attestation::attested(operation::op_hashes(ops), ops.len(), command, selection, outputs)
}

/// Attests the operations of a build and its selected outputs.
pub fn attest(
    ops: &[CanonicalOp],
    command: &[String],
    workspace_root: &str,
    artifacts: &[String],
    output_roots: &[String],
    selected: &SelectedOutputs,
) -> (result: Attestation)
    ensures
        result@ == attested_build(
            operation::op_views(ops@),
            text::texts(command@),
            recorded_selection(
                selected.mode,
                workspace_root@,
                text::texts(artifacts@),
                text::texts(output_roots@),
            ),
            recorded_outputs(workspace_root@, workspace::output_views(selected.outputs@)),
        ),
        text::texts(result.tree.leaves@) == operation::op_hashes(operation::op_views(ops@)),
        result.tree.nodes@.len() == 0,
        result.tree.leaf_count == ops@.len(),
{
    let tree = build_merkle_tree(ops);
    let selection = output_selection_metadata(
        selected.mode,
        workspace_root,
        artifacts,
        output_roots,
    );
    let outputs = attested_outputs_metadata(workspace_root, selected.outputs.as_slice());
    Attestation::new_with_outputs(tree, command, selection, outputs)
}

// ---------------------------------------------------------------------------
// Verifying
// ---------------------------------------------------------------------------

/// Why a build is not re-run against an attestation.
#[derive(Debug, PartialEq, Eq)]
pub enum Refusal {
    /// The root of the attestation is not the pinned one.
    PinnedRoot { pinned: String, found: String },
    /// The command is not the attested one; both as they would be typed.
    Command { attested: String, current: String },
    /// The attestation used explicit output selection and the request does not
    /// repeat it.
    SelectionNotRepeated,
    /// The requested output selection is not the attested one.
    SelectionDiffers,
}

/// What is to be done with a request for verification.
pub enum Request {
    Accepted,
    PinnedRoot { pinned: Seq<char>, found: Seq<char> },
    Command { attested: Seq<char>, current: Seq<char> },
    SelectionNotRepeated,
    SelectionDiffers,
}

/// What a result says of a request.
pub open spec fn request_of(result: Result<(), Refusal>) -> Request {
    match result {
        Ok(_) => Request::Accepted,
        Err(Refusal::PinnedRoot { pinned, found }) => Request::PinnedRoot {
            pinned: pinned@,
            found: found@,
        },
        Err(Refusal::Command { attested, current }) => Request::Command {
            attested: attested@,
            current: current@,
        },
        Err(Refusal::SelectionNotRepeated) => Request::SelectionNotRepeated,
        Err(Refusal::SelectionDiffers) => Request::SelectionDiffers,
    }
}

/// The mode that named artifacts and directories ask for.
pub open spec fn requested_mode(
    artifacts: Seq<Seq<char>>,
    output_roots: Seq<Seq<char>>,
) -> OutputMode {
    if artifacts.len() == 0 && output_roots.len() == 0 {
        OutputMode::Inferred
    } else {
        OutputMode::Explicit
    }
}

/// What is to be done with a requested output selection. A policy is never
/// taken from the attestation itself.
pub open spec fn selection_request(
    attested: Selection,
    root: Seq<char>,
    artifacts: Seq<Seq<char>>,
    output_roots: Seq<Seq<char>>,
) -> Request {
    let mode = requested_mode(artifacts, output_roots);
    if attested.mode == "explicit"@ && mode == OutputMode::Inferred {
        Request::SelectionNotRepeated
    } else if recorded_selection(mode, root, artifacts, output_roots) != attested {
        Request::SelectionDiffers
    } else {
        Request::Accepted
    }
}

/// What is to be done with a request to verify an attestation: the pinned root
/// is looked at first, then the command, then the output selection.
pub open spec fn verification_request(
    expected: attestation::Document,
    pinned: Option<Seq<char>>,
    command: Seq<Seq<char>>,
    root: Seq<char>,
    artifacts: Seq<Seq<char>>,
    output_roots: Seq<Seq<char>>,
) -> Request {
    if pinned is Some && pinned->0 != expected.root_hash {
        Request::PinnedRoot { pinned: pinned->0, found: expected.root_hash }
    } else if expected.command != command {
        Request::Command {
            attested: report::command_text(expected.command),
            current: report::command_text(command),
        }
    } else {
        selection_request(expected.output_selection, root, artifacts, output_roots)
    }
}

/// Checks that a requested output selection is the attested one.
pub fn validate_output_selection(
    attested: &OutputSelection,
    workspace_root: &str,
    artifacts: &[String],
    output_roots: &[String],
) -> (result: Result<(), Refusal>)
    ensures
        request_of(result) == selection_request(
            attested@,
            workspace_root@,
            text::texts(artifacts@),
            text::texts(output_roots@),
        ),
{
    let inferred = artifacts.len() == 0 && output_roots.len() == 0;
    assert(text::texts(artifacts@).len() == artifacts@.len());
    assert(text::texts(output_roots@).len() == output_roots@.len());
    if text_eq(attested.mode.as_str(), "explicit") && inferred {
        return Err(Refusal::SelectionNotRepeated);
    }
    let mode = if inferred {
        OutputMode::Inferred
    } else {
        OutputMode::Explicit
    };
    let requested = output_selection_metadata(mode, workspace_root, artifacts, output_roots);
    if !same_selection(&requested, attested) {
        return Err(Refusal::SelectionDiffers);
    }
    Ok(())
}

/// Checks a request to verify an attestation before the build is run again.
pub fn check_request(
    expected: &Attestation,
    expected_root: Option<&String>,
    command: &Vec<String>,
    workspace_root: &str,
    artifacts: &[String],
    output_roots: &[String],
) -> (result: Result<(), Refusal>)
    ensures
        request_of(result) == verification_request(
            expected@,
            match expected_root {
                Some(r) => Some(r@),
                None => None,
            },
            text::texts(command@),
            workspace_root@,
            text::texts(artifacts@),
            text::texts(output_roots@),
        ),
{
    if let Some(pinned) = expected_root {
        if !text_eq(expected.root_hash.as_str(), pinned.as_str()) {
            return Err(
                Refusal::PinnedRoot { pinned: pinned.clone(), found: expected.root_hash.clone() },
            );
        }
    }
    if !same_command(&expected.command, command) {
        return Err(
            Refusal::Command {
                attested: format_command(expected.command.as_slice()),
                current: format_command(command.as_slice()),
            },
        );
    }
    validate_output_selection(
        &expected.output_selection,
        workspace_root,
        artifacts,
        output_roots,
    )
}

impl Refusal {
    /// The refusal in words.
    pub fn message(&self) -> (text: String)
        ensures
            text@ == (match *self {
                Refusal::PinnedRoot { pinned, found } =>
                    "attestation root does not match --expected-root\n  expected: "@ + pinned@
                    + "\n  file:     "@ + found@,
                Refusal::Command { attested, current } =>
                    "command differs from attestation\n  attestation: "@ + attested@
                    + "\n  current:     "@ + current@,
                Refusal::SelectionNotRepeated =>
                    "the attestation used explicit output selection; repeat its --artifact/--output-root flags rather than trusting policy from the attestation file"@,
                Refusal::SelectionDiffers =>
                    "verification output selection differs from the attestation"@,
            }),
    {
        match self {
            Refusal::PinnedRoot { pinned, found } => {
                let mut text =
                    "attestation root does not match --expected-root\n  expected: ".to_string();
                text.append(pinned.as_str());
                text.append("\n  file:     ");
                text.append(found.as_str());
                text
            },
            Refusal::Command { attested, current } => {
                let mut text = "command differs from attestation\n  attestation: ".to_string();
                text.append(attested.as_str());
                text.append("\n  current:     ");
                text.append(current.as_str());
                text
            },
            Refusal::SelectionNotRepeated =>
                "the attestation used explicit output selection; repeat its --artifact/--output-root flags rather than trusting policy from the attestation file".to_string(),
            Refusal::SelectionDiffers =>
                "verification output selection differs from the attestation".to_string(),
        }
    }
}

/// What became of a verification.
#[derive(Debug, Clone, Copy, PartialEq, Eq, Structural)]
pub enum Verification {
    /// The build led to the attested root.
    Verified,
    /// Events were dropped, so nothing can be said.
    Inconclusive,
    /// The build led to another root.
    Mismatch,
}

/// Judges a verification. Dropped events never verify.
pub fn judge(dropped_events: u64, expected: &Attestation, actual: &Attestation) -> (verdict:
    Verification)
    ensures
        verdict == (if dropped_events > 0 {
            Verification::Inconclusive
        } else if expected.root_hash@ == actual.root_hash@ {
            Verification::Verified
        } else {
            Verification::Mismatch
        }),
{
    if dropped_events > 0 {
        Verification::Inconclusive
    } else if text_eq(expected.root_hash.as_str(), actual.root_hash.as_str()) {
        Verification::Verified
    } else {
        Verification::Mismatch
    }
}

// ---------------------------------------------------------------------------
// Laws
// ---------------------------------------------------------------------------

proof fn lemma_sorted_twice(s: Seq<Seq<char>>)
    ensures
        order::sorted_texts(order::sorted_texts(s)) == order::sorted_texts(s),
{
    order::law_sort_is_an_ascending_rearrangement(s, |t: Seq<char>| t);
    order::law_sorted_texts_depend_on_counts_alone(order::sorted_texts(s), s);
}

/// A request that names what was named when the attestation was made is
/// accepted.
pub proof fn law_repeated_requests_are_accepted(
    leaves: Seq<Seq<char>>,
    leaf_count: nat,
    command: Seq<Seq<char>>,
    root: Seq<char>,
    artifacts: Seq<Seq<char>>,
    output_roots: Seq<Seq<char>>,
    outputs: Seq<Output>,
)
    ensures
        ({
            let made = attestation::attested(
                leaves,
                leaf_count,
                command,
                recorded_selection(
                    requested_mode(artifacts, output_roots),
                    root,
                    artifacts,
                    output_roots,
                ),
                outputs,
            );
            verification_request(
                made,
                Some(made.root_hash),
                command,
                root,
                artifacts,
                output_roots,
            ) == Request::Accepted
        }),
{
    let mode = requested_mode(artifacts, output_roots);
    let s = recorded_selection(mode, root, artifacts, output_roots);
    lemma_sorted_twice(artifacts.map_values(|p: Seq<char>| recorded_path(root, p)));
    lemma_sorted_twice(output_roots.map_values(|p: Seq<char>| recorded_path(root, p)));
    assert(attestation::sorted_selection(s) =~= s);
    reveal_strlit("inferred");
    reveal_strlit("explicit");
    assert("inferred"@[0] != "explicit"@[0]);
}

/// Repeating a build repeats its root: where the same operations are covered,
/// in whatever order and number they were observed, and the outputs are the
/// same, the roots are the same.
pub proof fn law_same_build_same_root(
    ops_a: Seq<OpView>,
    ops_b: Seq<OpView>,
    command: Seq<Seq<char>>,
    selection: Selection,
    outputs: Seq<Output>,
)
    requires
        forall|t: Seq<char>| #[trigger]
            operation::op_hashes(operation::normalized_ops(ops_a)).contains(t)
                <==> operation::op_hashes(operation::normalized_ops(ops_b)).contains(t),
    ensures
        attested_build(operation::finalized(ops_a), command, selection, outputs) == attested_build(
            operation::finalized(ops_b),
            command,
            selection,
            outputs,
        ),
{
    operation::law_order_and_counts_do_not_matter(ops_a, ops_b);
    assert(operation::op_hashes(operation::finalized(ops_a)).len() == operation::finalized(
        ops_a,
    ).len());
    assert(operation::op_hashes(operation::finalized(ops_b)).len() == operation::finalized(
        ops_b,
    ).len());
}

/// One root stands for one build: where two attestations have the same root,
/// the covered operations have the same hashes, and the commands, selections and
/// outputs that were attested are the same, or SHA-256 collides on what was
/// hashed for the two.
pub proof fn law_one_root_one_build(
    ops_a: Seq<OpView>,
    command_a: Seq<Seq<char>>,
    selection_a: Selection,
    outputs_a: Seq<Output>,
    ops_b: Seq<OpView>,
    command_b: Seq<Seq<char>>,
    selection_b: Selection,
    outputs_b: Seq<Output>,
)
    requires
        attested_build(ops_a, command_a, selection_a, outputs_a).root_hash == attested_build(
            ops_b,
            command_b,
            selection_b,
            outputs_b,
        ).root_hash,
    ensures
        ({
            let a = attested_build(ops_a, command_a, selection_a, outputs_a);
            let b = attested_build(ops_b, command_b, selection_b, outputs_b);
            ||| operation::op_hashes(ops_a) == operation::op_hashes(ops_b) && command_a == command_b
                && a.output_selection == b.output_selection && a.outputs == b.outputs
            ||| merkle::collision_between(
                merkle::hashed_for_ops(ops_a),
                merkle::hashed_for_ops(ops_b),
            )
            ||| digest::collide(attestation::committed_bytes(a), attestation::committed_bytes(b))
        }),
{
    let a = attested_build(ops_a, command_a, selection_a, outputs_a);
    let b = attested_build(ops_b, command_b, selection_b, outputs_b);
    attestation::law_root_binds_the_attestation(
        a.tree_root(),
        a.command,
        a.output_selection,
        a.outputs,
        b.tree_root(),
        b.command,
        b.output_selection,
        b.outputs,
    );
    if a.tree_root() == b.tree_root() {
        merkle::law_root_commits_to_the_operations(ops_a, ops_b);
    }
}

/// Only a request for exactly what was attested is accepted: the pinned root, if
/// there is one, the command and the output selection are those of the
/// attestation.
pub proof fn law_only_the_attested_request_is_accepted(
    expected: attestation::Document,
    pinned: Option<Seq<char>>,
    command: Seq<Seq<char>>,
    root: Seq<char>,
    artifacts: Seq<Seq<char>>,
    output_roots: Seq<Seq<char>>,
)
    requires
        verification_request(expected, pinned, command, root, artifacts, output_roots)
            == Request::Accepted,
    ensures
        pinned is Some ==> pinned->0 == expected.root_hash,
        command == expected.command,
        recorded_selection(
            requested_mode(artifacts, output_roots),
            root,
            artifacts,
            output_roots,
        ) == expected.output_selection,
{
}

/// The words for the ways to select outputs: where something was named it is
/// `explicit`, else `inferred`.
pub open spec fn asked_for(artifacts: Seq<Seq<char>>, output_roots: Seq<Seq<char>>) -> Seq<char> {
    if artifacts.len() > 0 || output_roots.len() > 0 {
        "explicit"@
    } else {
        "inferred"@
    }
}

/// Whether a list is another one in ascending order, each text as often.
pub open spec fn is_ascending_form(list: Seq<Seq<char>>, given: Seq<Seq<char>>) -> bool {
    &&& list.to_multiset() == given.to_multiset()
    &&& forall|i: int, j: int|
        0 <= i < j < list.len() ==> !text::text_lt(#[trigger] list[j], #[trigger] list[i])
}

proof fn lemma_ascending_form(list: Seq<Seq<char>>, given: Seq<Seq<char>>)
    ensures
        (list == order::sorted_texts(given)) == is_ascending_form(list, given),
{
    let key = |t: Seq<char>| t;
    let sorted = order::sorted_texts(given);
    order::law_sort_is_an_ascending_rearrangement(given, key);
    assert forall|i: int, j: int| 0 <= i < j < sorted.len() implies !text::text_lt(
        #[trigger] sorted[j],
        #[trigger] sorted[i],
    ) by {
        assert(!text::text_lt(key(sorted[j]), key(sorted[i])));
    }
    if is_ascending_form(list, given) {
        order::law_sorted_texts_depend_on_counts_alone(list, given);
        order::lemma_sorting_keeps_ascending(list);
    }
}

/// What a request to verify an attestation is answered, in order: another pinned
/// root is refused with both roots, another command with both commands; a request
/// that names nothing where the attestation did is told to repeat it; and what is
/// then left is accepted exactly where mode, artifacts and output roots are those
/// of the attestation.
pub proof fn law_requests_are_answered_in_order(
    expected: attestation::Document,
    pinned: Option<Seq<char>>,
    command: Seq<Seq<char>>,
    root: Seq<char>,
    artifacts: Seq<Seq<char>>,
    output_roots: Seq<Seq<char>>,
)
    ensures
        ({
            let answer = verification_request(
                expected,
                pinned,
                command,
                root,
                artifacts,
                output_roots,
            );
            let attested = expected.output_selection;
            let named = asked_for(artifacts, output_roots);
            let same = attested.mode == named && is_ascending_form(
                attested.artifacts,
                artifacts.map_values(|p: Seq<char>| recorded_path(root, p)),
            ) && is_ascending_form(
                attested.output_roots,
                output_roots.map_values(|p: Seq<char>| recorded_path(root, p)),
            );
            let pin_differs = pinned is Some && pinned->0 != expected.root_hash;
            &&& pin_differs ==> answer == (Request::PinnedRoot {
                pinned: pinned->0,
                found: expected.root_hash,
            })
            &&& !pin_differs && command != expected.command ==> answer == (Request::Command {
                attested: report::command_text(expected.command),
                current: report::command_text(command),
            })
            &&& !pin_differs && command == expected.command ==> {
                &&& attested.mode == "explicit"@ && named == "inferred"@ ==> answer
                    == Request::SelectionNotRepeated
                &&& !(attested.mode == "explicit"@ && named == "inferred"@) && !same ==> answer
                    == Request::SelectionDiffers
                &&& same ==> answer == Request::Accepted
            }
        }),
{
    reveal_strlit("inferred");
    reveal_strlit("explicit");
    assert("inferred"@[0] != "explicit"@[0]);
    let mode = requested_mode(artifacts, output_roots);
    let s = recorded_selection(mode, root, artifacts, output_roots);
    let attested = expected.output_selection;
    lemma_ascending_form(
        attested.artifacts,
        artifacts.map_values(|p: Seq<char>| recorded_path(root, p)),
    );
    lemma_ascending_form(
        attested.output_roots,
        output_roots.map_values(|p: Seq<char>| recorded_path(root, p)),
    );
    if s.mode == attested.mode && s.artifacts == attested.artifacts && s.output_roots
        == attested.output_roots {
        assert(s == attested);
    }
}

/// What an attestation records of the outputs and of the request: every output, in
/// order, under its path in the workspace and with its own hash, and every name
/// that was given, in ascending order.
pub proof fn law_everything_asked_for_is_recorded(
    mode: OutputMode,
    root: Seq<char>,
    artifacts: Seq<Seq<char>>,
    output_roots: Seq<Seq<char>>,
    outputs: Seq<Output>,
    i: int,
)
    ensures
        ({
            let selection = recorded_selection(mode, root, artifacts, output_roots);
            let recorded = recorded_outputs(root, outputs);
            &&& selection.mode == (match mode {
                OutputMode::Explicit => "explicit"@,
                OutputMode::Inferred => "inferred"@,
            })
            &&& is_ascending_form(
                selection.artifacts,
                artifacts.map_values(|p: Seq<char>| recorded_path(root, p)),
            )
            &&& is_ascending_form(
                selection.output_roots,
                output_roots.map_values(|p: Seq<char>| recorded_path(root, p)),
            )
            &&& recorded.len() == outputs.len()
            &&& 0 <= i < outputs.len() ==> recorded[i].hash == outputs[i].hash && recorded[i].path
                == workspace::shown_path(root, outputs[i].path)
        }),
{
    let a = artifacts.map_values(|p: Seq<char>| recorded_path(root, p));
    let b = output_roots.map_values(|p: Seq<char>| recorded_path(root, p));
    lemma_ascending_form(order::sorted_texts(a), a);
    lemma_ascending_form(order::sorted_texts(b), b);
}

/// What is covered goes by the outputs: without any, everything that the events
/// leave behind; with some, what they depend on, each process taken for its first
/// instance.
pub proof fn law_outputs_decide_what_is_covered(
    events: Seq<Traced>,
    root_pid: u32,
    prefixes: Seq<Seq<char>>,
    outputs: Seq<Output>,
)
    ensures
        outputs.len() == 0 ==> covered(events, root_pid, prefixes, outputs)
            == canonicalize::canonical_ops(events, root_pid, prefixes),
        outputs.len() > 0 ==> covered(events, root_pid, prefixes, outputs) == slice::output_slice(
            Seq::new(events.len(), |i: int| tracer::by_instance(events[i])),
            ProcessInstance {
                lifetime: tracer::ProcessLifetime { pid: root_pid },
                exec_epoch: 0,
            },
            outputs,
        ),
{
    assert(events.map_values(|e: Traced| tracer::by_instance(e)) =~= Seq::new(
        events.len(),
        |i: int| tracer::by_instance(events[i]),
    ));
}

/// A path is recorded as it was named, unless it was named as an absolute path in
/// the workspace: then it is recorded relative to the workspace.
pub proof fn law_recorded_paths(root: Seq<char>, path: Seq<char>, rest: Seq<char>)
    ensures
        path.len() == 0 || path[0] != '/' ==> recorded_path(root, path) == path,
        !paths::is_under(path, root) ==> recorded_path(root, path) == path,
        path.len() > 0 && path[0] == '/' && paths::relative_to(path, root) == Some(rest)
            ==> recorded_path(root, path) == rest,
        paths::relative_to(path, root) == Some(rest) ==> workspace::shown_path(root, path) == rest,
        !paths::is_under(path, root) ==> workspace::shown_path(root, path) == path,
{
}

} // verus!
