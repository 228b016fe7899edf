//! Attestations: a command-bound root over the operations and outputs of a build.

use crate::digest;
use crate::digest::hash_bytes;
use crate::json;
use crate::json::{json_array_of, json_string, json_string_array};
use crate::merkle;
use crate::merkle::MerkleTree;
use crate::operation;
use crate::operation::OpView;
use crate::order;
use crate::order::{sort_order, sort_texts};
use crate::text;
use crate::text::{concat, text_eq};
use crate::workspace::Output;
use vstd::prelude::*;
use vstd::string::*;
use vstd::utf8::*;

verus! {

/// How outputs were selected for output-rooted attestation.
#[derive(Debug, Clone, PartialEq, Eq)]
pub struct OutputSelection {
    pub mode: String,
    pub artifacts: Vec<String>,
    pub output_roots: Vec<String>,
}

/// An output selection as mathematical data.
#[verifier::ext_equal]
pub struct Selection {
    pub mode: Seq<char>,
    pub artifacts: Seq<Seq<char>>,
    pub output_roots: Seq<Seq<char>>,
}

impl View for OutputSelection {
    type V = Selection;

    open spec fn view(&self) -> Selection {
        Selection {
            mode: self.mode@,
            artifacts: text::texts(self.artifacts@),
            output_roots: text::texts(self.output_roots@),
        }
    }
}

impl Default for OutputSelection {
    fn default() -> (selection: Self)
        ensures
            selection@ == (Selection {
                mode: "inferred"@,
                artifacts: Seq::empty(),
                output_roots: Seq::empty(),
            }),
    {
        proof {
            text::lemma_no_texts();
        }
        OutputSelection {
            mode: "inferred".to_string(),
            artifacts: Vec::new(),
            output_roots: Vec::new(),
        }
    }
}

/// An output of the build, known by path and content hash.
#[derive(Debug, Clone, PartialEq, Eq)]
pub struct AttestedOutput {
    pub path: String,
    pub hash: String,
}

impl View for AttestedOutput {
    type V = Output;

    open spec fn view(&self) -> Output {
        Output { path: self.path@, hash: self.hash@ }
    }
}

/// The attested outputs of a list as mathematical data.
pub open spec fn attested_views(outputs: Seq<AttestedOutput>) -> Seq<Output> {
    Seq::new(outputs.len(), |i: int| outputs[i]@)
}

/// The attestation document.
#[derive(Debug, Clone)]
pub struct Attestation {
    /// Schema version for forward compatibility.
    pub version: String,
    /// The type URI for this predicate (SLSA-compatible).
    pub predicate_type: String,
    /// Commitment over process_root, command, output selection, and outputs.
    pub root_hash: String,
    /// Merkle root over the deterministic set of covered operations.
    pub process_root: String,
    /// The command that was traced.
    pub command: Vec<String>,
    /// Output selection policy used to decide which workspace artifacts are
    /// part of the output-rooted attestation.
    pub output_selection: OutputSelection,
    /// Final workspace outputs attested by path and content hash.
    pub outputs: Vec<AttestedOutput>,
    /// Sorted operation leaves; internal Merkle nodes are derived on demand.
    pub tree: MerkleTree,
}

/// An attestation as mathematical data.
#[verifier::ext_equal]
pub struct Document {
    pub version: Seq<char>,
    pub predicate_type: Seq<char>,
    pub root_hash: Seq<char>,
    pub process_root: Seq<char>,
    pub command: Seq<Seq<char>>,
    pub output_selection: Selection,
    pub outputs: Seq<Output>,
    /// The operation leaves, stored as such or recovered from stored nodes.
    pub leaves: Seq<Seq<char>>,
    /// How many leaves the tree is said to have.
    pub leaf_count: nat,
}

impl View for Attestation {
    type V = Document;

    open spec fn view(&self) -> Document {
        Document {
            version: self.version@,
            predicate_type: self.predicate_type@,
            root_hash: self.root_hash@,
            process_root: self.process_root@,
            command: text::texts(self.command@),
            output_selection: self.output_selection@,
            outputs: attested_views(self.outputs@),
            leaves: self.tree.leaf_texts(),
            leaf_count: self.tree.leaf_count as nat,
        }
    }
}

// ---------------------------------------------------------------------------
// The commitment
// ---------------------------------------------------------------------------

/// An output as a JSON object.
pub open spec fn output_json(output: Output) -> Seq<char> {
    "{\"path\":"@ + json::json_text(output.path) + ",\"hash\":"@ + json::json_text(output.hash)
        + "}"@
}

/// An output selection as a JSON object.
pub open spec fn selection_json(selection: Selection) -> Seq<char> {
    "{\"mode\":"@ + json::json_text(selection.mode) + ",\"artifacts\":"@ + json::json_text_array(
        selection.artifacts,
    ) + ",\"output_roots\":"@ + json::json_text_array(selection.output_roots) + "}"@
}

/// What the root of an attestation commits to, as compact JSON. This exact
/// field order is part of the commitment format.
pub open spec fn commitment_json(
    process_root: Seq<char>,
    command: Seq<Seq<char>>,
    selection: Selection,
    outputs: Seq<Output>,
) -> Seq<char> {
    "{\"domain\":\"repx-attestation-v0.2\",\"process_root\":"@ + json::json_text(process_root)
        + ",\"command\":"@ + json::json_text_array(command) + ",\"output_selection\":"@
        + selection_json(selection) + ",\"outputs\":"@ + json::json_array(
        outputs.map_values(|o: Output| output_json(o)),
    ) + "}"@
}

/// The root that binds process root, command, output selection and outputs.
pub open spec fn commitment(
    process_root: Seq<char>,
    command: Seq<Seq<char>>,
    selection: Selection,
    outputs: Seq<Output>,
) -> Seq<char> {
    digest::hash_text(encode_utf8(commitment_json(process_root, command, selection, outputs)))
}

fn output_as_json(output: &AttestedOutput) -> (json: String)
    ensures
        json@ == output_json(output@),
{
    let mut json = "{\"path\":".to_string();
    json.append(json_string(output.path.as_str()).as_str());
    json.append(",\"hash\":");
    json.append(json_string(output.hash.as_str()).as_str());
    json.append("}");
    json
}

fn selection_as_json(selection: &OutputSelection) -> (json: String)
    ensures
        json@ == selection_json(selection@),
{
    let mut json = "{\"mode\":".to_string();
    json.append(json_string(selection.mode.as_str()).as_str());
    json.append(",\"artifacts\":");
    json.append(json_string_array(selection.artifacts.as_slice()).as_str());
    json.append(",\"output_roots\":");
    json.append(json_string_array(selection.output_roots.as_slice()).as_str());
    json.append("}");
    json
}

/// Computes the root that binds process root, command, output selection and outputs.
pub fn commitment_hash(
    process_root: &str,
    command: &[String],
    output_selection: &OutputSelection,
    outputs: &[AttestedOutput],
) -> (hash: String)
    ensures
        hash@ == commitment(
            process_root@,
            text::texts(command@),
            output_selection@,
            attested_views(outputs@),
        ),
{
    let mut items: Vec<String> = Vec::new();
    for i in 0..outputs.len()
        invariant
            items@.len() == i,
            forall|k: int| 0 <= k < i ==> (#[trigger] items@[k])@ == output_json(outputs@[k]@),
    {
        items.push(output_as_json(&outputs[i]));
    }
    assert(text::texts(items@) =~= attested_views(outputs@).map_values(|o: Output| output_json(o)));
    let mut json = "{\"domain\":\"repx-attestation-v0.2\",\"process_root\":".to_string();
    json.append(json_string(process_root).as_str());
    json.append(",\"command\":");
    json.append(json_string_array(command).as_str());
    json.append(",\"output_selection\":");
    json.append(selection_as_json(output_selection).as_str());
    json.append(",\"outputs\":");
    json.append(json_array_of(&items).as_str());
    json.append("}");
    hash_bytes(json.as_str().as_bytes())
}

// ---------------------------------------------------------------------------
// New attestations
// ---------------------------------------------------------------------------

/// The selection with its lists sorted.
pub open spec fn sorted_selection(selection: Selection) -> Selection {
    Selection {
        artifacts: order::sorted_texts(selection.artifacts),
        output_roots: order::sorted_texts(selection.output_roots),
        ..selection
    }
}

/// The sort key of outputs: their path.
pub open spec fn by_path() -> spec_fn(Output) -> Seq<char> {
    |o: Output| o.path
}

/// The secondary sort key of outputs: their hash.
pub open spec fn by_hash() -> spec_fn(Output) -> Seq<char> {
    |o: Output| o.hash
}

/// The outputs in ascending order of their paths, and of their hashes where the
/// paths are the same.
pub open spec fn sorted_outputs(outputs: Seq<Output>) -> Seq<Output> {
    order::stable_sort(order::stable_sort(outputs, by_hash()), by_path())
}

/// The attestation of the leaves of a tree, a command, a selection and outputs.
pub open spec fn attested(
    leaves: Seq<Seq<char>>,
    leaf_count: nat,
    command: Seq<Seq<char>>,
    selection: Selection,
    outputs: Seq<Output>,
) -> Document {
    Document {
        version: "0.2.0"@,
        predicate_type: "https://repx.dev/process-provenance/v0.2"@,
        root_hash: commitment(
            merkle::merkle_root(leaves),
            command,
            sorted_selection(selection),
            sorted_outputs(outputs),
        ),
        process_root: merkle::merkle_root(leaves),
        command,
        output_selection: sorted_selection(selection),
        outputs: sorted_outputs(outputs),
        leaves,
        leaf_count,
    }
}

fn copy_output(output: &AttestedOutput) -> (copy: AttestedOutput)
    ensures
        copy@ == output@,
{
    AttestedOutput { path: output.path.clone(), hash: output.hash.clone() }
}

fn sort_outputs_by(outputs: &Vec<AttestedOutput>, paths: bool) -> (sorted: Vec<AttestedOutput>)
    ensures
        attested_views(sorted@) == order::stable_sort(
            attested_views(outputs@),
            if paths {
                by_path()
            } else {
                by_hash()
            },
        ),
{
    let ghost views = attested_views(outputs@);
    let ghost key = if paths { by_path() } else { by_hash() };
    let mut keys: Vec<String> = Vec::new();
    for i in 0..outputs.len()
        invariant
            keys@.len() == i,
            views == attested_views(outputs@),
            key == if paths { by_path() } else { by_hash() },
            forall|k: int| 0 <= k < i ==> (#[trigger] keys@[k])@ == key(views[k]),
    {
        if paths {
            keys.push(outputs[i].path.clone());
        } else {
            keys.push(outputs[i].hash.clone());
        }
    }
    let order = sort_order(&keys);
    let mut sorted: Vec<AttestedOutput> = Vec::new();
    for i in 0..order.len()
        invariant
            order@.len() == outputs@.len(),
            views == attested_views(outputs@),
            forall|k: int| 0 <= k < order@.len() ==> 0 <= #[trigger] order@[k] < outputs@.len(),
            sorted@.len() == i,
            forall|k: int|
                0 <= k < i ==> (#[trigger] sorted@[k])@ == views[order@[k] as int],
    {
        assert(order@[i as int] < outputs@.len());
        sorted.push(copy_output(&outputs[order[i]]));
    }
    proof {
        order::lemma_order_sorts(views, key, text::texts(keys@), order@);
        assert(attested_views(sorted@) =~= Seq::new(
            views.len(),
            |i: int| views[order@[i] as int],
        ));
    }
    sorted
}

impl Attestation {
    /// Attests a tree of operations, bound to a command, an output selection and
    /// the outputs themselves.
    pub fn new_with_outputs(
        tree: MerkleTree,
        command: &[String],
        output_selection: OutputSelection,
        outputs: Vec<AttestedOutput>,
    ) -> (attestation: Self)
        ensures
            attestation@ == attested(
                tree.leaf_texts(),
                tree.leaf_count as nat,
                text::texts(command@),
                output_selection@,
                attested_views(outputs@),
            ),
            attestation.tree == tree,
    {
        let process_root = tree.root_hash();
        let selection = OutputSelection {
            mode: output_selection.mode.clone(),
            artifacts: sort_texts(&output_selection.artifacts),
            output_roots: sort_texts(&output_selection.output_roots),
        };
        let outputs = sort_outputs_by(&sort_outputs_by(&outputs, false), true);
        let root_hash = commitment_hash(
            process_root.as_str(),
            command,
            &selection,
            outputs.as_slice(),
        );
        let mut copied: Vec<String> = Vec::new();
        for i in 0..command.len()
            invariant
                copied@.len() == i,
                forall|k: int| 0 <= k < i ==> (#[trigger] copied@[k])@ == command@[k]@,
        {
            copied.push(command[i].clone());
        }
        assert(text::texts(copied@) =~= text::texts(command@));
        Attestation {
            version: "0.2.0".to_string(),
            predicate_type: "https://repx.dev/process-provenance/v0.2".to_string(),
            root_hash,
            process_root,
            command: copied,
            output_selection: selection,
            outputs,
            tree,
        }
    }
}

// ---------------------------------------------------------------------------
// Validation
// ---------------------------------------------------------------------------

/// Why an attestation is not valid.
#[derive(Debug, PartialEq, Eq)]
pub enum AttestationError {
    /// The root of a legacy attestation is not that of its tree.
    LegacyRootMismatch,
    /// The process root is not that of the operation leaves.
    ProcessRootMismatch,
    /// The root does not commit to the rest of the attestation.
    RootMismatch,
    /// The version is not known.
    UnsupportedVersion(String),
}

/// The verdict on an attestation.
pub enum Verdict {
    Valid,
    LegacyRootMismatch,
    ProcessRootMismatch,
    RootMismatch,
    UnsupportedVersion(Seq<char>),
}

/// The verdict that a result of validation gives.
pub open spec fn verdict_of(result: Result<(), AttestationError>) -> Verdict {
    match result {
        Ok(_) => Verdict::Valid,
        Err(AttestationError::LegacyRootMismatch) => Verdict::LegacyRootMismatch,
        Err(AttestationError::ProcessRootMismatch) => Verdict::ProcessRootMismatch,
        Err(AttestationError::RootMismatch) => Verdict::RootMismatch,
        Err(AttestationError::UnsupportedVersion(v)) => Verdict::UnsupportedVersion(v@),
    }
}

impl Document {
    /// The root of the operation leaves.
    pub open spec fn tree_root(self) -> Seq<char> {
        merkle::merkle_root(self.leaves)
    }

    /// What validation finds.
    pub open spec fn verdict(self) -> Verdict {
        if self.version == "0.1.0"@ {
            if self.root_hash == self.tree_root() {
                Verdict::Valid
            } else {
                Verdict::LegacyRootMismatch
            }
        } else if self.version == "0.2.0"@ {
            if self.process_root.len() > 0 && self.process_root != self.tree_root() {
                Verdict::ProcessRootMismatch
            } else if self.root_hash == commitment(
                self.tree_root(),
                self.command,
                self.output_selection,
                self.outputs,
            ) {
                Verdict::Valid
            } else {
                Verdict::RootMismatch
            }
        } else {
            Verdict::UnsupportedVersion(self.version)
        }
    }

    /// The attestation after validation: a process root that may be absent, and
    /// that of a valid legacy attestation, is taken from the tree.
    pub open spec fn after_validation(self) -> Document {
        if (self.version == "0.1.0"@ && self.root_hash == self.tree_root()) || (self.version
            == "0.2.0"@ && self.process_root.len() == 0) {
            Document { process_root: self.tree_root(), ..self }
        } else {
            self
        }
    }
}

impl AttestationError {
    /// The error in words.
    pub fn message(&self) -> (text: String)
        ensures
            text@ == (match *self {
                AttestationError::LegacyRootMismatch =>
                    "legacy attestation root does not match its operation tree"@,
                AttestationError::ProcessRootMismatch =>
                    "attestation process root does not match its operation leaves"@,
                AttestationError::RootMismatch =>
                    "attestation root does not match its command and predicate data"@,
                AttestationError::UnsupportedVersion(v) =>
                    "unsupported attestation version: "@ + v@,
            }),
    {
        match self {
            AttestationError::LegacyRootMismatch =>
                "legacy attestation root does not match its operation tree".to_string(),
            AttestationError::ProcessRootMismatch =>
                "attestation process root does not match its operation leaves".to_string(),
            AttestationError::RootMismatch =>
                "attestation root does not match its command and predicate data".to_string(),
            AttestationError::UnsupportedVersion(version) =>
                concat("unsupported attestation version: ", version.as_str()),
        }
    }
}

impl Attestation {
    /// Checks that the roots follow from the rest of the attestation.
    pub fn validate(&mut self) -> (result: Result<(), AttestationError>)
        ensures
            verdict_of(result) == old(self)@.verdict(),
            final(self)@ == old(self)@.after_validation(),
            final(self).tree == old(self).tree,
    {
        proof {
            reveal_strlit("0.1.0");
            reveal_strlit("0.2.0");
            assert("0.1.0"@[2] != "0.2.0"@[2]);
        }
        let derived = self.tree.root_hash();
        if text_eq(self.version.as_str(), "0.1.0") {
            if !text_eq(self.root_hash.as_str(), derived.as_str()) {
                return Err(AttestationError::LegacyRootMismatch);
            }
            self.process_root = derived;
            return Ok(());
        }
        if text_eq(self.version.as_str(), "0.2.0") {
            if text_eq(self.process_root.as_str(), "") {
                proof {
                    reveal_strlit("");
                }
                self.process_root = derived.clone();
            }
            proof {
                reveal_strlit("");
                if old(self).process_root@.len() == 0 {
                    assert(old(self).process_root@ =~= ""@);
                }
            }
            if !text_eq(derived.as_str(), self.process_root.as_str()) {
                return Err(AttestationError::ProcessRootMismatch);
            }
            let computed = commitment_hash(
                self.process_root.as_str(),
                self.command.as_slice(),
                &self.output_selection,
                self.outputs.as_slice(),
            );
            if !text_eq(computed.as_str(), self.root_hash.as_str()) {
                return Err(AttestationError::RootMismatch);
            }
            return Ok(());
        }
        Err(AttestationError::UnsupportedVersion(self.version.clone()))
    }
}

// ---------------------------------------------------------------------------
// Laws
// ---------------------------------------------------------------------------

/// A new attestation is valid, and validation leaves it as it is.
pub proof fn law_new_attestations_are_valid(
    leaves: Seq<Seq<char>>,
    leaf_count: nat,
    command: Seq<Seq<char>>,
    selection: Selection,
    outputs: Seq<Output>,
)
    ensures
        attested(leaves, leaf_count, command, selection, outputs).verdict() == Verdict::Valid,
        attested(leaves, leaf_count, command, selection, outputs).after_validation() == attested(
            leaves,
            leaf_count,
            command,
            selection,
            outputs,
        ),
{
    reveal_strlit("0.1.0");
    reveal_strlit("0.2.0");
    assert("0.1.0"@[2] != "0.2.0"@[2]);
}

proof fn lemma_strip(p: Seq<char>, x: Seq<char>, y: Seq<char>)
    requires
        p + x == p + y,
    ensures
        x == y,
{
    assert(x =~= (p + x).skip(p.len() as int));
    assert(y =~= (p + y).skip(p.len() as int));
}

proof fn lemma_associative(a: Seq<char>, b: Seq<char>, c: Seq<char>)
    ensures
        (a + b) + c == a + (b + c),
{
    assert((a + b) + c =~= a + (b + c));
}

proof fn lemma_selection_json_grouped(a: Selection, x: Seq<char>)
    ensures
        selection_json(a) + x == "{\"mode\":"@ + (json::json_text(a.mode) + (",\"artifacts\":"@ + (
        json::json_text_array(a.artifacts) + (",\"output_roots\":"@ + (json::json_text_array(
            a.output_roots,
        ) + ("}"@ + x)))))),
{
    let m = "{\"mode\":"@;
    let p = ",\"artifacts\":"@;
    let q = ",\"output_roots\":"@;
    let e = "}"@;
    let t = json::json_text(a.mode);
    let f = json::json_text_array(a.artifacts);
    let r = json::json_text_array(a.output_roots);
    lemma_associative(m + t + p + f + q + r, e, x);
    lemma_associative(m + t + p + f + q, r, e + x);
    lemma_associative(m + t + p + f, q, r + (e + x));
    lemma_associative(m + t + p, f, q + (r + (e + x)));
    lemma_associative(m + t, p, f + (q + (r + (e + x))));
    lemma_associative(m, t, p + (f + (q + (r + (e + x)))));
}

proof fn lemma_output_json_unique(a: Output, b: Output, x: Seq<char>, y: Seq<char>)
    requires
        output_json(a) + x == output_json(b) + y,
    ensures
        a == b,
        x == y,
{
    let p = "{\"path\":"@;
    let h = ",\"hash\":"@;
    let e = "}"@;
    let ja = json::json_text(a.path);
    let jb = json::json_text(b.path);
    let ka = json::json_text(a.hash);
    let kb = json::json_text(b.hash);
    assert(output_json(a) + x =~= p + (ja + (h + (ka + (e + x)))));
    assert(output_json(b) + y =~= p + (jb + (h + (kb + (e + y)))));
    lemma_strip(p, ja + (h + (ka + (e + x))), jb + (h + (kb + (e + y))));
    json::lemma_json_text_unique(a.path, b.path, h + (ka + (e + x)), h + (kb + (e + y)));
    lemma_strip(h, ka + (e + x), kb + (e + y));
    json::lemma_json_text_unique(a.hash, b.hash, e + x, e + y);
    lemma_strip(e, x, y);
}

proof fn lemma_selection_json_unique(a: Selection, b: Selection, x: Seq<char>, y: Seq<char>)
    requires
        selection_json(a) + x == selection_json(b) + y,
    ensures
        a == b,
        x == y,
{
    let m = "{\"mode\":"@;
    let p = ",\"artifacts\":"@;
    let q = ",\"output_roots\":"@;
    let e = "}"@;
    let ma = json::json_text(a.mode);
    let mb = json::json_text(b.mode);
    let aa = json::json_text_array(a.artifacts);
    let ab = json::json_text_array(b.artifacts);
    let ra = json::json_text_array(a.output_roots);
    let rb = json::json_text_array(b.output_roots);
    lemma_selection_json_grouped(a, x);
    lemma_selection_json_grouped(b, y);
    lemma_strip(m, ma + (p + (aa + (q + (ra + (e + x))))), mb + (p + (ab + (q + (rb + (e + y))))));
    json::lemma_json_text_unique(
        a.mode,
        b.mode,
        p + (aa + (q + (ra + (e + x)))),
        p + (ab + (q + (rb + (e + y)))),
    );
    lemma_strip(p, aa + (q + (ra + (e + x))), ab + (q + (rb + (e + y))));
    json::lemma_json_text_array_unique(
        a.artifacts,
        b.artifacts,
        q + (ra + (e + x)),
        q + (rb + (e + y)),
    );
    lemma_strip(q, ra + (e + x), rb + (e + y));
    json::lemma_json_text_array_unique(a.output_roots, b.output_roots, e + x, e + y);
    lemma_strip(e, x, y);
}

proof fn lemma_regroup(
    a: Seq<char>,
    b: Seq<char>,
    c: Seq<char>,
    d: Seq<char>,
    e: Seq<char>,
    f: Seq<char>,
    g: Seq<char>,
    h: Seq<char>,
    i: Seq<char>,
)
    ensures
        a + b + c + d + e + f + g + h + i == a + (b + (c + (d + (e + (f + (g + (h + i))))))),
{
    lemma_associative(a + b + c + d + e + f + g, h, i);
    lemma_associative(a + b + c + d + e + f, g, h + i);
    lemma_associative(a + b + c + d + e, f, g + (h + i));
    lemma_associative(a + b + c + d, e, f + (g + (h + i)));
    lemma_associative(a + b + c, d, e + (f + (g + (h + i))));
    lemma_associative(a + b, c, d + (e + (f + (g + (h + i)))));
    lemma_associative(a, b, c + (d + (e + (f + (g + (h + i))))));
}

/// What is committed to is encoded without ambiguity.
pub proof fn lemma_commitment_json_unique(
    root_a: Seq<char>,
    command_a: Seq<Seq<char>>,
    selection_a: Selection,
    outputs_a: Seq<Output>,
    root_b: Seq<char>,
    command_b: Seq<Seq<char>>,
    selection_b: Selection,
    outputs_b: Seq<Output>,
)
    requires
        commitment_json(root_a, command_a, selection_a, outputs_a) == commitment_json(
            root_b,
            command_b,
            selection_b,
            outputs_b,
        ),
    ensures
        root_a == root_b,
        command_a == command_b,
        selection_a == selection_b,
        outputs_a == outputs_b,
{
    let d = "{\"domain\":\"repx-attestation-v0.2\",\"process_root\":"@;
    let c = ",\"command\":"@;
    let s = ",\"output_selection\":"@;
    let o = ",\"outputs\":"@;
    let e = "}"@;
    let encode = |x: Output| output_json(x);
    let ra = json::json_text(root_a);
    let rb = json::json_text(root_b);
    let ca = json::json_text_array(command_a);
    let cb = json::json_text_array(command_b);
    let sa = selection_json(selection_a);
    let sb = selection_json(selection_b);
    let oa = json::json_array(outputs_a.map_values(encode));
    let ob = json::json_array(outputs_b.map_values(encode));
    lemma_regroup(d, ra, c, ca, s, sa, o, oa, e);
    lemma_regroup(d, rb, c, cb, s, sb, o, ob, e);
    lemma_strip(
        d,
        ra + (c + (ca + (s + (sa + (o + (oa + e)))))),
        rb + (c + (cb + (s + (sb + (o + (ob + e)))))),
    );
    json::lemma_json_text_unique(
        root_a,
        root_b,
        c + (ca + (s + (sa + (o + (oa + e))))),
        c + (cb + (s + (sb + (o + (ob + e))))),
    );
    lemma_strip(c, ca + (s + (sa + (o + (oa + e)))), cb + (s + (sb + (o + (ob + e)))));
    json::lemma_json_text_array_unique(
        command_a,
        command_b,
        s + (sa + (o + (oa + e))),
        s + (sb + (o + (ob + e))),
    );
    lemma_strip(s, sa + (o + (oa + e)), sb + (o + (ob + e)));
    lemma_selection_json_unique(selection_a, selection_b, o + (oa + e), o + (ob + e));
    lemma_strip(o, oa + e, ob + e);
    assert(json::unambiguous(encode)) by {
        assert forall|a: Output| (#[trigger] encode(a)).len() > 0 && encode(a)[0] != ']' by {
            reveal_strlit("{\"path\":");
            assert(encode(a)[0] == '{');
        }
        assert forall|p: Output, q: Output, u: Seq<char>, v: Seq<char>|
            #![trigger encode(p) + u, encode(q) + v]
            encode(p) + u == encode(q) + v implies p == q && u == v by {
            lemma_output_json_unique(p, q, u, v);
        }
    }
    json::lemma_json_array_unique(encode, outputs_a, outputs_b, e, e);
}

/// The root binds process root, command, output selection and outputs: where
/// two roots are the same, so is all of that, or SHA-256 collides.
pub proof fn law_root_binds_the_attestation(
    root_a: Seq<char>,
    command_a: Seq<Seq<char>>,
    selection_a: Selection,
    outputs_a: Seq<Output>,
    root_b: Seq<char>,
    command_b: Seq<Seq<char>>,
    selection_b: Selection,
    outputs_b: Seq<Output>,
)
    requires
        commitment(root_a, command_a, selection_a, outputs_a) == commitment(
            root_b,
            command_b,
            selection_b,
            outputs_b,
        ),
    ensures
        (root_a == root_b && command_a == command_b && selection_a == selection_b && outputs_a
            == outputs_b) || digest::collide(
            encode_utf8(commitment_json(root_a, command_a, selection_a, outputs_a)),
            encode_utf8(commitment_json(root_b, command_b, selection_b, outputs_b)),
        ),
{
    let a = commitment_json(root_a, command_a, selection_a, outputs_a);
    let b = commitment_json(root_b, command_b, selection_b, outputs_b);
    digest::law_equal_hashes_mean_equal_inputs(encode_utf8(a), encode_utf8(b));
    if encode_utf8(a) == encode_utf8(b) {
        text::lemma_utf8_injective(a, b);
        lemma_commitment_json_unique(
            root_a,
            command_a,
            selection_a,
            outputs_a,
            root_b,
            command_b,
            selection_b,
            outputs_b,
        );
    }
}

/// What the root of an attestation is the hash of.
pub open spec fn committed_bytes(a: Document) -> Seq<u8> {
    encode_utf8(commitment_json(a.tree_root(), a.command, a.output_selection, a.outputs))
}

/// Two valid attestations of the current version with the same root agree in
/// the root of their operations, their command, selection and outputs, or
/// SHA-256 collides on what the two commit to.
pub proof fn law_valid_attestations_with_one_root_agree(a: Document, b: Document)
    requires
        a.version == "0.2.0"@,
        b.version == "0.2.0"@,
        a.verdict() == Verdict::Valid,
        b.verdict() == Verdict::Valid,
        a.root_hash == b.root_hash,
    ensures
        (a.tree_root() == b.tree_root() && a.command == b.command && a.output_selection
            == b.output_selection && a.outputs == b.outputs) || digest::collide(
            committed_bytes(a),
            committed_bytes(b),
        ),
{
    reveal_strlit("0.1.0");
    reveal_strlit("0.2.0");
    assert("0.1.0"@[2] != "0.2.0"@[2]);
    law_root_binds_the_attestation(
        a.tree_root(),
        a.command,
        a.output_selection,
        a.outputs,
        b.tree_root(),
        b.command,
        b.output_selection,
        b.outputs,
    );
}

/// Two valid attestations of one version with the same root have the same leaves,
/// or SHA-256 collides on what was hashed for the two. This is said of equally
/// many leaves, each the size of a digest: others can be regrouped without a
/// change of their root.
pub proof fn law_one_root_one_list_of_leaves(a: Document, b: Document)
    requires
        a.version == b.version,
        a.verdict() == Verdict::Valid,
        b.verdict() == Verdict::Valid,
        a.root_hash == b.root_hash,
        a.leaves.len() == b.leaves.len(),
        merkle::digest_sized(a.leaves),
        merkle::digest_sized(b.leaves),
    ensures
        ({
            ||| a.leaves == b.leaves
            ||| digest::collide(committed_bytes(a), committed_bytes(b))
            ||| merkle::collision_between(
                merkle::hashed_for(a.leaves),
                merkle::hashed_for(b.leaves),
            )
        }),
{
    lemma_one_root_one_tree_root(a, b);
    if a.tree_root() == b.tree_root() {
        merkle::law_root_commits_to_the_leaves(a.leaves, b.leaves);
    }
}

/// Two valid attestations of one version with the same root whose leaves are the
/// hashes of operations, however many, have the same leaves, or SHA-256 collides
/// on what was hashed for the two.
pub proof fn law_one_root_one_set_of_operations(
    a: Document,
    b: Document,
    ops_a: Seq<OpView>,
    ops_b: Seq<OpView>,
)
    requires
        a.version == b.version,
        a.verdict() == Verdict::Valid,
        b.verdict() == Verdict::Valid,
        a.root_hash == b.root_hash,
        a.leaves == operation::op_hashes(ops_a),
        b.leaves == operation::op_hashes(ops_b),
    ensures
        ({
            ||| a.leaves == b.leaves
            ||| digest::collide(committed_bytes(a), committed_bytes(b))
            ||| merkle::collision_between(
                merkle::hashed_for_ops(ops_a),
                merkle::hashed_for_ops(ops_b),
            )
        }),
{
    lemma_one_root_one_tree_root(a, b);
    if a.tree_root() == b.tree_root() {
        merkle::law_root_commits_to_the_operations(ops_a, ops_b);
    }
}

proof fn lemma_one_root_one_tree_root(a: Document, b: Document)
    requires
        a.version == b.version,
        a.verdict() == Verdict::Valid,
        b.verdict() == Verdict::Valid,
        a.root_hash == b.root_hash,
    ensures
        a.tree_root() == b.tree_root() || digest::collide(committed_bytes(a), committed_bytes(b)),
{
    if a.version == "0.2.0"@ {
        law_valid_attestations_with_one_root_agree(a, b);
    }
}

/// Whether two outputs stand in the order in which an attestation lists them.
pub open spec fn output_le(a: Output, b: Output) -> bool {
    text::text_lt(a.path, b.path) || (a.path == b.path && (text::text_lt(a.hash, b.hash) || a.hash
        == b.hash))
}

/// Sorting by one key a list that ascends by another keeps the other order
/// among equal keys.
proof fn lemma_insert_keeps_order(s: Seq<Output>, x: Output, i: int, j: int)
    requires
        forall|k: int, l: int| 0 <= k < l < s.len() ==> output_le(#[trigger] s[k], #[trigger] s[l]),
        forall|k: int| 0 <= k < s.len() ==> !text::text_lt(x.hash, (#[trigger] s[k]).hash),
        0 <= i < j < s.len() + 1,
    ensures
        order::insert_stable(s, x, by_path()).len() == s.len() + 1,
        output_le(
            order::insert_stable(s, x, by_path())[i],
            order::insert_stable(s, x, by_path())[j],
        ),
    decreases s.len(),
{
    let key = by_path();
    let r = order::insert_stable(s, x, key);
    if s.len() > 0 && text::text_lt(key(x), key(s.last())) {
        let d = s.drop_last();
        assert forall|k: int, l: int| 0 <= k < l < d.len() implies output_le(
            #[trigger] d[k],
            #[trigger] d[l],
        ) by {
            assert(output_le(s[k], s[l]));
        }
        assert forall|k: int| 0 <= k < d.len() implies !text::text_lt(x.hash, (#[trigger] d[k]).hash) by {
            assert(!text::text_lt(x.hash, s[k].hash));
        }
        let rd = order::insert_stable(d, x, key);
        if j < s.len() {
            lemma_insert_keeps_order(d, x, i, j);
        } else {
            assert forall|k: int, l: int| 0 <= k < l < d.len() implies !text::text_lt(
                #[trigger] key(d[l]),
                #[trigger] key(d[k]),
            ) by {
                assert(output_le(d[k], d[l]));
                text::lemma_text_lt_irreflexive(d[k].path);
                if text::text_lt(d[k].path, d[l].path) && text::text_lt(d[l].path, d[k].path) {
                    text::lemma_text_lt_transitive(d[k].path, d[l].path, d[k].path);
                }
            }
            order::lemma_insert_stable(d, x, key);
            assert(rd.contains(rd[i]));
            if rd[i] != x {
                assert(d.contains(rd[i]));
                let k = choose|k: int| 0 <= k < d.len() && d[k] == rd[i];
                assert(output_le(s[k], s[s.len() - 1]));
            }
        }
    } else {
        if j == s.len() {
            if s.len() > 0 {
                let l = s.last();
                if i < s.len() - 1 {
                    assert(output_le(s[i], s[s.len() - 1]));
                }
                text::lemma_text_lt_total(l.path, x.path);
                text::lemma_text_lt_total(s[i].hash, x.hash);
                assert(!text::text_lt(x.hash, s[i].hash));
                if text::text_lt(s[i].path, l.path) && text::text_lt(l.path, x.path) {
                    text::lemma_text_lt_transitive(s[i].path, l.path, x.path);
                }
            }
        } else {
            assert(output_le(s[i], s[j]));
        }
    }
}

proof fn lemma_sorted_outputs_ascend(s: Seq<Output>)
    requires
        order::ascending(s, by_hash()),
    ensures
        forall|i: int, j: int|
            0 <= i < j < s.len() ==> output_le(
                #[trigger] order::stable_sort(s, by_path())[i],
                #[trigger] order::stable_sort(s, by_path())[j],
            ),
        order::stable_sort(s, by_path()).len() == s.len(),
    decreases s.len(),
{
    order::law_sort_is_an_ascending_rearrangement(s, by_path());
    if s.len() > 0 {
        let d = s.drop_last();
        let x = s.last();
        assert forall|i: int, j: int| 0 <= i < j < d.len() implies !text::text_lt(
            #[trigger] by_hash()(d[j]),
            #[trigger] by_hash()(d[i]),
        ) by {
            assert(!text::text_lt(by_hash()(s[j]), by_hash()(s[i])));
        }
        lemma_sorted_outputs_ascend(d);
        order::law_sort_is_an_ascending_rearrangement(d, by_path());
        let sd = order::stable_sort(d, by_path());
        assert forall|k: int| 0 <= k < sd.len() implies !text::text_lt(
            x.hash,
            (#[trigger] sd[k]).hash,
        ) by {
            assert(sd.contains(sd[k]));
            assert(d.contains(sd[k]));
            let m = choose|m: int| 0 <= m < d.len() && d[m] == sd[k];
            assert(!text::text_lt(by_hash()(s[s.len() - 1]), by_hash()(s[m])));
        }
        assert forall|i: int, j: int| 0 <= i < j < s.len() implies output_le(
            #[trigger] order::stable_sort(s, by_path())[i],
            #[trigger] order::stable_sort(s, by_path())[j],
        ) by {
            lemma_insert_keeps_order(sd, x, i, j);
        }
    }
}

proof fn lemma_output_order_is_total()
    ensures
        vstd::relations::total_ordering(|a: Output, b: Output| output_le(a, b)),
{
    let leq = |a: Output, b: Output| output_le(a, b);
    assert forall|a: Output, b: Output| #[trigger] leq(a, b) && #[trigger] leq(b, a) implies a == b by {
        if text::text_lt(a.path, b.path) {
            if text::text_lt(b.path, a.path) {
                text::lemma_text_lt_transitive(a.path, b.path, a.path);
            }
            text::lemma_text_lt_irreflexive(a.path);
        } else {
            text::lemma_text_lt_irreflexive(a.path);
            if text::text_lt(a.hash, b.hash) {
                if text::text_lt(b.hash, a.hash) {
                    text::lemma_text_lt_transitive(a.hash, b.hash, a.hash);
                }
                text::lemma_text_lt_irreflexive(a.hash);
            }
        }
    }
    assert forall|a: Output, b: Output, c: Output| #[trigger] leq(a, b) && #[trigger] leq(
        b,
        c,
    ) implies leq(a, c) by {
        if text::text_lt(a.path, b.path) && text::text_lt(b.path, c.path) {
            text::lemma_text_lt_transitive(a.path, b.path, c.path);
        }
        if text::text_lt(a.hash, b.hash) && text::text_lt(b.hash, c.hash) {
            text::lemma_text_lt_transitive(a.hash, b.hash, c.hash);
        }
    }
    assert forall|a: Output, b: Output| #[trigger] leq(a, b) || #[trigger] leq(b, a) by {
        text::lemma_text_lt_total(a.path, b.path);
        text::lemma_text_lt_total(a.hash, b.hash);
    }
}

/// The order in which outputs and the lists of a selection were given does not
/// matter: the attestation is the same.
pub proof fn law_given_order_does_not_matter(
    leaves: Seq<Seq<char>>,
    leaf_count: nat,
    command: Seq<Seq<char>>,
    selection_a: Selection,
    outputs_a: Seq<Output>,
    selection_b: Selection,
    outputs_b: Seq<Output>,
)
    requires
        selection_a.mode == selection_b.mode,
        selection_a.artifacts.to_multiset() == selection_b.artifacts.to_multiset(),
        selection_a.output_roots.to_multiset() == selection_b.output_roots.to_multiset(),
        outputs_a.to_multiset() == outputs_b.to_multiset(),
    ensures
        attested(leaves, leaf_count, command, selection_a, outputs_a) == attested(
            leaves,
            leaf_count,
            command,
            selection_b,
            outputs_b,
        ),
{
    order::law_sorted_texts_depend_on_counts_alone(selection_a.artifacts, selection_b.artifacts);
    order::law_sorted_texts_depend_on_counts_alone(
        selection_a.output_roots,
        selection_b.output_roots,
    );
    let leq = |a: Output, b: Output| output_le(a, b);
    lemma_output_order_is_total();
    lemma_sorted_outputs_are_sorted(outputs_a);
    lemma_sorted_outputs_are_sorted(outputs_b);
    vstd::seq_lib::lemma_sorted_unique(
        sorted_outputs(outputs_a),
        sorted_outputs(outputs_b),
        leq,
    );
}

proof fn lemma_sorted_outputs_are_sorted(s: Seq<Output>)
    ensures
        vstd::relations::sorted_by(sorted_outputs(s), |a: Output, b: Output| output_le(a, b)),
        sorted_outputs(s).to_multiset() == s.to_multiset(),
{
    let h = order::stable_sort(s, by_hash());
    order::law_sort_is_an_ascending_rearrangement(s, by_hash());
    order::law_sort_is_an_ascending_rearrangement(h, by_path());
    lemma_sorted_outputs_ascend(h);
}

/// A new attestation holds what it was given: the leaves, the command and the mode
/// as they are, and each artifact, output root and output as often as it was
/// given. Artifacts and output roots ascend, outputs ascend by their paths and then
/// by their hashes, and the process root is that of the leaves.
pub proof fn law_new_attestations_hold_what_was_given(
    leaves: Seq<Seq<char>>,
    leaf_count: nat,
    command: Seq<Seq<char>>,
    selection: Selection,
    outputs: Seq<Output>,
)
    ensures
        ({
            let made = attested(leaves, leaf_count, command, selection, outputs);
            let s = made.output_selection;
            &&& made.version == "0.2.0"@
            &&& made.predicate_type == "https://repx.dev/process-provenance/v0.2"@
            &&& made.leaves == leaves
            &&& made.leaf_count == leaf_count
            &&& made.process_root == merkle::merkle_root(leaves)
            &&& made.command == command
            &&& s.mode == selection.mode
            &&& s.artifacts.to_multiset() == selection.artifacts.to_multiset()
            &&& s.output_roots.to_multiset() == selection.output_roots.to_multiset()
            &&& made.outputs.to_multiset() == outputs.to_multiset()
            &&& forall|i: int, j: int|
                0 <= i < j < s.artifacts.len() ==> !text::text_lt(
                    #[trigger] s.artifacts[j],
                    #[trigger] s.artifacts[i],
                )
            &&& forall|i: int, j: int|
                0 <= i < j < s.output_roots.len() ==> !text::text_lt(
                    #[trigger] s.output_roots[j],
                    #[trigger] s.output_roots[i],
                )
            &&& forall|i: int, j: int|
                0 <= i < j < made.outputs.len() ==> text::text_lt(
                    (#[trigger] made.outputs[i]).path,
                    (#[trigger] made.outputs[j]).path,
                ) || (made.outputs[i].path == made.outputs[j].path && !text::text_lt(
                    made.outputs[j].hash,
                    made.outputs[i].hash,
                ))
        }),
{
    let made = attested(leaves, leaf_count, command, selection, outputs);
    let s = made.output_selection;
    let key = |t: Seq<char>| t;
    order::law_sort_is_an_ascending_rearrangement(selection.artifacts, key);
    order::law_sort_is_an_ascending_rearrangement(selection.output_roots, key);
    lemma_sorted_outputs_are_sorted(outputs);
    assert forall|i: int, j: int| 0 <= i < j < s.artifacts.len() implies !text::text_lt(
        #[trigger] s.artifacts[j],
        #[trigger] s.artifacts[i],
    ) by {
        assert(!text::text_lt(key(s.artifacts[j]), key(s.artifacts[i])));
    }
    assert forall|i: int, j: int| 0 <= i < j < s.output_roots.len() implies !text::text_lt(
        #[trigger] s.output_roots[j],
        #[trigger] s.output_roots[i],
    ) by {
        assert(!text::text_lt(key(s.output_roots[j]), key(s.output_roots[i])));
    }
    let h = order::stable_sort(outputs, by_hash());
    order::law_sort_is_an_ascending_rearrangement(outputs, by_hash());
    lemma_sorted_outputs_ascend(h);
    assert(made.outputs == order::stable_sort(h, by_path()));
    assert forall|i: int, j: int| 0 <= i < j < made.outputs.len() implies text::text_lt(
        (#[trigger] made.outputs[i]).path,
        (#[trigger] made.outputs[j]).path,
    ) || (made.outputs[i].path == made.outputs[j].path && !text::text_lt(
        made.outputs[j].hash,
        made.outputs[i].hash,
    )) by {
        assert(output_le(made.outputs[i], made.outputs[j]));
        if text::text_lt(made.outputs[i].hash, made.outputs[j].hash) && text::text_lt(
            made.outputs[j].hash,
            made.outputs[i].hash,
        ) {
            text::lemma_text_lt_transitive(
                made.outputs[i].hash,
                made.outputs[j].hash,
                made.outputs[i].hash,
            );
            text::lemma_text_lt_irreflexive(made.outputs[i].hash);
        }
        text::lemma_text_lt_irreflexive(made.outputs[i].hash);
    }
}

/// What validation says of an attestation that was tampered with: of a valid one,
/// in whatever part it is altered, another root is found not to match, another
/// process root neither, and another version is not known or goes by the legacy
/// rule, by which the root is that of the leaves.
pub proof fn law_validation_tells_what_does_not_match(
    d: Document,
    root_hash: Seq<char>,
    process_root: Seq<char>,
    version: Seq<char>,
)
    requires
        d.version == "0.2.0"@,
        d.verdict() == Verdict::Valid,
    ensures
        root_hash != d.root_hash ==> (Document { root_hash, ..d }).verdict()
            == Verdict::RootMismatch,
        process_root.len() > 0 && process_root != merkle::merkle_root(d.leaves) ==> (Document {
            process_root,
            ..d
        }).verdict() == Verdict::ProcessRootMismatch,
        (Document { process_root: Seq::empty(), ..d }).verdict() == Verdict::Valid,
        (Document { process_root: Seq::empty(), ..d }).after_validation().process_root
            == merkle::merkle_root(d.leaves),
        version != "0.2.0"@ && version != "0.1.0"@ ==> (Document { version, ..d }).verdict()
            == Verdict::UnsupportedVersion(version),
        (Document { version: "0.1.0"@, root_hash, ..d }).verdict() == (if root_hash
            == merkle::merkle_root(d.leaves) {
            Verdict::Valid
        } else {
            Verdict::LegacyRootMismatch
        }),
{
    reveal_strlit("0.1.0");
    reveal_strlit("0.2.0");
    assert("0.1.0"@[2] != "0.2.0"@[2]);
}

} // verus!
