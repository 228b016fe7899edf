use repx::attestation::{
    commitment_hash, Attestation, AttestationError, AttestedOutput, OutputSelection,
};
use repx::merkle::{MerkleNode, MerkleTree};

fn texts(list: &[&str]) -> Vec<String> {
    list.iter().map(|text| text.to_string()).collect()
}

fn tree() -> MerkleTree {
    MerkleTree { leaves: vec!["sha256:operation".to_string()], nodes: Vec::new(), leaf_count: 1 }
}

fn simple() -> Attestation {
    Attestation::new_with_outputs(
        tree(),
        &["true".to_string()],
        OutputSelection::default(),
        Vec::new(),
    )
}

fn output(path: &str, hash: &str) -> AttestedOutput {
    AttestedOutput { path: path.to_string(), hash: hash.to_string() }
}

#[test]
fn command_is_bound_into_the_attestation_root() {
    let first = Attestation::new_with_outputs(
        tree(),
        &["make".to_string()],
        OutputSelection::default(),
        Vec::new(),
    );
    let second = Attestation::new_with_outputs(
        tree(),
        &["make".to_string(), "release".to_string()],
        OutputSelection::default(),
        Vec::new(),
    );
    assert_ne!(first.root_hash, second.root_hash);
}

#[test]
fn v0_2_commitment_encoding_is_frozen() {
    let output_selection = OutputSelection {
        mode: "explicit".to_string(),
        artifacts: vec!["dist/app".to_string()],
        output_roots: vec!["dist".to_string()],
    };
    let outputs = vec![AttestedOutput {
        path: "dist/app".to_string(),
        hash: "sha256:artifact".to_string(),
    }];

    assert_eq!(
        commitment_hash(
            "sha256:process",
            &["make".to_string(), "release".to_string()],
            &output_selection,
            &outputs,
        ),
        "sha256:acbd954b2c7a7196ef706989898068ac1b26c82237855ccc7c071b592953adc5"
    );
}

#[test]
fn unknown_versions_are_rejected() {
    let mut attestation = simple();
    attestation.version = "0.3.0".to_string();
    assert!(attestation.validate().is_err());
}

#[test]
fn legacy_roots_are_still_validated() {
    let mut attestation = simple();
    attestation.version = "0.1.0".to_string();
    attestation.root_hash = attestation.tree.root_hash();
    attestation.process_root.clear();
    assert!(attestation.validate().is_ok());

    attestation.root_hash = "sha256:tampered".to_string();
    assert!(attestation.validate().is_err());
}

#[test]
fn new_attestations_are_valid() {
    let mut attestation = simple();
    assert_eq!(attestation.version, "0.2.0");
    assert_eq!(attestation.predicate_type, "https://repx.dev/process-provenance/v0.2");
    assert_eq!(attestation.process_root, "sha256:operation");
    assert_eq!(attestation.output_selection.mode, "inferred");
    assert_eq!(attestation.validate(), Ok(()));
}

#[test]
fn an_absent_process_root_is_derived() {
    let mut attestation = simple();
    attestation.process_root.clear();
    assert_eq!(attestation.validate(), Ok(()));
    assert_eq!(attestation.process_root, "sha256:operation");
}

#[test]
fn every_part_is_bound_by_the_root() {
    let mut other_process = simple();
    other_process.process_root = "sha256:other".to_string();
    assert_eq!(other_process.validate(), Err(AttestationError::ProcessRootMismatch));

    let mut other_tree = simple();
    other_tree.tree.leaves = vec!["sha256:other".to_string()];
    other_tree.process_root.clear();
    assert_eq!(other_tree.validate(), Err(AttestationError::RootMismatch));

    let mut other_command = simple();
    other_command.command.push("--fast".to_string());
    assert_eq!(other_command.validate(), Err(AttestationError::RootMismatch));

    let mut other_selection = simple();
    other_selection.output_selection.mode = "explicit".to_string();
    assert_eq!(other_selection.validate(), Err(AttestationError::RootMismatch));

    let mut other_outputs = simple();
    other_outputs.outputs.push(output("a", "sha256:a"));
    assert_eq!(other_outputs.validate(), Err(AttestationError::RootMismatch));
}

#[test]
fn errors_say_what_is_wrong() {
    let mut unknown = simple();
    unknown.version = "0.3.0".to_string();
    let error = unknown.validate().unwrap_err();
    assert_eq!(error, AttestationError::UnsupportedVersion("0.3.0".to_string()));
    assert_eq!(error.message(), "unsupported attestation version: 0.3.0");

    let mut legacy = simple();
    legacy.version = "0.1.0".to_string();
    let error = legacy.validate().unwrap_err();
    assert_eq!(error, AttestationError::LegacyRootMismatch);
    assert_eq!(
        error.message(),
        "legacy attestation root does not match its operation tree"
    );
    assert_eq!(
        AttestationError::ProcessRootMismatch.message(),
        "attestation process root does not match its operation leaves"
    );
    assert_eq!(
        AttestationError::RootMismatch.message(),
        "attestation root does not match its command and predicate data"
    );
}

#[test]
fn the_order_of_artifacts_and_outputs_does_not_matter() {
    let selection = |artifacts: &[&str]| OutputSelection {
        mode: "explicit".to_string(),
        artifacts: texts(artifacts),
        output_roots: vec![],
    };
    let one = Attestation::new_with_outputs(
        tree(),
        &texts(&["make"]),
        selection(&["b", "a"]),
        vec![output("b", "sha256:b"), output("a", "sha256:a")],
    );
    let two = Attestation::new_with_outputs(
        tree(),
        &texts(&["make"]),
        selection(&["a", "b"]),
        vec![output("a", "sha256:a"), output("b", "sha256:b")],
    );
    assert_eq!(one.root_hash, two.root_hash);
    assert_eq!(one.output_selection, two.output_selection);
    assert_eq!(one.outputs, two.outputs);
}

#[test]
fn commitments_tell_neighbouring_fields_apart() {
    let none = OutputSelection::default();
    let split = commitment_hash("root", &texts(&["a", "b"]), &none, &[]);
    let joined = commitment_hash("root", &texts(&["a\",\"b"]), &none, &[]);
    assert_ne!(split, joined);
}

#[test]
fn stored_nodes_do_not_stand_in_for_the_leaves() {
    let mut attestation = Attestation::new_with_outputs(
        MerkleTree { leaves: texts(&["sha256:a"]), nodes: Vec::new(), leaf_count: 1 },
        &["true".to_string()],
        OutputSelection::default(),
        Vec::new(),
    );
    assert_eq!(attestation.validate(), Ok(()));
    attestation.tree.leaves = texts(&["sha256:b"]);
    attestation.tree.nodes = vec![MerkleNode { hash: "sha256:a".to_string(), is_leaf: false }];
    assert_eq!(attestation.validate(), Err(AttestationError::ProcessRootMismatch));
    attestation.process_root.clear();
    assert_eq!(attestation.validate(), Err(AttestationError::RootMismatch));
    attestation.version = "0.1.0".to_string();
    attestation.root_hash = "sha256:a".to_string();
    assert_eq!(attestation.validate(), Err(AttestationError::LegacyRootMismatch));
    attestation.root_hash = "sha256:b".to_string();
    assert_eq!(attestation.validate(), Ok(()));
}

#[test]
fn one_root_has_one_list_of_leaves() {
    let root = |leaves: &[&str]| {
        let tree = MerkleTree {
            leaves: texts(leaves),
            nodes: Vec::new(),
            leaf_count: leaves.len(),
        };
        Attestation::new_with_outputs(tree, &[], OutputSelection::default(), Vec::new()).root_hash
    };
    assert_eq!(root(&["sha256:a", "sha256:b"]), root(&["sha256:a", "sha256:b"]));
    assert_ne!(root(&["sha256:a", "sha256:b"]), root(&["sha256:a", "sha256:c"]));
    assert_ne!(root(&["sha256:a", "sha256:b"]), root(&["sha256:b", "sha256:a"]));
    assert_ne!(root(&["sha256:a", "sha256:b"]), root(&["sha256:a"]));
    assert_ne!(root(&["sha256:a"]), root(&[]));
}
