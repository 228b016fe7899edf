use repx::attestation::{Attestation, AttestedOutput, OutputSelection};
use repx::merkle::MerkleTree;
use repx::report::{
    explain_attestation, format_command, print_attestation_diff, print_output_delta,
    print_string_list_delta, same_command, same_selection, shell_display_arg,
};

fn texts(list: &[&str]) -> Vec<String> {
    list.iter().map(|text| text.to_string()).collect()
}

fn outputs(list: &[(&str, &str)]) -> Vec<AttestedOutput> {
    list.iter()
        .map(|(path, hash)| AttestedOutput { path: path.to_string(), hash: hash.to_string() })
        .collect()
}

fn attestation(leaves: &[&str], command: &[&str], out: &[(&str, &str)]) -> Attestation {
    let tree = MerkleTree { leaves: texts(leaves), nodes: vec![], leaf_count: leaves.len() };
    let selection = OutputSelection {
        mode: "explicit".to_string(),
        artifacts: texts(&["app"]),
        output_roots: texts(&["dist"]),
    };
    Attestation::new_with_outputs(tree, &texts(command), selection, outputs(out))
}

#[test]
fn arguments_are_shown_as_typed() {
    assert_eq!(shell_display_arg(""), "''");
    assert_eq!(shell_display_arg("--jobs=4"), "--jobs=4");
    assert_eq!(shell_display_arg("a b"), "'a b'");
    assert_eq!(shell_display_arg("it's"), "'it'\"'\"'s'");
    assert_eq!(format_command(&texts(&["make", "all targets"])), "make 'all targets'");
    assert_eq!(format_command(&[]), "");
}

#[test]
fn attestations_are_explained() {
    let a = attestation(&["l"], &["make"], &[("app", "sha256:app")]);
    assert_eq!(
        explain_attestation(&a),
        format!(
            "Root hash: {}\nProcess-set root: l\nPredicate: {}\nCommand: make\n\
             Output selection: explicit\nArtifacts:\n  - app\nOutput roots:\n  - dist\n\
             Outputs: 1\n  - sha256:app app\nMerkle leaves: 1\n\
             Commitment semantics: sorted set of distinct covered operations\n",
            a.root_hash, a.predicate_type
        )
    );
    let mut bare = attestation(&[], &["make"], &[]);
    bare.output_selection = OutputSelection::default();
    assert!(!explain_attestation(&bare).contains("Artifacts:"));
}

#[test]
fn an_attestation_does_not_differ_from_itself() {
    let a = attestation(&["l", "m"], &["make"], &[("app", "sha256:app")]);
    assert_eq!(
        print_attestation_diff(&a, &a),
        format!(
            "Root hash: matches ({})\nOutputs: all 1 match\nCanonical op count: 2\n\
             Operation set: no differences\n",
            a.root_hash
        )
    );
}

#[test]
fn differences_are_listed() {
    let a = attestation(&["l", "m"], &["make"], &[("a", "1"), ("b", "2")]);
    let mut b = attestation(&["m", "n", "o"], &["make", "all"], &[("b", "3"), ("c", "4")]);
    b.output_selection.artifacts = texts(&["other"]);
    let diff = print_attestation_diff(&a, &b);
    assert!(diff.starts_with(&format!(
        "Root hash:\n  expected: {}\n  actual:   {}\n\
         Command changed:\n  expected: make\n  actual:   make all\n\
         Output selection changed:\n  expected mode: explicit\n  actual mode:   explicit\n  \
         missing artifact: app\n  added artifact: other\n",
        a.root_hash, b.root_hash
    )));
    assert!(diff.contains("Canonical op count changed:\n  expected: 2\n  actual:   3\n"));
    assert!(diff.ends_with(
        "Operation set changed: 1 missing, 2 added\n  missing: l\n  added:   n\n  added:   o\n"
    ));
}

#[test]
fn long_operation_lists_are_cut_short() {
    let many: Vec<String> = (0..14).map(|i| format!("leaf-{i:02}")).collect();
    let leaves: Vec<&str> = many.iter().map(|leaf| leaf.as_str()).collect();
    let a = attestation(&leaves, &["make"], &[]);
    let b = attestation(&[], &["make"], &[]);
    let diff = print_attestation_diff(&a, &b);
    assert!(diff.contains("Operation set changed: 14 missing, 0 added\n"));
    assert!(diff.contains("  missing: leaf-11\n"));
    assert!(!diff.contains("  missing: leaf-12\n"));
    assert!(diff.ends_with("  ... 2 more\n"));
    assert!(diff.contains("Outputs: none recorded\n"));
}

#[test]
fn output_changes_are_counted_and_listed() {
    let delta = print_output_delta(
        &outputs(&[("a", "1"), ("b", "2"), ("same", "9")]),
        &outputs(&[("b", "3"), ("c", "4"), ("same", "9")]),
    );
    assert!(delta.starts_with("Outputs changed: 1 changed, 1 missing, 1 added\n"));
    assert!(delta.contains("  missing: 1 a\n"));
    assert!(delta.contains("  added:   4 c\n"));
    assert_eq!(
        print_output_delta(&outputs(&[("a", "1")]), &outputs(&[("a", "1")])),
        "Outputs: all 1 match\n"
    );
    let many: Vec<String> = (0..25).map(|i| format!("f{i:02}")).collect();
    let list: Vec<(&str, &str)> = many.iter().map(|path| (path.as_str(), "h")).collect();
    let delta = print_output_delta(&outputs(&list), &outputs(&[]));
    assert!(delta.contains("  missing: h f19\n"));
    assert!(!delta.contains("  missing: h f20\n"));
    assert!(delta.ends_with("  ... more output differences omitted\n"));
}

#[test]
fn lists_are_compared_as_sets() {
    assert_eq!(
        print_string_list_delta("artifact", &texts(&["b", "a", "a"]), &texts(&["c", "b"])),
        "  missing artifact: a\n  added artifact: c\n"
    );
    assert_eq!(print_string_list_delta("artifact", &texts(&["a"]), &texts(&["a", "a"])), "");
}

#[test]
fn selections_and_commands_are_compared_in_full() {
    let one = attestation(&[], &["make"], &[]).output_selection;
    let mut other = one.clone();
    assert!(same_selection(&one, &other));
    other.output_roots.clear();
    assert!(!same_selection(&one, &other));
    assert!(same_command(&texts(&["a", "b"]), &texts(&["a", "b"])));
    assert!(!same_command(&texts(&["a", "b"]), &texts(&["b", "a"])));
}
