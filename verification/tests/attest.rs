use repx::attest::{
    attest, attested_outputs_metadata, check_request, covered_operations, judge, judge_dropped,
    metadata_path, output_selection_metadata, validate_output_selection, DropVerdict, Refusal,
    Verification,
};
use repx::attestation::{Attestation, OutputSelection};
use repx::file_identity::FileObservation;
use repx::operation::{CanonicalOp, OpType};
use repx::tracer::{TraceResult, TracedEvent};
use repx::workspace::{OutputFile, OutputMode, SelectedOutputs};

fn texts(list: &[&str]) -> Vec<String> {
    list.iter().map(|text| text.to_string()).collect()
}

fn content(hash: &str) -> FileObservation {
    FileObservation::Content(hash.to_string())
}

fn output(path: &str, hash: &str) -> OutputFile {
    OutputFile { path: path.to_string(), hash: hash.to_string() }
}

fn trace() -> TraceResult {
    TraceResult {
        events: vec![
            TracedEvent::Exec { pid: 1, observation: content("sha256:cc") },
            TracedEvent::FileOpen {
                pid: 1,
                path: "/w/main.c".to_string(),
                flags: 0,
                fd: 3,
                external: false,
                observation: content("sha256:source"),
            },
            TracedEvent::FileOpen {
                pid: 1,
                path: "/w/app".to_string(),
                flags: 1,
                fd: 4,
                external: false,
                observation: content("sha256:empty"),
            },
            TracedEvent::FileClose {
                pid: 1,
                fd: 4,
                path: Some("/w/app".to_string()),
                external: false,
                observation: Some(content("sha256:app")),
            },
            TracedEvent::Exec { pid: 2, observation: content("sha256:date") },
            TracedEvent::Exit { pid: 1, exit_code: 0 },
        ],
        root_pid: 1,
        dropped_events: 0,
    }
}

fn build(artifacts: &[&str]) -> Attestation {
    let outputs = vec![output("/w/app", "sha256:app")];
    let ops = covered_operations(trace(), &[], &outputs);
    let mode = if artifacts.is_empty() { OutputMode::Inferred } else { OutputMode::Explicit };
    let selected = SelectedOutputs { mode, outputs };
    attest(&ops, &texts(&["make", "app"]), "/w", &texts(artifacts), &[], &selected)
}

#[test]
fn dropped_events_fail_closed() {
    assert_eq!(judge_dropped(0, false), DropVerdict::Complete);
    assert_eq!(judge_dropped(1, true), DropVerdict::Incomplete);
    assert_eq!(judge_dropped(1, false), DropVerdict::Refused);
    let attestation = build(&[]);
    assert_eq!(judge(1, &attestation, &attestation), Verification::Inconclusive);
}

#[test]
fn outputs_decide_what_is_covered() {
    let has = |ops: &[CanonicalOp], tool: &str| {
        ops.iter().any(|op| op.op_type == OpType::Exec && op.tool_hash.as_deref() == Some(tool))
    };
    let all = covered_operations(trace(), &[], &[]);
    assert!(has(&all, "sha256:cc") && has(&all, "sha256:date"));
    let slice = covered_operations(trace(), &[], &[output("/w/app", "sha256:app")]);
    assert!(has(&slice, "sha256:cc") && !has(&slice, "sha256:date"));
}

#[test]
fn attestations_record_paths_relative_to_the_workspace() {
    assert_eq!(metadata_path("/w", "/w/dist/app"), "dist/app");
    assert_eq!(metadata_path("/w", "dist/../app"), "dist/../app");
    assert_eq!(metadata_path("/w", "/elsewhere"), "/elsewhere");
    let selection = output_selection_metadata(
        OutputMode::Explicit,
        "/w",
        &texts(&["/w/z", "a"]),
        &texts(&["/w/dist"]),
    );
    assert_eq!(
        selection,
        OutputSelection {
            mode: "explicit".to_string(),
            artifacts: texts(&["a", "z"]),
            output_roots: texts(&["dist"]),
        }
    );
    let recorded = attested_outputs_metadata("/w", &[output("/w/app", "sha256:app")]);
    assert_eq!((recorded[0].path.as_str(), recorded[0].hash.as_str()), ("app", "sha256:app"));
}

#[test]
fn the_same_build_has_the_same_root() {
    let mut one = build(&["app"]);
    let two = build(&["app"]);
    assert_eq!(one.root_hash, two.root_hash);
    assert_eq!(one.validate(), Ok(()));
    assert_eq!(judge(0, &one, &two), Verification::Verified);
    assert_eq!(judge(0, &one, &build(&[])), Verification::Mismatch);
}

#[test]
fn repeated_requests_are_accepted() {
    let explicit = build(&["/w/app"]);
    let command = texts(&["make", "app"]);
    assert_eq!(
        check_request(
            &explicit,
            Some(&explicit.root_hash),
            &command,
            "/w",
            &texts(&["app"]),
            &[]
        ),
        Ok(())
    );
    assert_eq!(check_request(&build(&[]), None, &command, "/w", &[], &[]), Ok(()));
}

#[test]
fn other_requests_are_refused() {
    let explicit = build(&["app"]);
    let command = texts(&["make", "app"]);
    let artifacts = texts(&["app"]);
    let pinned = "sha256:pinned".to_string();
    let refusal =
        check_request(&explicit, Some(&pinned), &command, "/w", &artifacts, &[]).unwrap_err();
    assert_eq!(
        refusal,
        Refusal::PinnedRoot { pinned: pinned.clone(), found: explicit.root_hash.clone() }
    );
    assert_eq!(
        refusal.message(),
        format!(
            "attestation root does not match --expected-root\n  expected: {pinned}\n  file:     {}",
            explicit.root_hash
        )
    );
    let refusal =
        check_request(&explicit, None, &texts(&["make", "a b"]), "/w", &artifacts, &[]).unwrap_err();
    assert_eq!(
        refusal.message(),
        "command differs from attestation\n  attestation: make app\n  current:     make 'a b'"
    );
    let refusal = check_request(&explicit, None, &command, "/w", &[], &[]).unwrap_err();
    assert_eq!(refusal, Refusal::SelectionNotRepeated);
    assert!(refusal.message().contains("repeat its --artifact/--output-root flags"));
    let refusal =
        validate_output_selection(&explicit.output_selection, "/w", &texts(&["other"]), &[])
            .unwrap_err();
    assert_eq!(refusal, Refusal::SelectionDiffers);
    assert_eq!(
        refusal.message(),
        "verification output selection differs from the attestation"
    );
    let inferred = build(&[]);
    assert_eq!(
        validate_output_selection(&inferred.output_selection, "/w", &artifacts, &[]),
        Err(Refusal::SelectionDiffers)
    );
}

#[test]
fn attestations_hold_the_hashes_of_their_operations() {
    let outputs = vec![output("/w/app", "sha256:app")];
    let ops = covered_operations(trace(), &[], &outputs);
    let hashes: Vec<String> = ops.iter().map(|op| op.hash()).collect();
    let attestation = build(&[]);
    assert!(!hashes.is_empty());
    assert_eq!(attestation.tree.leaves, hashes);
    assert_eq!(attestation.tree.leaf_count, ops.len());
    assert!(attestation.tree.nodes.is_empty());
}
