use repx::attestation::{Attestation, AttestedOutput, OutputSelection};
use repx::harness::{
    attested_text, opening_text, run_drops_text, run_file_name, short_root, verdict_text, Harness,
    HarnessConfig, HarnessError,
};
use repx::attest::DropVerdict;
use repx::merkle::MerkleTree;
use repx::stability::{analyze, RunStability, StabilityError, StabilityReport};

fn attestation(leaves: &[&str], command: &str) -> Attestation {
    Attestation::new_with_outputs(
        MerkleTree {
            leaves: leaves.iter().map(|leaf| (*leaf).to_string()).collect(),
            nodes: Vec::new(),
            leaf_count: leaves.len(),
        },
        &[command.to_string()],
        OutputSelection::default(),
        Vec::<AttestedOutput>::new(),
    )
}

fn leaf_jaccard(run: &RunStability) -> f64 {
    if run.all_leaves == 0 {
        1.0
    } else {
        run.shared_leaves as f64 / run.all_leaves as f64
    }
}

fn minimum_leaf_jaccard(report: &StabilityReport) -> f64 {
    report.runs.iter().map(leaf_jaccard).fold(1.0, f64::min)
}

fn config(runs: usize, allow_dropped_events: bool) -> HarnessConfig {
    HarnessConfig {
        runs,
        watch_dirs: vec![],
        artifacts: vec![],
        output_roots: vec![],
        allow_dropped_events,
        command: vec!["true".to_string()],
        output_dir: None,
    }
}

#[test]
fn reports_root_and_leaf_set_stability() {
    let report = analyze(&[
        ("first.json".into(), attestation(&["a", "b"], "make")),
        ("second.json".into(), attestation(&["a", "b"], "make")),
        ("third.json".into(), attestation(&["a", "c"], "make")),
    ])
    .unwrap();

    assert_eq!(report.root_matches, 2);
    assert_eq!(report.process_root_matches, 2);
    assert_eq!(minimum_leaf_jaccard(&report), 1.0 / 3.0);
    assert_eq!(report.runs[2].missing_leaves, 1);
    assert_eq!(report.runs[2].added_leaves, 1);
}

#[test]
fn empty_leaf_sets_are_identical() {
    let report = analyze(&[
        ("first.json".into(), attestation(&[], "true")),
        ("second.json".into(), attestation(&[], "true")),
    ])
    .unwrap();

    assert_eq!(minimum_leaf_jaccard(&report), 1.0);
}

#[test]
fn harness_requires_at_least_two_runs() {
    let result = Harness::begin(&config(1, false));
    assert!(result.is_err());
    assert!(
        result.err().unwrap().message().contains("at least 2 runs"),
        "expected 'at least 2 runs' error"
    );
}

#[test]
fn runs_are_compared_with_the_first() {
    let report = analyze(&[
        ("first.json".into(), attestation(&["a", "b"], "make")),
        ("second.json".into(), attestation(&["a", "b"], "make all")),
        ("third.json".into(), attestation(&["b", "c", "d"], "make")),
    ])
    .unwrap();
    assert_eq!(report.baseline, "first.json");
    assert_eq!((report.run_count, report.root_matches, report.process_root_matches), (3, 1, 2));
    assert!(report.runs[0].root_match && report.runs[0].process_root_match);
    assert!(!report.runs[1].root_match && report.runs[1].process_root_match);
    assert_eq!((report.runs[0].shared_leaves, report.runs[0].all_leaves), (2, 2));
    let third = &report.runs[2];
    assert_eq!(third.path, "third.json");
    assert_eq!((third.leaf_count, third.shared_leaves, third.all_leaves), (3, 1, 4));
    assert_eq!((third.missing_leaves, third.added_leaves), (1, 2));
}

#[test]
fn one_attestation_cannot_be_compared() {
    let error = analyze(&[("only.json".into(), attestation(&["a"], "make"))]).err().unwrap();
    assert_eq!(error, StabilityError::TooFew);
    assert_eq!(error.message(), "stability analysis requires at least two attestations");
    assert!(analyze(&[]).is_err());
}

#[test]
fn an_experiment_counts_its_runs() {
    let mut harness = Harness::begin(&config(2, false)).ok().unwrap();
    assert_eq!(harness.next_run(), Some(1));
    assert_eq!(harness.decide(0), Ok(DropVerdict::Complete));
    harness.record("run-001".to_string(), attestation(&["a"], "make"), 0);
    assert!(harness.report().is_err());
    assert_eq!(harness.next_run(), Some(2));
    let error = harness.decide(5).unwrap_err();
    assert_eq!(error, HarnessError::Dropped { run: 2, events: 5 });
    assert_eq!(
        error.message(),
        "Run 2 dropped 5 events. Use --allow-dropped-events to continue anyway."
    );
    harness.record("run-002".to_string(), attestation(&["a"], "make"), 0);
    assert_eq!(harness.next_run(), None);
    assert_eq!(harness.dropped_text(), "");
    let report = harness.report().unwrap();
    assert_eq!((report.run_count, report.root_matches), (2, 2));
    assert_eq!(verdict_text(&report), "All 2 runs produced identical attestation roots.\n");
}

#[test]
fn allowed_drops_are_summed_up() {
    let mut harness = Harness::begin(&config(2, true)).ok().unwrap();
    assert_eq!(harness.decide(u64::MAX), Ok(DropVerdict::Incomplete));
    harness.record("run-001".to_string(), attestation(&["a"], "make"), u64::MAX);
    harness.record("run-002".to_string(), attestation(&["b"], "make"), 1);
    assert_eq!(
        harness.dropped_text(),
        "Total dropped events across 2 runs: 18446744073709551616\n"
    );
    let report = harness.report().unwrap();
    assert_eq!(
        verdict_text(&report),
        "WARNING: 1 of 2 runs produced a different attestation root.\n"
    );
}

#[test]
fn runs_are_named_and_shortened() {
    assert_eq!(run_file_name(1), "run-001-attestation.json");
    assert_eq!(run_file_name(42), "run-042-attestation.json");
    assert_eq!(run_file_name(1000), "run-1000-attestation.json");
    assert_eq!(short_root("sha256:0123456789abcdef"), "sha256:012345678");
    assert_eq!(short_root("short"), "short");
    assert_eq!(
        HarnessError::TooFewRuns(0).message(),
        "determinism harness requires at least 2 runs (got 0)"
    );
}

#[test]
fn experiments_say_what_they_do() {
    let mut wanted = config(20, false);
    let harness = Harness::begin(&wanted).ok().unwrap();
    assert_eq!(harness.run_text(3), "  Run 3/20 ... ");
    wanted.command = vec!["make".to_string(), "all".to_string()];
    wanted.output_roots = vec![];
    wanted.artifacts = vec![];
    assert_eq!(
        opening_text(&wanted, "[]", "[]"),
        "repx determinism harness — 20 runs\n  Command: make all\n\n"
    );
    wanted.output_roots = vec!["dist".to_string()];
    wanted.artifacts = vec!["app".to_string()];
    assert_eq!(
        opening_text(&wanted, "[\"dist\"]", "[\"app\"]"),
        "repx determinism harness — 20 runs\n  Command: make all\n  Output roots: [\"dist\"]\n  \
         Artifacts: [\"app\"]\n\n"
    );
    assert_eq!(run_drops_text(0, true), "");
    assert_eq!(run_drops_text(7, true), "WARNING: 7 dropped, ");
    assert_eq!(run_drops_text(7, false), "FAILED (7 events dropped)\n");
    let mut attested = attestation(&["a", "b"], "make");
    attested.root_hash = "sha256:0123456789abcdef".to_string();
    assert_eq!(attested_text(&attested), "root=sha256:012345678... leaf_count=2\n");
}
