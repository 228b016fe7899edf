use repx::digest::hash_bytes;
use repx::file_identity::FileProbe;
use repx::workspace::{
    changed_outputs, display_path, is_git_dir, select_outputs, snapshot, ArtifactError, ArtifactProblem,
    Child, EntryKind, Found, OutputMode,
};

fn file(content: &[u8]) -> Found {
    Found::File(FileProbe::Content(content.to_vec()))
}

fn dir(path: &str, children: Vec<(&str, Found)>) -> Found {
    Found::Directory {
        canonical: Some(path.to_string()),
        children: children
            .into_iter()
            .map(|(name, found)| Child { name: name.to_string(), found })
            .collect(),
    }
}

#[test]
fn detects_changed_regular_file() {
    let root = "/tmp/repx-workspace-regular";

    let before = snapshot(root, &dir(root, vec![])).unwrap();
    let after = snapshot(root, &dir(root, vec![("artifact.txt", file(b"artifact"))])).unwrap();

    let outputs = changed_outputs(&before, &after);
    assert_eq!(outputs.len(), 1);
    assert!(outputs[0].path.ends_with("artifact.txt"));
}

#[test]
fn follows_symlinked_output_file() {
    let root = "/tmp/repx-workspace-symlink-root";
    let target = "/tmp/repx-workspace-symlink-target";

    let before = snapshot(root, &dir(root, vec![])).unwrap();
    let link = Found::Symlink {
        target: Some(format!("{target}/artifact.txt")),
        content: Some(FileProbe::Content(b"artifact".to_vec())),
    };
    let after = snapshot(root, &dir(root, vec![("artifact-link", link)])).unwrap();

    let outputs = changed_outputs(&before, &after);
    assert!(outputs
        .iter()
        .any(|output| output.path.ends_with("artifact-link")));
}

#[test]
fn explicit_artifact_is_selected_even_if_unchanged() {
    let root = "/tmp/repx-workspace-explicit-artifact";
    let found = dir(root, vec![("artifact.txt", file(b"artifact"))]);

    let before = snapshot(root, &found).unwrap();
    let after = snapshot(root, &found).unwrap();

    let selected =
        select_outputs(&before, &after, root, &["artifact.txt".to_string()], &[]).unwrap();

    assert_eq!(selected.mode, OutputMode::Explicit);
    assert_eq!(selected.outputs.len(), 1);
    assert!(selected.outputs[0].path.ends_with("artifact.txt"));
}

#[test]
fn output_root_filters_changed_outputs() {
    let root = "/tmp/repx-workspace-output-root";
    let dist = format!("{root}/dist");
    let logs = format!("{root}/logs");

    let before =
        snapshot(root, &dir(root, vec![("dist", dir(&dist, vec![])), ("logs", dir(&logs, vec![]))]))
            .unwrap();
    let after = snapshot(
        root,
        &dir(
            root,
            vec![
                ("dist", dir(&dist, vec![("app", file(b"app"))])),
                ("logs", dir(&logs, vec![("build.log", file(b"log"))])),
            ],
        ),
    )
    .unwrap();

    let selected = select_outputs(&before, &after, root, &[], &["dist".to_string()]).unwrap();

    assert_eq!(selected.outputs.len(), 1);
    assert!(selected.outputs[0].path.ends_with("dist/app"));
}

#[test]
fn entries_show_what_stands_at_a_path() {
    let taken = snapshot(
        "/w",
        &dir(
            "/w",
            vec![
                ("a", file(b"a")),
                ("gone", Found::Absent),
                ("pipe", Found::Other),
                ("link", Found::Symlink { target: Some("nowhere".to_string()), content: None }),
            ],
        ),
    )
    .unwrap();
    let a = taken.get("/w/a").unwrap();
    assert_eq!((a.kind, a.hash.clone()), (EntryKind::File, Some(hash_bytes(b"a"))));
    let link = taken.get("/w/link").unwrap();
    assert_eq!((link.kind, link.hash.clone()), (EntryKind::Symlink, None));
    assert_eq!(link.target.as_deref(), Some("nowhere"));
    assert!(taken.get("/w/gone").is_none());
    assert!(taken.get("/w/pipe").is_none());
}

#[test]
fn directories_are_walked_once() {
    let again = dir("/w", vec![("b", file(b"b"))]);
    let taken = snapshot("/w", &dir("/w", vec![("a", file(b"a")), ("self", again)])).unwrap();
    assert!(taken.get("/w/a").is_some());
    assert!(taken.get("/w/self/b").is_none());
    let nameless = Found::Directory { canonical: None, children: vec![] };
    assert!(snapshot("/w", &nameless).is_none());
}

#[test]
fn unchanged_workspaces_have_no_outputs() {
    let found = dir("/w", vec![("a", file(b"a")), ("b", file(b"b"))]);
    let before = snapshot("/w", &found).unwrap();
    let after = snapshot("/w", &found).unwrap();
    assert!(changed_outputs(&before, &after).is_empty());
    let selected = select_outputs(&before, &after, "/w", &[], &[]).unwrap();
    assert_eq!(selected.mode, OutputMode::Inferred);
    assert!(selected.outputs.is_empty());
}

#[test]
fn changed_outputs_come_in_the_order_of_their_paths() {
    let before = snapshot("/w", &dir("/w", vec![("b", file(b"old")), ("c", file(b"c"))])).unwrap();
    let after = snapshot(
        "/w",
        &dir("/w", vec![("c", file(b"c")), ("b", file(b"new")), ("a", file(b"a"))]),
    )
    .unwrap();
    let outputs = changed_outputs(&before, &after);
    let paths: Vec<&str> = outputs.iter().map(|output| output.path.as_str()).collect();
    assert_eq!(paths, vec!["/w/a", "/w/b"]);
    assert_eq!(outputs[1].hash, hash_bytes(b"new"));
}

#[test]
fn artifacts_that_cannot_be_attested_are_refused() {
    let found = dir(
        "/w",
        vec![("d", dir("/w/d", vec![])), ("secret", Found::File(FileProbe::Unreadable))],
    );
    let before = snapshot("/w", &found).unwrap();
    let after = snapshot("/w", &found).unwrap();
    let refuse = |artifact: &str| {
        select_outputs(&before, &after, "/w", &[artifact.to_string()], &[]).unwrap_err()
    };
    let error = refuse("none");
    assert_eq!(
        error,
        ArtifactError { problem: ArtifactProblem::Missing, artifact: "none".to_string() }
    );
    assert_eq!(error.message(), "explicit artifact does not exist after build: none");
    let error = refuse("d");
    assert_eq!(error.problem, ArtifactProblem::NotRegular);
    assert_eq!(error.message(), "explicit artifact is not a regular file: d");
    assert_eq!(refuse("secret").problem, ArtifactProblem::Missing);
    let error =
        ArtifactError { problem: ArtifactProblem::NotHashed, artifact: "secret".to_string() };
    assert_eq!(error.message(), "explicit artifact could not be hashed: secret");
}

#[test]
fn paths_are_shown_relative_to_the_workspace() {
    assert_eq!(display_path("/w", "/w/dist/app"), "dist/app");
    assert_eq!(display_path("/w", "/elsewhere/app"), "/elsewhere/app");
}

#[test]
fn version_control_directories_are_not_walked() {
    assert!(is_git_dir("/w/.git") && is_git_dir("/w/.git/"));
    assert!(!is_git_dir("/w/.gitignore") && !is_git_dir("/w/.git/hooks"));
    let git = dir("/w/.git", vec![("HEAD", file(b"ref"))]);
    let taken = snapshot("/w", &dir("/w", vec![(".git", git), ("a", file(b"a"))])).unwrap();
    assert!(taken.get("/w/.git").is_none());
    assert!(taken.get("/w/.git/HEAD").is_none());
    assert!(taken.get("/w/a").is_some());
}
