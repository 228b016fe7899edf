use repx::digest::{format_digest, hash_bytes};
use repx::file_identity::{
    hash_file_contents, hash_path, is_path_within, is_session_temp_component, is_system_state,
    normalize_compiler_temp_component, normalize_unavailable_path, observe_path, FileObservation,
    FileProbe, SYSTEM_STATE_SENTINEL,
};

fn missing(path: &str) -> String {
    observe_path(path, &FileProbe::Missing).identity()
}

#[test]
fn system_state_matching_respects_path_boundaries() {
    assert!(is_system_state("/proc/cpuinfo"));
    assert!(is_system_state("/etc/os-release"));
    assert!(!is_system_state("/etc/os-release-evil"));
    assert!(!is_system_state("/proc-evil/cpuinfo"));
}

#[test]
fn missing_files_are_bound_to_their_paths() {
    let first = missing("/definitely-missing/repx-a");
    let second = missing("/definitely-missing/repx-b");
    assert!(first.starts_with("missing:sha256:"));
    assert_ne!(first, second);
}

#[test]
fn unavailable_session_paths_are_normalized() {
    let first = missing("/tmp/tmp.ABCDEF/src/gone");
    let second = missing("/tmp/tmp.XYZ123/src/gone");
    assert_eq!(first, second);

    let compiler_first = missing("/tmp/ccABCDEF.s");
    let compiler_second = missing("/tmp/ccUVWXYZ.s");
    assert_eq!(compiler_first, compiler_second);
}

#[test]
fn watched_paths_respect_directory_boundaries() {
    assert!(is_path_within("/tmp/build/out", "/tmp/build"));
    assert!(!is_path_within("/tmp/build-evil/out", "/tmp/build"));
}

#[test]
fn prefixes_cover_themselves_and_what_lies_below() {
    assert!(is_path_within("/tmp/build", "/tmp/build"));
    assert!(is_path_within("/tmp/build/", "/tmp/build"));
    assert!(!is_path_within("/tmp", "/tmp/build"));
}

#[test]
fn content_is_hashed_with_sha256() {
    assert_eq!(
        hash_bytes(b"abc"),
        "sha256:ba7816bf8f01cfea414140de5dae2223b00361a396177a9cb410ff61f20015ad"
    );
    assert_eq!(
        hash_bytes(b""),
        "sha256:e3b0c44298fc1c149afbf4c8996fb92427ae41e4649b934ca495991b7852b855"
    );
    let mut digest = [0u8; 32];
    digest[0] = 0x0f;
    digest[31] = 0xa0;
    assert_eq!(
        format_digest(&digest),
        "sha256:0f000000000000000000000000000000000000000000000000000000000000a0"
    );
}

#[test]
fn observations_show_what_was_found() {
    let abc = "sha256:ba7816bf8f01cfea414140de5dae2223b00361a396177a9cb410ff61f20015ad";
    let content = observe_path("/src/a", &FileProbe::Content(b"abc".to_vec()));
    assert_eq!(content, FileObservation::Content(abc.to_string()));
    assert_eq!(content.identity(), abc);
    assert_eq!(content.content_hash(), Some(abc));
    assert_eq!(content.duplicate(), content);

    let path_hash = hash_path("/src/a");
    assert_eq!(
        path_hash,
        "sha256:699764c4d62fcb3e8b9a98ac524fcb1b4fa5f0936fc496f4fc7657c75f4a1291"
    );
    for (probe, label) in [
        (FileProbe::Missing, "missing:"),
        (FileProbe::Unreadable, "unreadable:"),
        (FileProbe::NonRegular, "non-regular:"),
    ] {
        let observation = observe_path("/src/a", &probe);
        assert_eq!(observation.identity(), format!("{label}{path_hash}"));
        assert_eq!(observation.content_hash(), None);
        assert_eq!(observation.duplicate(), observation);
        assert_eq!(hash_file_contents(&probe), None);
    }
    assert_eq!(hash_file_contents(&FileProbe::Content(b"abc".to_vec())), Some(abc.to_string()));
}

#[test]
fn generated_names_are_recognized() {
    assert!(is_session_temp_component("tmp.ABCDEF"));
    assert!(!is_session_temp_component("tmp"));
    assert_eq!(normalize_compiler_temp_component("ccABCDEF.s"), "<compiler-temp>.s");
    assert_eq!(normalize_compiler_temp_component("main.s"), "main.s");
    assert_eq!(
        normalize_unavailable_path("/tmp/tmp.ABCDEF/src/gone"),
        "/tmp/<session>/src/gone"
    );
    assert_eq!(normalize_unavailable_path("/src/tmp.ABCDEF"), "/src/tmp.ABCDEF");
    assert_eq!(normalize_unavailable_path("/dev/pts/12"), "/dev/pts/<session>");
    assert_eq!(normalize_unavailable_path("/dev/pts/x"), "/dev/pts/x");
}

#[test]
fn the_sentinel_stands_for_no_hash() {
    assert!(SYSTEM_STATE_SENTINEL.starts_with("SYSTEM_STATE:"));
    assert_eq!(SYSTEM_STATE_SENTINEL.len(), "SYSTEM_STATE:".len() + 64);
}

#[test]
fn separators_at_the_end_of_a_prefix_do_not_matter() {
    for path in ["/tmp/build", "/tmp/build/out", "/tmp/build-evil", "/tmp", "relative"] {
        assert_eq!(is_path_within(path, "/tmp/build"), is_path_within(path, "/tmp/build/"));
        assert_eq!(is_path_within(path, "/tmp/build"), is_path_within(path, "/tmp/build///"));
        assert!(is_path_within(path, "/"));
        assert!(is_path_within(path, ""));
    }
}

#[test]
fn lying_within_carries_over() {
    assert!(is_path_within("/w/dist/bin/app", "/w/dist/"));
    assert!(is_path_within("/w/dist/", "/w"));
    assert!(is_path_within("/w/dist/bin/app", "/w"));
}

#[test]
fn generated_names_do_not_matter_in_whole_paths() {
    assert_eq!(
        missing("/tmp/tmp.a1B2c3/build/ccAbCd12.s"),
        missing("/tmp/tmp.Zz9Yy8x/build/ccQwErTy9.s")
    );
    assert_ne!(
        missing("/tmp/tmp.a1B2c3/build/ccAbCd12.s"),
        missing("/tmp/tmp.a1B2c3/build/ccAbCd12.o")
    );
    assert_ne!(missing("/home/tmp.a1B2c3/x"), missing("/home/tmp.Zz9Yy8x/x"));
    assert_eq!(missing("/dev/pts/3"), missing("/dev/pts/12"));
    assert_ne!(missing("/dev/pts/3"), missing("/dev/pts/ptmx"));
}
