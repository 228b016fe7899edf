use repx::json::{json_array_of, json_string_array};
use repx::order::{sort_order, sort_set, sort_texts};
use repx::paths::{
    absolutize, is_absolute, join_path, list_starts_with, normalize_path, path_components,
    path_ends_with, path_is_under, render_path, strip_base,
};
use repx::text::{
    chars_of, format_decimal, format_hex, format_signed, format_wide, one, rank_text,
    starts_with, string_of, text_eq, trim, Rank,
};

/// All texts of at most `len` characters, over those that matter in paths.
fn path_like(len: usize) -> Vec<String> {
    let mut all = vec![String::new()];
    let mut last = all.clone();
    for _ in 0..len {
        last = last
            .iter()
            .flat_map(|text| ['/', '.', 'a'].map(|c| format!("{text}{c}")))
            .collect();
        all.extend(last.clone());
    }
    all
}

fn lossy(path: &std::path::Path) -> String {
    path.to_string_lossy().into_owned()
}

fn texts(list: &[&str]) -> Vec<String> {
    list.iter().map(|text| text.to_string()).collect()
}

#[test]
fn numbers_are_written_in_full() {
    assert_eq!(format_decimal(0), "0");
    assert_eq!(format_decimal(u64::MAX), "18446744073709551615");
    assert_eq!(format_wide(u128::MAX), "340282366920938463463374607431768211455");
    assert_eq!(format_signed(i32::MIN), "-2147483648");
    assert_eq!(format_signed(7), "7");
    assert_eq!(format_hex(&[0x00, 0xff, 0x1a]), "00ff1a");
}

#[test]
fn texts_are_taken_apart_and_put_together() {
    assert_eq!(chars_of("aé"), vec!['a', 'é']);
    assert_eq!(string_of(&['a', 'é']), "aé");
    assert!(text_eq("a", "a") && !text_eq("a", "b"));
    assert!(starts_with("abc", "ab") && !starts_with("ab", "abc"));
    assert_eq!(repx::text::concat("a", "b"), "ab");
    assert_eq!(one("a".to_string()), vec!["a"]);
    assert_eq!(trim(" \t\na b\u{3000}\r\n"), "a b");
}

#[test]
fn texts_are_ranked_as_strings_are() {
    for a in ["", "a", "aa", "b", "é", "\u{ffff}", "\u{10000}"] {
        for b in ["", "a", "aa", "b", "é", "\u{ffff}", "\u{10000}"] {
            assert_eq!(matches!(rank_text(a, b), Rank::Before), a < b);
            assert_eq!(matches!(rank_text(a, b), Rank::Same), a == b);
        }
    }
}

#[test]
fn sorting_agrees_with_the_standard_sort() {
    let given = texts(&["b", "a", "", "b", "é", "a/b", "a.b"]);
    let mut sorted = given.clone();
    sorted.sort();
    assert_eq!(sort_texts(&given), sorted);
    sorted.dedup();
    assert_eq!(sort_set(&given), sorted);
    assert_eq!(sort_order(&texts(&["b", "a", "b", "a"])), vec![1, 3, 0, 2]);
}

#[test]
fn json_is_escaped() {
    assert_eq!(json_string_array(&[]), "[]");
    assert_eq!(
        json_string_array(&texts(&["a\"b", "\\", "\n\u{1}", "é"])),
        "[\"a\\\"b\",\"\\\\\",\"\\n\\u0001\",\"é\"]"
    );
    assert_eq!(json_array_of(&texts(&["1", "{}"])), "[1,{}]");
}

#[test]
fn paths_have_components() {
    assert_eq!(path_components("/a//b/./c/"), vec!["/", "a", "b", "c"]);
    assert_eq!(path_components("./a/../b"), vec![".", "a", "..", "b"]);
    assert!(path_components("").is_empty());
    assert_eq!(render_path(&texts(&["/", "a", "b"])), "/a/b");
    assert_eq!(join_path("/a", "b"), "/a/b");
    assert_eq!(join_path("/a/", "b"), "/a/b");
    assert_eq!(join_path("/a", "/b"), "/b");
    assert_eq!(join_path("", "b"), "b");
    assert!(is_absolute("/a") && !is_absolute("a"));
}

#[test]
fn paths_are_normalized_by_their_text() {
    assert_eq!(normalize_path("/a/./b/../c"), "/a/c");
    assert_eq!(normalize_path("/../a"), "/a");
    assert_eq!(normalize_path("a/../.."), "");
    assert_eq!(absolutize("/w", "dist/./app"), "/w/dist/app");
    assert_eq!(absolutize("/w", "/x/../y"), "/y");
}

#[test]
fn paths_are_compared_by_component() {
    assert!(path_is_under("/w/dist/app", "/w/dist/"));
    assert!(!path_is_under("/w/distant", "/w/dist"));
    assert!(path_ends_with("/w/dist/app", "dist/app"));
    assert!(!path_ends_with("/w/dist/app", "t/app"));
    assert!(list_starts_with(&texts(&["a", "b"]), &texts(&["a"])));
    assert_eq!(strip_base("/w/dist/app", "/w").as_deref(), Some("dist/app"));
    assert_eq!(strip_base("/w", "/w").as_deref(), Some(""));
    assert_eq!(strip_base("/x", "/w"), None);
}

#[test]
fn paths_agree_with_the_standard_library() {
    for text in path_like(6) {
        let path = std::path::Path::new(&text);
        let components: Vec<String> =
            path.components().map(|part| lossy(part.as_os_str().as_ref())).collect();
        assert_eq!(path_components(&text), components, "{text:?}");
        assert_eq!(is_absolute(&text), path.is_absolute());
        let mut normal = std::path::PathBuf::new();
        for part in path.components() {
            match part {
                std::path::Component::CurDir => {}
                std::path::Component::ParentDir => {
                    normal.pop();
                }
                other => normal.push(other.as_os_str()),
            }
        }
        assert_eq!(normalize_path(&text), lossy(&normal), "{text:?}");
    }
    let texts = path_like(4);
    for a in &texts {
        for b in &texts {
            let (x, y) = (std::path::Path::new(a), std::path::Path::new(b));
            assert_eq!(join_path(a, b), lossy(&x.join(y)), "{a:?} {b:?}");
            assert_eq!(path_is_under(a, b), x.starts_with(y), "{a:?} {b:?}");
            assert_eq!(path_ends_with(a, b), x.ends_with(y), "{a:?} {b:?}");
            assert_eq!(strip_base(a, b), x.strip_prefix(y).ok().map(lossy), "{a:?} {b:?}");
        }
    }
}
