use nuillu_code::encoding::{
    decimal_text, fitting_prefix, hex_text, sha256_hex, to_ascii_lower, truncate_utf8,
};
use nuillu_code::failure::FailureKind;
use nuillu_code::glob::{glob_matches, validate_glob};
use nuillu_code::paths::{
    complete_delimited_prefix, conflict_path_is_valid, declares_state_dir_ignore,
    is_transaction_file_name, join_path, path_contains, split_nul_paths, transaction_file_name,
    validate_relative_path,
};
use nuillu_code::scan::{count_and_replace, has_text, lines_of, trim, trim_line_end};
use nuillu_code::sorted::{insert_unique, sort};

fn texts(list: &[&str]) -> Vec<String> {
    list.iter().map(|text| text.to_string()).collect()
}

#[test]
fn path_validation_rejects_escape_and_git() {
    assert!(validate_relative_path("src/lib.rs").is_ok());
    assert!(validate_relative_path("../secret").is_err());
    assert!(validate_relative_path("/etc/passwd").is_err());
    assert!(validate_relative_path(".git/config").is_err());
    assert!(validate_relative_path("src//lib.rs").is_err());
    assert!(validate_relative_path(".nuillu-code-1.tmp").is_err());
}

#[test]
fn glob_matching_respects_segment_boundaries() {
    // A pattern without `/` matches the file name only.
    assert!(glob_matches("*.rs", "src/deep/lib.rs"));
    assert!(!glob_matches("*.rs", "src/lib.rs.bak"));
    // `*` stops at a separator, `**` crosses it.
    assert!(glob_matches("src/*.rs", "src/lib.rs"));
    assert!(!glob_matches("src/*.rs", "src/deep/lib.rs"));
    assert!(glob_matches("src/**/*.rs", "src/deep/lib.rs"));
    assert!(glob_matches("src/**", "src/deep/lib.rs"));
    // `?` is one character, never a separator.
    assert!(glob_matches("src/li?.rs", "src/lib.rs"));
    assert!(!glob_matches("src?lib.rs", "src/lib.rs"));
    assert!(!glob_matches("", "src/lib.rs"));
}

/// A backtracking matcher needs exponential time here. Nothing bounds this
/// call, so it must stay polynomial.
#[test]
fn glob_matching_does_not_blow_up_on_repeated_wildcards() {
    let candidate = format!("a/{}", "a".repeat(64));
    let start = std::time::Instant::now();
    assert!(!glob_matches("a/**a**a**a**a**a**a**a**a**b", &candidate));
    assert!(start.elapsed() < std::time::Duration::from_secs(1));
}

#[test]
fn utf8_truncation_preserves_boundaries() {
    assert_eq!(truncate_utf8("aあいう", 4), "aあ…");
}

#[test]
fn every_path_refusal_has_its_kind_and_message() {
    let kind = |path: &str| validate_relative_path(path).unwrap_err();
    assert_eq!(kind("").kind, FailureKind::EmptyPath);
    assert_eq!(kind("").message, "path must not be empty");
    assert_eq!(kind("a/../b").kind, FailureKind::NotRelative);
    assert_eq!(kind("/a").kind, FailureKind::NotRelative);
    assert_eq!(kind("./a").kind, FailureKind::NotRelative);
    assert_eq!(kind("a/.git/b").kind, FailureKind::GitPath);
    assert_eq!(kind("a/.git/b").message, ".git is always forbidden");
    assert_eq!(kind("a/.nuillu-code-7.tmp").kind, FailureKind::ReservedPath);
    assert_eq!(kind("a/").kind, FailureKind::NotCanonical);
    assert_eq!(kind("a/./b").kind, FailureKind::NotCanonical);
    assert!(validate_relative_path(".github/a b.txt").is_ok());
    assert!(validate_relative_path(".gitignore").is_ok());
    assert!(validate_relative_path("...").is_ok());
}

#[test]
fn transaction_names_are_reserved() {
    assert_eq!(transaction_file_name(12), ".nuillu-code-12.tmp");
    assert!(is_transaction_file_name(&transaction_file_name(u64::MAX)));
    assert!(!is_transaction_file_name(".nuillu-code-12"));
    assert_ne!(transaction_file_name(1), transaction_file_name(11));
}

#[test]
fn scopes_hold_whole_segments() {
    assert!(path_contains("src", "src"));
    assert!(path_contains("src", "src/lib.rs"));
    assert!(path_contains("src/", "src/lib.rs"));
    assert!(!path_contains("src", "src2/lib.rs"));
    assert!(!path_contains("src/lib", "src/lib.rs"));
    assert_eq!(join_path("/work", "a/b"), "/work/a/b");
    assert_eq!(join_path("/", "a"), "/a");
}

#[test]
fn globs_are_relative_and_not_negated() {
    assert!(validate_glob("*.rs").is_ok());
    for glob in ["", "!a", "/a", "a/../b"] {
        let failure = validate_glob(glob).unwrap_err();
        assert_eq!(failure.kind, FailureKind::BadGlob);
        assert_eq!(failure.message, "glob must be a non-negated workspace-relative pattern");
    }
    // A question mark stands for a character, not for a byte of one.
    assert!(glob_matches("?.txt", "あ.txt"));
    assert!(!glob_matches("??.txt", "あ.txt"));
    assert!(glob_matches("**", "a/b/c"));
    assert!(!glob_matches("a/*", "a/b/c"));
}

#[test]
fn listings_are_split_at_zero_bytes() {
    assert_eq!(split_nul_paths(b"a\0b/c\0\0").unwrap(), texts(&["a", "b/c"]));
    assert_eq!(split_nul_paths(b"").unwrap(), texts(&[]));
    assert_eq!(split_nul_paths(b"a\0../b\0").unwrap_err().kind, FailureKind::NotRelative);
    assert_eq!(split_nul_paths(b"a\0\xff\0").unwrap_err().kind, FailureKind::NonUtf8Path);
    assert_eq!(complete_delimited_prefix(b"a\0b\0c", 0), b"a\0b\0");
    assert_eq!(complete_delimited_prefix(b"abc", 0), b"");
}

#[test]
fn ignore_rules_for_the_state_directory() {
    for line in [".nuillu", ".nuillu/", "/.nuillu", "/.nuillu/", "/.nuillu/**", "  .nuillu/  "] {
        assert!(declares_state_dir_ignore(line), "{line}");
    }
    for line in ["", "#.nuillu", "!.nuillu", "src/.nuillu", ".nuillu2", "**/.nuillu"] {
        assert!(!declares_state_dir_ignore(line), "{line}");
    }
}

#[test]
fn conflicted_paths_stay_inside() {
    assert!(conflict_path_is_valid("src/lib.rs"));
    assert!(!conflict_path_is_valid(""));
    assert!(!conflict_path_is_valid("/etc/passwd"));
    assert!(!conflict_path_is_valid("a/../../b"));
}

#[test]
fn texts_are_cut_and_counted() {
    assert_eq!(truncate_utf8("abc", 3), "abc");
    assert_eq!(truncate_utf8("abcd", 3), "abc…");
    assert_eq!(truncate_utf8("ああ", 5), "あ…");
    assert_eq!(fitting_prefix("ああ", 2), "");
    assert_eq!(decimal_text(0), "0");
    assert_eq!(decimal_text(u64::MAX), "18446744073709551615");
    assert_eq!(hex_text(255, 4), "00ff");
    assert_eq!(to_ascii_lower("ABC-Éx"), "abc-Éx");
    assert_eq!(
        sha256_hex(b"abc"),
        "ba7816bf8f01cfea414140de5dae2223b00361a396177a9cb410ff61f20015ad"
    );
}

#[test]
fn texts_are_scanned() {
    assert_eq!(lines_of("a\r\nb\n\nc"), texts(&["a", "b", "", "c"]));
    assert_eq!(lines_of("a\n"), texts(&["a"]));
    assert_eq!(lines_of(""), texts(&[]));
    assert_eq!(trim("\t a b \n"), "a b");
    assert_eq!(trim("\u{3000}あ\u{a0}"), "あ");
    assert_eq!(trim_line_end("a \r\n"), "a ");
    assert!(has_text("abcabd", "abd"));
    assert!(!has_text("ab", "abc"));
    let chars = |text: &str| text.chars().collect::<Vec<char>>();
    let (count, text) = count_and_replace(&chars("aaaa"), &chars("aa"), &chars("b"));
    assert_eq!(count, 2);
    assert_eq!(text, chars("bb"));
}

#[test]
fn lists_are_sorted_by_bytes() {
    assert_eq!(sort(texts(&["b", "a/b", "a", "B", "a-b"])), texts(&["B", "a", "a-b", "a/b", "b"]));
    let mut set = texts(&["a", "c"]);
    assert!(insert_unique(&mut set, "b"));
    assert!(!insert_unique(&mut set, "c"));
    assert_eq!(set, texts(&["a", "b", "c"]));
}
