use wavemark::names::{
    batch_file_base, default_schema, ellipsize, escape_pipes, join_with, schema_recognised, slug,
    ANNOTATIONS_SCHEMA, PATCH_SCHEMA, SESSION_EXT,
};

#[test]
fn schemas_and_extension() {
    assert_eq!(default_schema(), "wavemark/patches");
    assert_eq!(PATCH_SCHEMA, "wavemark/patches");
    assert_eq!(ANNOTATIONS_SCHEMA, "wavemark/annotations");
    assert_eq!(SESSION_EXT, "wavemark.json");
    assert!(schema_recognised("wavemark/patches"));
    assert!(schema_recognised("wavemark/annotations"));
    assert!(!schema_recognised("wavemark/patch"));
    assert!(!schema_recognised(""));
}

#[test]
fn slug_cleans_and_lowercases() {
    assert_eq!(slug("Hello, World!", 40), "hello--world");
    assert_eq!(slug("--Intro--", 40), "intro");
    assert_eq!(slug("!!!", 40), "untitled");
    assert_eq!(slug("", 40), "untitled");
    assert_eq!(slug("ÄBC déf", 40), "äbc-déf");
    assert_eq!(slug("abc def", 4), "abc", "trailing dash after the cut is trimmed");
    assert_eq!(slug("abcdef", 3), "abc");
    assert_eq!(slug("x", 0), "untitled");
}

#[test]
fn batch_file_names() {
    assert_eq!(batch_file_base("clip", 7, true, "First take", "id-1"), "clip-007-first-take");
    assert_eq!(batch_file_base("clip", 1234, true, "", "id-1"), "clip-1234-untitled");
    assert_eq!(
        batch_file_base("clip", 1, false, "ignored", "3F2504E0-4F89-11D3"),
        "clip-3f2504e0-4f89-11d3"
    );
}

#[test]
fn ellipsize_keeps_the_tail() {
    assert_eq!(ellipsize("short.wav", 20), "short.wav");
    assert_eq!(ellipsize("abcdefghijklmnopqrstuvwxyz.wav", 10), "abcde\u{2026}.wav");
    let long = "/very/long/path/to/some/recording/clip.wav";
    let e = ellipsize(long, 20);
    assert_eq!(e.chars().count(), 20);
    assert!(e.ends_with("ip.wav"), "{e}");
    assert_eq!(e, "/very/long/pa\u{2026}ip.wav");
    assert_eq!(ellipsize("abcdef", 5), "\u{2026}cdef");
}

#[test]
fn escape_pipes_for_markdown() {
    assert_eq!(escape_pipes("a|b||c"), "a\\|b\\|\\|c");
    assert_eq!(escape_pipes("plain"), "plain");
    assert_eq!(escape_pipes(""), "");
}

#[test]
fn join_with_separator() {
    let v: Vec<String> = vec!["a".into(), "b".into(), "c".into()];
    assert_eq!(join_with(&v, ", "), "a, b, c");
    assert_eq!(join_with(&vec!["only".to_string()], ", "), "only");
    assert_eq!(join_with(&Vec::new(), ", "), "");
}
