use nordconf::sanitize::sanitize_filename;

#[test]
fn sanitize_lowercases_and_replaces() {
    assert_eq!(sanitize_filename("Hello, World!"), "hello_world");
    assert_eq!(sanitize_filename("Germany #101"), "germany_101");
    assert_eq!(sanitize_filename("ABCdef123"), "abcdef123");
}

#[test]
fn sanitize_collapses_and_trims_underscores() {
    assert_eq!(sanitize_filename("__a__b__"), "a_b");
    assert_eq!(sanitize_filename("a!!!!b"), "a_b");
    assert_eq!(sanitize_filename("___"), "");
    assert_eq!(sanitize_filename(""), "");
}

#[test]
fn sanitize_non_ascii_becomes_underscore() {
    assert_eq!(sanitize_filename("Ünited Kingdom"), "nited_kingdom");
    assert_eq!(sanitize_filename("日本"), "");
}

#[test]
fn sanitize_is_idempotent_on_samples() {
    for s in [
        "Hello, World!",
        "__a__b__",
        "Ünited Kingdom",
        "already_clean",
        "MiXeD CaSe 42",
        "!!!",
        "",
    ] {
        let once = sanitize_filename(s);
        let twice = sanitize_filename(&once);
        assert_eq!(once, twice);
    }
}

#[test]
fn sanitize_output_shape_is_canonical() {
    for s in ["  A  B  ", "_x_", "a—b—c", "Q#W#E!!R"] {
        let out = sanitize_filename(s);
        assert!(out
            .chars()
            .all(|c| c.is_ascii_lowercase() || c.is_ascii_digit() || c == '_'));
        assert!(!out.starts_with('_'));
        assert!(!out.ends_with('_'));
        assert!(!out.contains("__"));
    }
}
