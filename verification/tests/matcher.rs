use todochk::matcher::emphasize;
use todochk::matcher::emphasize_with;
use todochk::matcher::matches as has_marker;

fn plain() {
    colored::control::set_override(false);
}

#[test]
fn canonical_line_comment_all_leaders() {
    assert!(has_marker("// TODO: x"));
    assert!(has_marker("# TODO - x"));
    assert!(has_marker("-- TODO x"));
    assert!(has_marker("% TODO: x"));
}

#[test]
fn canonical_line_comment_embedded() {
    assert!(has_marker("let x = 5; // TODO: use a better constant"));
    assert!(has_marker("    # TODO - tidy this up"));
    assert!(has_marker("//TODO: no space after the leader"));
    assert!(has_marker("//TODO- dash with no space"));
}

#[test]
fn informal_line_comment() {
    assert!(has_marker("// todo: x"));
    assert!(has_marker("# todo - x"));
    assert!(has_marker("% todo later"));
}

#[test]
fn block_comment_forms() {
    assert!(has_marker("* TODO fix *"));
    assert!(has_marker("<!-- TODO: document this -->"));
    assert!(has_marker("{- todo something -}"));
    assert!(has_marker("=begin TODO - z =end"));
}

#[test]
fn no_marker_lines() {
    assert!(!has_marker(""));
    assert!(!has_marker("let x = 5;"));
    assert!(!has_marker("TODO: no comment leader"));
    assert!(!has_marker("// tod: misspelled"));
    assert!(!has_marker("* TODO without a closer"));
    assert!(!has_marker("TODO without an opener *"));
    assert!(!has_marker("// TODONT"));
}

#[test]
fn emphasize_unmatched_line_unchanged() {
    let line = "nothing to see here";
    assert_eq!(emphasize(line), line);
    assert_eq!(emphasize(""), "");
}

#[test]
fn emphasize_replaces_canonical_has_marker() {
    plain();
    assert_eq!(emphasize("// TODO: fix"), "TODO fix");
    assert_eq!(emphasize("# TODO - x"), "TODO x");
    assert_eq!(emphasize("-- TODO x"), "TODOx");
    assert_eq!(emphasize("code // TODO: fix"), "code TODO fix");
}

#[test]
fn emphasize_replaces_informal_has_marker() {
    plain();
    assert_eq!(emphasize("// todo: x"), "todo x");
}

#[test]
fn emphasize_replaces_block_span() {
    plain();
    assert_eq!(emphasize("* TODO fix *"), "TODO");
    assert_eq!(emphasize("say <!-- todo: hm --> done"), "say todo done");
}

#[test]
fn emphasize_with_explicit_tokens() {
    let r = emphasize_with("// TODO: fix", "[C]", "[i]");
    assert_eq!(r, "[C] fix");
    let r = emphasize_with("// todo: fix", "[C]", "[i]");
    assert_eq!(r, "[i] fix");
    let r = emphasize_with("keep me", "[C]", "[i]");
    assert_eq!(r, "keep me");
}
