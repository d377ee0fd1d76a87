use todochk::finding::collect;
use todochk::matcher::emphasize;
use todochk::report::render;

#[test]
fn styling_wraps_tokens_when_forced_on() {
    colored::control::set_override(true);
    let e = emphasize("// TODO: fix");
    assert!(e.contains('\u{1b}'));
    assert!(e.contains("TODO"));
    assert!(e.ends_with(" fix"));
    assert_ne!(e, "TODO fix");
    let out = render(&collect(1, "f", "// TODO: x"));
    assert!(out.contains('\u{1b}'));
    assert!(out.contains("Found 1 TODOs"));
}
