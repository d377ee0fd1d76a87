use todochk::finding::Finding;
use todochk::finding::collect;
use todochk::report::decimal_string;
use todochk::report::render;
use todochk::report::render_with;
use todochk::report::sort_findings;

fn plain() {
    colored::control::set_override(false);
}

fn finding(file_id: usize, file_name: &str, line_number: usize, text: &str) -> Finding {
    Finding {
        file_id,
        file_name: file_name.to_owned(),
        line_number,
        line_contents: text.to_owned(),
        context_line_number: if line_number > 1 { Some(line_number - 1) } else { None },
        context_line: String::new(),
    }
}

#[test]
fn decimal_renderings() {
    assert_eq!(decimal_string(0), "0");
    assert_eq!(decimal_string(7), "7");
    assert_eq!(decimal_string(10), "10");
    assert_eq!(decimal_string(12345), "12345");
}

#[test]
fn sort_groups_by_file_id_and_keeps_order() {
    let input = vec![
        finding(2, "b.txt", 1, "// TODO: b1"),
        finding(1, "a.txt", 4, "// TODO: a1"),
        finding(2, "b.txt", 9, "// TODO: b2"),
        finding(1, "a.txt", 7, "// TODO: a2"),
    ];
    let sorted = sort_findings(&input);
    let keys: Vec<(usize, usize)> = sorted.iter().map(|f| (f.file_id, f.line_number)).collect();
    assert_eq!(keys, vec![(1, 4), (1, 7), (2, 1), (2, 9)]);
}

#[test]
fn render_groups_files_contiguously() {
    plain();
    let input = vec![
        finding(2, "b.txt", 1, "// TODO: b1"),
        finding(1, "a.txt", 1, "// TODO: a1"),
        finding(2, "b.txt", 3, "// TODO: b2"),
        finding(1, "a.txt", 3, "// TODO: a2"),
    ];
    let out = render(&input);
    let a = out.find(">>> In a.txt...").expect("a section");
    let b = out.find(">>> In b.txt...").expect("b section");
    assert!(a < b);
    assert_eq!(out.matches(">>> In a.txt...").count(), 1);
    assert_eq!(out.matches(">>> In b.txt...").count(), 1);
    let a1 = out.find("TODO a1").expect("a1");
    let a2 = out.find("TODO a2").expect("a2");
    let b1 = out.find("TODO b1").expect("b1");
    let b2 = out.find("TODO b2").expect("b2");
    assert!(a < a1 && a1 < a2 && a2 < b);
    assert!(b < b1 && b1 < b2);
    assert!(out.ends_with("Found 4 TODOs"));
}

#[test]
fn render_two_files_one_match() {
    plain();
    let mut fs = collect(1, "a.txt", "hello\n// TODO: fix\nworld");
    fs.extend(collect(2, "b.txt", "no markers here"));
    assert_eq!(fs.len(), 1);
    let out = render(&fs);
    assert_eq!(
        out,
        "\n>>> In a.txt...\nLine 1: hello\n________________\nLine 2: TODO fix\nFound 1 TODOs"
    );
    assert!(out.contains("Found 1 TODOs"));
}

#[test]
fn render_no_findings() {
    plain();
    let out = render(&Vec::new());
    assert_eq!(out, "Found 0 TODOs");
}

#[test]
fn render_first_line_match_has_no_context() {
    plain();
    let fs = collect(1, "f.txt", "// TODO: x\nrest");
    let out = render(&fs);
    assert_eq!(
        out,
        "\n>>> In f.txt...\n______________\nLine 1: TODO x\nFound 1 TODOs"
    );
}

#[test]
fn render_with_explicit_tokens() {
    let fs = vec![finding(1, "x", 1, "// TODO: t")];
    let out = render_with(&fs, "[C]", "[i]", "<count>");
    assert_eq!(out, "\n>>> In x...\n_____________\nLine 1: [C] t\n<count>");
}
