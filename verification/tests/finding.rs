use todochk::finding::collect;
use todochk::finding::split_into_lines;

#[test]
fn split_on_newline_only() {
    assert_eq!(split_into_lines("a\nb"), vec!["a", "b"]);
    assert_eq!(split_into_lines(""), vec![""]);
    assert_eq!(split_into_lines("a\n"), vec!["a", ""]);
    assert_eq!(split_into_lines("one\r\ntwo"), vec!["one\r", "two"]);
}

#[test]
fn collect_match_on_middle_line() {
    let fs = collect(1, "a.txt", "hello\n// TODO: fix\nworld");
    assert_eq!(fs.len(), 1);
    let f = &fs[0];
    assert_eq!(f.file_id, 1);
    assert_eq!(f.file_name, "a.txt");
    assert_eq!(f.line_number, 2);
    assert_eq!(f.line_contents, "// TODO: fix");
    assert_eq!(f.context_line_number, Some(1));
    assert_eq!(f.context_line, "hello");
}

#[test]
fn collect_match_on_first_line() {
    let fs = collect(3, "one.txt", "// TODO: x");
    assert_eq!(fs.len(), 1);
    let f = &fs[0];
    assert_eq!(f.line_number, 1);
    assert_eq!(f.context_line_number, None);
    assert_eq!(f.context_line, "");
}

#[test]
fn collect_no_matches() {
    assert_eq!(collect(1, "f", "nothing here\nor here").len(), 0);
    assert_eq!(collect(1, "f", "").len(), 0);
}

#[test]
fn collect_several_matches_keep_line_order() {
    let fs = collect(2, "m.rs", "// todo: a\nmid\n# TODO - b");
    assert_eq!(fs.len(), 2);
    assert_eq!(fs[0].line_number, 1);
    assert_eq!(fs[0].line_contents, "// todo: a");
    assert_eq!(fs[0].context_line_number, None);
    assert_eq!(fs[1].line_number, 3);
    assert_eq!(fs[1].context_line_number, Some(2));
    assert_eq!(fs[1].context_line, "mid");
}

#[test]
fn collect_context_is_previous_line_even_if_it_matched() {
    let fs = collect(1, "f", "// TODO: a\n// TODO: b");
    assert_eq!(fs.len(), 2);
    assert_eq!(fs[1].context_line, "// TODO: a");
}
