use unique_filter::sink::render;

#[test]
fn each_line_gets_a_line_feed() {
    assert_eq!(render(&vec!["a", "b", "c"]), "a\nb\nc\n");
}

#[test]
fn no_lines_render_as_nothing() {
    assert_eq!(render(&Vec::new()), "");
}

#[test]
fn empty_lines_render_as_bare_line_feeds() {
    assert_eq!(render(&vec!["", "x", ""]), "\nx\n\n");
}
