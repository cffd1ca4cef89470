use unique_filter::source::lines_of;

#[test]
fn empty_text_has_no_lines() {
    assert!(lines_of("").is_empty());
}

#[test]
fn lines_end_at_line_feeds() {
    assert_eq!(lines_of("a\nb\nc\n"), vec!["a", "b", "c"]);
}

#[test]
fn final_terminator_is_optional() {
    assert_eq!(lines_of("a\nb"), vec!["a", "b"]);
    assert_eq!(lines_of("a"), vec!["a"]);
}

#[test]
fn empty_lines_are_lines() {
    assert_eq!(lines_of("\n"), vec![""]);
    assert_eq!(lines_of("a\n\nb\n"), vec!["a", "", "b"]);
    assert_eq!(lines_of("a\n\n"), vec!["a", ""]);
    assert_eq!(lines_of("\n\n\n"), vec!["", "", ""]);
}

#[test]
fn carriage_return_before_line_feed_belongs_to_the_terminator() {
    assert_eq!(lines_of("a\r\nb\r\n"), vec!["a", "b"]);
    assert_eq!(lines_of("\r\n"), vec![""]);
    assert_eq!(lines_of("a\r\r\n"), vec!["a\r"]);
}

#[test]
fn carriage_return_elsewhere_stays() {
    assert_eq!(lines_of("a\rb\n"), vec!["a\rb"]);
    assert_eq!(lines_of("a\r"), vec!["a\r"]);
    assert_eq!(lines_of("\r"), vec!["\r"]);
    assert_eq!(lines_of("\ra\n"), vec!["\ra"]);
}

#[test]
fn interior_white_space_is_kept() {
    assert_eq!(lines_of("  a  b \n\t\n"), vec!["  a  b ", "\t"]);
}

#[test]
fn splitting_agrees_with_the_standard_library() {
    let texts = [
        "", "\n", "\r", "\r\n", "a", "a\n", "a\r", "a\r\n", "a\r\r\n", "\r\r", "a\n\r\nb\r",
        "é\nß\r\n日本\n", "x\r\ny\rz\n\n", "\n\r", "\r\n\r",
    ];
    for text in texts {
        let expected: Vec<&str> = text.lines().collect();
        assert_eq!(lines_of(text), expected);
    }
}

#[test]
fn plain_lines_survive_writing_and_reading() {
    let lines = vec!["one", "", " two ", "thr\ree", "", ""];
    let text = unique_filter::sink::render(&lines);
    assert_eq!(text, "one\n\n two \nthr\ree\n\n\n");
    assert_eq!(lines_of(&text), lines);
}
