use unique_filter::line::Testable;

#[test]
fn the_empty_line_is_blank() {
    assert!("".non_interesting());
}

#[test]
fn white_space_alone_is_blank() {
    assert!(" ".non_interesting());
    assert!("\t".non_interesting());
    assert!(" \t  \r".non_interesting());
    assert!("\u{a0}\u{3000}\u{85}".non_interesting());
}

#[test]
fn any_other_character_makes_a_line_interesting() {
    assert!(!"a".non_interesting());
    assert!(!"  a  ".non_interesting());
    assert!(!"a   ".non_interesting());
    assert!(!"   a".non_interesting());
    assert!(!"\u{200b}".non_interesting());
}
