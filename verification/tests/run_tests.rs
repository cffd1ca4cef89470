use unique_filter::args::Args;
use unique_filter::run;

fn options(invert: bool, allow_blanks: bool, sort: bool) -> Args {
    Args {
        path: None,
        out: None,
        overwrite: false,
        sort,
        invert,
        allow_blanks,
    }
}

#[test]
fn unique_keeps_first_occurrences_in_order() {
    let out = run(&options(false, false, false), "a\nb\na\nc\nb\n");
    assert_eq!(out, "a\nb\nc\n");
}

#[test]
fn invert_keeps_all_but_the_first_occurrence() {
    let out = run(&options(true, false, false), "a\na\na\nb\n");
    assert_eq!(out, "a\na\n");
}

#[test]
fn invert_of_distinct_lines_is_empty() {
    let out = run(&options(true, false, false), "a\nb\nc\n");
    assert_eq!(out, "");
}

#[test]
fn unique_is_idempotent() {
    let args = options(false, false, false);
    let once = run(&args, "x\ny\nx\n\n\nz\ny\n");
    let twice = run(&args, &once);
    assert_eq!(once, "x\ny\n\nz\n");
    assert_eq!(twice, once);
}

#[test]
fn blank_lines_pass_where_allowed() {
    let text = "a\n\n  \na\n\n\t\nb\n  \n";
    assert_eq!(run(&options(false, true, false), text), "a\n\n  \n\n\t\nb\n  \n");
    assert_eq!(run(&options(true, true, false), text), "\n  \na\n\n\t\n  \n");
}

#[test]
fn blank_lines_are_ordinary_lines_otherwise() {
    let text = "a\n\n  \na\n\n\t\nb\n  \n";
    assert_eq!(run(&options(false, false, false), text), "a\n\n  \n\t\nb\n");
    assert_eq!(run(&options(true, false, false), text), "a\n\n  \n");
}

#[test]
fn lines_compare_exactly() {
    let out = run(&options(false, false, false), "a\nA\na \n a\na\n");
    assert_eq!(out, "a\nA\na \n a\n");
}

#[test]
fn sort_is_caseless_and_stable() {
    let out = run(&options(false, false, true), "banana\nApple\napple\n");
    assert_eq!(out, "Apple\napple\nbanana\n");
    let out = run(&options(false, false, true), "banana\napple\nApple\n");
    assert_eq!(out, "apple\nApple\nbanana\n");
}

#[test]
fn sort_comes_after_filtering() {
    let out = run(&options(false, false, true), "b\na\nB\nb\nA\na\n");
    assert_eq!(out, "a\nA\nb\nB\n");
    let out = run(&options(true, false, true), "b\na\nB\nb\nA\na\nb\n");
    assert_eq!(out, "a\nb\nb\n");
}

#[test]
fn sort_folds_beyond_ascii() {
    let out = run(&options(false, false, true), "masse\nz\nMaße\nMASSE\na\n");
    assert_eq!(out, "a\nmasse\nMaße\nMASSE\nz\n");
}

#[test]
fn sort_orders_a_prefix_first() {
    let out = run(&options(false, false, true), "aa\nB\na\nAB\n");
    assert_eq!(out, "a\naa\nAB\nB\n");
}

#[test]
fn empty_input_gives_empty_output() {
    assert_eq!(run(&options(false, false, false), ""), "");
    assert_eq!(run(&options(true, true, true), ""), "");
}

#[test]
fn last_line_may_lack_a_terminator() {
    assert_eq!(run(&options(false, false, false), "a\nb"), "a\nb\n");
    assert_eq!(run(&options(false, false, false), "a"), "a\n");
}

#[test]
fn carriage_return_before_line_feed_is_dropped() {
    assert_eq!(run(&options(false, false, false), "a\r\nb\r\na\n"), "a\nb\n");
}

#[test]
fn a_line_ending_in_a_carriage_return_is_read_back_without_it() {
    let args = options(false, false, false);
    let once = run(&args, "a\r\r\nb\n");
    assert_eq!(once, "a\r\nb\n");
    let twice = run(&args, &once);
    assert_eq!(twice, "a\nb\n");
}

#[test]
fn unique_is_idempotent_with_blanks_allowed() {
    let args = options(false, true, false);
    let once = run(&args, "x\n\ny\n \nx\n\n \nz\n");
    assert_eq!(once, "x\n\ny\n \n\n \nz\n");
    assert_eq!(run(&args, &once), once);
}
