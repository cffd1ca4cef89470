use unique_filter::args::Args;

fn args(path: Option<&str>, out: Option<&str>, overwrite: bool) -> Args {
    Args {
        path: path.map(String::from),
        out: out.map(String::from),
        overwrite,
        sort: false,
        invert: false,
        allow_blanks: false,
    }
}

#[test]
fn overwrite_ignores_the_output_path() {
    let a = args(Some("in.txt"), Some("out.txt"), true);
    assert_eq!(a.output_path(), Some("in.txt"));
}

#[test]
fn overwrite_without_output_path_targets_the_input() {
    let a = args(Some("in.txt"), None, true);
    assert_eq!(a.output_path(), Some("in.txt"));
}

#[test]
fn explicit_output_path_is_used_without_overwrite() {
    let a = args(Some("in.txt"), Some("out.txt"), false);
    assert_eq!(a.output_path(), Some("out.txt"));
}

#[test]
fn no_output_path_means_standard_output() {
    assert_eq!(args(Some("in.txt"), None, false).output_path(), None);
    assert_eq!(args(None, None, false).output_path(), None);
    assert_eq!(args(None, None, true).output_path(), None);
}

#[test]
fn overwrite_without_input_path_falls_back_to_the_output_path() {
    let a = args(None, Some("out.txt"), true);
    assert_eq!(a.output_path(), Some("out.txt"));
}
