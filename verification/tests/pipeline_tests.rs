use std::collections::HashSet;

use unicase::UniCase;
use unique_filter::args::Args;
use unique_filter::run;

/// The same run written with the standard library's iterators and sort.
fn direct(text: &str, invert: bool, allow_blanks: bool, sort: bool) -> String {
    let mut seen: HashSet<&str> = HashSet::new();
    let mut kept: Vec<&str> = text
        .lines()
        .filter(|line| {
            if allow_blanks && line.trim() == "" {
                true
            } else {
                seen.insert(line) != invert
            }
        })
        .collect();
    if sort {
        kept.sort_by(|a, b| UniCase::new(*a).cmp(&UniCase::new(*b)));
    }
    let mut out = String::new();
    for line in kept {
        out.push_str(line);
        out.push('\n');
    }
    out
}

fn texts() -> Vec<&'static str> {
    vec![
        "",
        "\n",
        "a",
        "a\nb\na\nc\nb",
        "a\na\na\nb\n",
        "banana\nApple\napple\nBANANA\ncherry\napple\n",
        "x\n\n \n\t\nx\n\n \ny\r\nY\r\n\r\n",
        "Zeta\nalpha\nALPHA\nbeta\nzeta\nAlpha\nBeta\nzeta\nalpha\n",
        "Maße\nMASSE\nmasse\nmaße\nMasse\nMASSE\n",
        "ǅ\nǆ\nǄ\nä\nÄ\na\nA\nz\nZ\nä\n",
        "  lead\nlead\nlead  \n  lead\nlead\n",
        "1\n10\n2\n1\n02\n2\n",
        "q\r\rq\nq\rq\n\rq\nq\r\n",
    ]
}

#[test]
fn run_agrees_with_the_direct_pipeline() {
    for text in texts() {
        for flags in 0..8 {
            let (invert, allow_blanks, sort) = (flags & 1 != 0, flags & 2 != 0, flags & 4 != 0);
            let args = Args {
                path: None,
                out: None,
                overwrite: false,
                sort,
                invert,
                allow_blanks,
            };
            assert_eq!(
                run(&args, text),
                direct(text, invert, allow_blanks, sort),
                "text {text:?}, invert {invert}, allow_blanks {allow_blanks}, sort {sort}"
            );
        }
    }
}

#[test]
fn paths_do_not_change_the_text() {
    let plain = Args {
        path: None,
        out: None,
        overwrite: false,
        sort: true,
        invert: false,
        allow_blanks: true,
    };
    let with_paths = Args {
        path: Some(String::from("in.txt")),
        out: Some(String::from("out.txt")),
        overwrite: true,
        ..plain.clone()
    };
    let text = "b\n\na\nB\n\nb\n";
    assert_eq!(run(&plain, text), run(&with_paths, text));
    assert_eq!(run(&plain, text), "\n\na\nb\nB\n");
}
