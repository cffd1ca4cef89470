use unique_filter::order::{compare_keys, rank_keys, sort_lines, Rank};

fn key(s: &str) -> Vec<char> {
    s.chars().collect()
}

#[test]
fn keys_compare_character_by_character() {
    assert_eq!(compare_keys(&key("a"), &key("b")), Rank::Before);
    assert_eq!(compare_keys(&key("b"), &key("a")), Rank::After);
    assert_eq!(compare_keys(&key("abc"), &key("abc")), Rank::Same);
    assert_eq!(compare_keys(&key("abc"), &key("abd")), Rank::Before);
    assert_eq!(compare_keys(&key("b"), &key("abc")), Rank::After);
}

#[test]
fn a_prefix_comes_first() {
    assert_eq!(compare_keys(&key(""), &key("a")), Rank::Before);
    assert_eq!(compare_keys(&key("a"), &key("aa")), Rank::Before);
    assert_eq!(compare_keys(&key("aa"), &key("a")), Rank::After);
    assert_eq!(compare_keys(&key(""), &key("")), Rank::Same);
}

#[test]
fn keys_compare_by_code_point() {
    assert_eq!(compare_keys(&key("Z"), &key("a")), Rank::Before);
    assert_eq!(compare_keys(&key("z"), &key("é")), Rank::Before);
    assert_eq!(compare_keys(&key("\u{10000}"), &key("\u{ffff}")), Rank::After);
}

#[test]
fn ranking_is_by_key_then_by_position() {
    let keys = vec![key("b"), key("a"), key("b"), key("a"), key("")];
    assert_eq!(rank_keys(&keys), vec![4, 1, 3, 0, 2]);
}

#[test]
fn ranking_of_nothing_and_of_one() {
    assert_eq!(rank_keys(&Vec::new()), Vec::<usize>::new());
    assert_eq!(rank_keys(&vec![key("x")]), vec![0]);
}

#[test]
fn ranking_handles_longer_runs() {
    let words = ["m", "c", "x", "a", "m", "b", "z", "c", "a", "y", "m"];
    let keys: Vec<Vec<char>> = words.iter().map(|w| key(w)).collect();
    assert_eq!(rank_keys(&keys), vec![3, 8, 5, 1, 7, 0, 4, 10, 2, 9, 6]);
}

#[test]
fn sorting_ignores_case_and_is_stable() {
    assert_eq!(sort_lines(&vec!["banana", "Apple", "apple"]), vec!["Apple", "apple", "banana"]);
    assert_eq!(sort_lines(&vec!["banana", "apple", "Apple"]), vec!["apple", "Apple", "banana"]);
}

#[test]
fn sorting_keeps_every_line() {
    let lines = vec!["b", "B", "a", "b", "A", "a", ""];
    assert_eq!(sort_lines(&lines), vec!["", "a", "A", "a", "b", "B", "b"]);
}

#[test]
fn sorting_uses_full_case_folding() {
    assert_eq!(sort_lines(&vec!["MASSE", "Maße", "masse"]), vec!["MASSE", "Maße", "masse"]);
    assert_eq!(sort_lines(&vec!["Ω", "α", "ω", "Α"]), vec!["α", "Α", "Ω", "ω"]);
}

#[test]
fn sorting_agrees_with_caseless_comparison() {
    let lines =
        vec!["delta", "Alpha", "charlie", "BRAVO", "alpha", "Echo", "bravo", "ǅ", "ǆ", "Z"];
    let mut expected = lines.clone();
    expected.sort_by(|a, b| unicase::UniCase::new(*a).cmp(&unicase::UniCase::new(*b)));
    assert_eq!(sort_lines(&lines), expected);
}
