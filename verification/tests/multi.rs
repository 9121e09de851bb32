use difference_rs::multi::{find_delimiter, record_occurrences, replace_all, sentinel_pattern, sentinel_string, SENTINEL};
use difference_rs::{Changeset, ChangesetMulti, Difference};

fn same(text: &str) -> Difference {
    Difference::Same(text.to_string())
}

fn add(text: &str) -> Difference {
    Difference::Add(text.to_string())
}

fn rem(text: &str) -> Difference {
    Difference::Rem(text.to_string())
}

fn at(list: &[(usize, &str)]) -> Vec<(usize, String)> {
    list.iter().map(|(k, v)| (*k, v.to_string())).collect()
}

#[test]
fn the_sentinel_is_the_replacement_character() {
    assert_eq!(SENTINEL, std::char::REPLACEMENT_CHARACTER);
    assert_eq!(sentinel_string(), "\u{FFFD}");
    assert_eq!(sentinel_pattern(), vec!['\u{FFFD}']);
}

#[test]
fn occurrences_are_recorded_with_byte_offsets() {
    let mut found = at(&[(9, "x")]);
    record_occurrences("a,b,,c", ",", &mut found);
    assert_eq!(found, at(&[(9, "x"), (1, ","), (3, ","), (4, ",")]));
    let mut found = Vec::new();
    record_occurrences("\u{e9},\u{20AC},\u{1F600},", ",", &mut found);
    assert_eq!(found, at(&[(2, ","), (6, ","), (11, ",")]));
    let mut found = Vec::new();
    record_occurrences("aaaa", "aa", &mut found);
    assert_eq!(found, at(&[(0, "aa"), (2, "aa")]));
    let mut found = Vec::new();
    record_occurrences("abc", "x", &mut found);
    assert_eq!(found, at(&[]));
}

#[test]
fn occurrences_agree_with_std_match_indices() {
    let texts = ["", "a", "a,b", ",,", "h\u{e9},\u{e9}", "aXXXb", "\u{1F600}\u{1F600}"];
    let patterns = [",", "XX", "\u{e9}", "", "\u{1F600}"];
    for text in texts {
        for pattern in patterns {
            let expected: Vec<(usize, String)> =
                text.match_indices(pattern).map(|(k, v)| (k, v.to_string())).collect();
            let mut found = Vec::new();
            record_occurrences(text, pattern, &mut found);
            assert_eq!(found, expected);
        }
    }
}

#[test]
fn replacing_agrees_with_std_replace() {
    let texts = ["", "a", "a,b", ",,", "h\u{e9},\u{e9}", "aXXXb", "abab"];
    let patterns = [",", "XX", "\u{e9}", "", "ab"];
    for text in texts {
        for pattern in patterns {
            assert_eq!(replace_all(text, pattern, "\u{FFFD}"), text.replace(pattern, "\u{FFFD}"));
            assert_eq!(replace_all(text, pattern, ""), text.replace(pattern, ""));
        }
    }
    assert_eq!(replace_all("a,b", ",", "--"), "a--b");
}

#[test]
fn the_first_recorded_delimiter_is_found() {
    let list = at(&[(1, "a"), (3, "b"), (1, "c")]);
    assert_eq!(find_delimiter(&list, 1), Some(&"a".to_string()));
    assert_eq!(find_delimiter(&list, 3), Some(&"b".to_string()));
    assert_eq!(find_delimiter(&list, 2), None);
    assert_eq!(find_delimiter(&Vec::new(), 0), None);
}

#[test]
fn delimiters_return_into_the_runs() {
    let changeset = Changeset {
        diffs: vec![rem("hello"), add("hellow"), same("world"), rem("now"), add("later")],
        split: "\u{FFFD}".to_string(),
        distance: 4,
    };
    let multi = ChangesetMulti::from((
        changeset.clone(),
        at(&[(5, ","), (11, " ")]),
        at(&[(6, ","), (12, " ")]),
    ));
    let expected = ChangesetMulti {
        diffs: vec![rem("hello,"), add("hellow,"), same("world "), rem("now"), add("later")],
        splits: at(&[(5, ","), (11, " ")]),
        edit_splits: at(&[(6, ","), (12, " ")]),
        distance: 4,
    };
    assert_eq!(multi, expected);
    let again = ChangesetMulti::from_parts(
        changeset,
        at(&[(5, ","), (11, " ")]),
        at(&[(6, ","), (12, " ")]),
    );
    assert_eq!(again, expected);
}

#[test]
fn runs_are_cut_at_the_sentinel() {
    let changeset = Changeset {
        diffs: vec![same("a\u{FFFD}b\u{FFFD}"), add("c\u{FFFD}d")],
        split: "\u{FFFD}".to_string(),
        distance: 2,
    };
    let multi = ChangesetMulti::from_parts(
        changeset,
        at(&[(1, ","), (3, ";")]),
        at(&[(1, ","), (3, ";"), (5, "+")]),
    );
    // The unchanged run ends in an empty word: the positions stand at 4, where
    // nothing is recorded. The added run starts at 4 in the edited text.
    assert_eq!(multi.diffs, vec![same("a,b;"), add("c+d")]);
}

#[test]
fn an_unchanged_run_takes_the_delimiter_of_the_original() {
    let multi = Changeset::new_multi("a,b", "a", &[","]);
    assert_eq!(multi.diffs, vec![same("a,"), rem("b")]);
    assert_eq!(multi.splits, at(&[(1, ",")]));
    assert_eq!(multi.edit_splits, at(&[]));
    assert_eq!(multi.distance, 1);

    let multi = Changeset::new_multi("a", "a,b", &[","]);
    assert_eq!(multi.diffs, vec![same("a"), add("b")]);
    assert_eq!(multi.splits, at(&[]));
    assert_eq!(multi.edit_splits, at(&[(1, ",")]));
    assert_eq!(multi.distance, 1);
}

#[test]
fn the_two_positions_move_independently() {
    // The delimiter behind "a" is one byte wide in the original and two in
    // the edited text. Behind "c" nothing is recorded in the edited text:
    // its position there is 6, not 4.
    let multi = Changeset::new_multi("a,b", "a--b-c", &[",", "--", "-"]);
    assert_eq!(multi.diffs, vec![same("a,b"), add("c")]);
    assert_eq!(multi.splits, at(&[(1, ",")]));
    assert_eq!(multi.edit_splits, at(&[(1, "--"), (1, "-"), (2, "-"), (4, "-")]));
    assert_eq!(multi.distance, 1);
}

#[test]
fn offsets_count_bytes() {
    let multi = Changeset::new_multi("\u{e9},b", "\u{e9},c", &[","]);
    assert_eq!(multi.diffs, vec![same("\u{e9},"), rem("b"), add("c")]);
    assert_eq!(multi.splits, at(&[(2, ",")]));
    assert_eq!(multi.edit_splits, at(&[(2, ",")]));
    assert_eq!(multi.distance, 2);
}

#[test]
fn the_earlier_delimiter_wins_where_two_overlap() {
    let multi = Changeset::new_multi("a://b", "a://c", &["://", "/"]);
    assert_eq!(multi.diffs, vec![same("a://"), rem("b"), add("c")]);
    assert_eq!(multi.splits, at(&[(1, "://"), (2, "/"), (3, "/")]));
    assert_eq!(multi.distance, 2);

    let multi = Changeset::new_multi("a://b", "a://c", &["/", "://"]);
    assert_eq!(multi.diffs, vec![same("a://"), rem("b"), add("c")]);
    assert_eq!(multi.splits, at(&[(2, "/"), (3, "/"), (1, "://")]));
    assert_eq!(multi.edit_splits, at(&[(2, "/"), (3, "/"), (1, "://")]));
    // "a:", "" and "b" against "a:", "" and "c"
    assert_eq!(multi.distance, 2);
}

#[test]
fn a_sentinel_in_the_text_is_taken_for_a_delimiter() {
    let multi = Changeset::new_multi("a\u{FFFD}b", "a\u{FFFD}b", &[","]);
    assert_eq!(multi.diffs, vec![same("ab")]);
    assert_eq!(multi.splits, at(&[]));
    assert_eq!(multi.distance, 0);
}

#[test]
fn an_empty_delimiter_stands_at_every_position() {
    let multi = Changeset::new_multi("ab", "ab", &[""]);
    assert_eq!(multi.diffs, vec![same("ab")]);
    assert_eq!(multi.splits, at(&[(0, ""), (1, ""), (2, "")]));
    assert_eq!(multi.edit_splits, at(&[(0, ""), (1, ""), (2, "")]));
    assert_eq!(multi.distance, 0);
}

#[test]
fn without_delimiters_the_texts_are_single_tokens() {
    let multi = Changeset::new_multi("a b", "a c", &[]);
    assert_eq!(multi.diffs, vec![rem("a b"), add("a c")]);
    assert_eq!(multi.splits, at(&[]));
    assert_eq!(multi.edit_splits, at(&[]));
    assert_eq!(multi.distance, 2);
}

#[test]
fn two_empty_texts_with_several_delimiters() {
    let multi = Changeset::new_multi("", "", &[",", " "]);
    assert_eq!(multi.diffs, vec![]);
    assert_eq!(multi.splits, at(&[]));
    assert_eq!(multi.edit_splits, at(&[]));
    assert_eq!(multi.distance, 0);
}

#[test]
fn equal_texts_with_several_delimiters() {
    let text = "https://localhost:8080/path?query=value";
    let multi = Changeset::new_multi(text, text, &["://", "/", "?", "="]);
    assert_eq!(multi.diffs, vec![same(text)]);
    assert_eq!(multi.distance, 0);
}

#[test]
fn putting_delimiters_back_keeps_the_kinds() {
    let changeset = Changeset::new("a\u{FFFD}b\u{FFFD}c", "a\u{FFFD}x\u{FFFD}c", "\u{FFFD}");
    let kinds: Vec<_> = changeset.diffs.iter().map(|d| d.kind()).collect();
    let multi = ChangesetMulti::from_parts(
        changeset,
        at(&[(1, ","), (3, ",")]),
        at(&[(1, ","), (3, ",")]),
    );
    let restored: Vec<_> = multi.diffs.iter().map(|d| d.kind()).collect();
    assert_eq!(kinds, restored);
    assert_eq!(multi.diffs, vec![same("a,"), rem("b,"), add("x,"), same("c")]);
}

#[test]
fn offsets_of_one_delimiter_increase() {
    let multi = Changeset::new_multi("a,b,,c;d,;", "", &[",", ";"]);
    assert_eq!(
        multi.splits,
        at(&[(1, ","), (3, ","), (4, ","), (8, ","), (6, ";"), (9, ";")])
    );
}

#[test]
fn one_empty_text_with_several_delimiters() {
    let multi = Changeset::new_multi("", "a,b", &[","]);
    assert_eq!(multi.diffs, vec![rem(""), add("a,b")]);
    assert_eq!(multi.splits, at(&[]));
    assert_eq!(multi.edit_splits, at(&[(1, ",")]));
    assert_eq!(multi.distance, 1 + 2);
}

#[test]
fn a_delimiter_recorded_inside_another_is_not_found_again() {
    // "aa" is recorded where it stands in the text, at 1. Once "xa" is
    // replaced it stands at 2, where the walk looks for it in vain.
    let multi = Changeset::new_multi("xaaa", "xaaa", &["xa", "aa"]);
    assert_eq!(multi.splits, at(&[(0, "xa"), (1, "aa")]));
    assert_eq!(multi.diffs, vec![same("xa")]);
    assert_eq!(multi.distance, 0);
}
