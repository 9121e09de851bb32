use difference_rs::lcs::lcs;
use difference_rs::merge::merge;
use difference_rs::{Changeset, Difference, RunKind};

fn strings(items: &[&str]) -> Vec<String> {
    items.iter().map(|s| s.to_string()).collect()
}

fn same(text: &str) -> Difference {
    Difference::Same(text.to_string())
}

fn add(text: &str) -> Difference {
    Difference::Add(text.to_string())
}

fn rem(text: &str) -> Difference {
    Difference::Rem(text.to_string())
}

#[test]
fn common_subsequence_of_two_sequences() {
    let (distance, common) = lcs(&strings(&["a", "b", "c"]), &strings(&["a", "c"]));
    assert_eq!(distance, 1);
    assert_eq!(common, strings(&["a", "c"]));
}

#[test]
fn common_subsequence_of_test_and_tent() {
    let (distance, common) = lcs(&strings(&["t", "e", "s", "t"]), &strings(&["t", "e", "n", "t"]));
    assert_eq!(distance, 2);
    assert_eq!(common, strings(&["t", "e", "t"]));
}

#[test]
fn nothing_in_common() {
    let (distance, common) = lcs(&strings(&["a", "b"]), &strings(&["c", "d", "e"]));
    assert_eq!(distance, 5);
    assert_eq!(common, Vec::<String>::new());
}

#[test]
fn empty_sequences() {
    assert_eq!(lcs(&strings(&[]), &strings(&[])), (0, strings(&[])));
    assert_eq!(lcs(&strings(&["a"]), &strings(&[])), (1, strings(&[])));
    assert_eq!(lcs(&strings(&[]), &strings(&["a", "b"])), (2, strings(&[])));
}

#[test]
fn equal_sequences_have_everything_in_common() {
    let tokens = strings(&["a", "", "b", "a"]);
    assert_eq!(lcs(&tokens, &tokens), (0, tokens.clone()));
}

#[test]
fn a_tie_steps_back_in_the_original() {
    // Both "x" and "y" are common subsequences of length one. On the tie at
    // the last cell the walk steps back in the original and so finds "x".
    let (distance, common) = lcs(&strings(&["x", "y"]), &strings(&["y", "x"]));
    assert_eq!(distance, 2);
    assert_eq!(common, strings(&["x"]));
}

#[test]
fn distance_is_both_lengths_less_twice_the_common_length() {
    let a = strings(&["a", "b", "c", "d"]);
    let b = strings(&["b", "d", "e"]);
    let (distance, common) = lcs(&a, &b);
    assert_eq!(common, strings(&["b", "d"]));
    assert_eq!(distance, 4 + 3 - 2 * 2);
}

#[test]
fn empty_tokens_can_be_common() {
    let (distance, common) = lcs(&strings(&["x", ""]), &strings(&["y", ""]));
    assert_eq!(distance, 2);
    assert_eq!(common, strings(&[""]));
}

#[test]
fn merge_removes_before_it_adds() {
    let runs = merge(&strings(&["a", "b"]), &strings(&["a", "c"]), &strings(&["a"]), " ");
    assert_eq!(runs, vec![same("a"), rem("b"), add("c")]);
}

#[test]
fn merge_joins_neighbours_of_one_kind() {
    let runs = merge(
        &strings(&["a", "b", "x", "y", "c"]),
        &strings(&["a", "b", "z", "w", "c"]),
        &strings(&["a", "b", "c"]),
        "-",
    );
    assert_eq!(runs, vec![same("a-b"), rem("x-y"), add("z-w"), same("c")]);
}

#[test]
fn merge_without_common_tokens() {
    let runs = merge(&strings(&["a", "b"]), &strings(&["c", "d"]), &strings(&[]), " ");
    assert_eq!(runs, vec![rem("a b"), add("c d")]);
    assert_eq!(merge(&strings(&[]), &strings(&["c", "d"]), &strings(&[]), " "), vec![add("c d")]);
    assert_eq!(merge(&strings(&["a"]), &strings(&[]), &strings(&[]), " "), vec![rem("a")]);
    assert_eq!(merge(&strings(&[]), &strings(&[]), &strings(&[]), " "), vec![]);
}

#[test]
fn merge_of_a_sequence_with_itself() {
    let tokens = strings(&["a", "b", "c"]);
    assert_eq!(merge(&tokens, &tokens, &tokens, "\n"), vec![same("a\nb\nc")]);
}

#[test]
fn merge_keeps_empty_tokens() {
    let runs = merge(&strings(&["x", ""]), &strings(&["y", ""]), &strings(&[""]), "\n");
    assert_eq!(runs, vec![rem("x"), add("y"), same("")]);
}

#[test]
fn merge_stops_at_a_token_it_cannot_place() {
    // "a" is no subsequence of the empty edited sequence.
    assert_eq!(merge(&strings(&["a"]), &strings(&[]), &strings(&["a"]), " "), vec![]);
    // "c" is common to neither: everything before it is placed.
    let runs = merge(&strings(&["a"]), &strings(&["b"]), &strings(&["c"]), " ");
    assert_eq!(runs, vec![rem("a"), add("b")]);
}

#[test]
fn differences_from_kind_and_text() {
    assert_eq!(Difference::of(RunKind::Same, "a".to_string()), same("a"));
    assert_eq!(Difference::of(RunKind::Add, "b".to_string()), add("b"));
    assert_eq!(Difference::of(RunKind::Rem, "c".to_string()), rem("c"));
}

#[test]
fn characters_of_test_and_tent() {
    let changeset = Changeset::new("test", "tent", "");
    assert_eq!(changeset.diffs, vec![same("te"), rem("s"), add("n"), same("t")]);
    assert_eq!(changeset.distance, 2);
    assert_eq!(changeset.split, "");
}

#[test]
fn two_empty_texts() {
    for split in ["", " ", "\n"] {
        let changeset = Changeset::new("", "", split);
        assert_eq!(changeset.diffs, vec![]);
        assert_eq!(changeset.distance, 0);
        assert_eq!(changeset.split, split);
    }
}

#[test]
fn equal_texts_are_one_unchanged_run() {
    for split in ["", " ", "\n", "x"] {
        let changeset = Changeset::new("one two\nthree", "one two\nthree", split);
        assert_eq!(changeset.diffs, vec![same("one two\nthree")]);
        assert_eq!(changeset.distance, 0);
    }
}

#[test]
fn delimiter_that_is_never_found() {
    let changeset = Changeset::new("abc", "abd", "x");
    assert_eq!(changeset.diffs, vec![rem("abc"), add("abd")]);
    assert_eq!(changeset.distance, 2);
}

#[test]
fn one_text_empty() {
    // The empty text is one empty token.
    let changeset = Changeset::new("", "a", " ");
    assert_eq!(changeset.diffs, vec![rem(""), add("a")]);
    assert_eq!(changeset.distance, 1 + 1);
    let changeset = Changeset::new("", "a b", " ");
    assert_eq!(changeset.diffs, vec![rem(""), add("a b")]);
    assert_eq!(changeset.distance, 1 + 2);
    let changeset = Changeset::new("a b c", "", " ");
    assert_eq!(changeset.diffs, vec![rem("a b c"), add("")]);
    assert_eq!(changeset.distance, 3 + 1);
}

#[test]
fn the_empty_token_of_an_empty_text_can_be_common() {
    // " a" is the empty token and "a".
    let changeset = Changeset::new("", " a", " ");
    assert_eq!(changeset.diffs, vec![same(""), add("a")]);
    assert_eq!(changeset.distance, 1 + 2 - 2);
    let changeset = Changeset::new("a ", "", " ");
    assert_eq!(changeset.diffs, vec![rem("a"), same("")]);
    assert_eq!(changeset.distance, 2 + 1 - 2);
}

#[test]
fn one_text_empty_character_by_character() {
    let changeset = Changeset::new("", "ab", "");
    assert_eq!(changeset.diffs, vec![add("ab")]);
    assert_eq!(changeset.distance, 2);
    let changeset = Changeset::new("abc", "", "");
    assert_eq!(changeset.diffs, vec![rem("abc")]);
    assert_eq!(changeset.distance, 3);
}

#[test]
fn no_common_tokens_gives_removal_then_addition() {
    let changeset = Changeset::new("a b c", "d e", " ");
    assert_eq!(changeset.diffs, vec![rem("a b c"), add("d e")]);
    assert_eq!(changeset.distance, 5);
}

#[test]
fn swapped_words() {
    let changeset = Changeset::new("x y", "y x", " ");
    assert_eq!(changeset.diffs, vec![add("y"), same("x"), rem("y")]);
    assert_eq!(changeset.distance, 2);
}

#[test]
fn doubled_delimiters_survive() {
    let changeset = Changeset::new("a  b", "a b", " ");
    assert_eq!(changeset.diffs, vec![same("a"), rem(""), same("b")]);
    assert_eq!(changeset.distance, 1);
    let changeset = Changeset::new("x\n", "y\n", "\n");
    assert_eq!(changeset.diffs, vec![rem("x"), add("y"), same("")]);
    assert_eq!(changeset.distance, 2);
}

#[test]
fn runs_give_back_both_texts() {
    let cases = [
        ("a b : g", "b a : b b : g g", " "),
        ("a  b", "a b", " "),
        ("", "x", ""),
        ("", "x", " "),
        ("x y", "", " "),
        ("", " x", " "),
        ("", "", " "),
        ("x\n", "\ny\n\n", "\n"),
        ("h\u{e9}llo", "hallo", ""),
        ("one, two", "two, one", ", "),
    ];
    for (old, new, split) in cases {
        let changeset = Changeset::new(old, new, split);
        let mut olds: Vec<&str> = Vec::new();
        let mut news: Vec<&str> = Vec::new();
        for d in &changeset.diffs {
            match d {
                Difference::Same(x) => {
                    olds.push(x);
                    news.push(x);
                }
                Difference::Add(x) => news.push(x),
                Difference::Rem(x) => olds.push(x),
            }
        }
        assert_eq!(olds.join(split), old);
        assert_eq!(news.join(split), new);
    }
}

#[test]
fn a_text_is_at_distance_zero_from_itself() {
    for text in ["", "a", "a b c", "a,,b", "\n\n"] {
        for split in ["", " ", ",", "\n"] {
            assert_eq!(Changeset::new(text, text, split).distance, 0);
        }
    }
}

#[test]
fn distance_counts_removed_and_added_tokens() {
    let changeset = Changeset::new("a b c d", "b d e", " ");
    assert_eq!(changeset.diffs, vec![rem("a"), same("b"), rem("c"), same("d"), add("e")]);
    assert_eq!(changeset.distance, 3);
}

#[test]
fn neighbouring_runs_differ_and_removals_come_first() {
    let cases = [
        ("a b : g", "b a : b b : g g", " "),
        ("x y", "y x", " "),
        ("test", "tent", ""),
        ("a b c d", "b d e", " "),
        ("one\ntwo\nthree", "zero\ntwo\nfour\nfive", "\n"),
        ("", "a", ""),
        ("", "a b", " "),
        ("a b", "", " "),
    ];
    for (old, new, split) in cases {
        let runs = Changeset::new(old, new, split).diffs;
        for pair in runs.windows(2) {
            assert_ne!(pair[0].kind(), pair[1].kind());
            assert!(!(pair[0].kind() == RunKind::Add && pair[1].kind() == RunKind::Rem));
        }
    }
}

#[test]
fn no_common_subsequence_is_longer() {
    // "b d" and "c d" are both common and nothing common is longer. The walk
    // back takes the last "d", steps back in the original on the tie between
    // "c" and "b", and so finds "b".
    let a = strings(&["a", "b", "c", "d"]);
    let b = strings(&["c", "d", "b", "d"]);
    let (distance, common) = lcs(&a, &b);
    assert_eq!(common.len(), 2);
    assert_eq!(distance, 4);
    assert_eq!(common, strings(&["b", "d"]));
}
