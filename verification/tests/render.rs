use difference_rs::assertion::{check_diff, decimal_string, failure_message};
use difference_rs::render::marks_of;
use difference_rs::{Changeset, ChangesetMulti, Difference, RunKind};

fn same(text: &str) -> Difference {
    Difference::Same(text.to_string())
}

fn add(text: &str) -> Difference {
    Difference::Add(text.to_string())
}

fn rem(text: &str) -> Difference {
    Difference::Rem(text.to_string())
}

#[test]
fn marks_of_each_kind() {
    assert_eq!(marks_of(RunKind::Same), ("", ""));
    assert_eq!(marks_of(RunKind::Add), ("\x1b[92m", "\x1b[0m"));
    assert_eq!(marks_of(RunKind::Rem), ("\x1b[91m", "\x1b[0m"));
}

#[test]
fn kind_and_text_of_a_difference() {
    assert_eq!((same("a").kind(), same("a").text()), (RunKind::Same, "a"));
    assert_eq!((add("b").kind(), add("b").text()), (RunKind::Add, "b"));
    assert_eq!((rem("c").kind(), rem("c").text()), (RunKind::Rem, "c"));
}

#[test]
fn every_run_is_followed_by_the_delimiter() {
    let changeset = Changeset {
        diffs: vec![same("a"), rem("b"), add("c")],
        split: ", ".to_string(),
        distance: 2,
    };
    assert_eq!(changeset.render(), "a, \x1b[91mb\x1b[0m, \x1b[92mc\x1b[0m, ");
}

#[test]
fn a_changeset_without_runs_renders_as_nothing() {
    assert_eq!(Changeset::new("", "", "\n").render(), "");
    assert_eq!(Changeset::new_multi("", "", &[","]).render(), "");
}

#[test]
fn an_empty_run_renders_as_its_marks() {
    assert_eq!(
        Changeset::new("", "a", " ").render(),
        "\x1b[91m\x1b[0m \x1b[92ma\x1b[0m "
    );
}

#[test]
fn characters_render_without_a_delimiter() {
    assert_eq!(
        Changeset::new("test", "tent", "").render(),
        "te\x1b[91ms\x1b[0m\x1b[92mn\x1b[0mt"
    );
}

#[test]
fn several_delimiters_render_inside_their_runs() {
    let cg = Changeset::new_multi(
        "https://localhost:8080/path?query=value",
        "https://myapi.com/api/path?query=asset",
        &["://", "/", "?", "="],
    );
    assert_eq!(
        cg.render(),
        "https://\x1b[91mlocalhost:8080/\x1b[0m\x1b[92mmyapi.com/api/\x1b[0mpath?query=\x1b[91mvalue\x1b[0m\x1b[92masset\x1b[0m"
    );
}

#[test]
fn a_recorded_delimiter_is_written_outside_the_colour() {
    // Runs as they are before the delimiters are put back: cut at the
    // sentinel, with the delimiters recorded beside them.
    let text1 = "https://localhost:8080/path?query=value";
    let text2 = "https://myapi.com/api/path?query=asset";
    let recorded = Changeset::new_multi(text1, text2, &["://", "/", "?", "="]);
    let cg = ChangesetMulti {
        diffs: vec![
            same("https"),
            rem("localhost:8080"),
            add("myapi.com\u{FFFD}api"),
            same("path\u{FFFD}query"),
            rem("value"),
            add("asset"),
        ],
        splits: recorded.splits,
        edit_splits: recorded.edit_splits,
        distance: recorded.distance,
    };
    let expected = b"https://\x1b[91mlocalhost:8080\x1b[0m/\x1b[92mmyapi.com\x1b[0m/\x1b[92mapi\x1b[0m/path?query=\x1b[91mvalue\x1b[0m\x1b[92masset\x1b[0m";
    assert_eq!(cg.render().into_bytes(), expected.to_vec());
}

#[test]
fn a_delimiter_found_behind_a_run_is_written_again() {
    // Behind the unchanged "a," the original stands at 2, where the second
    // comma is recorded.
    let cg = Changeset::new_multi("a,,b", "a,b", &[","]);
    assert_eq!(
        cg.diffs,
        vec![same("a,"), rem(","), same("b")]
    );
    assert_eq!(cg.render(), "a,,\x1b[91m,\x1b[0mb");
}

#[test]
fn whole_numbers_in_decimal() {
    assert_eq!(decimal_string(0), "0");
    assert_eq!(decimal_string(7), "7");
    assert_eq!(decimal_string(10), "10");
    assert_eq!(decimal_string(1234567890), "1234567890");
    assert_eq!(decimal_string(-5), "-5");
    assert_eq!(decimal_string(-120), "-120");
    assert_eq!(decimal_string(i128::MAX), i128::MAX.to_string());
    assert_eq!(decimal_string(i128::MIN), i128::MIN.to_string());
}

#[test]
fn what_a_failed_check_says() {
    assert_eq!(
        failure_message("\"a\"", "\"b\"", 2, -1),
        "assertion failed: edit distance between \"a\" and \"b\" is 2 and not -1, see diffset above"
    );
}

#[test]
fn a_check_passes_on_the_expected_distance() {
    assert_eq!(check_diff("a b", "a c", " ", 2), Ok(()));
    assert_eq!(check_diff("", "", "", 0), Ok(()));
    assert_eq!(check_diff("same", "same", "\n", 0), Ok(()));
    assert_eq!(check_diff("", "a", " ", 2), Ok(()));
    assert_eq!(check_diff("", " a", " ", 1), Ok(()));
    assert_eq!(check_diff("", "", " ", 0), Ok(()));
    assert_eq!(check_diff("", "a", "", 1), Ok(()));
}

#[test]
fn a_check_fails_on_another_distance() {
    let mismatch = check_diff("a \"b\"\n", "a c", " ", 0).unwrap_err();
    assert_eq!(mismatch.distance, 2);
    assert_eq!(mismatch.rendered, "a \x1b[91m\"b\"\n\x1b[0m \x1b[92mc\x1b[0m ");
    assert_eq!(
        mismatch.message,
        "assertion failed: edit distance between \"a \\\"b\\\"\\n\" and \"a c\" is 2 and not 0, see diffset above"
    );
}
