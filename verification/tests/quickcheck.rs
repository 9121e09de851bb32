use difference_rs::{Changeset, Difference};
use quickcheck::{quickcheck, QuickCheck, TestResult};

struct Check<'a> {
    old: &'a str,
    new: &'a str,
    changeset: Changeset,
}

fn check_changeset(old: &str, new: &str, split: &str) -> TestResult {
    Check::new(old, new, split).check()
}

impl<'a> Check<'a> {
    fn new(old: &'a str, new: &'a str, split: &'a str) -> Check<'a> {
        Check {
            old,
            new,
            changeset: Changeset::new(old, new, split),
        }
    }

    fn describe(&self) -> String {
        let runs: Vec<String> = self
            .changeset
            .diffs
            .iter()
            .map(|d| format!("{d:?}"))
            .collect();
        format!(
            "Changeset::new({:?}, {:?}, {:?}) -> [{}]",
            self.old,
            self.new,
            self.changeset.split,
            runs.join(" ")
        )
    }

    fn check(&self) -> TestResult {
        let split = self.changeset.split.as_str();

        let mut old: Vec<&str> = Vec::new();
        let mut new: Vec<&str> = Vec::new();

        for d in &self.changeset.diffs {
            match *d {
                Difference::Same(ref x) => {
                    old.push(x);
                    new.push(x);
                }
                Difference::Add(ref x) => {
                    new.push(x);
                }
                Difference::Rem(ref x) => {
                    old.push(x);
                }
            }
        }
        let got_old = old.join(split);
        let got_new = new.join(split);
        if got_old != self.old {
            return TestResult::error(format!(
                "Diff output implies old=`{:?}`, not `{:?}` in {}",
                got_old,
                self.old,
                self.describe(),
            ));
        }
        if got_new != self.new {
            return TestResult::error(format!(
                "Diff output implies new=`{:?}`, not `{:?}` in {}",
                got_new,
                self.new,
                self.describe(),
            ));
        }

        TestResult::passed()
    }
}

fn map_to_words(input: &[usize], words: &[char]) -> String {
    input
        .iter()
        .enumerate()
        .fold(String::new(), |mut acc, (i, x)| {
            if i > 0 {
                acc.push(' ');
            }
            acc.push(words[x % words.len()]);
            acc
        })
}

fn prop(old: Vec<usize>, new: Vec<usize>, words: Vec<char>) -> TestResult {
    if words.is_empty() {
        return TestResult::discard();
    }
    let old = map_to_words(&old, &words);
    let new = map_to_words(&new, &words);

    check_changeset(&old, &new, " ")
}

fn prop_any_delimiter(old: String, new: String, split: String) -> TestResult {
    check_changeset(&old, &new, &split)
}

#[test]
fn simple() {
    quickcheck(check_changeset("a", "a a", " "));
}

#[test]
fn issue_19() {
    quickcheck(check_changeset("a b : g", "b a : b b : g g", " "));
}

#[test]
fn fuzzy() {
    QuickCheck::new()
        .tests(100) // max successful tests
        .max_tests(10_000) // max attempts
        .quickcheck(prop as fn(Vec<usize>, Vec<usize>, Vec<char>) -> TestResult);
}

#[test]
fn round_trip_for_random_texts_and_delimiters() {
    QuickCheck::new()
        .tests(200)
        .quickcheck(prop_any_delimiter as fn(String, String, String) -> TestResult);
}

fn zero_distance(text: String, split: String) -> bool {
    let changeset = Changeset::new(&text, &text, &split);
    let runs = if text.is_empty() {
        vec![]
    } else {
        vec![Difference::Same(text.clone())]
    };
    changeset.distance == 0 && changeset.diffs == runs
}

#[test]
fn distance_to_itself_is_zero_for_random_texts() {
    QuickCheck::new()
        .tests(200)
        .quickcheck(zero_distance as fn(String, String) -> bool);
}
