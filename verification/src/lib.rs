//! Differences between two texts, as runs of unchanged, removed and inserted
//! tokens, together with an edit distance.
//!
//! Both texts are cut into tokens on a delimiter. A longest common
//! subsequence of the two token sequences is found, and the tokens are
//! then walked from left to right and grouped into runs. The tables of
//! the search hold one cell for every pair of tokens, so time and memory
//! grow with the product of the two token counts.

use vstd::prelude::*;
use vstd::string::StringExecFns;
use crate::laws::round_trip;
use crate::lcs::{common_tokens, edit_distance, lcs};
use crate::merge::{edited_texts, merge, merged_runs, original_texts};
use crate::multi::{
    all_occurrences, normalize, occurrence_views, record_occurrences, replace_all, restore_runs,
    sentinel_string, str_views, SENTINEL,
};
use crate::tokens::{join, tokenize, tokens_of};

pub mod text;
pub mod tokens;
pub mod lcs;
pub mod merge;
pub mod multi;
pub mod laws;
pub mod render;
pub mod assertion;

verus! {

/// The three kinds of run.
#[derive(Clone, Copy, Debug, PartialEq, Eq, Structural)]
pub enum RunKind {
    /// Tokens that both texts hold.
    Same,
    /// Tokens that only the edited text holds.
    Add,
    /// Tokens that only the original text holds.
    Rem,
}

/// Whether runs of this kind hold tokens of the original text.
pub open spec fn in_original(kind: RunKind) -> bool {
    kind != RunKind::Add
}

/// Whether runs of this kind hold tokens of the edited text.
pub open spec fn in_edited(kind: RunKind) -> bool {
    kind != RunKind::Rem
}

/// What a `Difference` stands for: a kind and a text.
pub ghost struct Run {
    pub kind: RunKind,
    pub text: Seq<char>,
}

/// One run of a changeset. Runs come in the order in which they appear when
/// both texts are read from left to right, and neighbouring tokens of the
/// same kind share one run.
#[derive(PartialEq, Eq, Clone, Debug)]
pub enum Difference {
    /// Tokens that are the same in both texts.
    Same(String),
    /// Tokens that were added: they do not appear in the original text.
    Add(String),
    /// Tokens that were removed: they do not appear in the edited text.
    Rem(String),
}

impl View for Difference {
    type V = Run;

    open spec fn view(&self) -> Run {
        match self {
            Difference::Same(text) => Run { kind: RunKind::Same, text: text@ },
            Difference::Add(text) => Run { kind: RunKind::Add, text: text@ },
            Difference::Rem(text) => Run { kind: RunKind::Rem, text: text@ },
        }
    }
}

impl Difference {
    /// The difference of the given kind with the given text.
    pub fn of(kind: RunKind, text: String) -> (diff: Difference)
        ensures
            diff@ == (Run { kind: kind, text: text@ }),
    {
        match kind {
            RunKind::Same => Difference::Same(text),
            RunKind::Add => Difference::Add(text),
            RunKind::Rem => Difference::Rem(text),
        }
    }

    /// The kind of this run.
    pub fn kind(&self) -> (kind: RunKind)
        ensures
            kind == self@.kind,
    {
        match self {
            Difference::Same(_) => RunKind::Same,
            Difference::Add(_) => RunKind::Add,
            Difference::Rem(_) => RunKind::Rem,
        }
    }

    /// The text of this run.
    pub fn text(&self) -> (text: &str)
        ensures
            text@ == self@.text,
    {
        match self {
            Difference::Same(text) => text.as_str(),
            Difference::Add(text) => text.as_str(),
            Difference::Rem(text) => text.as_str(),
        }
    }
}

/// The runs that a sequence of differences stands for.
pub open spec fn run_views(diffs: Seq<Difference>) -> Seq<Run> {
    Seq::new(diffs.len(), |i: int| diffs[i]@)
}

/// The differences between two texts that were split on one delimiter.
#[derive(Clone, Debug, PartialEq, Eq)]
pub struct Changeset {
    /// The runs, in order.
    pub diffs: Vec<Difference>,
    /// The delimiter that the texts were split on: `""` compares character
    /// by character, `" "` word by word, `"\n"` line by line.
    pub split: String,
    /// The edit distance: how many tokens were removed or added.
    pub distance: i128,
}

/// The differences between two texts that were split on several delimiters.
/// The runs hold the delimiters that stood in the texts.
#[derive(Clone, Debug, PartialEq, Eq)]
pub struct ChangesetMulti {
    /// The runs, in order.
    pub diffs: Vec<Difference>,
    /// Every delimiter found in the original text, with its byte offset.
    pub splits: Vec<(usize, String)>,
    /// Every delimiter found in the edited text, with its byte offset.
    pub edit_splits: Vec<(usize, String)>,
    /// The edit distance: how many tokens were removed or added.
    pub distance: i128,
}

/// The runs between the original text and the edited text, both split on
/// `delimiter`. Two empty texts have no run. Otherwise the runs are those
/// of the walk over the tokens of both texts: an empty text that is split
/// on a delimiter is one empty token, and so gives a run with an empty text.
pub open spec fn diff_runs(original: Seq<char>, edited: Seq<char>, delimiter: Seq<char>) -> Seq<
    Run,
> {
    if original.len() == 0 && edited.len() == 0 {
        Seq::empty()
    } else {
        let a = tokenize(original, delimiter);
        let b = tokenize(edited, delimiter);
        merged_runs(a, b, common_tokens(a, b), delimiter)
    }
}

/// The edit distance between the original text and the edited text, both
/// split on `delimiter`: the number of tokens of either text that are not
/// part of their longest common subsequence. An empty text that is split on
/// a delimiter counts as one token, the empty one.
pub open spec fn diff_distance(original: Seq<char>, edited: Seq<char>, delimiter: Seq<char>)
    -> int {
    edit_distance(tokenize(original, delimiter), tokenize(edited, delimiter))
}

/// The runs between two texts split on several delimiters, with the
/// delimiters back in place.
pub open spec fn multi_runs(original: Seq<char>, edited: Seq<char>, delimiters: Seq<Seq<char>>)
    -> Seq<Run> {
    restore_runs(
        diff_runs(normalize(original, delimiters), normalize(edited, delimiters), seq![SENTINEL]),
        all_occurrences(original, delimiters),
        all_occurrences(edited, delimiters),
    ).0
}

/// The edit distance between two texts split on several delimiters.
pub open spec fn multi_distance(
    original: Seq<char>,
    edited: Seq<char>,
    delimiters: Seq<Seq<char>>,
) -> int {
    diff_distance(normalize(original, delimiters), normalize(edited, delimiters), seq![SENTINEL])
}

impl Changeset {
    /// Finds the differences between two texts. The first is taken as the
    /// original, the second as an edited version of it. Both are split on
    /// `split`: `""` compares character by character, `" "` word by word,
    /// `"\n"` line by line.
    ///
    /// The runs, joined with `split`, give back the original where the
    /// added runs are left out, and the edited text where the removed runs
    /// are left out.
    ///
    /// A text in which `split` does not stand is one token, and so is the
    /// empty text where `split` is not empty: against `"a"`, split on
    /// `" "`, the empty text is at distance 2, and the runs are an empty
    /// removed run and the added `"a"`. Two empty texts are at distance 0
    /// and have no run. With the empty `split` an empty text has no token
    /// and gives no run.
    #[must_use]
    pub fn new(orig: &str, edit: &str, split: &str) -> (changeset: Changeset)
        ensures
            run_views(changeset.diffs@) == diff_runs(orig@, edit@, split@),
            changeset.split@ == split@,
            changeset.distance == diff_distance(orig@, edit@, split@),
            join(original_texts(run_views(changeset.diffs@)), split@) == orig@,
            join(edited_texts(run_views(changeset.diffs@)), split@) == edit@,
    {
        let a = tokens_of(orig, split);
        let b = tokens_of(edit, split);
        let (distance, common) = lcs(&a, &b);
        let diffs = if orig.is_empty() && edit.is_empty() {
            let none: Vec<Difference> = Vec::new();
            assert(run_views(none@) =~= Seq::<Run>::empty());
            none
        } else {
            merge(&a, &b, &common, split)
        };
        proof {
            round_trip(orig@, edit@, split@);
        }
        Changeset { diffs: diffs, split: String::from_str(split), distance: distance }
    }

    /// Finds the differences between two texts that are split on several
    /// delimiters at once. Every occurrence of every delimiter is recorded
    /// with its byte offset, for each text. The delimiters are then replaced
    /// by one sentinel character, in the order given, the texts are compared
    /// token by token, and the recorded delimiters are put back into the
    /// runs. A text that holds the sentinel itself is split there too.
    #[must_use]
    pub fn new_multi(orig: &str, edit: &str, splits: &[&str]) -> (multi: ChangesetMulti)
        ensures
            run_views(multi.diffs@) == multi_runs(orig@, edit@, str_views(splits@)),
            occurrence_views(multi.splits@) == all_occurrences(orig@, str_views(splits@)),
            occurrence_views(multi.edit_splits@) == all_occurrences(edit@, str_views(splits@)),
            multi.distance == multi_distance(orig@, edit@, str_views(splits@)),
    {
        let ghost delimiters = str_views(splits@);
        let sentinel = sentinel_string();
        let mut matched_splits: Vec<(usize, String)> = Vec::new();
        let mut edit_splits: Vec<(usize, String)> = Vec::new();
        let mut aux_orig = String::from_str(orig);
        let mut aux_edit = String::from_str(edit);
        let mut i: usize = 0;
        proof {
            assert(occurrence_views(matched_splits@) =~= Seq::<(int, Seq<char>)>::empty());
            assert(occurrence_views(edit_splits@) =~= Seq::<(int, Seq<char>)>::empty());
        }
        while i < splits.len()
            invariant
                i <= splits.len(),
                delimiters == str_views(splits@),
                sentinel@ == seq![SENTINEL],
                occurrence_views(matched_splits@) == all_occurrences(
                    orig@,
                    delimiters.take(i as int),
                ),
                occurrence_views(edit_splits@) == all_occurrences(edit@, delimiters.take(i as int)),
                aux_orig@ == normalize(orig@, delimiters.take(i as int)),
                aux_edit@ == normalize(edit@, delimiters.take(i as int)),
            decreases splits.len() - i,
        {
            let split = splits[i];
            proof {
                assert(delimiters.take(i + 1).drop_last() =~= delimiters.take(i as int));
                assert(delimiters.take(i + 1).last() == split@);
            }
            record_occurrences(orig, split, &mut matched_splits);
            record_occurrences(edit, split, &mut edit_splits);
            aux_orig = replace_all(aux_orig.as_str(), split, sentinel.as_str());
            aux_edit = replace_all(aux_edit.as_str(), split, sentinel.as_str());
            i += 1;
        }
        proof {
            assert(delimiters.take(splits.len() as int) =~= delimiters);
        }
        let changeset = Changeset::new(aux_orig.as_str(), aux_edit.as_str(), sentinel.as_str());
        ChangesetMulti::from_parts(changeset, matched_splits, edit_splits)
    }
}

} // verus!
