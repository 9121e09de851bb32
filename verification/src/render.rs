//! Changesets as text for a terminal: added runs in green, removed runs in
//! red.

use vstd::prelude::*;
use vstd::string::StringExecFns;
use crate::multi::{holds, mark_text, marked_words, occurrence_views, Cursor, SENTINEL};
use crate::tokens::split;
use crate::{run_views, Changeset, ChangesetMulti, Run, RunKind};

verus! {

/// What is written before the text of a run of the given kind.
pub open spec fn opening_mark(kind: RunKind) -> Seq<char> {
    match kind {
        RunKind::Same => Seq::empty(),
        RunKind::Add => "\x1b[92m"@,
        RunKind::Rem => "\x1b[91m"@,
    }
}

/// What is written after the text of a run of the given kind.
pub open spec fn closing_mark(kind: RunKind) -> Seq<char> {
    match kind {
        RunKind::Same => Seq::empty(),
        _ => "\x1b[0m"@,
    }
}

/// The runs as text: each run between its marks, and the delimiter after
/// every run.
pub open spec fn rendered(runs: Seq<Run>, delimiter: Seq<char>) -> Seq<char>
    decreases runs.len(),
{
    if runs.len() == 0 {
        Seq::empty()
    } else {
        let run = runs.last();
        rendered(runs.drop_last(), delimiter) + opening_mark(run.kind) + run.text + closing_mark(
            run.kind,
        ) + delimiter
    }
}

/// The runs of a changeset with several delimiters as text, and where the
/// walk over the recorded delimiters stands after them. Each run is cut
/// into words at the sentinel; each word stands between the marks of its
/// run, and the delimiter recorded behind it follows the closing mark.
pub open spec fn rendered_words(
    runs: Seq<Run>,
    originals: Seq<(int, Seq<char>)>,
    editeds: Seq<(int, Seq<char>)>,
) -> (Seq<char>, Cursor)
    decreases runs.len(),
{
    if runs.len() == 0 {
        (Seq::empty(), Cursor { original: 0, edited: 0 })
    } else {
        let (done, at) = rendered_words(runs.drop_last(), originals, editeds);
        let run = runs.last();
        let (text, next) = marked_words(
            run.kind,
            split(run.text, seq![SENTINEL]),
            originals,
            editeds,
            at,
            opening_mark(run.kind),
            closing_mark(run.kind),
        );
        (done + text, next)
    }
}

/// The marks for runs of the given kind.
pub fn marks_of(kind: RunKind) -> (marks: (&'static str, &'static str))
    ensures
        marks.0@ == opening_mark(kind),
        marks.1@ == closing_mark(kind),
{
    match kind {
        RunKind::Same => {
            let nothing = "";
            proof {
                reveal_strlit("");
            }
            assert(nothing@ =~= Seq::<char>::empty());
            (nothing, nothing)
        },
        RunKind::Add => ("\x1b[92m", "\x1b[0m"),
        RunKind::Rem => ("\x1b[91m", "\x1b[0m"),
    }
}

impl Changeset {
    /// The changeset as text for a terminal: unchanged runs as they are,
    /// added runs in green, removed runs in red, and the delimiter after
    /// every run.
    pub fn render(&self) -> (text: String)
        ensures
            text@ == rendered(run_views(self.diffs@), self.split@),
    {
        let ghost runs = run_views(self.diffs@);
        let mut text = String::new();
        let mut i: usize = 0;
        while i < self.diffs.len()
            invariant
                i <= self.diffs.len(),
                runs == run_views(self.diffs@),
                text@ == rendered(runs.take(i as int), self.split@),
            decreases self.diffs.len() - i,
        {
            let ghost so_far = text@;
            let kind = self.diffs[i].kind();
            let run_text = self.diffs[i].text();
            let (opening, closing) = marks_of(kind);
            proof {
                assert(runs.take(i + 1).drop_last() =~= runs.take(i as int));
                assert(runs.take(i + 1).last() == self.diffs@[i as int]@);
            }
            text.append(opening);
            text.append(run_text);
            text.append(closing);
            text.append(self.split.as_str());
            assert(text@ =~= so_far + opening@ + run_text@ + closing@ + self.split@);
            i += 1;
        }
        assert(runs.take(self.diffs.len() as int) =~= runs);
        text
    }
}

impl ChangesetMulti {
    /// The changeset as text for a terminal. The runs are walked as they
    /// are when the delimiters are put back: word by word, with one
    /// position for each text, and with the delimiter that is recorded at
    /// the position behind a word written after it, outside the colour.
    ///
    /// Runs that hold the sentinel in place of their delimiters come out
    /// with every delimiter between the words, outside the colour. The
    /// runs that `Changeset::new_multi` returns hold their delimiters
    /// already: each such run is one word, so its delimiters are written
    /// inside the colour, and where a delimiter is recorded at the position
    /// right behind a run, that delimiter is written once more.
    pub fn render(&self) -> (text: String)
        ensures
            text@ == rendered_words(
                run_views(self.diffs@),
                occurrence_views(self.splits@),
                occurrence_views(self.edit_splits@),
            ).0,
    {
        let ghost runs = run_views(self.diffs@);
        let ghost olds = occurrence_views(self.splits@);
        let ghost news = occurrence_views(self.edit_splits@);
        let mut text = String::new();
        let mut held: (Option<usize>, Option<usize>) = (Some(0), Some(0));
        let ghost mut now = Cursor { original: 0, edited: 0 };
        let mut i: usize = 0;
        while i < self.diffs.len()
            invariant
                i <= self.diffs.len(),
                runs == run_views(self.diffs@),
                olds == occurrence_views(self.splits@),
                news == occurrence_views(self.edit_splits@),
                rendered_words(runs.take(i as int), olds, news) == (text@, now),
                holds(held.0, now.original),
                holds(held.1, now.edited),
                now.original >= 0,
                now.edited >= 0,
            decreases self.diffs.len() - i,
        {
            let ghost so_far = text@;
            let kind = self.diffs[i].kind();
            let run_text = self.diffs[i].text();
            let (opening, closing) = marks_of(kind);
            proof {
                assert(runs.take(i + 1).drop_last() =~= runs.take(i as int));
                assert(runs.take(i + 1).last() == self.diffs@[i as int]@);
            }
            let (marked, next) = mark_text(
                kind,
                run_text,
                &self.splits,
                &self.edit_splits,
                held,
                Ghost(now),
                opening,
                closing,
            );
            held = next;
            proof {
                now = marked_words(
                    kind,
                    split(run_text@, seq![SENTINEL]),
                    olds,
                    news,
                    now,
                    opening@,
                    closing@,
                ).1;
            }
            text.append(marked.as_str());
            i += 1;
        }
        assert(runs.take(self.diffs.len() as int) =~= runs);
        text
    }
}

} // verus!
