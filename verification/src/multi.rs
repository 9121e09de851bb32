//! Several delimiters at once: where each one stands in a text, and how the
//! delimiters return into the runs of a changeset made without them.

use vstd::prelude::*;
use vstd::string::StringExecFns;
use crate::text::{
    byte_len, char_width, chars_of, lemma_byte_len_concat, lemma_byte_len_prefix,
    lemma_byte_len_prefix_grows, lemma_byte_len_single, str_byte_len, views,
};
use crate::tokens::{
    join_tokens, lemma_occurrences_are_matches, lemma_occurrences_increase, matches_at,
    occurrences_from, occurs_at, replace, split, split_chars, stride,
};
use crate::{in_edited, in_original, run_views, Changeset, ChangesetMulti, Difference, Run, RunKind};

verus! {

/// The character that stands for every delimiter while the texts are compared.
pub const SENTINEL: char = '\u{FFFD}';

/// The recorded delimiters, each with its offset.
pub open spec fn occurrence_views(list: Seq<(usize, String)>) -> Seq<(int, Seq<char>)> {
    Seq::new(list.len(), |i: int| (list[i].0 as int, list[i].1@))
}

/// The first delimiter in `list` that is recorded at `offset`.
pub open spec fn delimiter_at(list: Seq<(int, Seq<char>)>, offset: int) -> Option<Seq<char>>
    decreases list.len(),
{
    if list.len() == 0 {
        None
    } else if list[0].0 == offset {
        Some(list[0].1)
    } else {
        delimiter_at(list.drop_first(), offset)
    }
}

/// The delimiter recorded right behind a word that starts at `position`.
pub open spec fn found_after(list: Seq<(int, Seq<char>)>, position: int, word: Seq<char>)
    -> Option<Seq<char>> {
    delimiter_at(list, position + byte_len(word))
}

/// The position behind a word that starts at `position`, and behind the
/// delimiter that follows it, if one is recorded there.
pub open spec fn advance(list: Seq<(int, Seq<char>)>, position: int, word: Seq<char>) -> int {
    position + byte_len(word) + match found_after(list, position, word) {
        Some(delimiter) => byte_len(delimiter) as int,
        None => 0,
    }
}

/// How far the walk has come in each text, in bytes.
pub ghost struct Cursor {
    pub original: int,
    pub edited: int,
}

/// The delimiter text that follows `word` in a run of the given kind. A run
/// of added tokens takes it from the edited text, every other run from the
/// original text.
pub open spec fn delimiter_after(
    kind: RunKind,
    word: Seq<char>,
    originals: Seq<(int, Seq<char>)>,
    editeds: Seq<(int, Seq<char>)>,
    at: Cursor,
) -> Seq<char> {
    let found = if in_original(kind) {
        found_after(originals, at.original, word)
    } else {
        found_after(editeds, at.edited, word)
    };
    match found {
        Some(delimiter) => delimiter,
        None => Seq::empty(),
    }
}

/// Where the walk stands after `word`. Each text that the run belongs to
/// moves on by the word and by the delimiter recorded behind it in that
/// text; the two texts move independently.
pub open spec fn after_word(
    kind: RunKind,
    word: Seq<char>,
    originals: Seq<(int, Seq<char>)>,
    editeds: Seq<(int, Seq<char>)>,
    at: Cursor,
) -> Cursor {
    Cursor {
        original: if in_original(kind) {
            advance(originals, at.original, word)
        } else {
            at.original
        },
        edited: if in_edited(kind) {
            advance(editeds, at.edited, word)
        } else {
            at.edited
        },
    }
}

/// The words of a run, each between the marks `before` and `after` and
/// followed by its delimiter, and where the walk stands after them.
pub open spec fn marked_words(
    kind: RunKind,
    words: Seq<Seq<char>>,
    originals: Seq<(int, Seq<char>)>,
    editeds: Seq<(int, Seq<char>)>,
    at: Cursor,
    before: Seq<char>,
    after: Seq<char>,
) -> (Seq<char>, Cursor)
    decreases words.len(),
{
    if words.len() == 0 {
        (Seq::empty(), at)
    } else {
        let (text, mid) = marked_words(
            kind,
            words.drop_last(),
            originals,
            editeds,
            at,
            before,
            after,
        );
        let word = words.last();
        (
            text + before + word + after + delimiter_after(kind, word, originals, editeds, mid),
            after_word(kind, word, originals, editeds, mid),
        )
    }
}

/// The text of a run whose words are `words`, with the delimiters back in
/// place, and where the walk stands after it.
pub open spec fn restore_words(
    kind: RunKind,
    words: Seq<Seq<char>>,
    originals: Seq<(int, Seq<char>)>,
    editeds: Seq<(int, Seq<char>)>,
    at: Cursor,
) -> (Seq<char>, Cursor) {
    marked_words(kind, words, originals, editeds, at, Seq::empty(), Seq::empty())
}

/// The runs with the delimiters back in place, and where the walk stands
/// after them. Each run is cut into words at the sentinel, and the walk
/// starts at the beginning of both texts.
pub open spec fn restore_runs(
    runs: Seq<Run>,
    originals: Seq<(int, Seq<char>)>,
    editeds: Seq<(int, Seq<char>)>,
) -> (Seq<Run>, Cursor)
    decreases runs.len(),
{
    if runs.len() == 0 {
        (Seq::empty(), Cursor { original: 0, edited: 0 })
    } else {
        let (done, at) = restore_runs(runs.drop_last(), originals, editeds);
        let run = runs.last();
        let (text, next) = restore_words(
            run.kind,
            split(run.text, seq![SENTINEL]),
            originals,
            editeds,
            at,
        );
        (done.push(Run { kind: run.kind, text: text }), next)
    }
}

/// Putting the delimiters back changes neither the number of the runs nor
/// their kinds.
pub proof fn lemma_restore_keeps_kinds(
    runs: Seq<Run>,
    originals: Seq<(int, Seq<char>)>,
    editeds: Seq<(int, Seq<char>)>,
)
    ensures
        restore_runs(runs, originals, editeds).0.len() == runs.len(),
        forall|k: int|
            0 <= k < runs.len() ==> (#[trigger] restore_runs(runs, originals, editeds).0[k]).kind
                == runs[k].kind,
    decreases runs.len(),
{
    if runs.len() > 0 {
        let earlier = runs.drop_last();
        lemma_restore_keeps_kinds(earlier, originals, editeds);
        let restored = restore_runs(runs, originals, editeds).0;
        let before = restore_runs(earlier, originals, editeds).0;
        assert forall|k: int| 0 <= k < runs.len() implies (#[trigger] restored[k]).kind
            == runs[k].kind by {
            if k < earlier.len() {
                assert(restored[k] == before[k]);
                assert(earlier[k] == runs[k]);
            }
        }
    }
}

/// Whether the machine position `held` stands for the position `position`.
/// A position beyond the machine's range is held as `None`: no recorded
/// offset can equal it.
pub open spec fn holds(held: Option<usize>, position: int) -> bool {
    match held {
        Some(value) => value == position,
        None => position > usize::MAX,
    }
}

/// No delimiter is recorded at an offset beyond the machine's range.
pub proof fn lemma_none_beyond(list: Seq<(usize, String)>, offset: int)
    requires
        offset > usize::MAX,
    ensures
        delimiter_at(occurrence_views(list), offset) is None,
    decreases list.len(),
{
    let views = occurrence_views(list);
    if list.len() > 0 {
        assert(views.drop_first() =~= occurrence_views(list.drop_first()));
        lemma_none_beyond(list.drop_first(), offset);
    }
}

/// Finds the first delimiter recorded at `offset`.
pub fn find_delimiter<'a>(list: &'a Vec<(usize, String)>, offset: usize) -> (found: Option<
    &'a String,
>)
    ensures
        match found {
            Some(delimiter) => delimiter_at(occurrence_views(list@), offset as int) == Some(
                delimiter@,
            ),
            None => delimiter_at(occurrence_views(list@), offset as int) is None,
        },
{
    let ghost all = occurrence_views(list@);
    let mut i: usize = 0;
    assert(all.skip(0) =~= all);
    while i < list.len()
        invariant
            i <= list.len(),
            all == occurrence_views(list@),
            delimiter_at(all.skip(i as int), offset as int) == delimiter_at(all, offset as int),
        decreases list.len() - i,
    {
        proof {
            assert(all.skip(i as int).drop_first() =~= all.skip(i + 1));
            assert(all.skip(i as int)[0] == all[i as int]);
        }
        if list[i].0 == offset {
            return Some(&list[i].1);
        }
        i += 1;
    }
    assert(all.skip(i as int).len() == 0);
    None
}

/// Moves one text's position past `word` and past the delimiter recorded
/// behind it, and hands that delimiter out.
fn step_past<'a>(
    list: &'a Vec<(usize, String)>,
    held: Option<usize>,
    word: &str,
    Ghost(position): Ghost<int>,
) -> (stepped: (Option<&'a String>, Option<usize>))
    requires
        holds(held, position),
        position >= 0,
    ensures
        match stepped.0 {
            Some(delimiter) => found_after(occurrence_views(list@), position, word@) == Some(
                delimiter@,
            ),
            None => found_after(occurrence_views(list@), position, word@) is None,
        },
        holds(stepped.1, advance(occurrence_views(list@), position, word@)),
        advance(occurrence_views(list@), position, word@) >= 0,
{
    let width = str_byte_len(word);
    let behind = match held {
        Some(value) => value.checked_add(width),
        None => None,
    };
    match behind {
        None => {
            proof {
                lemma_none_beyond(list@, position + byte_len(word@));
            }
            (None, None)
        },
        Some(offset) => {
            match find_delimiter(list, offset) {
                Some(delimiter) => {
                    let next = offset.checked_add(str_byte_len(delimiter.as_str()));
                    (Some(delimiter), next)
                },
                None => (None, Some(offset)),
            }
        },
    }
}

/// The pattern that holds the sentinel alone.
pub fn sentinel_pattern() -> (pattern: Vec<char>)
    ensures
        pattern@ == seq![SENTINEL],
{
    let mut pattern: Vec<char> = Vec::new();
    pattern.push(SENTINEL);
    assert(pattern@ =~= seq![SENTINEL]);
    pattern
}

/// Cuts the text of one run into words at the sentinel, writes every word
/// between the two marks and the delimiter recorded behind it after it,
/// and moves the walk on.
pub(crate) fn mark_text(
    kind: RunKind,
    text: &str,
    originals: &Vec<(usize, String)>,
    editeds: &Vec<(usize, String)>,
    held: (Option<usize>, Option<usize>),
    Ghost(at): Ghost<Cursor>,
    before: &str,
    after: &str,
) -> (marked: (String, (Option<usize>, Option<usize>)))
    requires
        holds(held.0, at.original),
        holds(held.1, at.edited),
        at.original >= 0,
        at.edited >= 0,
    ensures
        ({
            let (expected, next) = marked_words(
                kind,
                split(text@, seq![SENTINEL]),
                occurrence_views(originals@),
                occurrence_views(editeds@),
                at,
                before@,
                after@,
            );
            &&& marked.0@ == expected
            &&& holds(marked.1.0, next.original)
            &&& holds(marked.1.1, next.edited)
            &&& next.original >= 0
            &&& next.edited >= 0
        }),
{
    let chars = chars_of(text);
    let pattern = sentinel_pattern();
    let words = split_chars(&chars, &pattern);
    let old_side = match kind {
        RunKind::Add => false,
        _ => true,
    };
    let new_side = match kind {
        RunKind::Rem => false,
        _ => true,
    };
    let ghost all = views(words@);
    let ghost olds = occurrence_views(originals@);
    let ghost news = occurrence_views(editeds@);
    let mut out = String::new();
    let mut original = held.0;
    let mut edited = held.1;
    let ghost mut now = at;
    let mut i: usize = 0;
    while i < words.len()
        invariant
            i <= words.len(),
            all == views(words@),
            olds == occurrence_views(originals@),
            news == occurrence_views(editeds@),
            old_side == in_original(kind),
            new_side == in_edited(kind),
            marked_words(kind, all.take(i as int), olds, news, at, before@, after@) == (
                out@,
                now,
            ),
            holds(original, now.original),
            holds(edited, now.edited),
            now.original >= 0,
            now.edited >= 0,
        decreases words.len() - i,
    {
        let word = words[i].as_str();
        let ghost so_far = out@;
        proof {
            assert(all.take(i + 1).drop_last() =~= all.take(i as int));
            assert(all.take(i + 1).last() == word@);
        }
        out.append(before);
        out.append(word);
        out.append(after);
        if old_side {
            let (found, next) = step_past(originals, original, word, Ghost(now.original));
            original = next;
            if let Some(delimiter) = found {
                out.append(delimiter.as_str());
            }
        }
        if new_side {
            let (found, next) = step_past(editeds, edited, word, Ghost(now.edited));
            edited = next;
            if !old_side {
                if let Some(delimiter) = found {
                    out.append(delimiter.as_str());
                }
            }
        }
        proof {
            let ghost tail = delimiter_after(kind, word@, olds, news, now);
            assert(out@ =~= so_far + before@ + word@ + after@ + tail);
            now = after_word(kind, word@, olds, news, now);
        }
        i += 1;
    }
    assert(all.take(words.len() as int) =~= all);
    (out, (original, edited))
}

impl ChangesetMulti {
    /// Puts the recorded delimiters back into the runs of `changeset`, whose
    /// texts hold the sentinel wherever a delimiter stood. The walk keeps one
    /// position for each text. A run of unchanged tokens moves both, a run of
    /// removed tokens the original's, a run of added tokens the edited's.
    /// Behind every word the text's list is searched for a delimiter at the
    /// position reached; the first one recorded there is written behind the
    /// word and moves the position on. An unchanged run takes the delimiter's
    /// text from the original.
    pub fn from_parts(
        changeset: Changeset,
        orig_splits: Vec<(usize, String)>,
        edit_splits: Vec<(usize, String)>,
    ) -> (multi: ChangesetMulti)
        ensures
            multi.splits == orig_splits,
            multi.edit_splits == edit_splits,
            multi.distance == changeset.distance,
            run_views(multi.diffs@) == restore_runs(
                run_views(changeset.diffs@),
                occurrence_views(orig_splits@),
                occurrence_views(edit_splits@),
            ).0,
    {
        let ghost runs = run_views(changeset.diffs@);
        let ghost olds = occurrence_views(orig_splits@);
        let ghost news = occurrence_views(edit_splits@);
        let nothing = String::new();
        let mut diffs: Vec<Difference> = Vec::new();
        let mut held: (Option<usize>, Option<usize>) = (Some(0), Some(0));
        let ghost mut now = Cursor { original: 0, edited: 0 };
        let mut i: usize = 0;
        assert(run_views(diffs@) =~= Seq::<Run>::empty());
        while i < changeset.diffs.len()
            invariant
                i <= changeset.diffs.len(),
                runs == run_views(changeset.diffs@),
                olds == occurrence_views(orig_splits@),
                news == occurrence_views(edit_splits@),
                nothing@ == Seq::<char>::empty(),
                restore_runs(runs.take(i as int), olds, news) == (run_views(diffs@), now),
                holds(held.0, now.original),
                holds(held.1, now.edited),
                now.original >= 0,
                now.edited >= 0,
            decreases changeset.diffs.len() - i,
        {
            proof {
                assert(runs.take(i + 1).drop_last() =~= runs.take(i as int));
                assert(runs.take(i + 1).last() == changeset.diffs@[i as int]@);
            }
            let ghost before = run_views(diffs@);
            let kind = changeset.diffs[i].kind();
            let text = changeset.diffs[i].text();
            let (restored, next) = mark_text(
                kind,
                text,
                &orig_splits,
                &edit_splits,
                held,
                Ghost(now),
                nothing.as_str(),
                nothing.as_str(),
            );
            held = next;
            proof {
                now = restore_words(kind, split(text@, seq![SENTINEL]), olds, news, now).1;
            }
            let ghost run = Run { kind: kind, text: restored@ };
            diffs.push(Difference::of(kind, restored));
            assert(run_views(diffs@) =~= before.push(run));
            i += 1;
        }
        assert(runs.take(changeset.diffs.len() as int) =~= runs);
        ChangesetMulti {
            diffs: diffs,
            splits: orig_splits,
            edit_splits: edit_splits,
            distance: changeset.distance,
        }
    }
}

/// The occurrences of one delimiter in `text`, from left to right and
/// without overlap, each with its offset in bytes.
pub open spec fn delimiter_occurrences(text: Seq<char>, delimiter: Seq<char>) -> Seq<
    (int, Seq<char>),
> {
    let positions = occurrences_from(text, delimiter, 0);
    Seq::new(positions.len(), |k: int| (byte_len(text.take(positions[k])) as int, delimiter))
}

/// The occurrences recorded for one delimiter all hold that delimiter, each
/// at the byte offset of a place in the text where it stands, and their
/// offsets increase strictly.
pub proof fn lemma_delimiter_occurrences(text: Seq<char>, delimiter: Seq<char>)
    ensures
        forall|k: int|
            0 <= k < delimiter_occurrences(text, delimiter).len() ==> {
                let position = occurrences_from(text, delimiter, 0)[k];
                &&& (#[trigger] delimiter_occurrences(text, delimiter)[k]).1 == delimiter
                &&& matches_at(text, delimiter, position)
                &&& delimiter_occurrences(text, delimiter)[k].0 == byte_len(text.take(position))
                &&& delimiter_occurrences(text, delimiter)[k].0 <= byte_len(text)
            },
        forall|j: int, k: int|
            0 <= j < k < delimiter_occurrences(text, delimiter).len() ==> (
            #[trigger] delimiter_occurrences(text, delimiter)[j]).0 < (
            #[trigger] delimiter_occurrences(text, delimiter)[k]).0,
{
    let positions = occurrences_from(text, delimiter, 0);
    let found = delimiter_occurrences(text, delimiter);
    lemma_occurrences_are_matches(text, delimiter, 0);
    assert forall|k: int| 0 <= k < found.len() implies {
        let position = positions[k];
        &&& (#[trigger] found[k]).1 == delimiter
        &&& matches_at(text, delimiter, position)
        &&& found[k].0 == byte_len(text.take(position))
        &&& found[k].0 <= byte_len(text)
    } by {
        assert(matches_at(text, delimiter, positions[k]));
        lemma_byte_len_prefix(text, positions[k]);
    }
    assert forall|j: int, k: int| 0 <= j < k < found.len() implies (#[trigger] found[j]).0 < (
    #[trigger] found[k]).0 by {
        lemma_occurrences_increase(text, delimiter, 0, j, k);
        assert(matches_at(text, delimiter, positions[k]));
        lemma_byte_len_prefix_grows(text, positions[j], positions[k]);
    }
}

/// The occurrences of every delimiter in `text`: those of the first
/// delimiter, then those of the second, and so on. A place where two
/// delimiters match is recorded once for each.
pub open spec fn all_occurrences(text: Seq<char>, delimiters: Seq<Seq<char>>) -> Seq<
    (int, Seq<char>),
>
    decreases delimiters.len(),
{
    if delimiters.len() == 0 {
        Seq::empty()
    } else {
        all_occurrences(text, delimiters.drop_last()) + delimiter_occurrences(
            text,
            delimiters.last(),
        )
    }
}

/// `text` with every delimiter replaced by the sentinel. The delimiters are
/// replaced one after the other in the order given, each in what the ones
/// before it left: where two delimiters overlap, the earlier one wins.
pub open spec fn normalize(text: Seq<char>, delimiters: Seq<Seq<char>>) -> Seq<char>
    decreases delimiters.len(),
{
    if delimiters.len() == 0 {
        text
    } else {
        replace(normalize(text, delimiters.drop_last()), delimiters.last(), seq![SENTINEL])
    }
}

/// The texts of a list of string slices.
pub open spec fn str_views(list: Seq<&str>) -> Seq<Seq<char>> {
    Seq::new(list.len(), |i: int| list[i]@)
}

/// The offset in bytes of a character position grows with the position.
proof fn lemma_offset_step(text: Seq<char>, i: int, width: int)
    requires
        0 <= i,
        0 <= width,
        i + width <= text.len(),
    ensures
        byte_len(text.take(i + width)) == byte_len(text.take(i)) + byte_len(
            text.subrange(i, i + width),
        ),
        byte_len(text.take(i + width)) <= byte_len(text),
{
    assert(text.take(i + width) =~= text.take(i) + text.subrange(i, i + width));
    lemma_byte_len_concat(text.take(i), text.subrange(i, i + width));
    lemma_byte_len_prefix(text, i + width);
}

/// Appends to `found` every occurrence of `delimiter` in `text`, with its
/// offset in bytes.
pub fn record_occurrences(text: &str, delimiter: &str, found: &mut Vec<(usize, String)>)
    ensures
        occurrence_views(final(found)@) == occurrence_views(old(found)@) + delimiter_occurrences(
            text@,
            delimiter@,
        ),
{
    let chars = chars_of(text);
    let pattern = chars_of(delimiter);
    let total = str_byte_len(text);
    let width = str_byte_len(delimiter);
    let n = chars.len();
    let m = pattern.len();
    let ghost earlier = occurrence_views(found@);
    let ghost all = occurrences_from(chars@, pattern@, 0);
    let ghost mut seen: Seq<int> = Seq::empty();
    let mut i: usize = 0;
    let mut offset: usize = 0;
    proof {
        assert(chars@.take(0) =~= Seq::<char>::empty());
        assert(seen + all =~= all);
        assert(occurrence_views(found@) =~= earlier + Seq::new(
            0,
            |k: int| (byte_len(chars@.take(seen[k])) as int, pattern@),
        ));
    }
    loop
        invariant_except_break
            seen + occurrences_from(chars@, pattern@, i as int) == all,
        invariant
            chars@ == text@,
            pattern@ == delimiter@,
            n == chars.len(),
            m == pattern.len(),
            total == byte_len(chars@),
            width == byte_len(pattern@),
            all == occurrences_from(chars@, pattern@, 0),
            i <= n,
            offset == byte_len(chars@.take(i as int)),
            forall|k: int| 0 <= k < seen.len() ==> 0 <= #[trigger] seen[k] <= n,
            occurrence_views(found@) == earlier + Seq::new(
                seen.len(),
                |k: int| (byte_len(chars@.take(seen[k])) as int, pattern@),
            ),
        ensures
            seen == all,
        decreases n - i,
    {
        if m > n - i {
            proof {
                assert(seen + Seq::<int>::empty() =~= seen);
            }
            break ;
        }
        if occurs_at(&chars, &pattern, i) {
            let ghost before = occurrence_views(found@);
            let ghost longer = seen.push(i as int);
            found.push((offset, delimiter.to_owned()));
            proof {
                assert(occurrence_views(found@) =~= before.push((offset as int, pattern@)));
                assert(occurrence_views(found@) =~= earlier + Seq::new(
                    longer.len(),
                    |k: int| (byte_len(chars@.take(longer[k])) as int, pattern@),
                ));
                assert(longer + occurrences_from(chars@, pattern@, i + stride(pattern@)) =~= seen
                    + occurrences_from(chars@, pattern@, i as int));
                seen = longer;
            }
            if m == 0 {
                if i == n {
                    proof {
                        assert(occurrences_from(chars@, pattern@, i + 1) =~= Seq::<int>::empty());
                        assert(seen + Seq::<int>::empty() =~= seen);
                    }
                    break ;
                }
                proof {
                    lemma_offset_step(chars@, i as int, 1);
                    lemma_byte_len_single(chars@, i as int);
                }
                offset = offset + char_width(chars[i]);
                i += 1;
            } else {
                proof {
                    lemma_offset_step(chars@, i as int, m as int);
                }
                offset = offset + width;
                i = i + m;
            }
        } else {
            assert(m > 0) by {
                if m == 0 {
                    assert(chars@.subrange(i as int, i + m) =~= pattern@);
                }
            }
            proof {
                lemma_offset_step(chars@, i as int, 1);
                lemma_byte_len_single(chars@, i as int);
            }
            offset = offset + char_width(chars[i]);
            i += 1;
        }
    }
    proof {
        assert(Seq::new(
            seen.len(),
            |k: int| (byte_len(chars@.take(seen[k])) as int, pattern@),
        ) =~= delimiter_occurrences(text@, delimiter@));
    }
}

/// Replaces every occurrence of `pattern` in `text` by `replacement`.
pub fn replace_all(text: &str, pattern: &str, replacement: &str) -> (replaced: String)
    ensures
        replaced@ == replace(text@, pattern@, replacement@),
{
    let chars = chars_of(text);
    let pieces = split_chars(&chars, &chars_of(pattern));
    join_tokens(&pieces, replacement)
}

/// The sentinel as a string of its own.
pub fn sentinel_string() -> (sentinel: String)
    ensures
        sentinel@ == seq![SENTINEL],
{
    let mut sentinel = String::new();
    sentinel.push(SENTINEL);
    assert(sentinel@ =~= seq![SENTINEL]);
    sentinel
}

impl From<(Changeset, Vec<(usize, String)>, Vec<(usize, String)>)> for ChangesetMulti {
    /// Puts the recorded delimiters back into the runs of a changeset: see
    /// `from_parts`.
    fn from(parts: (Changeset, Vec<(usize, String)>, Vec<(usize, String)>)) -> (multi: Self)
        ensures
            multi.splits == parts.1,
            multi.edit_splits == parts.2,
            multi.distance == parts.0.distance,
            run_views(multi.diffs@) == restore_runs(
                run_views(parts.0.diffs@),
                occurrence_views(parts.1@),
                occurrence_views(parts.2@),
            ).0,
    {
        ChangesetMulti::from_parts(parts.0, parts.1, parts.2)
    }
}

/// What `from` gives is stated by its own contract, over the views of the
/// runs: no value is named here.
impl vstd::std_specs::convert::FromSpecImpl<(Changeset, Vec<(usize, String)>, Vec<(usize, String)>)> for ChangesetMulti {
    open spec fn obeys_from_spec() -> bool {
        false
    }

    open spec fn from_spec(parts: (Changeset, Vec<(usize, String)>, Vec<(usize, String)>)) -> Self {
        arbitrary()
    }
}

} // verus!
