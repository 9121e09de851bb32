//! Splitting a text into tokens on a delimiter, and joining tokens back.

use vstd::prelude::*;
use vstd::string::StringExecFns;
use crate::text::{chars_of, views};

verus! {

/// Whether `pattern` occurs in `text` at character position `i`.
pub open spec fn matches_at(text: Seq<char>, pattern: Seq<char>, i: int) -> bool {
    &&& 0 <= i
    &&& i + pattern.len() <= text.len()
    &&& text.subrange(i, i + pattern.len()) == pattern
}

/// How far a scan moves on after a match: past the match, and at least one
/// character, so that an empty pattern matches once at every position.
pub open spec fn stride(pattern: Seq<char>) -> int {
    if pattern.len() == 0 {
        1
    } else {
        pattern.len() as int
    }
}

/// The character positions at or after `i` of the occurrences of `pattern`
/// in `text`, found from left to right without overlap.
pub open spec fn occurrences_from(text: Seq<char>, pattern: Seq<char>, i: int) -> Seq<int>
    decreases text.len() - i + 1,
{
    if i < 0 || i + pattern.len() > text.len() {
        Seq::empty()
    } else if matches_at(text, pattern, i) {
        seq![i] + occurrences_from(text, pattern, i + stride(pattern))
    } else {
        occurrences_from(text, pattern, i + 1)
    }
}

/// The pieces of `text` from `start` on that lie between the matches at
/// `positions`, each match being `width` characters wide.
pub open spec fn segments(text: Seq<char>, positions: Seq<int>, width: int, start: int) -> Seq<
    Seq<char>,
>
    decreases positions.len(),
{
    if positions.len() == 0 {
        seq![text.subrange(start, text.len() as int)]
    } else {
        seq![text.subrange(start, positions[0])] + segments(
            text,
            positions.drop_first(),
            width,
            positions[0] + width,
        )
    }
}

/// The pieces of `text` between the occurrences of `pattern`. There is always
/// at least one piece; a text without an occurrence is its own single piece.
pub open spec fn split(text: Seq<char>, pattern: Seq<char>) -> Seq<Seq<char>> {
    segments(text, occurrences_from(text, pattern, 0), pattern.len() as int, 0)
}

/// The tokens of `text`: one token per character for the empty delimiter,
/// and otherwise the pieces between the delimiters. With a delimiter that
/// is not empty there is always a token: a text in which the delimiter does
/// not stand is one token, the whole text, and so is the empty text. With
/// the empty delimiter the empty text has no token.
pub open spec fn tokenize(text: Seq<char>, delimiter: Seq<char>) -> Seq<Seq<char>> {
    if delimiter.len() == 0 {
        Seq::new(text.len(), |i: int| seq![text[i]])
    } else {
        split(text, delimiter)
    }
}

/// The tokens written one after the other with `delimiter` between them.
pub open spec fn join(tokens: Seq<Seq<char>>, delimiter: Seq<char>) -> Seq<char>
    decreases tokens.len(),
{
    if tokens.len() == 0 {
        Seq::empty()
    } else if tokens.len() == 1 {
        tokens[0]
    } else {
        join(tokens.drop_last(), delimiter) + delimiter + tokens.last()
    }
}

/// `text` with every occurrence of `pattern` replaced by `replacement`.
pub open spec fn replace(text: Seq<char>, pattern: Seq<char>, replacement: Seq<char>) -> Seq<
    char,
> {
    join(split(text, pattern), replacement)
}

/// Joining a first token and more tokens.
pub proof fn lemma_join_front(first: Seq<char>, rest: Seq<Seq<char>>, delimiter: Seq<char>)
    ensures
        join(seq![first] + rest, delimiter) == if rest.len() == 0 {
            first
        } else {
            first + delimiter + join(rest, delimiter)
        },
    decreases rest.len(),
{
    let all = seq![first] + rest;
    if rest.len() == 0 {
        assert(all =~= seq![first]);
    } else {
        assert(all.drop_last() =~= seq![first] + rest.drop_last());
        assert(all.last() == rest.last());
        lemma_join_front(first, rest.drop_last(), delimiter);
        if rest.len() == 1 {
            assert(rest.drop_last().len() == 0);
            assert(join(rest, delimiter) == rest[0]);
        } else {
            assert(join(all, delimiter) =~= first + delimiter + join(rest, delimiter));
        }
    }
}

/// There is always at least one segment.
pub proof fn lemma_segments_nonempty(
    text: Seq<char>,
    positions: Seq<int>,
    width: int,
    start: int,
)
    ensures
        segments(text, positions, width, start).len() == positions.len() + 1,
    decreases positions.len(),
{
    if positions.len() > 0 {
        lemma_segments_nonempty(text, positions.drop_first(), width, positions[0] + width);
    }
}

/// Joining the pieces that a scan from `i` leaves, with the pattern itself,
/// gives back the text from `start` on.
pub proof fn lemma_join_segments(text: Seq<char>, pattern: Seq<char>, start: int, i: int)
    requires
        0 <= start <= i,
        start <= text.len(),
    ensures
        join(
            segments(text, occurrences_from(text, pattern, i), pattern.len() as int, start),
            pattern,
        ) == text.subrange(start, text.len() as int),
    decreases text.len() - i + 1,
{
    let width = pattern.len() as int;
    let found = occurrences_from(text, pattern, i);
    if i + pattern.len() > text.len() {
    } else if matches_at(text, pattern, i) {
        let more = occurrences_from(text, pattern, i + stride(pattern));
        assert(found.drop_first() =~= more);
        let head = text.subrange(start, i);
        let rest = segments(text, more, width, i + width);
        lemma_join_segments(text, pattern, i + width, i + stride(pattern));
        lemma_segments_nonempty(text, more, width, i + width);
        lemma_join_front(head, rest, pattern);
        assert(head + pattern + text.subrange(i + width, text.len() as int) =~= text.subrange(
            start,
            text.len() as int,
        ));
    } else {
        lemma_join_segments(text, pattern, start, i + 1);
    }
}

/// Joining the pieces of a split with the pattern gives back the text.
pub proof fn lemma_join_split(text: Seq<char>, pattern: Seq<char>)
    ensures
        join(split(text, pattern), pattern) == text,
{
    lemma_join_segments(text, pattern, 0, 0);
    assert(text.subrange(0, text.len() as int) =~= text);
}

/// Joining single characters with nothing between them gives back the text.
pub proof fn lemma_join_chars(text: Seq<char>)
    ensures
        join(Seq::new(text.len(), |i: int| seq![text[i]]), Seq::empty()) == text,
    decreases text.len(),
{
    let tokens = Seq::new(text.len(), |i: int| seq![text[i]]);
    if text.len() == 0 {
    } else if text.len() == 1 {
        assert(tokens[0] =~= text);
    } else {
        let shorter = text.drop_last();
        assert(tokens.drop_last() =~= Seq::new(shorter.len(), |i: int| seq![shorter[i]]));
        lemma_join_chars(shorter);
        assert(shorter + Seq::<char>::empty() + seq![text.last()] =~= text);
    }
}

/// Joining the tokens of a text with the delimiter gives back the text.
pub proof fn lemma_join_tokenize(text: Seq<char>, delimiter: Seq<char>)
    ensures
        join(tokenize(text, delimiter), delimiter) == text,
{
    if delimiter.len() == 0 {
        lemma_join_chars(text);
        assert(delimiter =~= Seq::<char>::empty());
    } else {
        lemma_join_split(text, delimiter);
    }
}

/// Every position that a scan from `i` finds is at or after `i` and is one
/// where the pattern stands, and each lies a stride or more behind the one
/// before it: the matches do not overlap.
pub proof fn lemma_occurrences_are_matches(text: Seq<char>, pattern: Seq<char>, i: int)
    requires
        0 <= i,
    ensures
        forall|k: int|
            0 <= k < occurrences_from(text, pattern, i).len() ==> i <= #[trigger] occurrences_from(
                text,
                pattern,
                i,
            )[k] && matches_at(text, pattern, occurrences_from(text, pattern, i)[k]),
        forall|k: int|
            0 <= k < occurrences_from(text, pattern, i).len() - 1 ==> #[trigger] occurrences_from(
                text,
                pattern,
                i,
            )[k] + stride(pattern) <= occurrences_from(text, pattern, i)[k + 1],
    decreases text.len() - i + 1,
{
    let found = occurrences_from(text, pattern, i);
    if i + pattern.len() > text.len() {
    } else if matches_at(text, pattern, i) {
        let more = occurrences_from(text, pattern, i + stride(pattern));
        lemma_occurrences_are_matches(text, pattern, i + stride(pattern));
        assert forall|k: int| 0 <= k < found.len() implies i <= #[trigger] found[k] && matches_at(
            text,
            pattern,
            found[k],
        ) by {
            if k > 0 {
                assert(found[k] == more[k - 1]);
            }
        }
        assert forall|k: int| 0 <= k < found.len() - 1 implies #[trigger] found[k] + stride(
            pattern,
        ) <= found[k + 1] by {
            assert(found[k + 1] == more[k]);
            if k > 0 {
                assert(found[k] == more[k - 1]);
            }
        }
    } else {
        let more = occurrences_from(text, pattern, i + 1);
        lemma_occurrences_are_matches(text, pattern, i + 1);
        assert(found == more);
        assert forall|k: int| 0 <= k < found.len() implies i <= #[trigger] found[k] && matches_at(
            text,
            pattern,
            found[k],
        ) by {
            assert(found[k] == more[k]);
        }
        assert forall|k: int| 0 <= k < found.len() - 1 implies #[trigger] found[k] + stride(
            pattern,
        ) <= found[k + 1] by {
            assert(found[k] == more[k]);
            assert(found[k + 1] == more[k + 1]);
        }
    }
}

/// Of two positions that a scan finds, the later one is the larger.
pub proof fn lemma_occurrences_increase(
    text: Seq<char>,
    pattern: Seq<char>,
    i: int,
    j: int,
    k: int,
)
    requires
        0 <= i,
        0 <= j < k < occurrences_from(text, pattern, i).len(),
    ensures
        occurrences_from(text, pattern, i)[j] < occurrences_from(text, pattern, i)[k],
    decreases k - j,
{
    let found = occurrences_from(text, pattern, i);
    lemma_occurrences_are_matches(text, pattern, i);
    assert(found[k - 1] + stride(pattern) <= found[k]);
    if j < k - 1 {
        lemma_occurrences_increase(text, pattern, i, j, k - 1);
    }
}

/// No piece between the matches of a scan holds the pattern, where the
/// pattern is not empty and stands nowhere between `start` and `i`.
pub proof fn lemma_segments_hold_no_pattern(
    text: Seq<char>,
    pattern: Seq<char>,
    start: int,
    i: int,
)
    requires
        pattern.len() > 0,
        0 <= start <= i,
        start <= text.len(),
        forall|p: int| start <= p < i ==> !matches_at(text, pattern, p),
    ensures
        forall|k: int, q: int|
            0 <= k < segments(
                text,
                occurrences_from(text, pattern, i),
                pattern.len() as int,
                start,
            ).len() ==> !#[trigger] matches_at(
                segments(text, occurrences_from(text, pattern, i), pattern.len() as int, start)[k],
                pattern,
                q,
            ),
    decreases text.len() - i + 1,
{
    let width = pattern.len() as int;
    let found = occurrences_from(text, pattern, i);
    let pieces = segments(text, found, width, start);
    if i + pattern.len() > text.len() {
        let last = text.subrange(start, text.len() as int);
        assert forall|k: int, q: int| 0 <= k < pieces.len() implies !#[trigger] matches_at(
            pieces[k],
            pattern,
            q,
        ) by {
            if matches_at(last, pattern, q) {
                assert(last.subrange(q, q + width) =~= text.subrange(start + q, start + q + width));
                assert(matches_at(text, pattern, start + q));
            }
        }
    } else if matches_at(text, pattern, i) {
        let more = occurrences_from(text, pattern, i + width);
        assert(found.drop_first() =~= more);
        let head = text.subrange(start, i);
        let rest = segments(text, more, width, i + width);
        lemma_segments_hold_no_pattern(text, pattern, i + width, i + width);
        assert forall|k: int, q: int| 0 <= k < pieces.len() implies !#[trigger] matches_at(
            pieces[k],
            pattern,
            q,
        ) by {
            if k == 0 {
                if matches_at(head, pattern, q) {
                    assert(head.subrange(q, q + width) =~= text.subrange(
                        start + q,
                        start + q + width,
                    ));
                    assert(matches_at(text, pattern, start + q));
                }
            } else {
                assert(pieces[k] == rest[k - 1]);
            }
        }
    } else {
        lemma_segments_hold_no_pattern(text, pattern, start, i + 1);
        assert(pieces == segments(text, occurrences_from(text, pattern, i + 1), width, start));
    }
}

/// No piece of a split holds the pattern, where the pattern is not empty.
pub proof fn lemma_split_holds_no_pattern(text: Seq<char>, pattern: Seq<char>)
    requires
        pattern.len() > 0,
    ensures
        forall|k: int, q: int|
            0 <= k < split(text, pattern).len() ==> !#[trigger] matches_at(
                split(text, pattern)[k],
                pattern,
                q,
            ),
{
    lemma_segments_hold_no_pattern(text, pattern, 0, 0);
}

/// Tells whether `pattern` occurs in `text` at position `i`.
pub fn occurs_at(text: &Vec<char>, pattern: &Vec<char>, i: usize) -> (found: bool)
    ensures
        found == matches_at(text@, pattern@, i as int),
{
    if pattern.len() > text.len() || i > text.len() - pattern.len() {
        return false;
    }
    let mut k: usize = 0;
    while k < pattern.len()
        invariant
            k <= pattern.len(),
            i + pattern.len() <= text.len(),
            forall|x: int| 0 <= x < k ==> text@[i + x] == pattern@[x],
        decreases pattern.len() - k,
    {
        if text[i + k] != pattern[k] {
            assert(text@.subrange(i as int, i + pattern.len())[k as int] != pattern@[k as int]);
            return false;
        }
        k += 1;
    }
    assert(text@.subrange(i as int, i + pattern.len()) =~= pattern@);
    true
}

/// Splits `text` on every occurrence of `pattern`.
pub fn split_chars(text: &Vec<char>, pattern: &Vec<char>) -> (pieces: Vec<String>)
    ensures
        views(pieces@) == split(text@, pattern@),
{
    let n = text.len();
    let m = pattern.len();
    let mut pieces: Vec<String> = Vec::new();
    let mut current = String::new();
    let mut start: usize = 0;
    let mut i: usize = 0;
    assert(views(pieces@) =~= Seq::<Seq<char>>::empty());
    loop
        invariant_except_break
            views(pieces@) + segments(
                text@,
                occurrences_from(text@, pattern@, i as int),
                m as int,
                start as int,
            ) == split(text@, pattern@),
        invariant
            n == text.len(),
            m == pattern.len(),
            start <= i <= n,
            current@ == text@.subrange(start as int, i as int),
        ensures
            views(pieces@) + seq![text@.subrange(start as int, n as int)] == split(
                text@,
                pattern@,
            ),
        decreases n - i,
    {
        if m > n - i {
            break ;
        }
        let ghost before = views(pieces@);
        let ghost found = occurrences_from(text@, pattern@, i as int);
        if occurs_at(text, pattern, i) {
            let ghost more = occurrences_from(text@, pattern@, i + stride(pattern@));
            proof {
                assert(found.drop_first() =~= more);
                assert(segments(text@, found, m as int, start as int) == seq![current@]
                    + segments(text@, more, m as int, i + m));
            }
            pieces.push(current);
            current = String::new();
            assert(views(pieces@) =~= before + seq![text@.subrange(start as int, i as int)]);
            assert(views(pieces@) + segments(text@, more, m as int, i + m) =~= split(
                text@,
                pattern@,
            ));
            if m == 0 {
                start = i;
                if i == n {
                    break ;
                }
                current.push(text[i]);
                i += 1;
            } else {
                start = i + m;
                i = i + m;
            }
            assert(current@ =~= text@.subrange(start as int, i as int));
        } else {
            assert(m > 0) by {
                if m == 0 {
                    assert(text@.subrange(i as int, i + m) =~= pattern@);
                }
            }
            current.push(text[i]);
            i += 1;
            assert(current@ =~= text@.subrange(start as int, i as int));
        }
    }
    while i < n
        invariant
            n == text.len(),
            start <= i <= n,
            current@ == text@.subrange(start as int, i as int),
        decreases n - i,
    {
        current.push(text[i]);
        i += 1;
        assert(current@ =~= text@.subrange(start as int, i as int));
    }
    let ghost before = views(pieces@);
    pieces.push(current);
    assert(views(pieces@) =~= before + seq![text@.subrange(start as int, n as int)]);
    pieces
}

/// Splits `text` into its tokens.
pub fn tokens_of(text: &str, delimiter: &str) -> (tokens: Vec<String>)
    ensures
        views(tokens@) == tokenize(text@, delimiter@),
{
    let chars = chars_of(text);
    let pattern = chars_of(delimiter);
    if pattern.len() == 0 {
        let mut tokens: Vec<String> = Vec::new();
        let mut i: usize = 0;
        while i < chars.len()
            invariant
                i <= chars.len(),
                tokens.len() == i,
                forall|k: int| 0 <= k < i ==> (#[trigger] tokens@[k])@ == seq![chars@[k]],
            decreases chars.len() - i,
        {
            let mut token = String::new();
            token.push(chars[i]);
            assert(token@ =~= seq![chars@[i as int]]);
            tokens.push(token);
            i += 1;
        }
        assert(views(tokens@) =~= tokenize(text@, delimiter@));
        tokens
    } else {
        split_chars(&chars, &pattern)
    }
}

/// Writes the tokens one after the other with `delimiter` between them.
pub fn join_tokens(tokens: &Vec<String>, delimiter: &str) -> (text: String)
    ensures
        text@ == join(views(tokens@), delimiter@),
{
    let mut text = String::new();
    let mut i: usize = 0;
    while i < tokens.len()
        invariant
            i <= tokens.len(),
            text@ == join(views(tokens@).take(i as int), delimiter@),
        decreases tokens.len() - i,
    {
        let ghost done = views(tokens@).take(i as int);
        let ghost next = views(tokens@).take(i + 1);
        proof {
            assert(next.drop_last() =~= done);
            assert(next.last() == tokens@[i as int]@);
        }
        if i > 0 {
            text.append(delimiter);
        }
        text.append(tokens[i].as_str());
        proof {
            if i == 0 {
                assert(text@ =~= next[0]);
            }
        }
        i += 1;
    }
    assert(views(tokens@).take(tokens.len() as int) =~= views(tokens@));
    text
}

} // verus!
