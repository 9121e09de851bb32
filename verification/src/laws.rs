//! What holds of every changeset.

use vstd::prelude::*;
use crate::lcs::{
    common_tokens, edit_distance, is_subsequence, lemma_lcs_len_is_longest, lemma_subsequence_front,
    lemma_walk_disjoint, lemma_walk_is_common, lemma_walk_len, lemma_walk_same,
};
use crate::merge::{
    coalesce, edit_script, edited_texts, lemma_coalesce_join, lemma_script_complete,
    original_texts, side_tokens, Step,
};
use crate::tokens::{
    join, lemma_join_tokenize, lemma_segments_nonempty, occurrences_from, tokenize,
};
use crate::{diff_distance, diff_runs, Run, RunKind};

verus! {

/// The walk in which every token of `tokens` is of the same kind.
pub open spec fn uniform_steps(kind: RunKind, tokens: Seq<Seq<char>>) -> Seq<Step> {
    Seq::new(tokens.len(), |i: int| Step { kind: kind, token: tokens[i] })
}

/// The number of steps of a walk that are of the given kind.
pub open spec fn count_kind(steps: Seq<Step>, kind: RunKind) -> nat
    decreases steps.len(),
{
    if steps.len() == 0 {
        0
    } else if steps.last().kind == kind {
        count_kind(steps.drop_last(), kind) + 1
    } else {
        count_kind(steps.drop_last(), kind)
    }
}

/// There is at least one token, unless both the text and the delimiter are
/// empty.
pub proof fn lemma_tokens_nonempty(text: Seq<char>, delimiter: Seq<char>)
    requires
        text.len() > 0 || delimiter.len() > 0,
    ensures
        tokenize(text, delimiter).len() > 0,
{
    if delimiter.len() > 0 {
        lemma_segments_nonempty(
            text,
            occurrences_from(text, delimiter, 0),
            delimiter.len() as int,
            0,
        );
    }
}

/// Tokens of one kind that follow a walk form one new run, unless the walk
/// ends in a run of that kind.
pub proof fn lemma_coalesce_uniform(
    earlier: Seq<Step>,
    kind: RunKind,
    tokens: Seq<Seq<char>>,
    delimiter: Seq<char>,
)
    requires
        tokens.len() > 0,
        earlier.len() > 0 ==> earlier.last().kind != kind,
    ensures
        coalesce(earlier + uniform_steps(kind, tokens), delimiter) == coalesce(
            earlier,
            delimiter,
        ).push(Run { kind: kind, text: join(tokens, delimiter) }),
    decreases tokens.len(),
{
    let steps = earlier + uniform_steps(kind, tokens);
    let before = coalesce(earlier, delimiter);
    if earlier.len() > 0 {
        lemma_coalesce_join(earlier, delimiter, true);
    }
    if tokens.len() == 1 {
        assert(steps.drop_last() =~= earlier);
        assert(steps.last() == Step { kind: kind, token: tokens[0] });
    } else {
        let shorter = tokens.drop_last();
        lemma_coalesce_uniform(earlier, kind, shorter, delimiter);
        assert(steps.drop_last() =~= earlier + uniform_steps(kind, shorter));
        assert(steps.last() == Step { kind: kind, token: tokens.last() });
        let grown = before.push(Run { kind: kind, text: join(shorter, delimiter) });
        assert(grown.drop_last() =~= before);
    }
}

/// Without common tokens the walk removes the whole original and then adds
/// the whole edited text.
pub proof fn lemma_script_without_common(a: Seq<Seq<char>>, b: Seq<Seq<char>>)
    ensures
        edit_script(a, b, Seq::empty()) == uniform_steps(RunKind::Rem, a) + uniform_steps(
            RunKind::Add,
            b,
        ),
    decreases a.len() + b.len(),
{
    let none = Seq::<Seq<char>>::empty();
    if a.len() > 0 {
        lemma_script_without_common(a.skip(1), b);
        assert(edit_script(a, b, none) =~= uniform_steps(RunKind::Rem, a) + uniform_steps(
            RunKind::Add,
            b,
        ));
    } else if b.len() > 0 {
        lemma_script_without_common(a, b.skip(1));
        assert(edit_script(a, b, none) =~= uniform_steps(RunKind::Rem, a) + uniform_steps(
            RunKind::Add,
            b,
        ));
    } else {
        assert(edit_script(a, b, none) =~= uniform_steps(RunKind::Rem, a) + uniform_steps(
            RunKind::Add,
            b,
        ));
    }
}

/// A sequence walked against itself, with itself as the common
/// subsequence, is unchanged token by token.
pub proof fn lemma_script_identical(a: Seq<Seq<char>>)
    ensures
        edit_script(a, a, a) == uniform_steps(RunKind::Same, a),
    decreases a.len(),
{
    if a.len() > 0 {
        lemma_script_identical(a.skip(1));
    }
    assert(edit_script(a, a, a) =~= uniform_steps(RunKind::Same, a));
}

/// The tokens of one text are the steps of the kinds that belong to it.
pub proof fn lemma_side_tokens_count(steps: Seq<Step>, original: bool)
    ensures
        side_tokens(steps, original).len() == count_kind(steps, RunKind::Same) + count_kind(
            steps,
            if original {
                RunKind::Rem
            } else {
                RunKind::Add
            },
        ),
    decreases steps.len(),
{
    if steps.len() > 0 {
        lemma_side_tokens_count(steps.drop_last(), original);
    }
}

/// The steps of one kind in two walks, one after the other.
pub proof fn lemma_count_kind_concat(first: Seq<Step>, second: Seq<Step>, kind: RunKind)
    ensures
        count_kind(first + second, kind) == count_kind(first, kind) + count_kind(second, kind),
    decreases second.len(),
{
    if second.len() == 0 {
        assert(first + second =~= first);
    } else {
        assert((first + second).drop_last() =~= first + second.drop_last());
        lemma_count_kind_concat(first, second.drop_last(), kind);
    }
}

/// The steps of one kind in a walk of one step.
pub proof fn lemma_count_kind_single(step: Step, kind: RunKind)
    ensures
        count_kind(seq![step], kind) == if step.kind == kind {
            1nat
        } else {
            0nat
        },
{
    let one = seq![step];
    assert(one.drop_last() =~= Seq::<Step>::empty());
    assert(one.last() == step);
    assert(count_kind(one.drop_last(), kind) == 0);
}

/// With a common subsequence of both texts, the walk has one unchanged
/// step for each of its tokens.
pub proof fn lemma_script_same_count(a: Seq<Seq<char>>, b: Seq<Seq<char>>, c: Seq<Seq<char>>)
    requires
        is_subsequence(c, a),
        is_subsequence(c, b),
    ensures
        count_kind(edit_script(a, b, c), RunKind::Same) == c.len(),
    decreases a.len() + b.len(),
{
    if c.len() > 0 {
        lemma_subsequence_front(c, a);
        lemma_subsequence_front(c, b);
    }
    if c.len() > 0 && a.len() > 0 && b.len() > 0 && a[0] == c[0] && b[0] == c[0] {
        let step = Step { kind: RunKind::Same, token: a[0] };
        lemma_script_same_count(a.skip(1), b.skip(1), c.skip(1));
        lemma_count_kind_concat(
            seq![step],
            edit_script(a.skip(1), b.skip(1), c.skip(1)),
            RunKind::Same,
        );
        lemma_count_kind_single(step, RunKind::Same);
    } else if a.len() > 0 && (c.len() == 0 || a[0] != c[0]) {
        let step = Step { kind: RunKind::Rem, token: a[0] };
        lemma_script_same_count(a.skip(1), b, c);
        lemma_count_kind_concat(seq![step], edit_script(a.skip(1), b, c), RunKind::Same);
        lemma_count_kind_single(step, RunKind::Same);
    } else if b.len() > 0 && (c.len() == 0 || b[0] != c[0]) {
        let step = Step { kind: RunKind::Add, token: b[0] };
        lemma_script_same_count(a, b.skip(1), c);
        lemma_count_kind_concat(seq![step], edit_script(a, b.skip(1), c), RunKind::Same);
        lemma_count_kind_single(step, RunKind::Same);
    } else {
    }
}

/// Whether no two neighbouring runs are of one kind.
pub open spec fn runs_alternate(runs: Seq<Run>) -> bool {
    forall|j: int, k: int|
        0 <= j && k == j + 1 && k < runs.len() ==> (#[trigger] runs[j]).kind != (
        #[trigger] runs[k]).kind
}

/// Whether no added run is followed at once by a removed one.
pub open spec fn runs_remove_first(runs: Seq<Run>) -> bool {
    forall|j: int, k: int|
        0 <= j && k == j + 1 && k < runs.len() && (#[trigger] runs[j]).kind == RunKind::Add ==> (
        #[trigger] runs[k]).kind != RunKind::Rem
}

/// Whether no added token is followed at once by a removed one.
pub open spec fn steps_remove_first(steps: Seq<Step>) -> bool {
    forall|j: int, k: int|
        0 <= j && k == j + 1 && k < steps.len() && (#[trigger] steps[j]).kind == RunKind::Add
            ==> (#[trigger] steps[k]).kind != RunKind::Rem
}

/// No two neighbouring runs of a walk are of one kind.
pub proof fn lemma_coalesce_alternates(steps: Seq<Step>, delimiter: Seq<char>)
    ensures
        runs_alternate(coalesce(steps, delimiter)),
    decreases steps.len(),
{
    if steps.len() > 0 {
        let before = coalesce(steps.drop_last(), delimiter);
        let after = coalesce(steps, delimiter);
        lemma_coalesce_alternates(steps.drop_last(), delimiter);
        assert forall|j: int, k: int| 0 <= j && k == j + 1 && k < after.len() implies (
        #[trigger] after[j]).kind != (#[trigger] after[k]).kind by {
            if k < before.len() {
                assert(before[j].kind != before[k].kind);
                assert(after[j].kind == before[j].kind);
                assert(after[k].kind == before[k].kind);
            }
        }
    }
}

/// In a walk no added token is followed at once by a removed one: between
/// two common tokens the removals come first.
pub proof fn lemma_script_removes_first(a: Seq<Seq<char>>, b: Seq<Seq<char>>, c: Seq<Seq<char>>)
    ensures
        steps_remove_first(edit_script(a, b, c)),
    decreases a.len() + b.len(),
{
    let script = edit_script(a, b, c);
    if c.len() > 0 && a.len() > 0 && b.len() > 0 && a[0] == c[0] && b[0] == c[0] {
        let rest = edit_script(a.skip(1), b.skip(1), c.skip(1));
        lemma_script_removes_first(a.skip(1), b.skip(1), c.skip(1));
        assert forall|j: int, k: int|
            0 <= j && k == j + 1 && k < script.len() && (#[trigger] script[j]).kind
                == RunKind::Add implies (#[trigger] script[k]).kind != RunKind::Rem by {
            assert(script[j] == rest[j - 1]);
            assert(script[k] == rest[k - 1]);
        }
    } else if a.len() > 0 && (c.len() == 0 || a[0] != c[0]) {
        let rest = edit_script(a.skip(1), b, c);
        lemma_script_removes_first(a.skip(1), b, c);
        assert forall|j: int, k: int|
            0 <= j && k == j + 1 && k < script.len() && (#[trigger] script[j]).kind
                == RunKind::Add implies (#[trigger] script[k]).kind != RunKind::Rem by {
            assert(script[j] == rest[j - 1]);
            assert(script[k] == rest[k - 1]);
        }
    } else if b.len() > 0 && (c.len() == 0 || b[0] != c[0]) {
        let rest = edit_script(a, b.skip(1), c);
        lemma_script_removes_first(a, b.skip(1), c);
        assert forall|j: int, k: int|
            0 <= j && k == j + 1 && k < script.len() && (#[trigger] script[j]).kind
                == RunKind::Add implies (#[trigger] script[k]).kind != RunKind::Rem by {
            assert(script[k] == rest[k - 1]);
            if j > 0 {
                assert(script[j] == rest[j - 1]);
            }
        }
    } else {
    }
}

/// Where no added token of a walk is followed at once by a removed one, no
/// added run is followed at once by a removed one.
pub proof fn lemma_coalesce_removes_first(steps: Seq<Step>, delimiter: Seq<char>)
    requires
        steps_remove_first(steps),
    ensures
        runs_remove_first(coalesce(steps, delimiter)),
    decreases steps.len(),
{
    if steps.len() > 0 {
        let earlier = steps.drop_last();
        let before = coalesce(earlier, delimiter);
        let after = coalesce(steps, delimiter);
        assert forall|j: int, k: int|
            0 <= j && k == j + 1 && k < earlier.len() && (#[trigger] earlier[j]).kind
                == RunKind::Add implies (#[trigger] earlier[k]).kind != RunKind::Rem by {
            assert(earlier[j] == steps[j]);
            assert(earlier[k] == steps[k]);
        }
        lemma_coalesce_removes_first(earlier, delimiter);
        lemma_coalesce_join(earlier, delimiter, true);
        assert forall|j: int, k: int|
            0 <= j && k == j + 1 && k < after.len() && (#[trigger] after[j]).kind
                == RunKind::Add implies (#[trigger] after[k]).kind != RunKind::Rem by {
            if k < before.len() {
                assert(after[j].kind == before[j].kind);
                assert(after[k].kind == before[k].kind);
            } else {
                assert(after[j] == before[j]);
                assert(before.last().kind == earlier.last().kind);
                assert(steps[steps.len() - 2] == earlier.last());
                assert(after[k].kind == steps[steps.len() - 1].kind);
            }
        }
    }
}

/// Joining the texts of the unchanged and the removed runs with the
/// delimiter gives back the original text, and joining the texts of the
/// unchanged and the added runs gives back the edited text, whatever the
/// two texts and the delimiter are.
pub proof fn round_trip(original: Seq<char>, edited: Seq<char>, delimiter: Seq<char>)
    ensures
        join(original_texts(diff_runs(original, edited, delimiter)), delimiter) == original,
        join(edited_texts(diff_runs(original, edited, delimiter)), delimiter) == edited,
{
    if original.len() == 0 && edited.len() == 0 {
        assert(original =~= Seq::<char>::empty());
        assert(edited =~= Seq::<char>::empty());
    } else {
        let a = tokenize(original, delimiter);
        let b = tokenize(edited, delimiter);
        let c = common_tokens(a, b);
        lemma_walk_is_common(a, b, a.len(), b.len());
        assert(a.take(a.len() as int) =~= a);
        assert(b.take(b.len() as int) =~= b);
        lemma_script_complete(a, b, c);
        lemma_coalesce_join(edit_script(a, b, c), delimiter, true);
        lemma_coalesce_join(edit_script(a, b, c), delimiter, false);
        lemma_join_tokenize(original, delimiter);
        lemma_join_tokenize(edited, delimiter);
    }
}

/// A text is at distance zero from itself, whatever the delimiter is.
pub proof fn distance_to_itself(text: Seq<char>, delimiter: Seq<char>)
    ensures
        diff_distance(text, text, delimiter) == 0,
{
    let a = tokenize(text, delimiter);
    lemma_walk_same(a, a.len());
}

/// A text compared with itself is one unchanged run that holds the whole
/// text; the empty text has no run at all.
pub proof fn identical_texts(text: Seq<char>, delimiter: Seq<char>)
    ensures
        diff_runs(text, text, delimiter) == if text.len() == 0 {
            Seq::<Run>::empty()
        } else {
            seq![Run { kind: RunKind::Same, text: text }]
        },
{
    let a = tokenize(text, delimiter);
    lemma_walk_same(a, a.len());
    assert(a.take(a.len() as int) =~= a);
    lemma_script_identical(a);
    if text.len() == 0 {
    } else {
        lemma_tokens_nonempty(text, delimiter);
        lemma_coalesce_uniform(Seq::empty(), RunKind::Same, a, delimiter);
        assert(Seq::<Step>::empty() + uniform_steps(RunKind::Same, a) =~= uniform_steps(
            RunKind::Same,
            a,
        ));
        lemma_join_tokenize(text, delimiter);
        assert(Seq::<Run>::empty().push(Run { kind: RunKind::Same, text: text }) =~= seq![
            Run { kind: RunKind::Same, text: text },
        ]);
    }
}

/// Where no token of the original is a token of the edited text, the runs
/// are the whole original, removed, and then the whole edited text, added.
/// Left out are the texts without a token: the empty texts where the
/// delimiter is empty too.
pub proof fn no_common_tokens(original: Seq<char>, edited: Seq<char>, delimiter: Seq<char>)
    requires
        delimiter.len() == 0 ==> original.len() > 0 && edited.len() > 0,
        forall|x: int, y: int|
            0 <= x < tokenize(original, delimiter).len() && 0 <= y < tokenize(
                edited,
                delimiter,
            ).len() ==> tokenize(original, delimiter)[x] != tokenize(edited, delimiter)[y],
    ensures
        diff_runs(original, edited, delimiter) == seq![
            Run { kind: RunKind::Rem, text: original },
            Run { kind: RunKind::Add, text: edited },
        ],
        diff_distance(original, edited, delimiter) == tokenize(original, delimiter).len()
            + tokenize(edited, delimiter).len(),
{
    let a = tokenize(original, delimiter);
    let b = tokenize(edited, delimiter);
    lemma_walk_disjoint(a, b, a.len(), b.len());
    lemma_script_without_common(a, b);
    lemma_tokens_nonempty(original, delimiter);
    lemma_tokens_nonempty(edited, delimiter);
    assert(original.len() > 0 || edited.len() > 0) by {
        if original.len() == 0 && edited.len() == 0 {
            assert(original =~= edited);
            assert(a[0] == b[0]);
        }
    }
    let removed = uniform_steps(RunKind::Rem, a);
    lemma_coalesce_uniform(Seq::empty(), RunKind::Rem, a, delimiter);
    assert(Seq::<Step>::empty() + removed =~= removed);
    lemma_coalesce_uniform(removed, RunKind::Add, b, delimiter);
    lemma_join_tokenize(original, delimiter);
    lemma_join_tokenize(edited, delimiter);
    assert(Seq::<Run>::empty().push(Run { kind: RunKind::Rem, text: original }).push(
        Run { kind: RunKind::Add, text: edited },
    ) =~= seq![
        Run { kind: RunKind::Rem, text: original },
        Run { kind: RunKind::Add, text: edited },
    ]);
}

/// No two neighbouring runs are of one kind, and no added run is followed
/// at once by a removed one: where tokens are both removed and added
/// between two unchanged runs, the removed run comes first.
pub proof fn run_order(original: Seq<char>, edited: Seq<char>, delimiter: Seq<char>)
    ensures
        runs_alternate(diff_runs(original, edited, delimiter)),
        runs_remove_first(diff_runs(original, edited, delimiter)),
{
    let a = tokenize(original, delimiter);
    let b = tokenize(edited, delimiter);
    let c = common_tokens(a, b);
    lemma_script_removes_first(a, b, c);
    lemma_coalesce_alternates(edit_script(a, b, c), delimiter);
    lemma_coalesce_removes_first(edit_script(a, b, c), delimiter);
}

/// The edit distance is the number of tokens that the walk removes or adds.
pub proof fn distance_counts_changes(original: Seq<char>, edited: Seq<char>, delimiter: Seq<char>)
    ensures
        ({
            let a = tokenize(original, delimiter);
            let b = tokenize(edited, delimiter);
            let script = edit_script(a, b, common_tokens(a, b));
            diff_distance(original, edited, delimiter) == count_kind(script, RunKind::Rem)
                + count_kind(script, RunKind::Add)
        }),
        diff_distance(original, edited, delimiter) >= 0,
{
    let a = tokenize(original, delimiter);
    let b = tokenize(edited, delimiter);
    let c = common_tokens(a, b);
    let script = edit_script(a, b, c);
    lemma_walk_is_common(a, b, a.len(), b.len());
    assert(a.take(a.len() as int) =~= a);
    assert(b.take(b.len() as int) =~= b);
    lemma_walk_len(a, b, a.len(), b.len());
    lemma_script_complete(a, b, c);
    lemma_script_same_count(a, b, c);
    lemma_side_tokens_count(script, true);
    lemma_side_tokens_count(script, false);
}

/// No sequence of tokens that can be had from both texts by leaving tokens
/// out is longer than the common subsequence that the runs are built on: no
/// other alignment of the two texts gives a smaller distance.
pub proof fn common_tokens_are_longest(
    a: Seq<Seq<char>>,
    b: Seq<Seq<char>>,
    other: Seq<Seq<char>>,
)
    requires
        is_subsequence(other, a),
        is_subsequence(other, b),
    ensures
        is_subsequence(common_tokens(a, b), a),
        is_subsequence(common_tokens(a, b), b),
        other.len() <= common_tokens(a, b).len(),
        a.len() + b.len() - 2 * other.len() >= edit_distance(a, b),
{
    assert(a.take(a.len() as int) =~= a);
    assert(b.take(b.len() as int) =~= b);
    lemma_walk_is_common(a, b, a.len(), b.len());
    lemma_walk_len(a, b, a.len(), b.len());
    lemma_lcs_len_is_longest(a, b, a.len(), b.len(), other);
}

} // verus!
