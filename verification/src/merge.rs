//! From two token sequences and a common subsequence to the list of runs.

use vstd::prelude::*;
use vstd::string::StringExecFns;
use crate::lcs::{is_subsequence, lemma_subsequence_front};
use crate::text::views;
use crate::tokens::join;
use crate::{in_edited, in_original, run_views, Difference, Run, RunKind};

verus! {

/// One token of the walk, with the kind of run it goes to.
pub ghost struct Step {
    pub kind: RunKind,
    pub token: Seq<char>,
}

/// The walk over the tokens of the original `a`, of the edited `b` and of
/// the common subsequence `c`, token by token. Where both texts stand at
/// the next common token, it is unchanged. Otherwise the original's tokens
/// are removed until it stands at the next common token, and then the
/// edited's tokens are added until it does. The walk ends where no token can
/// be placed: at the end of both texts, if `c` is a subsequence of both.
pub open spec fn edit_script(a: Seq<Seq<char>>, b: Seq<Seq<char>>, c: Seq<Seq<char>>) -> Seq<
    Step,
>
    decreases a.len() + b.len(),
{
    if c.len() > 0 && a.len() > 0 && b.len() > 0 && a[0] == c[0] && b[0] == c[0] {
        seq![Step { kind: RunKind::Same, token: a[0] }] + edit_script(
            a.skip(1),
            b.skip(1),
            c.skip(1),
        )
    } else if a.len() > 0 && (c.len() == 0 || a[0] != c[0]) {
        seq![Step { kind: RunKind::Rem, token: a[0] }] + edit_script(a.skip(1), b, c)
    } else if b.len() > 0 && (c.len() == 0 || b[0] != c[0]) {
        seq![Step { kind: RunKind::Add, token: b[0] }] + edit_script(a, b.skip(1), c)
    } else {
        Seq::empty()
    }
}

/// The runs of a walk: neighbouring tokens of one kind form one run, whose
/// text is those tokens joined with the delimiter.
pub open spec fn coalesce(steps: Seq<Step>, delimiter: Seq<char>) -> Seq<Run>
    decreases steps.len(),
{
    if steps.len() == 0 {
        Seq::empty()
    } else {
        let before = coalesce(steps.drop_last(), delimiter);
        let step = steps.last();
        if before.len() > 0 && before.last().kind == step.kind {
            before.drop_last().push(
                Run { kind: step.kind, text: before.last().text + delimiter + step.token },
            )
        } else {
            before.push(Run { kind: step.kind, text: step.token })
        }
    }
}

/// The runs for the original tokens `a`, the edited tokens `b` and the
/// common subsequence `c`.
pub open spec fn merged_runs(
    a: Seq<Seq<char>>,
    b: Seq<Seq<char>>,
    c: Seq<Seq<char>>,
    delimiter: Seq<char>,
) -> Seq<Run> {
    coalesce(edit_script(a, b, c), delimiter)
}

/// Whether a kind belongs to the chosen text: the original or the edited.
pub open spec fn on_side(kind: RunKind, original: bool) -> bool {
    if original {
        in_original(kind)
    } else {
        in_edited(kind)
    }
}

/// The tokens of a walk that belong to the chosen text, in order.
pub open spec fn side_tokens(steps: Seq<Step>, original: bool) -> Seq<Seq<char>>
    decreases steps.len(),
{
    if steps.len() == 0 {
        Seq::empty()
    } else if on_side(steps.last().kind, original) {
        side_tokens(steps.drop_last(), original).push(steps.last().token)
    } else {
        side_tokens(steps.drop_last(), original)
    }
}

/// The texts of the runs that belong to the chosen text, in order.
pub open spec fn side_texts(runs: Seq<Run>, original: bool) -> Seq<Seq<char>>
    decreases runs.len(),
{
    if runs.len() == 0 {
        Seq::empty()
    } else if on_side(runs.last().kind, original) {
        side_texts(runs.drop_last(), original).push(runs.last().text)
    } else {
        side_texts(runs.drop_last(), original)
    }
}

/// The texts of the unchanged and of the removed runs, in order.
pub open spec fn original_texts(runs: Seq<Run>) -> Seq<Seq<char>> {
    side_texts(runs, true)
}

/// The texts of the unchanged and of the added runs, in order.
pub open spec fn edited_texts(runs: Seq<Run>) -> Seq<Seq<char>> {
    side_texts(runs, false)
}

/// The tokens of one text in two walks, one after the other.
pub proof fn lemma_side_tokens_concat(first: Seq<Step>, second: Seq<Step>, original: bool)
    ensures
        side_tokens(first + second, original) == side_tokens(first, original) + side_tokens(
            second,
            original,
        ),
    decreases second.len(),
{
    if second.len() == 0 {
        assert(first + second =~= first);
        assert(side_tokens(first, original) + side_tokens(second, original) =~= side_tokens(
            first,
            original,
        ));
    } else {
        assert((first + second).drop_last() =~= first + second.drop_last());
        assert((first + second).last() == second.last());
        lemma_side_tokens_concat(first, second.drop_last(), original);
        if on_side(second.last().kind, original) {
            assert(side_tokens(first + second, original) =~= side_tokens(first, original)
                + side_tokens(second, original));
        }
    }
}

/// The tokens of one text in a walk of one step.
pub proof fn lemma_side_tokens_single(step: Step, original: bool)
    ensures
        side_tokens(seq![step], original) == if on_side(step.kind, original) {
            seq![step.token]
        } else {
            Seq::<Seq<char>>::empty()
        },
{
    let one = seq![step];
    assert(one.drop_last() =~= Seq::<Step>::empty());
    assert(one.last() == step);
    assert(side_tokens(one.drop_last(), original) =~= Seq::<Seq<char>>::empty());
    if on_side(step.kind, original) {
        assert(Seq::<Seq<char>>::empty().push(step.token) =~= seq![step.token]);
    }
}

/// With a common subsequence of both texts the walk places every token:
/// its original side is the original, its edited side the edited.
pub proof fn lemma_script_complete(a: Seq<Seq<char>>, b: Seq<Seq<char>>, c: Seq<Seq<char>>)
    requires
        is_subsequence(c, a),
        is_subsequence(c, b),
    ensures
        side_tokens(edit_script(a, b, c), true) == a,
        side_tokens(edit_script(a, b, c), false) == b,
    decreases a.len() + b.len(),
{
    let script = edit_script(a, b, c);
    if c.len() > 0 {
        lemma_subsequence_front(c, a);
        lemma_subsequence_front(c, b);
    }
    if c.len() > 0 && a.len() > 0 && b.len() > 0 && a[0] == c[0] && b[0] == c[0] {
        let step = Step { kind: RunKind::Same, token: a[0] };
        let rest = edit_script(a.skip(1), b.skip(1), c.skip(1));
        lemma_script_complete(a.skip(1), b.skip(1), c.skip(1));
        lemma_side_tokens_concat(seq![step], rest, true);
        lemma_side_tokens_concat(seq![step], rest, false);
        lemma_side_tokens_single(step, true);
        lemma_side_tokens_single(step, false);
        assert(seq![a[0]] + a.skip(1) =~= a);
        assert(seq![b[0]] + b.skip(1) =~= b);
    } else if a.len() > 0 && (c.len() == 0 || a[0] != c[0]) {
        let step = Step { kind: RunKind::Rem, token: a[0] };
        let rest = edit_script(a.skip(1), b, c);
        lemma_script_complete(a.skip(1), b, c);
        lemma_side_tokens_concat(seq![step], rest, true);
        lemma_side_tokens_concat(seq![step], rest, false);
        lemma_side_tokens_single(step, true);
        lemma_side_tokens_single(step, false);
        assert(seq![a[0]] + a.skip(1) =~= a);
        assert(Seq::<Seq<char>>::empty() + b =~= b);
    } else if b.len() > 0 && (c.len() == 0 || b[0] != c[0]) {
        let step = Step { kind: RunKind::Add, token: b[0] };
        let rest = edit_script(a, b.skip(1), c);
        lemma_script_complete(a, b.skip(1), c);
        lemma_side_tokens_concat(seq![step], rest, true);
        lemma_side_tokens_concat(seq![step], rest, false);
        lemma_side_tokens_single(step, true);
        lemma_side_tokens_single(step, false);
        assert(seq![b[0]] + b.skip(1) =~= b);
        assert(Seq::<Seq<char>>::empty() + a =~= a);
    } else {
        assert(a =~= Seq::<Seq<char>>::empty());
        assert(b =~= Seq::<Seq<char>>::empty());
    }
}

/// Joining one text's runs gives what joining its tokens gives.
pub proof fn lemma_coalesce_join(steps: Seq<Step>, delimiter: Seq<char>, original: bool)
    ensures
        join(side_texts(coalesce(steps, delimiter), original), delimiter) == join(
            side_tokens(steps, original),
            delimiter,
        ),
        side_texts(coalesce(steps, delimiter), original).len() == 0 <==> side_tokens(
            steps,
            original,
        ).len() == 0,
        steps.len() > 0 ==> coalesce(steps, delimiter).len() > 0 && coalesce(
            steps,
            delimiter,
        ).last().kind == steps.last().kind,
    decreases steps.len(),
{
    if steps.len() == 0 {
    } else {
        let earlier = steps.drop_last();
        let step = steps.last();
        let before = coalesce(earlier, delimiter);
        let after = coalesce(steps, delimiter);
        let texts = side_texts(before, original);
        let tokens = side_tokens(earlier, original);
        lemma_coalesce_join(earlier, delimiter, original);
        if before.len() > 0 && before.last().kind == step.kind {
            let grown = Run {
                kind: step.kind,
                text: before.last().text + delimiter + step.token,
            };
            assert(after.drop_last() =~= before.drop_last());
            assert(after.last() == grown);
            if on_side(step.kind, original) {
                let kept = side_texts(before.drop_last(), original);
                assert(texts == kept.push(before.last().text));
                assert(side_texts(after, original) == kept.push(grown.text));
                assert(kept.push(grown.text).drop_last() =~= kept);
                assert(kept.push(before.last().text).drop_last() =~= kept);
                assert(side_tokens(steps, original).drop_last() =~= tokens);
                if kept.len() == 0 {
                    assert(join(texts, delimiter) == before.last().text);
                } else {
                    assert(join(side_texts(after, original), delimiter) =~= join(
                        texts,
                        delimiter,
                    ) + delimiter + step.token);
                }
            }
        } else {
            assert(after.drop_last() =~= before);
            if on_side(step.kind, original) {
                assert(side_texts(after, original).drop_last() =~= texts);
                assert(side_tokens(steps, original).drop_last() =~= tokens);
            }
        }
    }
}

/// Walks the original tokens, the edited tokens and their common
/// subsequence from left to right, and groups the tokens into runs. The
/// walk stops early at a token that it cannot place, which happens only
/// where `common` is not a subsequence of both.
pub fn merge(orig: &Vec<String>, edit: &Vec<String>, common: &Vec<String>, delimiter: &str) -> (runs:
    Vec<Difference>)
    ensures
        run_views(runs@) == merged_runs(
            views(orig@),
            views(edit@),
            views(common@),
            delimiter@,
        ),
        is_subsequence(views(common@), views(orig@)) && is_subsequence(
            views(common@),
            views(edit@),
        ) ==> join(original_texts(run_views(runs@)), delimiter@) == join(
            views(orig@),
            delimiter@,
        ) && join(edited_texts(run_views(runs@)), delimiter@) == join(views(edit@), delimiter@),
{
    let ghost a = views(orig@);
    let ghost b = views(edit@);
    let ghost c = views(common@);
    let ghost mut done: Seq<Step> = Seq::empty();
    let mut runs: Vec<Difference> = Vec::new();
    let mut open: bool = false;
    let mut kind: RunKind = RunKind::Same;
    let mut text: String = String::new();
    let mut i: usize = 0;
    let mut j: usize = 0;
    let mut k: usize = 0;
    proof {
        assert(a.skip(0) =~= a);
        assert(b.skip(0) =~= b);
        assert(c.skip(0) =~= c);
        assert(run_views(runs@) =~= Seq::<Run>::empty());
        assert(done + edit_script(a, b, c) =~= edit_script(a, b, c));
    }
    loop
        invariant_except_break
            done + edit_script(a.skip(i as int), b.skip(j as int), c.skip(k as int))
                == edit_script(a, b, c),
        invariant
            a == views(orig@),
            b == views(edit@),
            c == views(common@),
            i <= orig.len(),
            j <= edit.len(),
            k <= common.len(),
            open <==> done.len() > 0,
            coalesce(done, delimiter@) == if open {
                run_views(runs@).push(Run { kind: kind, text: text@ })
            } else {
                run_views(runs@)
            },
        ensures
            done == edit_script(a, b, c),
        decreases orig.len() - i + edit.len() - j,
    {
        let ghost rest_a = a.skip(i as int);
        let ghost rest_b = b.skip(j as int);
        let ghost rest_c = c.skip(k as int);
        proof {
            if i < orig.len() {
                assert(rest_a[0] == orig@[i as int]@);
                assert(rest_a.skip(1) =~= a.skip(i + 1));
            }
            if j < edit.len() {
                assert(rest_b[0] == edit@[j as int]@);
                assert(rest_b.skip(1) =~= b.skip(j + 1));
            }
            if k < common.len() {
                assert(rest_c[0] == common@[k as int]@);
                assert(rest_c.skip(1) =~= c.skip(k + 1));
            }
        }
        let at_common_a = k < common.len() && i < orig.len() && orig[i] == common[k];
        let at_common_b = k < common.len() && j < edit.len() && edit[j] == common[k];
        let next: RunKind;
        let token: &String;
        if at_common_a && at_common_b {
            next = RunKind::Same;
            token = &orig[i];
            i += 1;
            j += 1;
            k += 1;
        } else if i < orig.len() && !at_common_a {
            next = RunKind::Rem;
            token = &orig[i];
            i += 1;
        } else if j < edit.len() && !at_common_b {
            next = RunKind::Add;
            token = &edit[j];
            j += 1;
        } else {
            proof {
                assert(edit_script(rest_a, rest_b, rest_c) =~= Seq::<Step>::empty());
                assert(done + Seq::<Step>::empty() =~= done);
            }
            break ;
        }
        let ghost step = Step { kind: next, token: token@ };
        let ghost before = coalesce(done, delimiter@);
        proof {
            assert(edit_script(rest_a, rest_b, rest_c) == seq![step] + edit_script(
                a.skip(i as int),
                b.skip(j as int),
                c.skip(k as int),
            ));
            assert(done.push(step) + edit_script(
                a.skip(i as int),
                b.skip(j as int),
                c.skip(k as int),
            ) =~= done + edit_script(rest_a, rest_b, rest_c));
            assert(done.push(step).drop_last() =~= done);
            done = done.push(step);
        }
        if open && kind == next {
            text.append(delimiter);
            text.append(token.as_str());
            proof {
                assert(before.drop_last() =~= run_views(runs@));
            }
        } else {
            if open {
                let ghost earlier = run_views(runs@);
                runs.push(Difference::of(kind, text));
                assert(run_views(runs@) =~= earlier.push(before.last()));
                assert(run_views(runs@) =~= before);
            }
            kind = next;
            text = token.clone();
            open = true;
        }
    }
    if open {
        let ghost earlier = run_views(runs@);
        runs.push(Difference::of(kind, text));
        assert(run_views(runs@) =~= earlier.push(Run { kind: kind, text: text@ }));
    }
    proof {
        if is_subsequence(c, a) && is_subsequence(c, b) {
            lemma_script_complete(a, b, c);
            lemma_coalesce_join(edit_script(a, b, c), delimiter@, true);
            lemma_coalesce_join(edit_script(a, b, c), delimiter@, false);
        }
    }
    runs
}

} // verus!
