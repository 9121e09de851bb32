//! The longest common subsequence of two token sequences.

use vstd::prelude::*;
use crate::text::views;

verus! {

/// Whether `part` can be had from `whole` by leaving tokens out.
pub open spec fn is_subsequence(part: Seq<Seq<char>>, whole: Seq<Seq<char>>) -> bool
    decreases whole.len(),
{
    part.len() == 0 || (whole.len() > 0 && ((part.last() == whole.last() && is_subsequence(
        part.drop_last(),
        whole.drop_last(),
    )) || is_subsequence(part, whole.drop_last())))
}

/// The length of the longest common subsequence of the first `i` tokens of
/// `a` and the first `j` tokens of `b`.
pub open spec fn lcs_len(a: Seq<Seq<char>>, b: Seq<Seq<char>>, i: nat, j: nat) -> nat
    decreases i + j,
{
    if i == 0 || j == 0 {
        0
    } else if a[i - 1] == b[j - 1] {
        lcs_len(a, b, (i - 1) as nat, (j - 1) as nat) + 1
    } else {
        let up = lcs_len(a, b, (i - 1) as nat, j);
        let left = lcs_len(a, b, i, (j - 1) as nat);
        if left > up {
            left
        } else {
            up
        }
    }
}

/// The common subsequence that the walk back from cell `(i, j)` collects.
/// Equal tokens are taken and both indices step back; otherwise the walk
/// steps to the neighbour with the larger length, and back in `a` on a tie.
pub open spec fn lcs_walk(a: Seq<Seq<char>>, b: Seq<Seq<char>>, i: nat, j: nat) -> Seq<
    Seq<char>,
>
    decreases i + j,
{
    if i == 0 || j == 0 {
        Seq::empty()
    } else if a[i - 1] == b[j - 1] {
        lcs_walk(a, b, (i - 1) as nat, (j - 1) as nat).push(a[i - 1])
    } else if lcs_len(a, b, i, (j - 1) as nat) > lcs_len(a, b, (i - 1) as nat, j) {
        lcs_walk(a, b, i, (j - 1) as nat)
    } else {
        lcs_walk(a, b, (i - 1) as nat, j)
    }
}

/// The longest common subsequence of `a` and `b` that the walk finds.
pub open spec fn common_tokens(a: Seq<Seq<char>>, b: Seq<Seq<char>>) -> Seq<Seq<char>> {
    lcs_walk(a, b, a.len(), b.len())
}

/// The number of tokens that are in one sequence and not in the common
/// subsequence.
pub open spec fn edit_distance(a: Seq<Seq<char>>, b: Seq<Seq<char>>) -> int {
    a.len() + b.len() - 2 * lcs_len(a, b, a.len(), b.len())
}

/// A common subsequence is no longer than either prefix.
pub proof fn lemma_lcs_len_bounds(a: Seq<Seq<char>>, b: Seq<Seq<char>>, i: nat, j: nat)
    ensures
        lcs_len(a, b, i, j) <= i,
        lcs_len(a, b, i, j) <= j,
    decreases i + j,
{
    if i == 0 || j == 0 {
    } else {
        lemma_lcs_len_bounds(a, b, (i - 1) as nat, (j - 1) as nat);
        lemma_lcs_len_bounds(a, b, (i - 1) as nat, j);
        lemma_lcs_len_bounds(a, b, i, (j - 1) as nat);
    }
}

/// The walk collects as many tokens as the table says.
pub proof fn lemma_walk_len(a: Seq<Seq<char>>, b: Seq<Seq<char>>, i: nat, j: nat)
    ensures
        lcs_walk(a, b, i, j).len() == lcs_len(a, b, i, j),
    decreases i + j,
{
    if i == 0 || j == 0 {
    } else {
        lemma_walk_len(a, b, (i - 1) as nat, (j - 1) as nat);
        lemma_walk_len(a, b, (i - 1) as nat, j);
        lemma_walk_len(a, b, i, (j - 1) as nat);
    }
}

/// A subsequence of a sequence without its last token is a subsequence of
/// the sequence.
pub proof fn lemma_subsequence_extend(part: Seq<Seq<char>>, whole: Seq<Seq<char>>)
    requires
        whole.len() > 0,
        is_subsequence(part, whole.drop_last()),
    ensures
        is_subsequence(part, whole),
{
}

/// A subsequence without its last token is still a subsequence.
pub proof fn lemma_subsequence_shorten(part: Seq<Seq<char>>, whole: Seq<Seq<char>>)
    requires
        part.len() > 0,
        is_subsequence(part, whole),
    ensures
        is_subsequence(part.drop_last(), whole),
    decreases whole.len(),
{
    if part.last() == whole.last() && is_subsequence(part.drop_last(), whole.drop_last()) {
        lemma_subsequence_extend(part.drop_last(), whole);
    } else {
        lemma_subsequence_shorten(part, whole.drop_last());
        lemma_subsequence_extend(part.drop_last(), whole);
    }
}

/// What a subsequence says about the front of the sequence: the sequence is
/// not empty; if its first token is the subsequence's first, the rest of
/// the subsequence lies in the rest of the sequence; if not, the whole
/// subsequence does.
pub proof fn lemma_subsequence_front(part: Seq<Seq<char>>, whole: Seq<Seq<char>>)
    requires
        part.len() > 0,
        is_subsequence(part, whole),
    ensures
        whole.len() > 0,
        whole[0] == part[0] ==> is_subsequence(part.skip(1), whole.skip(1)),
        whole[0] != part[0] ==> is_subsequence(part, whole.skip(1)),
    decreases whole.len(),
{
    let shorter = whole.drop_last();
    let rest = whole.skip(1);
    if part.last() == whole.last() && is_subsequence(part.drop_last(), shorter) {
        if part.len() == 1 {
            assert(part.skip(1).len() == 0);
            if whole.len() > 1 {
                assert(rest.last() == whole.last());
                assert(part.drop_last().len() == 0);
                assert(is_subsequence(part.drop_last(), rest.drop_last()));
                assert(is_subsequence(part, rest));
            }
        } else {
            lemma_subsequence_front(part.drop_last(), shorter);
            assert(rest.drop_last() =~= shorter.skip(1));
            assert(rest.last() == whole.last());
            assert(part.drop_last()[0] == part[0]);
            assert(shorter[0] == whole[0]);
            if whole[0] == part[0] {
                assert(part.skip(1).drop_last() =~= part.drop_last().skip(1));
                assert(part.skip(1).last() == part.last());
                assert(is_subsequence(part.skip(1), rest));
            } else {
                assert(is_subsequence(part.drop_last(), rest.drop_last()));
                assert(is_subsequence(part, rest));
            }
        }
    } else {
        assert(is_subsequence(part, shorter));
        lemma_subsequence_front(part, shorter);
        assert(rest.drop_last() =~= shorter.skip(1));
        assert(shorter[0] == whole[0]);
        if whole[0] == part[0] {
            assert(is_subsequence(part.skip(1), rest.drop_last()));
            assert(is_subsequence(part.skip(1), rest));
        } else {
            assert(is_subsequence(part, rest.drop_last()));
            assert(is_subsequence(part, rest));
        }
    }
}

/// The walk's tokens are a common subsequence of the two prefixes.
pub proof fn lemma_walk_is_common(a: Seq<Seq<char>>, b: Seq<Seq<char>>, i: nat, j: nat)
    requires
        i <= a.len(),
        j <= b.len(),
    ensures
        is_subsequence(lcs_walk(a, b, i, j), a.take(i as int)),
        is_subsequence(lcs_walk(a, b, i, j), b.take(j as int)),
    decreases i + j,
{
    if i == 0 || j == 0 {
    } else {
        let before_a = a.take(i - 1);
        let before_b = b.take(j - 1);
        assert(a.take(i as int).drop_last() =~= before_a);
        assert(b.take(j as int).drop_last() =~= before_b);
        if a[i - 1] == b[j - 1] {
            let inner = lcs_walk(a, b, (i - 1) as nat, (j - 1) as nat);
            lemma_walk_is_common(a, b, (i - 1) as nat, (j - 1) as nat);
            assert(inner.push(a[i - 1]).drop_last() =~= inner);
        } else if lcs_len(a, b, i, (j - 1) as nat) > lcs_len(a, b, (i - 1) as nat, j) {
            lemma_walk_is_common(a, b, i, (j - 1) as nat);
        } else {
            lemma_walk_is_common(a, b, (i - 1) as nat, j);
        }
    }
}

/// No common subsequence of the two prefixes is longer than the table says.
pub proof fn lemma_lcs_len_is_longest(
    a: Seq<Seq<char>>,
    b: Seq<Seq<char>>,
    i: nat,
    j: nat,
    other: Seq<Seq<char>>,
)
    requires
        i <= a.len(),
        j <= b.len(),
        is_subsequence(other, a.take(i as int)),
        is_subsequence(other, b.take(j as int)),
    ensures
        other.len() <= lcs_len(a, b, i, j),
    decreases i + j,
{
    if other.len() == 0 {
    } else if i == 0 || j == 0 {
    } else {
        let whole_a = a.take(i as int);
        let whole_b = b.take(j as int);
        assert(whole_a.drop_last() =~= a.take(i - 1));
        assert(whole_b.drop_last() =~= b.take(j - 1));
        if a[i - 1] == b[j - 1] {
            if other.last() == whole_a.last() && is_subsequence(
                other.drop_last(),
                whole_a.drop_last(),
            ) {
            } else {
                lemma_subsequence_shorten(other, whole_a.drop_last());
            }
            if other.last() == whole_b.last() && is_subsequence(
                other.drop_last(),
                whole_b.drop_last(),
            ) {
            } else {
                lemma_subsequence_shorten(other, whole_b.drop_last());
            }
            lemma_lcs_len_is_longest(a, b, (i - 1) as nat, (j - 1) as nat, other.drop_last());
        } else if other.last() != a[i - 1] {
            lemma_lcs_len_is_longest(a, b, (i - 1) as nat, j, other);
        } else {
            lemma_lcs_len_is_longest(a, b, i, (j - 1) as nat, other);
        }
    }
}

/// Against itself a sequence has all its tokens in common.
pub proof fn lemma_walk_same(a: Seq<Seq<char>>, i: nat)
    requires
        i <= a.len(),
    ensures
        lcs_walk(a, a, i, i) == a.take(i as int),
        lcs_len(a, a, i, i) == i,
    decreases i,
{
    if i > 0 {
        lemma_walk_same(a, (i - 1) as nat);
        assert(a.take(i - 1).push(a[i - 1]) =~= a.take(i as int));
    }
}

/// Where no token of the one sequence is a token of the other, nothing is
/// common.
pub proof fn lemma_walk_disjoint(a: Seq<Seq<char>>, b: Seq<Seq<char>>, i: nat, j: nat)
    requires
        i <= a.len(),
        j <= b.len(),
        forall|x: int, y: int| 0 <= x < a.len() && 0 <= y < b.len() ==> a[x] != b[y],
    ensures
        lcs_len(a, b, i, j) == 0,
        lcs_walk(a, b, i, j) == Seq::<Seq<char>>::empty(),
    decreases i + j,
{
    if i == 0 || j == 0 {
    } else {
        lemma_walk_disjoint(a, b, (i - 1) as nat, j);
        lemma_walk_disjoint(a, b, i, (j - 1) as nat);
    }
}

/// Whether the rows of `table` hold the lengths for the tokens they stand
/// for: row `r` and column `c` hold the length for the first `r + 1` tokens
/// of `a` and the first `c + 1` tokens of `b`. The cells for an empty
/// prefix are not stored: they hold zero.
pub open spec fn rows_filled(table: Seq<Vec<usize>>, a: Seq<Seq<char>>, b: Seq<Seq<char>>) -> bool {
    forall|r: int|
        0 <= r < table.len() ==> {
            &&& (#[trigger] table[r])@.len() == b.len()
            &&& forall|c: int|
                0 <= c < b.len() ==> (#[trigger] table[r]@[c]) == lcs_len(
                    a,
                    b,
                    (r + 1) as nat,
                    (c + 1) as nat,
                )
        }
}

/// Reads the length for the first `i` tokens of `a` and the first `j` of `b`.
fn cell(
    table: &Vec<Vec<usize>>,
    i: usize,
    j: usize,
    Ghost(a): Ghost<Seq<Seq<char>>>,
    Ghost(b): Ghost<Seq<Seq<char>>>,
) -> (length: usize)
    requires
        rows_filled(table@, a, b),
        i <= table.len(),
        j <= b.len(),
    ensures
        length == lcs_len(a, b, i as nat, j as nat),
{
    if i == 0 || j == 0 {
        0
    } else {
        let row = &table[i - 1];
        row[j - 1]
    }
}

/// Fills the table of lengths, row by row.
fn fill_table(orig: &Vec<String>, edit: &Vec<String>) -> (table: Vec<Vec<usize>>)
    ensures
        table.len() == orig.len(),
        rows_filled(table@, views(orig@), views(edit@)),
{
    let n = orig.len();
    let m = edit.len();
    let ghost a = views(orig@);
    let ghost b = views(edit@);
    let mut table: Vec<Vec<usize>> = Vec::new();
    let mut i: usize = 0;
    while i < n
        invariant
            n == orig.len(),
            m == edit.len(),
            a == views(orig@),
            b == views(edit@),
            i <= n,
            table.len() == i,
            rows_filled(table@, a, b),
        decreases n - i,
    {
        let mut row: Vec<usize> = Vec::new();
        let mut j: usize = 0;
        while j < m
            invariant
                n == orig.len(),
                m == edit.len(),
                a == views(orig@),
                b == views(edit@),
                i < n,
                table.len() == i,
                rows_filled(table@, a, b),
                j <= m,
                row.len() == j,
                forall|c: int|
                    0 <= c < j ==> (#[trigger] row@[c]) == lcs_len(
                        a,
                        b,
                        (i + 1) as nat,
                        (c + 1) as nat,
                    ),
            decreases m - j,
        {
            proof {
                lemma_lcs_len_bounds(a, b, i as nat, j as nat);
                assert(a[i as int] == orig@[i as int]@);
                assert(b[j as int] == edit@[j as int]@);
                assert(lcs_len(a, b, (i + 1) as nat, 0) == 0);
            }
            let value = if orig[i] == edit[j] {
                cell(&table, i, j, Ghost(a), Ghost(b)) + 1
            } else {
                let up = cell(&table, i, j + 1, Ghost(a), Ghost(b));
                let left = if j == 0 {
                    0
                } else {
                    row[j - 1]
                };
                if left > up {
                    left
                } else {
                    up
                }
            };
            row.push(value);
            j += 1;
        }
        let ghost before = table@;
        table.push(row);
        assert forall|r: int| 0 <= r < table.len() implies {
            &&& (#[trigger] table@[r])@.len() == b.len()
            &&& forall|c: int|
                0 <= c < b.len() ==> (#[trigger] table@[r]@[c]) == lcs_len(
                    a,
                    b,
                    (r + 1) as nat,
                    (c + 1) as nat,
                )
        } by {
            if r < i {
                assert(table@[r] == before[r]);
            }
        }
        i += 1;
    }
    table
}

/// Finds a longest common subsequence of two token sequences, and the edit
/// distance between them: the number of tokens of either that are not part
/// of it. No common subsequence is longer than the one found: see
/// `lemma_lcs_len_is_longest`. The table has a cell for every pair of
/// tokens, so time and memory grow with the product of the two lengths.
pub fn lcs(orig: &Vec<String>, edit: &Vec<String>) -> (found: (i128, Vec<String>))
    ensures
        found.0 == edit_distance(views(orig@), views(edit@)),
        found.0 == orig.len() + edit.len() - 2 * found.1.len(),
        found.0 >= 0,
        views(found.1@) == common_tokens(views(orig@), views(edit@)),
        is_subsequence(views(found.1@), views(orig@)),
        is_subsequence(views(found.1@), views(edit@)),
        found.1.len() == lcs_len(views(orig@), views(edit@), orig.len() as nat, edit.len() as nat),
{
    let n = orig.len();
    let m = edit.len();
    let ghost a = views(orig@);
    let ghost b = views(edit@);
    let ghost whole = common_tokens(a, b);
    let table = fill_table(orig, edit);
    let mut reversed: Vec<String> = Vec::new();
    let mut i: usize = n;
    let mut j: usize = m;
    while i > 0 && j > 0
        invariant
            n == orig.len(),
            m == edit.len(),
            a == views(orig@),
            b == views(edit@),
            whole == common_tokens(a, b),
            table.len() == n,
            rows_filled(table@, a, b),
            i <= n,
            j <= m,
            lcs_walk(a, b, i as nat, j as nat).len() + reversed.len() == whole.len(),
            lcs_walk(a, b, i as nat, j as nat) == whole.take(whole.len() - reversed.len()),
            forall|k: int|
                0 <= k < reversed.len() ==> (#[trigger] reversed@[k])@ == whole[whole.len() - 1
                    - k],
        decreases i + j,
    {
        proof {
            assert(a[i - 1] == orig@[i - 1]@);
            assert(b[j - 1] == edit@[j - 1]@);
        }
        if orig[i - 1] == edit[j - 1] {
            let ghost inner = lcs_walk(a, b, (i - 1) as nat, (j - 1) as nat);
            proof {
                assert(inner.push(a[i - 1]) == whole.take(whole.len() - reversed.len()));
                assert(inner =~= whole.take(whole.len() - reversed.len() - 1));
                assert(inner.push(a[i - 1])[inner.len() as int] == a[i - 1]);
            }
            reversed.push(orig[i - 1].clone());
            i -= 1;
            j -= 1;
        } else {
            let left = cell(&table, i, j - 1, Ghost(a), Ghost(b));
            let up = cell(&table, i - 1, j, Ghost(a), Ghost(b));
            if left > up {
                j -= 1;
            } else {
                i -= 1;
            }
        }
    }
    let mut common: Vec<String> = Vec::new();
    let mut k: usize = reversed.len();
    while k > 0
        invariant
            k <= reversed.len(),
            reversed.len() == whole.len(),
            common.len() == reversed.len() - k,
            forall|x: int|
                0 <= x < reversed.len() ==> (#[trigger] reversed@[x])@ == whole[whole.len() - 1
                    - x],
            forall|x: int| 0 <= x < common.len() ==> (#[trigger] common@[x])@ == whole[x],
        decreases k,
    {
        k -= 1;
        common.push(reversed[k].clone());
    }
    proof {
        assert(views(common@) =~= whole);
        lemma_walk_len(a, b, n as nat, m as nat);
        lemma_lcs_len_bounds(a, b, n as nat, m as nat);
        lemma_walk_is_common(a, b, n as nat, m as nat);
        assert(a.take(n as int) =~= a);
        assert(b.take(m as int) =~= b);
    }
    let distance = n as i128 + m as i128 - 2 * (common.len() as i128);
    (distance, common)
}

} // verus!
