//! Longest common subsequences.

use vstd::prelude::*;

verus! {

/// The length of a longest common subsequence of the first `i` elements of `a`
/// and the first `j` elements of `b`.
pub open spec fn lcs_len<A>(a: Seq<A>, b: Seq<A>, i: nat, j: nat) -> nat
    decreases i + j,
{
    if i == 0 || j == 0 {
        0
    } else if a[i - 1] == b[j - 1] {
        lcs_len(a, b, (i - 1) as nat, (j - 1) as nat) + 1
    } else {
        let up = lcs_len(a, b, (i - 1) as nat, j);
        let left = lcs_len(a, b, i, (j - 1) as nat);
        if up >= left {
            up
        } else {
            left
        }
    }
}

/// The matched index pairs, found from the end: equal last elements are matched;
/// otherwise the last element of `a` is given up, unless giving up that of `b`
/// leaves a longer match.
pub open spec fn lcs_pairs<A>(a: Seq<A>, b: Seq<A>, i: nat, j: nat) -> Seq<(usize, usize)>
    decreases i + j,
{
    if i == 0 || j == 0 {
        Seq::empty()
    } else if a[i - 1] == b[j - 1] {
        lcs_pairs(a, b, (i - 1) as nat, (j - 1) as nat).push(((i - 1) as usize, (j - 1) as usize))
    } else if lcs_len(a, b, (i - 1) as nat, j) >= lcs_len(a, b, i, (j - 1) as nat) {
        lcs_pairs(a, b, (i - 1) as nat, j)
    } else {
        lcs_pairs(a, b, i, (j - 1) as nat)
    }
}

/// Pairs of positions, increasing on both sides, at which the first `i`
/// elements of `a` and the first `j` elements of `b` agree.
pub open spec fn is_common_subsequence<A>(
    a: Seq<A>,
    b: Seq<A>,
    i: nat,
    j: nat,
    pairs: Seq<(usize, usize)>,
) -> bool {
    &&& forall|k: int|
        0 <= k < pairs.len() ==> {
            &&& (#[trigger] pairs[k]).0 < i
            &&& pairs[k].1 < j
            &&& a[pairs[k].0 as int] == b[pairs[k].1 as int]
        }
    &&& forall|k: int, l: int|
        0 <= k < l < pairs.len() ==> (#[trigger] pairs[k]).0 < (#[trigger] pairs[l]).0 && pairs[k].1
            < pairs[l].1
}

/// The matched pairs of `lcs_pairs` are a common subsequence of the length
/// `lcs_len`.
pub proof fn law_pairs_are_common<A>(a: Seq<A>, b: Seq<A>, i: nat, j: nat)
    requires
        i <= a.len() <= usize::MAX,
        j <= b.len() <= usize::MAX,
    ensures
        is_common_subsequence(a, b, i, j, lcs_pairs(a, b, i, j)),
        lcs_pairs(a, b, i, j).len() == lcs_len(a, b, i, j),
    decreases i + j,
{
    if i == 0 || j == 0 {
    } else if a[i - 1] == b[j - 1] {
        law_pairs_are_common(a, b, (i - 1) as nat, (j - 1) as nat);
    } else if lcs_len(a, b, (i - 1) as nat, j) >= lcs_len(a, b, i, (j - 1) as nat) {
        law_pairs_are_common(a, b, (i - 1) as nat, j);
    } else {
        law_pairs_are_common(a, b, i, (j - 1) as nat);
    }
}

/// No common subsequence is longer than `lcs_len`.
pub proof fn law_no_longer_common_subsequence<A>(
    a: Seq<A>,
    b: Seq<A>,
    i: nat,
    j: nat,
    pairs: Seq<(usize, usize)>,
)
    requires
        i <= a.len(),
        j <= b.len(),
        is_common_subsequence(a, b, i, j, pairs),
    ensures
        pairs.len() <= lcs_len(a, b, i, j),
    decreases i + j,
{
    if pairs.len() > 0 {
        let last = pairs.last();
        assert(last == pairs[pairs.len() - 1]);
        if a[i - 1] == b[j - 1] {
            let rest = pairs.drop_last();
            assert forall|k: int| 0 <= k < rest.len() implies {
                &&& (#[trigger] rest[k]).0 < i - 1
                &&& rest[k].1 < j - 1
                &&& a[rest[k].0 as int] == b[rest[k].1 as int]
            } by {
                assert(rest[k] == pairs[k]);
            }
            law_no_longer_common_subsequence(a, b, (i - 1) as nat, (j - 1) as nat, rest);
        } else if last.0 < i - 1 {
            assert forall|k: int| 0 <= k < pairs.len() implies (#[trigger] pairs[k]).0 < i - 1 by {}
            law_no_longer_common_subsequence(a, b, (i - 1) as nat, j, pairs);
        } else {
            assert(last.1 < j - 1);
            assert forall|k: int| 0 <= k < pairs.len() implies (#[trigger] pairs[k]).1 < j - 1 by {}
            law_no_longer_common_subsequence(a, b, i, (j - 1) as nat, pairs);
        }
    }
}

/// A sequence matched against itself: every element is matched with itself.
pub proof fn law_self_pairs<A>(a: Seq<A>, i: nat)
    requires
        i <= a.len(),
    ensures
        lcs_pairs(a, a, i, i) == Seq::new(i, |k: int| (k as usize, k as usize)),
    decreases i,
{
    if i > 0 {
        law_self_pairs(a, (i - 1) as nat);
    }
    assert(lcs_pairs(a, a, i, i) =~= Seq::new(i, |k: int| (k as usize, k as usize)));
}

proof fn lemma_len_bound<A>(a: Seq<A>, b: Seq<A>, i: nat, j: nat)
    ensures
        lcs_len(a, b, i, j) <= i,
        lcs_len(a, b, i, j) <= j,
    decreases i + j,
{
    if i == 0 || j == 0 {
    } else if a[i - 1] == b[j - 1] {
        lemma_len_bound(a, b, (i - 1) as nat, (j - 1) as nat);
    } else {
        lemma_len_bound(a, b, (i - 1) as nat, j);
        lemma_len_bound(a, b, i, (j - 1) as nat);
    }
}

proof fn lemma_small_side(n: nat, m: nat)
    requires
        n * m <= usize::MAX,
    ensures
        n <= u32::MAX || m <= u32::MAX,
{
    if n > u32::MAX && m > u32::MAX {
        assert(n * m >= 0x1_0000_0000 * 0x1_0000_0000) by (nonlinear_arith)
            requires
                n >= 0x1_0000_0000,
                m >= 0x1_0000_0000,
        ;
    }
}

/// The number that stands for row `i` and column `j` of the table, where row and
/// column zero, which are all zeros, are not stored.
fn table_entry(table: &Vec<Vec<u32>>, i: usize, j: usize) -> (r: u32)
    requires
        i > 0 && j > 0 ==> i <= table.len() && j <= table@[i - 1].len(),
    ensures
        r == (if i == 0 || j == 0 { 0 } else { table@[i - 1]@[j - 1] }),
{
    if i == 0 || j == 0 {
        0
    } else {
        table[i - 1][j - 1]
    }
}

/// Whether `n * m` exceeds `limit`.
fn product_exceeds(n: usize, m: usize, limit: usize) -> (r: bool)
    ensures
        r == (n * m > limit),
{
    match n.checked_mul(m) {
        Some(product) => product > limit,
        None => true,
    }
}

spec fn row_filled<A>(a: Seq<A>, b: Seq<A>, i: int, row: Seq<u32>) -> bool {
    forall|j: int|
        0 <= j < row.len() ==> #[trigger] row[j] == lcs_len(a, b, (i + 1) as nat, (j + 1) as nat)
}

/// The index pairs of a longest common subsequence of `a` and `b`; `None` if
/// neither is empty and the product of their lengths exceeds `pairwise_limit`.
pub fn lcs_matches(a: &[String], b: &[String], pairwise_limit: usize) -> (r: Option<
    Vec<(usize, usize)>,
>)
    ensures
        r is None <==> a@.len() > 0 && b@.len() > 0 && a@.len() * b@.len() > pairwise_limit,
        r matches Some(pairs) ==> pairs@ == lcs_pairs(
            a.deep_view(),
            b.deep_view(),
            a@.len(),
            b@.len(),
        ),
{
    let n: usize = a.len();
    let m: usize = b.len();
    let ghost ta = a.deep_view();
    let ghost tb = b.deep_view();
    if n == 0 || m == 0 {
        let none: Vec<(usize, usize)> = Vec::new();
        assert(none@ =~= lcs_pairs(ta, tb, n as nat, m as nat));
        return Some(none);
    }
    if product_exceeds(n, m, pairwise_limit) {
        return None;
    }
    proof {
        lemma_small_side(n as nat, m as nat);
    }
    let mut table: Vec<Vec<u32>> = Vec::new();
    let mut i: usize = 0;
    while i < n
        invariant
            i <= n,
            n == a.len(),
            m == b.len(),
            ta == a.deep_view(),
            tb == b.deep_view(),
            n <= u32::MAX || m <= u32::MAX,
            table.len() == i,
            forall|x: int|
                0 <= x < i ==> (#[trigger] table@[x]).len() == m && row_filled(
                    ta,
                    tb,
                    x,
                    table@[x]@,
                ),
        decreases n - i,
    {
        let mut row: Vec<u32> = Vec::new();
        let mut j: usize = 0;
        while j < m
            invariant
                i < n,
                j <= m,
                n == a.len(),
                m == b.len(),
                ta == a.deep_view(),
                tb == b.deep_view(),
                n <= u32::MAX || m <= u32::MAX,
                table.len() == i,
                forall|x: int|
                    0 <= x < i ==> (#[trigger] table@[x]).len() == m && row_filled(
                        ta,
                        tb,
                        x,
                        table@[x]@,
                    ),
                row.len() == j,
                row_filled(ta, tb, i as int, row@),
            decreases m - j,
        {
            let ghost before = row@;
            proof {
                lemma_len_bound(ta, tb, i as nat, j as nat);
                assert(ta[i as int] == a@[i as int]@);
                assert(tb[j as int] == b@[j as int]@);
                if i > 0 {
                    assert(row_filled(ta, tb, i - 1, table@[i - 1]@));
                }
            }
            let entry: u32 = if a[i] == b[j] {
                let diagonal: u32 = table_entry(&table, i, j);
                assert(diagonal == lcs_len(ta, tb, i as nat, j as nat));
                diagonal + 1
            } else {
                let left: u32 = if j == 0 { 0 } else { row[j - 1] };
                let up: u32 = table_entry(&table, i, j + 1);
                assert(up == lcs_len(ta, tb, i as nat, (j + 1) as nat));
                assert(left == lcs_len(ta, tb, (i + 1) as nat, j as nat));
                if left > up {
                    left
                } else {
                    up
                }
            };
            assert(entry == lcs_len(ta, tb, (i + 1) as nat, (j + 1) as nat));
            row.push(entry);
            assert forall|y: int| 0 <= y < row@.len() implies #[trigger] row@[y] == lcs_len(
                ta,
                tb,
                (i + 1) as nat,
                (y + 1) as nat,
            ) by {
                if y < j {
                    assert(row@[y] == before[y]);
                }
            }
            j = j + 1;
        }
        table.push(row);
        i = i + 1;
    }
    let mut x: usize = n;
    let mut y: usize = m;
    let mut reversed: Vec<(usize, usize)> = Vec::new();
    let ghost all = lcs_pairs(ta, tb, n as nat, m as nat);
    assert(all =~= lcs_pairs(ta, tb, x as nat, y as nat) + reversed@.reverse());
    while x > 0 && y > 0
        invariant
            x <= n,
            y <= m,
            n == a.len(),
            m == b.len(),
            ta == a.deep_view(),
            tb == b.deep_view(),
            table.len() == n,
            forall|k: int|
                0 <= k < n ==> (#[trigger] table@[k]).len() == m && row_filled(
                    ta,
                    tb,
                    k,
                    table@[k]@,
                ),
            all == lcs_pairs(ta, tb, x as nat, y as nat) + reversed@.reverse(),
        decreases x + y,
    {
        proof {
            assert(ta[x - 1] == a@[x - 1]@);
            assert(tb[y - 1] == b@[y - 1]@);
            assert(row_filled(ta, tb, x - 1, table@[x - 1]@));
            if x > 1 {
                assert(row_filled(ta, tb, x - 2, table@[x - 2]@));
            }
        }
        if a[x - 1] == b[y - 1] {
            let ghost before = reversed@;
            reversed.push((x - 1, y - 1));
            proof {
                let rest = lcs_pairs(ta, tb, (x - 1) as nat, (y - 1) as nat);
                let pair = ((x - 1) as usize, (y - 1) as usize);
                assert(reversed@.reverse() =~= seq![pair] + before.reverse());
                assert(rest.push(pair) + before.reverse() =~= rest + reversed@.reverse());
            }
            x = x - 1;
            y = y - 1;
        } else {
            let up: u32 = table_entry(&table, x - 1, y);
            let left: u32 = table_entry(&table, x, y - 1);
            assert(up == lcs_len(ta, tb, (x - 1) as nat, y as nat));
            assert(left == lcs_len(ta, tb, x as nat, (y - 1) as nat));
            if up >= left {
                x = x - 1;
            } else {
                y = y - 1;
            }
        }
    }
    assert(all =~= reversed@.reverse());
    let mut pairs: Vec<(usize, usize)> = Vec::new();
    let mut k: usize = reversed.len();
    while k > 0
        invariant
            k <= reversed.len(),
            pairs.len() == reversed.len() - k,
            forall|l: int|
                0 <= l < pairs.len() ==> #[trigger] pairs@[l] == reversed@[reversed.len() - 1 - l],
        decreases k,
    {
        k = k - 1;
        pairs.push(reversed[k]);
    }
    assert(pairs@ =~= reversed@.reverse());
    Some(pairs)
}

/// Where matching all but the last element of `a` gives as long a match, that last
/// element is left unmatched, unless it equals the last element of `b`: then the two
/// are matched.
pub proof fn law_ties_leave_the_last_of_the_first_side<A>(a: Seq<A>, b: Seq<A>, i: nat, j: nat)
    requires
        0 < i <= a.len(),
        0 < j <= b.len(),
    ensures
        a[i - 1] == b[j - 1] ==> lcs_pairs(a, b, i, j).len() > 0 && lcs_pairs(a, b, i, j).last() == (
            (i - 1) as usize,
            (j - 1) as usize,
        ),
        a[i - 1] != b[j - 1] && lcs_len(a, b, (i - 1) as nat, j) == lcs_len(a, b, i, j)
            ==> lcs_pairs(a, b, i, j) == lcs_pairs(a, b, (i - 1) as nat, j),
        a[i - 1] != b[j - 1] && lcs_len(a, b, (i - 1) as nat, j) < lcs_len(a, b, i, j)
            ==> lcs_pairs(a, b, i, j) == lcs_pairs(a, b, i, (j - 1) as nat),
{
}

} // verus!
