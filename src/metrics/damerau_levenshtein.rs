use crate::metrics::levenshtein::{lev_prefix, longer, min3, substitution_cost};
use crate::metrics::utils::{
    clusters,
    fits_in_matrix,
    folded_graphemes,
    lemma_matrix_fits_dims,
    lower_of,
    matrix_fits,
    units,
    Array2D,
};
use vstd::prelude::*;

verus! {

/// The largest `k` in `1..=n` with `s[k - 1] == x`, or zero if there is none.
pub open spec fn last_match<A>(s: Seq<A>, x: A, n: int) -> int
    decreases n,
{
    if n <= 0 {
        0
    } else if s[n - 1] == x {
        n
    } else {
        last_match(s, x, n - 1)
    }
}

/// The unrestricted Damerau–Levenshtein distance between the first `i` units
/// of `a` and the first `j` units of `b`. Besides insertion, deletion and
/// substitution, the last unit of each prefix may be paired with the most
/// recent earlier occurrence of it in the other prefix: the units between are
/// deleted or inserted and the two swapped, at cost one for the swap.
pub open spec fn dl_prefix<A>(a: Seq<A>, b: Seq<A>, i: nat, j: nat) -> int
    decreases i + j,
{
    if i == 0 {
        j as int
    } else if j == 0 {
        i as int
    } else {
        let base = min3(
            dl_prefix(a, b, (i - 1) as nat, j) + 1,
            dl_prefix(a, b, i, (j - 1) as nat) + 1,
            dl_prefix(a, b, (i - 1) as nat, (j - 1) as nat) + substitution_cost(a, b, i as int, j as int),
        );
        let k = last_match(a, b[j - 1], i - 1);
        let l = last_match(b, a[i - 1], j - 1);
        if 0 < k < i && 0 < l < j {
            let swap = dl_prefix(a, b, (k - 1) as nat, (l - 1) as nat) + (i - k - 1) + 1 + (j - l - 1);
            if swap < base {
                swap
            } else {
                base
            }
        } else {
            base
        }
    }
}

/// The Damerau–Levenshtein distance between two unit sequences.
pub open spec fn damerau_levenshtein<A>(a: Seq<A>, b: Seq<A>) -> int {
    dl_prefix(a, b, a.len(), b.len())
}

/// The Damerau–Levenshtein distance between two texts, by grapheme cluster.
pub open spec fn damerau_levenshtein_of_text(a: Seq<char>, b: Seq<char>, ignore_case: bool) -> int {
    damerau_levenshtein(units(a, ignore_case), units(b, ignore_case))
}

proof fn lemma_last_match_bounds<A>(s: Seq<A>, x: A, n: int)
    requires
        0 <= n <= s.len(),
    ensures
        0 <= last_match(s, x, n) <= n,
        last_match(s, x, n) > 0 ==> s[last_match(s, x, n) - 1] == x,
    decreases n,
{
    if n > 0 {
        lemma_last_match_bounds(s, x, n - 1);
    }
}

proof fn lemma_dl_prefix_bounds<A>(a: Seq<A>, b: Seq<A>, i: nat, j: nat)
    ensures
        0 <= dl_prefix(a, b, i, j) <= longer(i, j),
    decreases i + j,
{
    if i > 0 && j > 0 {
        lemma_dl_prefix_bounds(a, b, (i - 1) as nat, j);
        lemma_dl_prefix_bounds(a, b, i, (j - 1) as nat);
        lemma_dl_prefix_bounds(a, b, (i - 1) as nat, (j - 1) as nat);
        let k = last_match(a, b[j - 1], i - 1);
        let l = last_match(b, a[i - 1], j - 1);
        if 0 < k < i && 0 < l < j {
            lemma_dl_prefix_bounds(a, b, (k - 1) as nat, (l - 1) as nat);
        }
    }
}

proof fn lemma_dl_prefix_symmetric<A>(a: Seq<A>, b: Seq<A>, i: nat, j: nat)
    ensures
        dl_prefix(a, b, i, j) == dl_prefix(b, a, j, i),
    decreases i + j,
{
    if i > 0 && j > 0 {
        lemma_dl_prefix_symmetric(a, b, (i - 1) as nat, j);
        lemma_dl_prefix_symmetric(a, b, i, (j - 1) as nat);
        lemma_dl_prefix_symmetric(a, b, (i - 1) as nat, (j - 1) as nat);
        let k = last_match(a, b[j - 1], i - 1);
        let l = last_match(b, a[i - 1], j - 1);
        if 0 < k < i && 0 < l < j {
            lemma_dl_prefix_symmetric(a, b, (k - 1) as nat, (l - 1) as nat);
        }
    }
}

proof fn lemma_dl_prefix_identity<A>(a: Seq<A>, i: nat)
    ensures
        dl_prefix(a, a, i, i) == 0,
    decreases i,
{
    if i > 0 {
        lemma_dl_prefix_identity(a, (i - 1) as nat);
        lemma_dl_prefix_bounds(a, a, i, i);
    }
}

proof fn lemma_dl_prefix_le_lev<A>(a: Seq<A>, b: Seq<A>, i: nat, j: nat)
    ensures
        dl_prefix(a, b, i, j) <= lev_prefix(a, b, i, j),
    decreases i + j,
{
    if i > 0 && j > 0 {
        lemma_dl_prefix_le_lev(a, b, (i - 1) as nat, j);
        lemma_dl_prefix_le_lev(a, b, i, (j - 1) as nat);
        lemma_dl_prefix_le_lev(a, b, (i - 1) as nat, (j - 1) as nat);
    }
}

/// The Damerau–Levenshtein distance does not depend on the order of its
/// arguments.
pub proof fn lemma_damerau_levenshtein_symmetric(a: Seq<char>, b: Seq<char>, ignore_case: bool)
    ensures
        damerau_levenshtein_of_text(a, b, ignore_case) == damerau_levenshtein_of_text(
            b,
            a,
            ignore_case,
        ),
{
    let (ua, ub) = (units(a, ignore_case), units(b, ignore_case));
    lemma_dl_prefix_symmetric(ua, ub, ua.len(), ub.len());
}

/// A text is at Damerau–Levenshtein distance zero from itself.
pub proof fn lemma_damerau_levenshtein_identity(a: Seq<char>, ignore_case: bool)
    ensures
        damerau_levenshtein_of_text(a, a, ignore_case) == 0,
{
    lemma_dl_prefix_identity(units(a, ignore_case), units(a, ignore_case).len());
}

/// Allowing transpositions never makes the distance larger than Levenshtein's.
pub proof fn lemma_damerau_levenshtein_le_levenshtein(a: Seq<char>, b: Seq<char>, ignore_case: bool)
    ensures
        0 <= damerau_levenshtein_of_text(a, b, ignore_case),
        damerau_levenshtein_of_text(a, b, ignore_case)
            <= crate::metrics::levenshtein::levenshtein_of_text(a, b, ignore_case),
{
    let (ua, ub) = (units(a, ignore_case), units(b, ignore_case));
    lemma_dl_prefix_le_lev(ua, ub, ua.len(), ub.len());
    lemma_dl_prefix_bounds(ua, ub, ua.len(), ub.len());
}

/// Ignoring case is the same as comparing the lowercased texts exactly.
pub proof fn lemma_damerau_levenshtein_ignore_case(a: Seq<char>, b: Seq<char>)
    ensures
        damerau_levenshtein_of_text(a, b, true) == damerau_levenshtein_of_text(
            lower_of(a),
            lower_of(b),
            false,
        ),
{
}

/// What the distance table holds at row `p`, column `q`: the border value
/// `max_dist` on row and column zero, the prefix distance elsewhere.
pub open spec fn table_cell<A>(a: Seq<A>, b: Seq<A>, max_dist: int, p: int, q: int) -> int {
    if p == 0 || q == 0 {
        max_dist
    } else {
        dl_prefix(a, b, (p - 1) as nat, (q - 1) as nat)
    }
}

pub open spec fn min4(w: int, x: int, y: int, z: int) -> int {
    let m = min3(w, x, y);
    if z < m {
        z
    } else {
        m
    }
}

/// One cell of the distance table is the least of its four candidates, each
/// of them within the range that `i64` holds for a table that fits.
proof fn lemma_table_step<A>(a: Seq<A>, b: Seq<A>, i: int, j: int)
    requires
        1 <= i <= a.len(),
        1 <= j <= b.len(),
    ensures
        ({
            let md = (a.len() + b.len()) as int;
            let k = last_match(a, b[j - 1], i - 1);
            let l = last_match(b, a[i - 1], j - 1);
            &&& 0 <= k < i
            &&& 0 <= l < j
            &&& 0 <= table_cell(a, b, md, i, j) <= md
            &&& 0 <= table_cell(a, b, md, i + 1, j) <= md
            &&& 0 <= table_cell(a, b, md, i, j + 1) <= md
            &&& 0 <= table_cell(a, b, md, k, l) <= md
            &&& table_cell(a, b, md, i + 1, j + 1) == min4(
                table_cell(a, b, md, i, j) + substitution_cost(a, b, i, j),
                table_cell(a, b, md, i + 1, j) + 1,
                table_cell(a, b, md, i, j + 1) + 1,
                table_cell(a, b, md, k, l) + (i - k - 1) + 1 + (j - l - 1),
            )
        }),
{
    let k = last_match(a, b[j - 1], i - 1);
    let l = last_match(b, a[i - 1], j - 1);
    lemma_last_match_bounds(a, b[j - 1], i - 1);
    lemma_last_match_bounds(b, a[i - 1], j - 1);
    lemma_dl_prefix_bounds(a, b, (i - 1) as nat, (j - 1) as nat);
    lemma_dl_prefix_bounds(a, b, i as nat, (j - 1) as nat);
    lemma_dl_prefix_bounds(a, b, (i - 1) as nat, j as nat);
    if k > 0 && l > 0 {
        lemma_dl_prefix_bounds(a, b, (k - 1) as nat, (l - 1) as nat);
    }
    assert(table_cell(a, b, (a.len() + b.len()) as int, i + 1, j + 1) == dl_prefix(a, b, i as nat, j as nat));
}

/// The unrestricted Damerau–Levenshtein distance between the grapheme
/// sequences `a` and `b`.
pub fn distance_impl(a: &Vec<String>, b: &Vec<String>) -> (r: i64)
    requires
        matrix_fits(a.len() as nat, b.len() as nat),
    ensures
        r == damerau_levenshtein(clusters(a@), clusters(b@)),
{
    let ghost sa = clusters(a@);
    let ghost sb = clusters(b@);
    let la = a.len();
    let lb = b.len();
    if la == 0 {
        return lb as i64;
    }
    if lb == 0 {
        return la as i64;
    }
    proof {
        lemma_matrix_fits_dims(la as nat, lb as nat);
    }
    let rows = la + 2;
    let columns = lb + 2;
    let max_dist: i64 = la as i64 + lb as i64;
    let ghost md = max_dist as int;
    let mut m = Array2D::new(rows, columns);
    m.set(0, 0, max_dist);
    let mut i: usize = 1;
    while i < rows
        invariant
            m.wf(),
            m.rows() == rows,
            m.cols() == columns,
            1 <= i <= rows,
            rows == la + 2,
            columns == lb + 2,
            la == a.len(),
            lb == b.len(),
            la > 0,
            lb > 0,
            md == la + lb,
            max_dist == md,
            matrix_fits(la as nat, lb as nat),
            forall|p: int, q: int|
                0 <= q <= 1 && ((p == 0 && q == 0) || 1 <= p < i) ==> #[trigger] m.cell(p, q)
                    == table_cell(sa, sb, md, p, q),
        decreases rows - i,
    {
        m.set(i, 0, max_dist);
        m.set(i, 1, (i - 1) as i64);
        i = i + 1;
    }
    let mut j: usize = 1;
    while j < columns
        invariant
            m.wf(),
            m.rows() == rows,
            m.cols() == columns,
            1 <= j <= columns,
            rows == la + 2,
            columns == lb + 2,
            la == a.len(),
            lb == b.len(),
            la > 0,
            lb > 0,
            md == la + lb,
            max_dist == md,
            matrix_fits(la as nat, lb as nat),
            forall|p: int, q: int|
                0 <= p < rows && 0 <= q < columns && ((q <= 1 && p >= 1) || (p == 0 && q == 0) || (
                    p <= 1 && q < j))
                    ==> #[trigger] m.cell(p, q) == table_cell(sa, sb, md, p, q),
        decreases columns - j,
    {
        m.set(0, j, max_dist);
        m.set(1, j, (j - 1) as i64);
        j = j + 1;
    }
    let mut last_row: Vec<usize> = Vec::new();
    while last_row.len() < lb
        invariant
            last_row.len() <= lb,
            forall|q: int| 0 <= q < last_row.len() ==> last_row@[q] == 0,
        decreases lb - last_row.len(),
    {
        last_row.push(0);
    }
    let mut i: usize = 1;
    while i <= la
        invariant
            m.wf(),
            m.rows() == rows,
            m.cols() == columns,
            1 <= i <= la + 1,
            rows == la + 2,
            columns == lb + 2,
            la == a.len(),
            lb == b.len(),
            la > 0,
            lb > 0,
            md == la + lb,
            max_dist == md,
            sa == clusters(a@),
            sb == clusters(b@),
            matrix_fits(la as nat, lb as nat),
            last_row.len() == lb,
            forall|q: int| 0 <= q < lb ==> #[trigger] last_row@[q] == last_match(sa, sb[q], i - 1),
            forall|p: int, q: int|
                0 <= p < rows && 0 <= q < columns && (p <= i || q <= 1) ==> #[trigger] m.cell(p, q)
                    == table_cell(sa, sb, md, p, q),
        decreases la + 1 - i,
    {
        let mut db: usize = 0;
        let mut j: usize = 1;
        while j <= lb
            invariant
                m.wf(),
                m.rows() == rows,
                m.cols() == columns,
                1 <= i <= la,
                1 <= j <= lb + 1,
                rows == la + 2,
                columns == lb + 2,
                la == a.len(),
                lb == b.len(),
                md == la + lb,
                max_dist == md,
                sa == clusters(a@),
                sb == clusters(b@),
                matrix_fits(la as nat, lb as nat),
                last_row.len() == lb,
                db == last_match(sb, sa[i - 1], j - 1),
                forall|q: int|
                    0 <= q < lb ==> #[trigger] last_row@[q] == if q < j - 1 {
                        last_match(sa, sb[q], i as int)
                    } else {
                        last_match(sa, sb[q], i - 1)
                    },
                forall|p: int, q: int|
                    0 <= p < rows && 0 <= q < columns && (p <= i || q <= 1 || (p == i + 1 && q <= j))
                        ==> #[trigger] m.cell(p, q) == table_cell(sa, sb, md, p, q),
            decreases lb + 1 - j,
        {
            let k = last_row[j - 1];
            let l = db;
            proof {
                lemma_table_step(sa, sb, i as int, j as int);
            }
            let same = a[i - 1] == b[j - 1];
            let cost: i64 = if same {
                db = j;
                last_row.set(j - 1, i);
                0
            } else {
                1
            };
            let sub = m.get(i, j) + cost;
            let ins = m.get(i + 1, j) + 1;
            let del = m.get(i, j + 1) + 1;
            let swap = m.get(k, l) + (i - k - 1) as i64 + 1 + (j - l - 1) as i64;
            let best = if sub <= ins && sub <= del && sub <= swap {
                sub
            } else if ins <= del && ins <= swap {
                ins
            } else if del <= swap {
                del
            } else {
                swap
            };
            assert(best == min4(sub as int, ins as int, del as int, swap as int));
            m.set(i + 1, j + 1, best);
            j = j + 1;
        }
        i = i + 1;
    }
    m.get(la + 1, lb + 1)
}

/// The unrestricted Damerau–Levenshtein distance between `a` and `b` by
/// grapheme cluster, after lowercasing both when `ignore_case` holds; `None`
/// when the distance table for the two cluster counts cannot be indexed in
/// memory.
///
/// Time and memory grow with the product of the two cluster counts.
pub fn distance(a: &str, b: &str, ignore_case: bool) -> (r: Option<i64>)
    ensures
        matrix_fits(units(a@, ignore_case).len(), units(b@, ignore_case).len()) ==> (r matches Some(
            d,
        ) && d == damerau_levenshtein_of_text(a@, b@, ignore_case)),
        !matrix_fits(units(a@, ignore_case).len(), units(b@, ignore_case).len()) ==> r.is_none(),
{
    let ga = folded_graphemes(a, ignore_case);
    let gb = folded_graphemes(b, ignore_case);
    if !fits_in_matrix(ga.len(), gb.len()) {
        return None;
    }
    Some(distance_impl(&ga, &gb))
}

} // verus!
