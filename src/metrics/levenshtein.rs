use crate::metrics::utils::{
    clusters,
    fits_in_matrix,
    folded_graphemes,
    lemma_matrix_fits_dims,
    lower_of,
    matrix_fits,
    units,
    Array2D,
};
use vstd::prelude::*;

verus! {

pub open spec fn min3(x: int, y: int, z: int) -> int {
    if x <= y && x <= z {
        x
    } else if y <= z {
        y
    } else {
        z
    }
}

pub open spec fn longer(x: nat, y: nat) -> nat {
    if x >= y {
        x
    } else {
        y
    }
}

/// Zero where the last units of the two prefixes agree, one otherwise.
pub open spec fn substitution_cost<A>(a: Seq<A>, b: Seq<A>, i: int, j: int) -> int {
    if a[i - 1] == b[j - 1] {
        0
    } else {
        1
    }
}

/// The edit distance between the first `i` units of `a` and the first `j`
/// units of `b`, with unit-cost insertion, deletion and substitution.
pub open spec fn lev_prefix<A>(a: Seq<A>, b: Seq<A>, i: nat, j: nat) -> int
    decreases i + j,
{
    if i == 0 {
        j as int
    } else if j == 0 {
        i as int
    } else {
        min3(
            lev_prefix(a, b, (i - 1) as nat, j) + 1,
            lev_prefix(a, b, i, (j - 1) as nat) + 1,
            lev_prefix(a, b, (i - 1) as nat, (j - 1) as nat) + substitution_cost(a, b, i as int, j as int),
        )
    }
}

/// The Levenshtein distance between two unit sequences.
pub open spec fn levenshtein<A>(a: Seq<A>, b: Seq<A>) -> int {
    lev_prefix(a, b, a.len(), b.len())
}

/// The Levenshtein distance between two texts, compared by grapheme cluster.
pub open spec fn levenshtein_of_text(a: Seq<char>, b: Seq<char>, ignore_case: bool) -> int {
    levenshtein(units(a, ignore_case), units(b, ignore_case))
}

/// A prefix distance lies between zero and the longer prefix length.
proof fn lemma_lev_prefix_bounds<A>(a: Seq<A>, b: Seq<A>, i: nat, j: nat)
    ensures
        0 <= lev_prefix(a, b, i, j) <= longer(i, j),
    decreases i + j,
{
    if i > 0 && j > 0 {
        lemma_lev_prefix_bounds(a, b, (i - 1) as nat, j);
        lemma_lev_prefix_bounds(a, b, i, (j - 1) as nat);
        lemma_lev_prefix_bounds(a, b, (i - 1) as nat, (j - 1) as nat);
    }
}

proof fn lemma_lev_prefix_symmetric<A>(a: Seq<A>, b: Seq<A>, i: nat, j: nat)
    ensures
        lev_prefix(a, b, i, j) == lev_prefix(b, a, j, i),
    decreases i + j,
{
    if i > 0 && j > 0 {
        lemma_lev_prefix_symmetric(a, b, (i - 1) as nat, j);
        lemma_lev_prefix_symmetric(a, b, i, (j - 1) as nat);
        lemma_lev_prefix_symmetric(a, b, (i - 1) as nat, (j - 1) as nat);
    }
}

proof fn lemma_lev_prefix_identity<A>(a: Seq<A>, i: nat)
    requires
        i <= a.len(),
    ensures
        lev_prefix(a, a, i, i) == 0,
    decreases i,
{
    if i > 0 {
        lemma_lev_prefix_identity(a, (i - 1) as nat);
        lemma_lev_prefix_bounds(a, a, (i - 1) as nat, i);
        lemma_lev_prefix_bounds(a, a, i, (i - 1) as nat);
    }
}

/// The Levenshtein distance does not depend on the order of its arguments.
pub proof fn lemma_levenshtein_symmetric(a: Seq<char>, b: Seq<char>, ignore_case: bool)
    ensures
        levenshtein_of_text(a, b, ignore_case) == levenshtein_of_text(b, a, ignore_case),
{
    let (ua, ub) = (units(a, ignore_case), units(b, ignore_case));
    lemma_lev_prefix_symmetric(ua, ub, ua.len(), ub.len());
}

/// A text is at Levenshtein distance zero from itself.
pub proof fn lemma_levenshtein_identity(a: Seq<char>, ignore_case: bool)
    ensures
        levenshtein_of_text(a, a, ignore_case) == 0,
{
    lemma_lev_prefix_identity(units(a, ignore_case), units(a, ignore_case).len());
}

/// The Levenshtein distance is at most the longer cluster count.
pub proof fn lemma_levenshtein_bounded(a: Seq<char>, b: Seq<char>, ignore_case: bool)
    ensures
        0 <= levenshtein_of_text(a, b, ignore_case),
        levenshtein_of_text(a, b, ignore_case) <= longer(
            units(a, ignore_case).len(),
            units(b, ignore_case).len(),
        ),
{
    let (ua, ub) = (units(a, ignore_case), units(b, ignore_case));
    lemma_lev_prefix_bounds(ua, ub, ua.len(), ub.len());
}

/// Ignoring case is the same as comparing the lowercased texts exactly.
pub proof fn lemma_levenshtein_ignore_case(a: Seq<char>, b: Seq<char>)
    ensures
        levenshtein_of_text(a, b, true) == levenshtein_of_text(lower_of(a), lower_of(b), false),
{
}

/// The Levenshtein distance between the grapheme sequences `a` and `b`.
pub fn distance_impl(a: &Vec<String>, b: &Vec<String>) -> (r: i64)
    requires
        matrix_fits(a.len() as nat, b.len() as nat),
    ensures
        r == levenshtein(clusters(a@), clusters(b@)),
{
    let ghost sa = clusters(a@);
    let ghost sb = clusters(b@);
    let la = a.len();
    let lb = b.len();
    if la == 0 {
        return lb as i64;
    }
    if lb == 0 {
        return la as i64;
    }
    proof {
        lemma_matrix_fits_dims(la as nat, lb as nat);
    }
    let rows = la + 1;
    let columns = lb + 1;
    assert(rows * columns <= (la + 2) * (lb + 2)) by (nonlinear_arith)
        requires
            rows == la + 1,
            columns == lb + 1,
    ;
    let mut m = Array2D::new(rows, columns);
    let mut i: usize = 0;
    while i < rows
        invariant
            m.wf(),
            m.rows() == rows,
            m.cols() == columns,
            i <= rows,
            rows == a.len() + 1,
            columns == b.len() + 1,
            matrix_fits(a.len() as nat, b.len() as nat),
            forall|p: int| 0 <= p < i ==> #[trigger] m.cell(p, 0) == lev_prefix(sa, sb, p as nat, 0),
        decreases rows - i,
    {
        m.set(i, 0, i as i64);
        i = i + 1;
    }
    let mut j: usize = 0;
    while j < columns
        invariant
            m.wf(),
            m.rows() == rows,
            m.cols() == columns,
            j <= columns,
            rows == a.len() + 1,
            columns == b.len() + 1,
            matrix_fits(a.len() as nat, b.len() as nat),
            forall|p: int| 0 <= p < rows ==> #[trigger] m.cell(p, 0) == lev_prefix(sa, sb, p as nat, 0),
            forall|q: int| 0 <= q < j ==> #[trigger] m.cell(0, q) == lev_prefix(sa, sb, 0, q as nat),
        decreases columns - j,
    {
        m.set(0, j, j as i64);
        j = j + 1;
    }
    let mut i: usize = 1;
    while i < rows
        invariant
            m.wf(),
            m.rows() == rows,
            m.cols() == columns,
            1 <= i <= rows,
            rows == a.len() + 1,
            columns == b.len() + 1,
            sa == clusters(a@),
            sb == clusters(b@),
            matrix_fits(a.len() as nat, b.len() as nat),
            forall|p: int, q: int|
                0 <= p < rows && 0 <= q < columns && (p < i || q == 0) ==> #[trigger] m.cell(p, q)
                    == lev_prefix(sa, sb, p as nat, q as nat),
        decreases rows - i,
    {
        let mut j: usize = 1;
        while j < columns
            invariant
                m.wf(),
                m.rows() == rows,
                m.cols() == columns,
                1 <= i < rows,
                1 <= j <= columns,
                rows == a.len() + 1,
                columns == b.len() + 1,
                sa == clusters(a@),
                sb == clusters(b@),
                matrix_fits(a.len() as nat, b.len() as nat),
                forall|p: int, q: int|
                    0 <= p < rows && 0 <= q < columns && (p < i || q == 0 || (p == i && q < j))
                        ==> #[trigger] m.cell(p, q) == lev_prefix(sa, sb, p as nat, q as nat),
            decreases columns - j,
        {
            proof {
                lemma_lev_prefix_bounds(sa, sb, (i - 1) as nat, j as nat);
                lemma_lev_prefix_bounds(sa, sb, i as nat, (j - 1) as nat);
                lemma_lev_prefix_bounds(sa, sb, (i - 1) as nat, (j - 1) as nat);
            }
            let cost: i64 = if a[i - 1] == b[j - 1] {
                0
            } else {
                1
            };
            let up = m.get(i - 1, j) + 1;
            let left = m.get(i, j - 1) + 1;
            let diag = m.get(i - 1, j - 1) + cost;
            let best = if up <= left && up <= diag {
                up
            } else if left <= diag {
                left
            } else {
                diag
            };
            m.set(i, j, best);
            j = j + 1;
        }
        i = i + 1;
    }
    m.get(rows - 1, columns - 1)
}

/// The Levenshtein distance between `a` and `b` by grapheme cluster, after
/// lowercasing both when `ignore_case` holds; `None` when the distance table
/// for the two cluster counts cannot be indexed in memory.
///
/// Time and memory grow with the product of the two cluster counts.
pub fn distance(a: &str, b: &str, ignore_case: bool) -> (r: Option<i64>)
    ensures
        matrix_fits(units(a@, ignore_case).len(), units(b@, ignore_case).len()) ==> (r matches Some(
            d,
        ) && d == levenshtein_of_text(a@, b@, ignore_case)),
        !matrix_fits(units(a@, ignore_case).len(), units(b@, ignore_case).len()) ==> r.is_none(),
{
    let ga = folded_graphemes(a, ignore_case);
    let gb = folded_graphemes(b, ignore_case);
    if !fits_in_matrix(ga.len(), gb.len()) {
        return None;
    }
    Some(distance_impl(&ga, &gb))
}

} // verus!
