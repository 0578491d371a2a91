use unicode_segmentation::UnicodeSegmentation;
use vstd::prelude::*;

mod array_2d;

pub use array_2d::Array2D;

verus! {

/// The extended grapheme clusters of a text, in order.
pub uninterp spec fn graphemes_of(s: Seq<char>) -> Seq<Seq<char>>;

/// The full-string lowercase mapping of a text.
pub uninterp spec fn lower_of(s: Seq<char>) -> Seq<char>;

/// The characters of each string of a sequence.
pub open spec fn clusters(v: Seq<String>) -> Seq<Seq<char>> {
    v.map_values(|s: String| s@)
}

/// The text that is segmented: lowercased first when case is ignored.
pub open spec fn folded(s: Seq<char>, ignore_case: bool) -> Seq<char> {
    if ignore_case {
        lower_of(s)
    } else {
        s
    }
}

/// The grapheme sequence a metric compares for one input text.
pub open spec fn units(s: Seq<char>, ignore_case: bool) -> Seq<Seq<char>> {
    graphemes_of(folded(s, ignore_case))
}

/// Each pair of adjacent clusters, joined into one string.
pub open spec fn bigrams_of(g: Seq<Seq<char>>) -> Seq<Seq<char>> {
    if g.len() < 2 {
        Seq::empty()
    } else {
        Seq::new((g.len() - 1) as nat, |i: int| g[i] + g[i + 1])
    }
}

/// Whether a distance table for texts of `la` and `lb` clusters, with a
/// two-cell border, can be indexed by `usize` and its values (at most twice
/// `la + lb`, plus one) held in `i64`.
pub open spec fn matrix_fits(la: nat, lb: nat) -> bool {
    &&& (la + 2) * (lb + 2) <= usize::MAX
    &&& 2 * (la + lb) + 2 <= i64::MAX
}

/// Each dimension of a table that fits is itself a valid index bound.
pub proof fn lemma_matrix_fits_dims(la: nat, lb: nat)
    requires
        matrix_fits(la, lb),
    ensures
        la + 2 <= usize::MAX,
        lb + 2 <= usize::MAX,
{
    assert(la + 2 <= (la + 2) * (lb + 2)) by (nonlinear_arith);
    assert(lb + 2 <= (la + 2) * (lb + 2)) by (nonlinear_arith);
}

/// Decides `matrix_fits` on concrete lengths.
pub fn fits_in_matrix(la: usize, lb: usize) -> (r: bool)
    ensures
        r == matrix_fits(la as nat, lb as nat),
{
    let sum: u128 = la as u128 + lb as u128;
    if 2 * sum + 2 > i64::MAX as u128 {
        return false;
    }
    let x: u128 = la as u128 + 2;
    let y: u128 = lb as u128 + 2;
    assert(x * y <= (i64::MAX as u128 + 4) * (i64::MAX as u128 + 4)) by (nonlinear_arith)
        requires
            0 <= x <= i64::MAX as u128 + 4,
            0 <= y <= i64::MAX as u128 + 4,
    ;
    x * y <= usize::MAX as u128
}

/// Relies on `UnicodeSegmentation::graphemes` (extended clusters) of
/// unicode-segmentation: the clusters of `s`, in order.
#[verifier::external_body]
pub fn graphemes(s: &str) -> (r: Vec<String>)
    ensures
        clusters(r@) == graphemes_of(s@),
{
    UnicodeSegmentation::graphemes(s, true).map(|g| g.to_string()).collect()
}

/// Relies on `str::to_lowercase`: the lowercase mapping of the whole string,
/// which depends on its characters alone.
#[verifier::external_body]
pub(crate) fn lowercase(s: &str) -> (r: String)
    ensures
        r@ == lower_of(s@),
{
    s.to_lowercase()
}

/// The grapheme clusters of `s`, lowercased as a whole first when
/// `ignore_case` holds.
pub fn folded_graphemes(s: &str, ignore_case: bool) -> (r: Vec<String>)
    ensures
        clusters(r@) == units(s@, ignore_case),
{
    if ignore_case {
        let lower = lowercase(s);
        graphemes(lower.as_str())
    } else {
        graphemes(s)
    }
}

/// The strings spanning two consecutive grapheme clusters of `s`, in order.
pub fn generate_bigrams(s: &str) -> (r: Vec<String>)
    ensures
        clusters(r@) == bigrams_of(graphemes_of(s@)),
{
    let g = graphemes(s);
    let mut r: Vec<String> = Vec::new();
    if g.len() < 2 {
        assert(clusters(r@) =~= bigrams_of(graphemes_of(s@)));
        return r;
    }
    let mut i: usize = 0;
    while i + 1 < g.len()
        invariant
            g.len() >= 2,
            i + 1 <= g.len(),
            clusters(g@) == graphemes_of(s@),
            r.len() == i,
            forall|k: int| 0 <= k < i ==> #[trigger] r@[k]@ == g@[k]@ + g@[k + 1]@,
        decreases g.len() - i,
    {
        let pair = g[i].clone().concat(g[i + 1].as_str());
        r.push(pair);
        i = i + 1;
    }
    assert(clusters(r@) =~= bigrams_of(graphemes_of(s@)));
    r
}

} // verus!
