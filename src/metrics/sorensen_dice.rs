use crate::metrics::utils::{bigrams_of, clusters, generate_bigrams, lower_of, lowercase, units};
use vstd::multiset::Multiset;
use vstd::prelude::*;

verus! {

broadcast use {
    vstd::multiset::group_multiset_axioms,
    vstd::multiset::group_multiset_properties,
    vstd::seq_lib::group_to_multiset_ensures,
};

/// The integer quantities from which the Sørensen–Dice coefficient is formed:
/// `2 * intersections / (first_bigrams + second_bigrams)`, or zero when both
/// texts have no bigram.
pub struct DiceCoefficient {
    /// The size of the multiset intersection of the two bigram sequences.
    pub intersections: usize,
    /// The number of bigrams of the first text.
    pub first_bigrams: usize,
    /// The number of bigrams of the second text.
    pub second_bigrams: usize,
}

impl DiceCoefficient {
    pub open spec fn numerator(&self) -> int {
        2 * self.intersections
    }

    /// The denominator of the coefficient; the coefficient is zero when this is.
    pub open spec fn denominator(&self) -> int {
        self.first_bigrams + self.second_bigrams
    }
}

/// The bigrams of a text, lowercased first when case is ignored.
pub open spec fn text_bigrams(s: Seq<char>, ignore_case: bool) -> Seq<Seq<char>> {
    bigrams_of(units(s, ignore_case))
}

/// How many bigrams the two sequences share, each counted as often as it
/// occurs in both.
pub open spec fn common_bigrams(a: Seq<Seq<char>>, b: Seq<Seq<char>>) -> nat {
    a.to_multiset().intersection_with(b.to_multiset()).len()
}

/// What the coefficient computation returns for two texts.
pub open spec fn is_dice_of(r: DiceCoefficient, a: Seq<char>, b: Seq<char>, ignore_case: bool) -> bool {
    let (ba, bb) = (text_bigrams(a, ignore_case), text_bigrams(b, ignore_case));
    &&& r.first_bigrams == ba.len()
    &&& r.second_bigrams == bb.len()
    &&& r.intersections == common_bigrams(ba, bb)
}

proof fn lemma_intersection_insert(x: Seq<char>, a: Multiset<Seq<char>>, r: Multiset<Seq<char>>)
    ensures
        r.count(x) > 0 ==> a.insert(x).intersection_with(r).len() == 1 + a.intersection_with(
            r.remove(x),
        ).len(),
        r.count(x) > 0 ==> r.remove(x).len() + 1 == r.len(),
        r.count(x) == 0 ==> a.insert(x).intersection_with(r).len() == a.intersection_with(r).len(),
{
    if r.count(x) > 0 {
        assert(a.insert(x).intersection_with(r) =~= a.intersection_with(r.remove(x)).insert(x));
        assert(Multiset::singleton(x).subset_of(r));
    } else {
        assert(a.insert(x).intersection_with(r) =~= a.intersection_with(r));
    }
}

proof fn lemma_common_le(a: Seq<Seq<char>>, r: Multiset<Seq<char>>)
    ensures
        a.to_multiset().intersection_with(r).len() <= a.len(),
        a.to_multiset().intersection_with(r).len() <= r.len(),
    decreases a.len(),
{
    if a.len() == 0 {
        assert(a.to_multiset().intersection_with(r) =~= Multiset::empty());
    } else {
        let (rest, x) = (a.drop_last(), a.last());
        assert(a == rest.push(x));
        lemma_intersection_insert(x, rest.to_multiset(), r);
        if r.count(x) > 0 {
            lemma_common_le(rest, r.remove(x));
        } else {
            lemma_common_le(rest, r);
        }
    }
}

proof fn lemma_suffix_multiset(s: Seq<Seq<char>>, i: int)
    requires
        0 <= i < s.len(),
    ensures
        s.subrange(i, s.len() as int).to_multiset() == s.subrange(i + 1, s.len() as int).to_multiset().insert(s[i]),
{
    let tail = s.subrange(i, s.len() as int);
    assert(tail.remove(0) =~= s.subrange(i + 1, s.len() as int));
    assert(tail.contains(s[i])) by {
        assert(tail[0] == s[i]);
    }
    assert(tail.to_multiset() =~= tail.remove(0).to_multiset().insert(s[i]));
}

/// The first position of `v` holding the characters of `x`.
fn position_of(v: &Vec<String>, x: &String) -> (r: Option<usize>)
    ensures
        r matches Some(k) ==> k < v.len() && v@[k as int]@ == x@,
        r is None ==> !clusters(v@).contains(x@),
{
    let mut k: usize = 0;
    while k < v.len()
        invariant
            k <= v.len(),
            forall|p: int| 0 <= p < k ==> v@[p]@ != x@,
        decreases v.len() - k,
    {
        if v[k] == *x {
            return Some(k);
        }
        k = k + 1;
    }
    assert forall|p: int| 0 <= p < clusters(v@).len() implies clusters(v@)[p] != x@ by {}
    None
}

/// The Sørensen–Dice quantities of `a` and `b`, compared as given.
///
/// Each bigram of `a` in turn takes one equal bigram out of those of `b` that
/// are left, if there is one; the search is linear in what is left.
pub fn coefficient_impl(a: &str, b: &str) -> (r: DiceCoefficient)
    ensures
        is_dice_of(r, a@, b@, false),
{
    let a_bigrams = generate_bigrams(a);
    let mut remaining = generate_bigrams(b);
    let ghost sa = clusters(a_bigrams@);
    let ghost sb = clusters(remaining@);
    let first = a_bigrams.len();
    let second = remaining.len();
    let mut intersections: usize = 0;
    let mut i: usize = 0;
    assert(sa.subrange(0, sa.len() as int) =~= sa);
    while i < first
        invariant
            first == a_bigrams.len(),
            sa == clusters(a_bigrams@),
            i <= first,
            intersections <= i,
            intersections + sa.subrange(i as int, first as int).to_multiset().intersection_with(
                clusters(remaining@).to_multiset(),
            ).len() == common_bigrams(sa, sb),
        decreases first - i,
    {
        let ghost rest = clusters(remaining@);
        let ghost x = sa[i as int];
        proof {
            lemma_suffix_multiset(sa, i as int);
            lemma_intersection_insert(
                x,
                sa.subrange(i + 1, first as int).to_multiset(),
                rest.to_multiset(),
            );
        }
        match position_of(&remaining, &a_bigrams[i]) {
            Some(k) => {
                remaining.remove(k);
                proof {
                    assert(clusters(remaining@) =~= rest.remove(k as int));
                    assert(rest[k as int] == x);
                }
                intersections = intersections + 1;
            },
            None => {},
        }
        i = i + 1;
    }
    assert(sa.subrange(first as int, first as int).to_multiset().intersection_with(
        clusters(remaining@).to_multiset(),
    ) =~= Multiset::empty());
    DiceCoefficient { intersections, first_bigrams: first, second_bigrams: second }
}

/// The Sørensen–Dice quantities of `a` and `b` by grapheme bigram, after
/// lowercasing both when `ignore_case` holds.
pub fn coefficient(a: &str, b: &str, ignore_case: bool) -> (r: DiceCoefficient)
    ensures
        is_dice_of(r, a@, b@, ignore_case),
{
    if ignore_case {
        let la = lowercase(a);
        let lb = lowercase(b);
        return coefficient_impl(la.as_str(), lb.as_str());
    }
    coefficient_impl(a, b)
}

/// The coefficient does not depend on the order of its arguments.
pub proof fn lemma_dice_symmetric(a: Seq<char>, b: Seq<char>, ignore_case: bool)
    ensures
        common_bigrams(text_bigrams(a, ignore_case), text_bigrams(b, ignore_case)) == common_bigrams(
            text_bigrams(b, ignore_case),
            text_bigrams(a, ignore_case),
        ),
{
    let (ma, mb) = (
        text_bigrams(a, ignore_case).to_multiset(),
        text_bigrams(b, ignore_case).to_multiset(),
    );
    assert(ma.intersection_with(mb) =~= mb.intersection_with(ma));
}

/// A text of two or more clusters has coefficient one with itself.
pub proof fn lemma_dice_identity(a: Seq<char>, ignore_case: bool)
    requires
        units(a, ignore_case).len() >= 2,
    ensures
        text_bigrams(a, ignore_case).len() > 0,
        2 * common_bigrams(text_bigrams(a, ignore_case), text_bigrams(a, ignore_case)) == 2
            * text_bigrams(a, ignore_case).len(),
{
    let ma = text_bigrams(a, ignore_case).to_multiset();
    assert(ma.intersection_with(ma) =~= ma);
}

/// The coefficient lies between zero and one.
pub proof fn lemma_dice_bounded(a: Seq<char>, b: Seq<char>, ignore_case: bool)
    ensures
        2 * common_bigrams(text_bigrams(a, ignore_case), text_bigrams(b, ignore_case)) <= text_bigrams(
            a,
            ignore_case,
        ).len() + text_bigrams(b, ignore_case).len(),
{
    let (ba, bb) = (text_bigrams(a, ignore_case), text_bigrams(b, ignore_case));
    lemma_common_le(ba, bb.to_multiset());
}

/// Ignoring case is the same as comparing the lowercased texts exactly.
pub proof fn lemma_dice_ignore_case(a: Seq<char>, b: Seq<char>)
    ensures
        text_bigrams(a, true) == text_bigrams(lower_of(a), false),
        text_bigrams(b, true) == text_bigrams(lower_of(b), false),
{
}

} // verus!
