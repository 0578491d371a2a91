use crate::metrics::utils::{clusters, folded_graphemes, lower_of, units};
use vstd::prelude::*;

verus! {

/// The integer quantities from which the Jaro similarity is formed.
///
/// With `m` matches, `t = half_transpositions / 2` transpositions and the
/// two lengths, the similarity is `(m / first_len + m / second_len + (m - t) / m) / 3`,
/// or zero when there is no match.
pub struct JaroSimilarityResult {
    /// The number of matched clusters.
    pub matches: usize,
    /// The number of matched pairs whose clusters differ once the second
    /// side is taken in ascending order; each counts one half transposition.
    pub half_transpositions: usize,
    /// The length of the shorter sequence.
    pub first_len: usize,
    /// The length of the longer sequence.
    pub second_len: usize,
    /// The number of leading positions on which both sequences agree, or zero
    /// when there is no match.
    pub max_prefix_length: usize,
}

/// `(m / l0 + m / l1 + (m - h / 2) / m) / 3` is this over `ratio_denominator`.
pub open spec fn ratio_numerator(m: int, h: int, l0: int, l1: int) -> int {
    2 * m * m * l1 + 2 * m * m * l0 + (2 * m - h) * l0 * l1
}

pub open spec fn ratio_denominator(m: int, l0: int, l1: int) -> int {
    6 * m * l0 * l1
}

impl JaroSimilarityResult {
    /// Six times `matches * first_len * second_len` times the similarity.
    pub open spec fn numerator(&self) -> int {
        ratio_numerator(
            self.matches as int,
            self.half_transpositions as int,
            self.first_len as int,
            self.second_len as int,
        )
    }

    /// The denominator of the similarity; the similarity is zero when this is.
    pub open spec fn denominator(&self) -> int {
        ratio_denominator(self.matches as int, self.first_len as int, self.second_len as int)
    }

    /// The prefix length that a Winkler bonus may use: at most `prefix_length`.
    pub fn winkler_prefix(&self, prefix_length: u32) -> (r: usize)
        ensures
            r == if (prefix_length as int) < self.max_prefix_length {
                prefix_length as int
            } else {
                self.max_prefix_length as int
            },
    {
        if (prefix_length as u64) < (self.max_prefix_length as u64) {
            prefix_length as usize
        } else {
            self.max_prefix_length
        }
    }
}

/// The two sequences with the shorter first (the first when lengths tie).
pub open spec fn ordered<A>(a: Seq<A>, b: Seq<A>) -> (Seq<A>, Seq<A>) {
    if a.len() > b.len() {
        (b, a)
    } else {
        (a, b)
    }
}

/// The match window for sequences whose longer length is `max_len`.
pub open spec fn match_window(max_len: int) -> int {
    if max_len < 2 {
        0
    } else {
        max_len / 2 - 1
    }
}

pub open spec fn window_start(i: int, d: int) -> int {
    if i >= d {
        i - d
    } else {
        0
    }
}

pub open spec fn window_end(i: int, d: int, len: int) -> int {
    if i + d + 1 <= len {
        i + d + 1
    } else {
        len
    }
}

/// The lowest `j` in `lo..hi` with `t[j] == s[i]` not yet used, or -1.
pub open spec fn first_free<A>(s: Seq<A>, t: Seq<A>, used: Seq<bool>, i: int, lo: int, hi: int) -> int
    decreases hi - lo,
{
    if lo >= hi {
        -1
    } else if t[lo] == s[i] && !used[lo] {
        lo
    } else {
        first_free(s, t, used, i, lo + 1, hi)
    }
}

/// The greedy matching after the first `n` units of `s`: which units of `t`
/// are taken, and the indices of `s` that found a match, in ascending order.
pub open spec fn greedy<A>(s: Seq<A>, t: Seq<A>, d: int, n: nat) -> (Seq<bool>, Seq<int>)
    decreases n,
{
    if n == 0 {
        (Seq::new(t.len(), |j: int| false), Seq::empty())
    } else {
        let prev = greedy(s, t, d, (n - 1) as nat);
        let i = n - 1;
        let j = first_free(s, t, prev.0, i, window_start(i, d), window_end(i, d, t.len() as int));
        if j >= 0 {
            (prev.0.update(j, true), prev.1.push(i))
        } else {
            prev
        }
    }
}

/// The indices below `n` at which `used` holds, ascending.
pub open spec fn taken(used: Seq<bool>, n: nat) -> Seq<int>
    decreases n,
{
    if n == 0 {
        Seq::empty()
    } else if used[n - 1] {
        taken(used, (n - 1) as nat).push(n - 1)
    } else {
        taken(used, (n - 1) as nat)
    }
}

/// How many of the first `n` positional pairs hold different units.
pub open spec fn mismatches<A>(s: Seq<A>, t: Seq<A>, ms: Seq<int>, mt: Seq<int>, n: nat) -> nat
    decreases n,
{
    if n == 0 {
        0
    } else if s[ms[n - 1]] != t[mt[n - 1]] {
        mismatches(s, t, ms, mt, (n - 1) as nat) + 1
    } else {
        mismatches(s, t, ms, mt, (n - 1) as nat)
    }
}

/// The length of the longest run of leading positions below `n` on which
/// `s` and `t` agree.
pub open spec fn common_prefix<A>(s: Seq<A>, t: Seq<A>, n: nat) -> nat
    decreases n,
{
    if n == 0 {
        0
    } else {
        let p = common_prefix(s, t, (n - 1) as nat);
        if p == n - 1 && s[n - 1] == t[n - 1] {
            n
        } else {
            p
        }
    }
}

/// The matching of the shorter sequence against the longer.
pub open spec fn jaro_matching<A>(a: Seq<A>, b: Seq<A>) -> (Seq<bool>, Seq<int>) {
    let (s, t) = ordered(a, b);
    greedy(s, t, match_window(t.len() as int), s.len())
}

pub open spec fn jaro_matches<A>(a: Seq<A>, b: Seq<A>) -> nat {
    jaro_matching(a, b).1.len()
}

pub open spec fn jaro_half_transpositions<A>(a: Seq<A>, b: Seq<A>) -> nat {
    let (s, t) = ordered(a, b);
    let (used, ms) = jaro_matching(a, b);
    let mt = taken(used, t.len());
    mismatches(s, t, ms, mt, if ms.len() <= mt.len() { ms.len() } else { mt.len() })
}

pub open spec fn jaro_prefix<A>(a: Seq<A>, b: Seq<A>) -> nat {
    let (s, t) = ordered(a, b);
    if jaro_matches(a, b) == 0 {
        0
    } else {
        common_prefix(s, t, s.len())
    }
}

/// What the Jaro computation returns for the unit sequences `a` and `b`.
pub open spec fn is_jaro_of<A>(r: JaroSimilarityResult, a: Seq<A>, b: Seq<A>) -> bool {
    let (s, t) = ordered(a, b);
    &&& r.first_len == s.len()
    &&& r.second_len == t.len()
    &&& r.matches == jaro_matches(a, b)
    &&& r.half_transpositions == jaro_half_transpositions(a, b)
    &&& r.max_prefix_length == jaro_prefix(a, b)
}

proof fn lemma_taken_bounds(used: Seq<bool>, n: nat)
    requires
        n <= used.len(),
    ensures
        taken(used, n).len() <= n,
        forall|p: int| 0 <= p < taken(used, n).len() ==> 0 <= #[trigger] taken(used, n)[p] < n,
    decreases n,
{
    if n > 0 {
        lemma_taken_bounds(used, (n - 1) as nat);
    }
}

/// The lowest unused position in `start..end` of `second` holding
/// `first[i]`.
fn find_match(
    first: &Vec<String>,
    second: &Vec<String>,
    matched: &Vec<bool>,
    i: usize,
    start: usize,
    end: usize,
) -> (r: Option<usize>)
    requires
        i < first.len(),
        start <= end <= second.len(),
        matched.len() == second.len(),
    ensures
        r matches Some(j) ==> start <= j < end && j as int == first_free(
            clusters(first@),
            clusters(second@),
            matched@,
            i as int,
            start as int,
            end as int,
        ),
        r is None ==> first_free(
            clusters(first@),
            clusters(second@),
            matched@,
            i as int,
            start as int,
            end as int,
        ) == -1,
{
    let ghost s = clusters(first@);
    let ghost t = clusters(second@);
    let mut j = start;
    while j < end
        invariant
            start <= j <= end,
            end <= second.len(),
            matched.len() == second.len(),
            i < first.len(),
            s == clusters(first@),
            t == clusters(second@),
            first_free(s, t, matched@, i as int, start as int, end as int) == first_free(
                s,
                t,
                matched@,
                i as int,
                j as int,
                end as int,
            ),
        decreases end - j,
    {
        assert(t[j as int] == second@[j as int]@ && s[i as int] == first@[i as int]@);
        if !matched[j] && second[j] == first[i] {
            return Some(j);
        }
        j = j + 1;
    }
    None
}

/// The Jaro matching of the grapheme sequences `a` and `b`: the shorter is
/// scanned in order, each cluster taking the lowest unused equal cluster of
/// the longer within the match window.
pub fn similarity_impl(a: &Vec<String>, b: &Vec<String>) -> (r: JaroSimilarityResult)
    ensures
        is_jaro_of(r, clusters(a@), clusters(b@)),
{
    let (first, second) = if a.len() > b.len() {
        (b, a)
    } else {
        (a, b)
    };
    let ghost s = clusters(first@);
    let ghost t = clusters(second@);
    assert(ordered(clusters(a@), clusters(b@)) == (s, t));
    let l0 = first.len();
    let l1 = second.len();
    let d: usize = if l1 < 2 {
        0
    } else {
        l1 / 2 - 1
    };
    let ghost dd = match_window(t.len() as int);
    assert(d == dd);
    let mut matched: Vec<bool> = Vec::new();
    while matched.len() < l1
        invariant
            matched.len() <= l1,
            forall|j: int| 0 <= j < matched.len() ==> !matched@[j],
        decreases l1 - matched.len(),
    {
        matched.push(false);
    }
    assert(matched@ =~= greedy(s, t, dd, 0).0);
    let mut ms: Vec<usize> = Vec::new();
    let mut prefix: usize = 0;
    let mut i: usize = 0;
    while i < l0
        invariant
            l0 == first.len(),
            l1 == second.len(),
            l0 <= l1,
            s == clusters(first@),
            t == clusters(second@),
            d == dd,
            i <= l0,
            matched.len() == l1,
            matched@ == greedy(s, t, dd, i as nat).0,
            ms.len() == greedy(s, t, dd, i as nat).1.len(),
            ms.len() <= i,
            forall|p: int| 0 <= p < ms.len() ==> #[trigger] ms@[p] as int == greedy(s, t, dd, i as nat).1[p],
            forall|p: int| 0 <= p < ms.len() ==> #[trigger] ms@[p] < i,
            prefix == common_prefix(s, t, i as nat),
        decreases l0 - i,
    {
        let start = if i >= d {
            i - d
        } else {
            0
        };
        let end = if l1 - i > d {
            i + d + 1
        } else {
            l1
        };
        if prefix == i && first[i] == second[i] {
            prefix = i + 1;
        }
        let found = find_match(first, second, &matched, i, start, end);
        match found {
            Some(j) => {
                matched.set(j, true);
                ms.push(i);
            },
            None => {},
        }
        i = i + 1;
    }
    let m = ms.len();
    let mut mt: Vec<usize> = Vec::new();
    let mut j: usize = 0;
    while j < l1
        invariant
            l1 == second.len(),
            matched.len() == l1,
            j <= l1,
            mt.len() == taken(matched@, j as nat).len(),
            forall|p: int| 0 <= p < mt.len() ==> #[trigger] mt@[p] as int == taken(matched@, j as nat)[p],
        decreases l1 - j,
    {
        if matched[j] {
            mt.push(j);
        }
        j = j + 1;
    }
    let ghost used = matched@;
    let ghost msi = greedy(s, t, dd, l0 as nat).1;
    let ghost mti = taken(used, l1 as nat);
    proof {
        lemma_taken_bounds(used, l1 as nat);
    }
    let n = if ms.len() <= mt.len() {
        ms.len()
    } else {
        mt.len()
    };
    let mut h: usize = 0;
    let mut p: usize = 0;
    while p < n
        invariant
            n <= ms.len(),
            n <= mt.len(),
            p <= n,
            h <= p,
            l0 == first.len(),
            l1 == second.len(),
            s == clusters(first@),
            t == clusters(second@),
            ms.len() == msi.len(),
            mt.len() == mti.len(),
            forall|q: int| 0 <= q < ms.len() ==> #[trigger] ms@[q] as int == msi[q],
            forall|q: int| 0 <= q < ms.len() ==> #[trigger] ms@[q] < l0,
            forall|q: int| 0 <= q < mt.len() ==> #[trigger] mt@[q] as int == mti[q],
            forall|q: int| 0 <= q < mti.len() ==> 0 <= #[trigger] mti[q] < l1,
            h == mismatches(s, t, msi, mti, p as nat),
        decreases n - p,
    {
        assert(ms@[p as int] as int == msi[p as int]);
        assert(mt@[p as int] as int == mti[p as int]);
        assert(0 <= mti[p as int] < l1);
        if first[ms[p]] != second[mt[p]] {
            h = h + 1;
        }
        p = p + 1;
    }
    JaroSimilarityResult {
        matches: m,
        half_transpositions: h,
        first_len: l0,
        second_len: l1,
        max_prefix_length: if m == 0 {
            0
        } else {
            prefix
        },
    }
}

/// The Jaro matching of `a` and `b` by grapheme cluster, after lowercasing
/// both when `ignore_case` holds.
pub fn similarity(a: &str, b: &str, ignore_case: bool) -> (r: JaroSimilarityResult)
    ensures
        is_jaro_of(r, units(a@, ignore_case), units(b@, ignore_case)),
{
    let ga = folded_graphemes(a, ignore_case);
    let gb = folded_graphemes(b, ignore_case);
    similarity_impl(&ga, &gb)
}

/// The numerator of the Jaro similarity of two unit sequences.
pub open spec fn jaro_numerator<A>(a: Seq<A>, b: Seq<A>) -> int {
    let (s, t) = ordered(a, b);
    ratio_numerator(
        jaro_matches(a, b) as int,
        jaro_half_transpositions(a, b) as int,
        s.len() as int,
        t.len() as int,
    )
}

/// The denominator of the Jaro similarity of two unit sequences.
pub open spec fn jaro_denominator<A>(a: Seq<A>, b: Seq<A>) -> int {
    let (s, t) = ordered(a, b);
    ratio_denominator(jaro_matches(a, b) as int, s.len() as int, t.len() as int)
}

proof fn lemma_first_free_bounds<A>(s: Seq<A>, t: Seq<A>, used: Seq<bool>, i: int, lo: int, hi: int)
    ensures
        first_free(s, t, used, i, lo, hi) == -1 || lo <= first_free(s, t, used, i, lo, hi) < hi,
    decreases hi - lo,
{
    if lo < hi {
        lemma_first_free_bounds(s, t, used, i, lo + 1, hi);
    }
}

proof fn lemma_greedy_len<A>(s: Seq<A>, t: Seq<A>, d: int, n: nat)
    requires
        d >= 0,
    ensures
        greedy(s, t, d, n).0.len() == t.len(),
        greedy(s, t, d, n).1.len() <= n,
    decreases n,
{
    if n > 0 {
        lemma_greedy_len(s, t, d, (n - 1) as nat);
        let i = n - 1;
        lemma_first_free_bounds(
            s,
            t,
            greedy(s, t, d, (n - 1) as nat).0,
            i,
            window_start(i, d),
            window_end(i, d, t.len() as int),
        );
    }
}

proof fn lemma_mismatches_le<A>(s: Seq<A>, t: Seq<A>, ms: Seq<int>, mt: Seq<int>, n: nat)
    ensures
        mismatches(s, t, ms, mt, n) <= n,
    decreases n,
{
    if n > 0 {
        lemma_mismatches_le(s, t, ms, mt, (n - 1) as nat);
    }
}

proof fn lemma_first_free_self<A>(s: Seq<A>, used: Seq<bool>, i: int, lo: int, hi: int)
    requires
        0 <= lo <= i < hi <= s.len(),
        used.len() == s.len(),
        forall|j: int| 0 <= j < s.len() ==> used[j] == (j < i),
    ensures
        first_free(s, s, used, i, lo, hi) == i,
    decreases i - lo,
{
    if lo < i {
        lemma_first_free_self(s, used, i, lo + 1, hi);
    }
}

proof fn lemma_greedy_self<A>(s: Seq<A>, d: int, n: nat)
    requires
        n <= s.len(),
        d >= 0,
    ensures
        greedy(s, s, d, n).0 =~= Seq::new(s.len(), |j: int| j < n),
        greedy(s, s, d, n).1 =~= Seq::new(n, |p: int| p),
    decreases n,
{
    if n > 0 {
        lemma_greedy_self(s, d, (n - 1) as nat);
        let i = n - 1;
        lemma_first_free_self(
            s,
            greedy(s, s, d, (n - 1) as nat).0,
            i,
            window_start(i, d),
            window_end(i, d, s.len() as int),
        );
    }
}

proof fn lemma_taken_all(used: Seq<bool>, n: nat)
    requires
        n <= used.len(),
        forall|j: int| 0 <= j < n ==> used[j],
    ensures
        taken(used, n) =~= Seq::new(n, |p: int| p),
    decreases n,
{
    if n > 0 {
        lemma_taken_all(used, (n - 1) as nat);
    }
}

proof fn lemma_mismatches_self<A>(s: Seq<A>, ms: Seq<int>, n: nat)
    requires
        n <= ms.len(),
    ensures
        mismatches(s, s, ms, ms, n) == 0,
    decreases n,
{
    if n > 0 {
        lemma_mismatches_self(s, ms, (n - 1) as nat);
    }
}

/// The Jaro similarity lies between zero and one.
pub proof fn lemma_jaro_bounded(a: Seq<char>, b: Seq<char>, ignore_case: bool)
    ensures
        0 <= jaro_numerator(units(a, ignore_case), units(b, ignore_case)),
        jaro_numerator(units(a, ignore_case), units(b, ignore_case)) <= jaro_denominator(
            units(a, ignore_case),
            units(b, ignore_case),
        ),
{
    let (ua, ub) = (units(a, ignore_case), units(b, ignore_case));
    let (s, t) = ordered(ua, ub);
    let d = match_window(t.len() as int);
    let (used, ms) = greedy(s, t, d, s.len());
    lemma_greedy_len(s, t, d, s.len());
    lemma_taken_bounds(used, t.len());
    let mt = taken(used, t.len());
    let n = if ms.len() <= mt.len() {
        ms.len()
    } else {
        mt.len()
    };
    lemma_mismatches_le(s, t, ms, mt, n);
    let (m, h, l0, l1) = (ms.len() as int, jaro_half_transpositions(ua, ub) as int, s.len() as int, t.len() as int);
    assert(0 <= h <= m <= l0 <= l1);
    assert(0 <= ratio_numerator(m, h, l0, l1) <= ratio_denominator(m, l0, l1)) by (nonlinear_arith)
        requires
            0 <= h <= m <= l0 <= l1,
    ;
}

/// A non-empty text has Jaro similarity one with itself.
pub proof fn lemma_jaro_identity(a: Seq<char>, ignore_case: bool)
    requires
        units(a, ignore_case).len() > 0,
    ensures
        jaro_denominator(units(a, ignore_case), units(a, ignore_case)) > 0,
        jaro_numerator(units(a, ignore_case), units(a, ignore_case)) == jaro_denominator(
            units(a, ignore_case),
            units(a, ignore_case),
        ),
{
    let s = units(a, ignore_case);
    let n = s.len();
    let d = match_window(n as int);
    lemma_greedy_self(s, d, n);
    let (used, ms) = greedy(s, s, d, n);
    lemma_taken_all(used, n);
    assert(taken(used, n) == ms);
    lemma_mismatches_self(s, ms, n);
    let x = n as int;
    assert(ratio_numerator(x, 0, x, x) == ratio_denominator(x, x, x) && ratio_denominator(x, x, x)
        > 0) by (nonlinear_arith)
        requires
            x > 0,
    ;
}

/// The position of `t` that the greedy scan gives to `s[i]`, or -1.
pub open spec fn partner<A>(s: Seq<A>, t: Seq<A>, d: int, i: int) -> int {
    first_free(
        s,
        t,
        greedy(s, t, d, i as nat).0,
        i,
        window_start(i, d),
        window_end(i, d, t.len() as int),
    )
}

/// Whether `s[i]` may match `t[j]`: equal units within the window.
pub open spec fn compatible<A>(s: Seq<A>, t: Seq<A>, d: int, i: int, j: int) -> bool {
    &&& 0 <= i < s.len()
    &&& 0 <= j < t.len()
    &&& s[i] == t[j]
    &&& i - d <= j <= i + d
}

proof fn lemma_first_free_props<A>(s: Seq<A>, t: Seq<A>, used: Seq<bool>, i: int, lo: int, hi: int)
    requires
        0 <= lo,
        hi <= t.len(),
        used.len() == t.len(),
    ensures
        first_free(s, t, used, i, lo, hi) == -1 || ({
            let r = first_free(s, t, used, i, lo, hi);
            lo <= r < hi && t[r] == s[i] && !used[r]
        }),
        forall|j: int|
            lo <= j < hi && t[j] == s[i] && !used[j] ==> 0 <= #[trigger] first_free(
                s,
                t,
                used,
                i,
                lo,
                hi,
            ) <= j,
    decreases hi - lo,
{
    if lo < hi {
        lemma_first_free_props(s, t, used, i, lo + 1, hi);
    }
}

proof fn lemma_partner_props<A>(s: Seq<A>, t: Seq<A>, d: int, i: int)
    requires
        d >= 0,
        0 <= i < s.len(),
    ensures
        partner(s, t, d, i) == -1 || compatible(s, t, d, i, partner(s, t, d, i)),
        partner(s, t, d, i) >= 0 ==> !greedy(s, t, d, i as nat).0[partner(s, t, d, i)],
        forall|j: int|
            compatible(s, t, d, i, j) && !greedy(s, t, d, i as nat).0[j] ==> 0 <= partner(s, t, d, i)
                <= j,
{
    lemma_greedy_len(s, t, d, i as nat);
    lemma_first_free_props(
        s,
        t,
        greedy(s, t, d, i as nat).0,
        i,
        window_start(i, d),
        window_end(i, d, t.len() as int),
    );
}

proof fn lemma_used_image<A>(s: Seq<A>, t: Seq<A>, d: int, n: nat)
    requires
        d >= 0,
        n <= s.len(),
    ensures
        forall|j: int|
            0 <= j < t.len() ==> (greedy(s, t, d, n).0[j] <==> exists|i: int|
                0 <= i < n && #[trigger] partner(s, t, d, i) == j),
    decreases n,
{
    lemma_greedy_len(s, t, d, n);
    if n > 0 {
        lemma_used_image(s, t, d, (n - 1) as nat);
        lemma_partner_props(s, t, d, n - 1);
        let p = partner(s, t, d, n - 1);
        let prev = greedy(s, t, d, (n - 1) as nat).0;
        lemma_greedy_len(s, t, d, (n - 1) as nat);
        assert(greedy(s, t, d, n).0 == if p >= 0 {
            prev.update(p, true)
        } else {
            prev
        });
        assert forall|j: int| 0 <= j < t.len() implies (greedy(s, t, d, n).0[j] <==> exists|i: int|
            0 <= i < n && #[trigger] partner(s, t, d, i) == j) by {
            if p >= 0 && j == p {
                assert(partner(s, t, d, n - 1) == j);
            } else {
                assert(greedy(s, t, d, n).0[j] == prev[j]);
                if prev[j] {
                    let i = choose|i: int| 0 <= i < n - 1 && #[trigger] partner(s, t, d, i) == j;
                    assert(0 <= i < n && partner(s, t, d, i) == j);
                }
                if exists|i: int| 0 <= i < n && #[trigger] partner(s, t, d, i) == j {
                    let i = choose|i: int| 0 <= i < n && #[trigger] partner(s, t, d, i) == j;
                    assert(i < n - 1);
                    assert(prev[j]);
                }
            }
        }
    }
}

proof fn lemma_matched_taken<A>(s: Seq<A>, t: Seq<A>, d: int, n: nat)
    requires
        n <= s.len(),
    ensures
        greedy(s, t, d, n).1 == taken(Seq::new(s.len(), |i: int| partner(s, t, d, i) >= 0), n),
    decreases n,
{
    if n > 0 {
        lemma_matched_taken(s, t, d, (n - 1) as nat);
    }
}

proof fn lemma_taken_update_len(u: Seq<bool>, j: int, k: nat)
    requires
        0 <= j < u.len(),
        !u[j],
        k <= u.len(),
    ensures
        taken(u.update(j, true), k).len() == taken(u, k).len() + if j < k {
            1int
        } else {
            0
        },
    decreases k,
{
    if k > 0 {
        lemma_taken_update_len(u, j, (k - 1) as nat);
    }
}

proof fn lemma_used_count<A>(s: Seq<A>, t: Seq<A>, d: int, n: nat)
    requires
        d >= 0,
        n <= s.len(),
    ensures
        taken(greedy(s, t, d, n).0, t.len()).len() == greedy(s, t, d, n).1.len(),
    decreases n,
{
    if n == 0 {
        lemma_taken_none(greedy(s, t, d, 0).0, t.len());
    } else {
        lemma_used_count(s, t, d, (n - 1) as nat);
        lemma_partner_props(s, t, d, n - 1);
        lemma_greedy_len(s, t, d, (n - 1) as nat);
        let p = partner(s, t, d, n - 1);
        if p >= 0 {
            lemma_taken_update_len(greedy(s, t, d, (n - 1) as nat).0, p, t.len());
        }
    }
}

proof fn lemma_taken_none(u: Seq<bool>, k: nat)
    requires
        k <= u.len(),
        forall|j: int| 0 <= j < u.len() ==> !u[j],
    ensures
        taken(u, k).len() == 0,
    decreases k,
{
    if k > 0 {
        lemma_taken_none(u, (k - 1) as nat);
    }
}

proof fn lemma_partner_injective<A>(s: Seq<A>, t: Seq<A>, d: int, i1: int, i2: int)
    requires
        d >= 0,
        0 <= i1 < i2 < s.len(),
        partner(s, t, d, i1) >= 0,
    ensures
        partner(s, t, d, i2) != partner(s, t, d, i1),
{
    lemma_partner_props(s, t, d, i1);
    lemma_partner_props(s, t, d, i2);
    lemma_used_image(s, t, d, i2 as nat);
    assert(greedy(s, t, d, i2 as nat).0[partner(s, t, d, i1)]);
}

/// Scanning `s` against `t` and `t` against `s` pair the same positions.
proof fn lemma_matching_agrees<A>(s: Seq<A>, t: Seq<A>, d: int, i: int)
    requires
        d >= 0,
        0 <= i < s.len(),
    ensures
        forall|j: int|
            0 <= j < t.len() ==> (#[trigger] partner(s, t, d, i) == j <==> partner(t, s, d, j) == i),
    decreases i,
{
    lemma_partner_props(s, t, d, i);
    lemma_used_image(s, t, d, i as nat);
    lemma_greedy_len(s, t, d, i as nat);
    assert forall|j: int| 0 <= j < t.len() implies (#[trigger] partner(s, t, d, i) == j <==> partner(
        t,
        s,
        d,
        j,
    ) == i) by {
        lemma_partner_props(t, s, d, j);
        lemma_used_image(t, s, d, j as nat);
        lemma_greedy_len(t, s, d, j as nat);
        if partner(s, t, d, i) == j && partner(t, s, d, j) != i {
            assert(compatible(t, s, d, j, i));
            if exists|j2: int| 0 <= j2 < j && #[trigger] partner(t, s, d, j2) == i {
                let j2 = choose|j2: int| 0 <= j2 < j && #[trigger] partner(t, s, d, j2) == i;
                lemma_partner_props(t, s, d, j2);
                assert(compatible(s, t, d, i, j2));
                if exists|i2: int| 0 <= i2 < i && #[trigger] partner(s, t, d, i2) == j2 {
                    let i2 = choose|i2: int| 0 <= i2 < i && #[trigger] partner(s, t, d, i2) == j2;
                    lemma_matching_agrees(s, t, d, i2);
                    assert(partner(t, s, d, j2) == i2);
                }
                assert(!greedy(s, t, d, i as nat).0[j2]);
                assert(partner(s, t, d, i) <= j2);
            } else {
                assert(!greedy(t, s, d, j as nat).0[i]);
                let i3 = partner(t, s, d, j);
                assert(0 <= i3 < i);
                lemma_matching_agrees(s, t, d, i3);
                assert(partner(s, t, d, i3) == j);
                lemma_partner_injective(s, t, d, i3, i);
            }
        }
        if partner(t, s, d, j) == i && partner(s, t, d, i) != j {
            assert(compatible(s, t, d, i, j));
            if exists|i2: int| 0 <= i2 < i && #[trigger] partner(s, t, d, i2) == j {
                let i2 = choose|i2: int| 0 <= i2 < i && #[trigger] partner(s, t, d, i2) == j;
                lemma_matching_agrees(s, t, d, i2);
                assert(partner(t, s, d, j) == i2);
            } else {
                assert(!greedy(s, t, d, i as nat).0[j]);
                let j3 = partner(s, t, d, i);
                assert(0 <= j3 < j);
                assert(compatible(t, s, d, j3, i));
                lemma_partner_props(t, s, d, j3);
                lemma_used_image(t, s, d, j3 as nat);
                lemma_greedy_len(t, s, d, j3 as nat);
                if exists|j4: int| 0 <= j4 < j3 && #[trigger] partner(t, s, d, j4) == i {
                    let j4 = choose|j4: int| 0 <= j4 < j3 && #[trigger] partner(t, s, d, j4) == i;
                    lemma_partner_injective(t, s, d, j4, j);
                }
                assert(!greedy(t, s, d, j3 as nat).0[i]);
                let i4 = partner(t, s, d, j3);
                assert(0 <= i4 <= i);
                if i4 == i {
                    lemma_partner_injective(t, s, d, j3, j);
                } else {
                    lemma_matching_agrees(s, t, d, i4);
                    assert(partner(s, t, d, i4) == j3);
                    lemma_partner_injective(s, t, d, i4, i);
                }
            }
        }
    }
}

proof fn lemma_used_matches_other_side<A>(s: Seq<A>, t: Seq<A>, d: int)
    requires
        d >= 0,
    ensures
        greedy(s, t, d, s.len()).0 =~= Seq::new(t.len(), |j: int| partner(t, s, d, j) >= 0),
{
    lemma_greedy_len(s, t, d, s.len());
    lemma_used_image(s, t, d, s.len());
    assert forall|j: int| 0 <= j < t.len() implies greedy(s, t, d, s.len()).0[j] == (partner(
        t,
        s,
        d,
        j,
    ) >= 0) by {
        if greedy(s, t, d, s.len()).0[j] {
            let i = choose|i: int| 0 <= i < s.len() && #[trigger] partner(s, t, d, i) == j;
            lemma_matching_agrees(s, t, d, i);
        }
        if partner(t, s, d, j) >= 0 {
            lemma_partner_props(t, s, d, j);
            let i = partner(t, s, d, j);
            lemma_matching_agrees(s, t, d, i);
            assert(partner(s, t, d, i) == j);
        }
    }
}

proof fn lemma_mismatches_swap<A>(s: Seq<A>, t: Seq<A>, x: Seq<int>, y: Seq<int>, n: nat)
    ensures
        mismatches(s, t, x, y, n) == mismatches(t, s, y, x, n),
    decreases n,
{
    if n > 0 {
        lemma_mismatches_swap(s, t, x, y, (n - 1) as nat);
    }
}

proof fn lemma_common_prefix_swap<A>(s: Seq<A>, t: Seq<A>, n: nat)
    ensures
        common_prefix(s, t, n) == common_prefix(t, s, n),
    decreases n,
{
    if n > 0 {
        lemma_common_prefix_swap(s, t, (n - 1) as nat);
    }
}

/// The Jaro quantities, and so the similarity, do not depend on the order of
/// the arguments.
pub proof fn lemma_jaro_symmetric(a: Seq<char>, b: Seq<char>, ignore_case: bool)
    ensures
        jaro_matches(units(a, ignore_case), units(b, ignore_case)) == jaro_matches(
            units(b, ignore_case),
            units(a, ignore_case),
        ),
        jaro_half_transpositions(units(a, ignore_case), units(b, ignore_case))
            == jaro_half_transpositions(units(b, ignore_case), units(a, ignore_case)),
        jaro_prefix(units(a, ignore_case), units(b, ignore_case)) == jaro_prefix(
            units(b, ignore_case),
            units(a, ignore_case),
        ),
        jaro_numerator(units(a, ignore_case), units(b, ignore_case)) == jaro_numerator(
            units(b, ignore_case),
            units(a, ignore_case),
        ),
        jaro_denominator(units(a, ignore_case), units(b, ignore_case)) == jaro_denominator(
            units(b, ignore_case),
            units(a, ignore_case),
        ),
{
    let (s, t) = (units(a, ignore_case), units(b, ignore_case));
    if s.len() == t.len() {
        let n = s.len();
        let d = match_window(n as int);
        let fs = Seq::new(n, |i: int| partner(s, t, d, i) >= 0);
        let ft = Seq::new(n, |j: int| partner(t, s, d, j) >= 0);
        lemma_used_matches_other_side(s, t, d);
        lemma_used_matches_other_side(t, s, d);
        lemma_matched_taken(s, t, d, n);
        lemma_matched_taken(t, s, d, n);
        lemma_used_count(s, t, d, n);
        let ms_ab = greedy(s, t, d, n).1;
        let ms_ba = greedy(t, s, d, n).1;
        assert(ms_ab == taken(fs, n));
        assert(ms_ba == taken(ft, n));
        assert(taken(greedy(s, t, d, n).0, n) == ms_ba);
        assert(taken(greedy(t, s, d, n).0, n) == ms_ab);
        let k = if ms_ab.len() <= ms_ba.len() {
            ms_ab.len()
        } else {
            ms_ba.len()
        };
        lemma_mismatches_swap(s, t, ms_ab, ms_ba, k);
        lemma_common_prefix_swap(s, t, n);
    }
}

/// Ignoring case is the same as comparing the lowercased texts exactly.
pub proof fn lemma_jaro_ignore_case(a: Seq<char>, b: Seq<char>)
    ensures
        jaro_matching(units(a, true), units(b, true)) == jaro_matching(
            units(lower_of(a), false),
            units(lower_of(b), false),
        ),
        jaro_numerator(units(a, true), units(b, true)) == jaro_numerator(
            units(lower_of(a), false),
            units(lower_of(b), false),
        ),
        jaro_denominator(units(a, true), units(b, true)) == jaro_denominator(
            units(lower_of(a), false),
            units(lower_of(b), false),
        ),
        jaro_prefix(units(a, true), units(b, true)) == jaro_prefix(
            units(lower_of(a), false),
            units(lower_of(b), false),
        ),
{
}

} // verus!
