use string_metrics::metrics::damerau_levenshtein;
use string_metrics::metrics::jaro;
use string_metrics::metrics::levenshtein;
use string_metrics::metrics::sorensen_dice;
use string_metrics::metrics::utils::{
    fits_in_matrix, folded_graphemes, generate_bigrams, graphemes, Array2D,
};

fn dice_value(a: &str, b: &str, ignore_case: bool) -> f64 {
    let r = sorensen_dice::coefficient(a, b, ignore_case);
    let total = r.first_bigrams + r.second_bigrams;
    if total == 0 {
        0.0
    } else {
        2.0 * r.intersections as f64 / total as f64
    }
}

fn jaro_value(r: &jaro::JaroSimilarityResult) -> f64 {
    if r.matches == 0 {
        return 0.0;
    }
    let m = r.matches as f64;
    let t = r.half_transpositions as f64 / 2.0;
    (m / r.first_len as f64 + m / r.second_len as f64 + (m - t) / m) / 3.0
}

fn jaro_of(a: &str, b: &str, ignore_case: bool) -> f64 {
    jaro_value(&jaro::similarity(a, b, ignore_case))
}

fn jaro_winkler_of(a: &str, b: &str, prefix_length: u32, scaling: f64, threshold: f64) -> f64 {
    let r = jaro::similarity(a, b, false);
    let j = jaro_value(&r);
    if j > threshold {
        j + r.winkler_prefix(prefix_length) as f64 * scaling * (1.0 - j)
    } else {
        j
    }
}

fn strings(v: &[&str]) -> Vec<String> {
    v.iter().map(|s| s.to_string()).collect()
}

#[test]
fn dice_night_nacht() {
    let r = sorensen_dice::coefficient("night", "nacht", false);
    assert_eq!(r.intersections, 1);
    assert_eq!(r.first_bigrams, 4);
    assert_eq!(r.second_bigrams, 4);
    assert!((dice_value("night", "nacht", false) - 0.25).abs() < 1e-12);
}

#[test]
fn dice_empty_inputs_give_zero() {
    let r = sorensen_dice::coefficient("", "", false);
    assert_eq!((r.intersections, r.first_bigrams, r.second_bigrams), (0, 0, 0));
    assert_eq!(dice_value("", "", false), 0.0);
    assert_eq!(dice_value("a", "b", false), 0.0);
}

#[test]
fn dice_counts_repeated_bigrams_up_to_multiplicity() {
    let r = sorensen_dice::coefficient("aaaa", "aa", false);
    assert_eq!(r.intersections, 1);
    assert_eq!(r.first_bigrams, 3);
    assert_eq!(r.second_bigrams, 1);
    assert!((dice_value("aaaa", "aa", false) - 0.5).abs() < 1e-12);
}

#[test]
fn dice_symmetric_identity_and_bounded() {
    assert_eq!(dice_value("night", "nacht", false), dice_value("nacht", "night", false));
    assert_eq!(dice_value("abcab", "abcab", false), 1.0);
    let v = dice_value("context", "contact", false);
    assert!((0.0..=1.0).contains(&v));
}

#[test]
fn dice_ignore_case() {
    assert_eq!(dice_value("NIGHT", "night", true), 1.0);
    assert!(dice_value("NIGHT", "night", false) < 1.0);
    assert_eq!(dice_value("NiGht", "NACHT", true), dice_value("night", "nacht", false));
}

#[test]
fn jaro_martha() {
    let r = jaro::similarity("MARTHA", "MARHTA", false);
    assert_eq!(r.matches, 6);
    assert_eq!(r.half_transpositions, 2);
    assert_eq!(r.max_prefix_length, 3);
    assert!((jaro_value(&r) - 0.944).abs() < 1e-3);
}

#[test]
fn jaro_winkler_martha() {
    let v = jaro_winkler_of("MARTHA", "MARHTA", 4, 0.1, 0.7);
    assert!((v - 0.961).abs() < 1e-3);
    let below = jaro_winkler_of("MARTHA", "MARHTA", 4, 0.1, 0.95);
    assert_eq!(below, jaro_of("MARTHA", "MARHTA", false));
}

#[test]
fn jaro_no_match_and_empty() {
    let r = jaro::similarity("abc", "xyz", false);
    assert_eq!(r.matches, 0);
    assert_eq!(r.max_prefix_length, 0);
    assert_eq!(jaro_value(&r), 0.0);
    assert_eq!(jaro_of("", "", false), 0.0);
    assert_eq!(jaro_of("", "abc", false), 0.0);
}

#[test]
fn jaro_shorter_input_is_scanned_first() {
    let r = jaro::similarity("DIXON", "DICKSONX", false);
    assert_eq!(r.first_len, 5);
    assert_eq!(r.second_len, 8);
    assert_eq!(r.matches, 4);
    assert_eq!(r.half_transpositions, 0);
    assert_eq!(r.max_prefix_length, 2);
    assert!((jaro_value(&r) - 0.7667).abs() < 1e-3);
}

#[test]
fn jaro_symmetric_identity_and_bounded() {
    assert_eq!(jaro_of("MARTHA", "MARHTA", false), jaro_of("MARHTA", "MARTHA", false));
    assert_eq!(jaro_of("DIXON", "DICKSONX", false), jaro_of("DICKSONX", "DIXON", false));
    assert_eq!(jaro_of("abc", "abc", false), 1.0);
    let v = jaro_of("crate", "trace", false);
    assert!((0.0..=1.0).contains(&v));
}

#[test]
fn jaro_ignore_case() {
    assert_eq!(jaro_of("MARTHA", "martha", true), 1.0);
    assert_eq!(jaro_of("MARTHA", "marhta", true), jaro_of("martha", "marhta", false));
}

#[test]
fn winkler_prefix_is_clamped() {
    let r = jaro::similarity("abcdef", "abcdef", false);
    assert_eq!(r.max_prefix_length, 6);
    assert_eq!(r.winkler_prefix(4), 4);
    assert_eq!(r.winkler_prefix(10), 6);
}

#[test]
fn levenshtein_kitten_sitting() {
    assert_eq!(levenshtein::distance("kitten", "sitting", false), Some(3));
    assert_eq!(levenshtein::distance("sitting", "kitten", false), Some(3));
}

#[test]
fn levenshtein_empty_inputs() {
    assert_eq!(levenshtein::distance("", "abc", false), Some(3));
    assert_eq!(levenshtein::distance("abc", "", false), Some(3));
    assert_eq!(levenshtein::distance("", "", false), Some(0));
}

#[test]
fn levenshtein_identity_and_bound() {
    assert_eq!(levenshtein::distance("flaw", "flaw", false), Some(0));
    assert_eq!(levenshtein::distance("abc", "xyz", false), Some(3));
    assert_eq!(levenshtein::distance("ab", "ba", false), Some(2));
}

#[test]
fn levenshtein_ignore_case() {
    assert_eq!(levenshtein::distance("KITTEN", "sitting", true), Some(3));
    assert_eq!(levenshtein::distance("KITTEN", "kitten", true), Some(0));
    assert_eq!(levenshtein::distance("KITTEN", "kitten", false), Some(6));
}

#[test]
fn damerau_levenshtein_ca_abc() {
    assert_eq!(damerau_levenshtein::distance("CA", "ABC", false), Some(2));
    assert_eq!(levenshtein::distance("CA", "ABC", false), Some(3));
    assert_eq!(damerau_levenshtein::distance("ABC", "CA", false), Some(2));
}

#[test]
fn damerau_levenshtein_transposition_and_edges() {
    assert_eq!(damerau_levenshtein::distance("ab", "ba", false), Some(1));
    assert_eq!(damerau_levenshtein::distance("", "abc", false), Some(3));
    assert_eq!(damerau_levenshtein::distance("abc", "", false), Some(3));
    assert_eq!(damerau_levenshtein::distance("abcdef", "abcdef", false), Some(0));
    assert_eq!(damerau_levenshtein::distance("kitten", "sitting", false), Some(3));
    assert_eq!(damerau_levenshtein::distance("AB", "ba", true), Some(1));
}

#[test]
fn distance_impl_on_cluster_sequences() {
    let a = strings(&["a", "b", "c"]);
    let b = strings(&["c", "a"]);
    assert_eq!(levenshtein::distance_impl(&a, &b), 3);
    assert_eq!(damerau_levenshtein::distance_impl(&b, &a), 2);
}

#[test]
fn combining_marks_form_one_unit() {
    let e_acute = "e\u{301}";
    assert_eq!(graphemes(e_acute), vec![e_acute.to_string()]);
    assert_eq!(levenshtein::distance(e_acute, "e", false), Some(1));
    assert_eq!(damerau_levenshtein::distance("ae\u{301}", "e\u{301}a", false), Some(1));
    assert_eq!(jaro::similarity(e_acute, "x", false).first_len, 1);
    let r = sorensen_dice::coefficient("ae\u{301}b", "ae\u{301}c", false);
    assert_eq!((r.intersections, r.first_bigrams), (1, 2));
}

#[test]
fn graphemes_and_bigrams() {
    assert_eq!(graphemes("abc"), strings(&["a", "b", "c"]));
    assert_eq!(graphemes("a\r\nb"), strings(&["a", "\r\n", "b"]));
    assert_eq!(generate_bigrams("abc"), strings(&["ab", "bc"]));
    assert!(generate_bigrams("a").is_empty());
}

#[test]
fn case_folding_of_whole_string() {
    assert_eq!(folded_graphemes("ÀB", true), strings(&["à", "b"]));
    assert_eq!(folded_graphemes("ABc", true), strings(&["a", "b", "c"]));
    assert_eq!(folded_graphemes("ABc", false), strings(&["A", "B", "c"]));
}

#[test]
fn matrix_limits() {
    assert!(fits_in_matrix(10, 20));
    assert!(!fits_in_matrix(usize::MAX, 1));
    assert!(!fits_in_matrix(1 << 40, 1 << 40));
}

#[test]
fn array_2d_get_set() {
    let mut m = Array2D::new(2, 3);
    assert_eq!(m.get(1, 2), 0);
    m.set(1, 2, 7);
    m.set(0, 1, -4);
    assert_eq!(m.get(1, 2), 7);
    assert_eq!(m.get(0, 1), -4);
    assert_eq!(m.get(1, 1), 0);
}
