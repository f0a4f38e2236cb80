use rust_fuzzy::FuzzySearch;
use rust_fuzzy::Score;

fn value(s: &Score) -> f64 {
    s.num as f64 / s.den as f64
}

#[test]
fn empty_query_yields_sentinel() {
    let mut m = FuzzySearch::new(false, false);
    let r = m.match_("", "anything at all");
    assert_eq!(r.score.num, 0);
    assert!(r.positions.is_empty());
}

#[test]
fn empty_query_on_empty_candidate() {
    let mut m = FuzzySearch::new(false, false);
    let r = m.match_("", "");
    assert_eq!(r.score.num, 0);
    assert!(r.positions.is_empty());
}

#[test]
fn absent_character_yields_sentinel() {
    let mut m = FuzzySearch::new(false, false);
    let r = m.match_("xq", "hello");
    assert_eq!(r.score.num, 0);
    assert!(r.positions.is_empty());
}

#[test]
fn absent_single_character_yields_sentinel() {
    let mut m = FuzzySearch::new(false, false);
    let r = m.match_("z", "hello");
    assert_eq!(r.score.num, 0);
    assert!(r.positions.is_empty());
}

#[test]
fn word_boundary_alignment_scores_highest() {
    // "f" and "b" both sit at word starts: m = 2, f = 2, groups = 2,
    // so the score is (2 + 2) * (1 + (1/2)^2) = 5.0.
    let mut m = FuzzySearch::new(false, false);
    let r = m.match_("fb", "foo_bar");
    assert!(r.score.num > 0);
    assert_eq!(r.positions, vec![0, 4]);
    assert_eq!(value(&r.score), 5.0);
}

#[test]
fn contiguous_run_scores_with_one_group() {
    // "fb" inside "fbx": both characters adjacent, one group, one word
    // start: (2 + 1) * (1 + 1) = 6.0.
    let mut m = FuzzySearch::new(false, false);
    let r = m.match_("fb", "fbx");
    assert_eq!(r.positions, vec![0, 1]);
    assert_eq!(value(&r.score), 6.0);
}

#[test]
fn path_mode_counts_segment_starts() {
    // In path mode index 4 of "src/ab.rs" follows a '/' and counts as a
    // first letter: (2 + 1) * (1 + 1) = 6.0 at positions [4, 5].
    let mut m = FuzzySearch::new(false, true);
    let r = m.match_("ab", "src/ab.rs");
    assert!(r.score.num > 0);
    assert_eq!(r.positions, vec![4, 5]);
    assert_eq!(value(&r.score), 6.0);
}

#[test]
fn single_char_first_letter_scores_four() {
    // The fast path scores a word-initial occurrence 4.0, not the 2.0 the
    // general formula would give for one matched character.
    let mut m = FuzzySearch::new(false, false);
    let r = m.match_("a", "apple");
    assert_eq!(r.positions, vec![0]);
    assert_eq!(r.score.num, 4);
    assert_eq!(r.score.den, 1);
}

#[test]
fn single_char_plain_occurrence_scores_one() {
    let mut m = FuzzySearch::new(false, false);
    let r = m.match_("p", "apple");
    assert_eq!(r.positions, vec![1]);
    assert_eq!(r.score.num, 1);
    assert_eq!(r.score.den, 1);
}

#[test]
fn single_char_prefers_first_boosted_occurrence() {
    // 'b' occurs at 2 (plain) and at 4 (word start): the boosted one wins.
    let mut m = FuzzySearch::new(false, false);
    let r = m.match_("b", "ab_ba");
    assert_eq!(r.positions, vec![3]);
    assert_eq!(r.score.num, 4);
}

#[test]
fn case_insensitive_folds_query_and_candidate() {
    let mut m = FuzzySearch::new(false, false);
    let r = m.match_("FB", "foo_bar");
    assert!(r.score.num > 0);
    assert_eq!(r.positions, vec![0, 4]);
    assert_eq!(value(&r.score), 5.0);
}

#[test]
fn case_sensitive_rejects_wrong_case() {
    let mut m = FuzzySearch::new(true, false);
    let r = m.match_("FB", "foo_bar");
    assert_eq!(r.score.num, 0);
    assert!(r.positions.is_empty());
}

#[test]
fn positions_spell_out_the_query() {
    let mut m = FuzzySearch::new(false, false);
    let query = "abc";
    let candidate = "xaxbxcx";
    let r = m.match_(query, candidate);
    assert!(r.score.num > 0);
    let chars: Vec<char> = candidate.chars().collect();
    let mut last = None;
    for (qc, &p) in query.chars().zip(r.positions.iter()) {
        assert_eq!(chars[p], qc);
        if let Some(prev) = last {
            assert!(prev < p);
        }
        last = Some(p);
    }
    assert_eq!(r.positions.len(), query.chars().count());
}

#[test]
fn repeated_match_is_idempotent_and_cached() {
    let mut m = FuzzySearch::new(false, false);
    let r1 = m.match_("fb", "foo_bar");
    assert_eq!(m.cache_size(), 1);
    let r2 = m.match_("fb", "foo_bar");
    assert_eq!(m.cache_size(), 1);
    assert_eq!(r1.score, r2.score);
    assert_eq!(r1.positions, r2.positions);
}

#[test]
fn clear_cache_resets_and_recomputes() {
    let mut m = FuzzySearch::new(false, false);
    let r1 = m.match_("fb", "foo_bar");
    let _ = m.match_("ab", "cab");
    assert_eq!(m.cache_size(), 2);
    m.clear_cache();
    assert_eq!(m.cache_size(), 0);
    let r2 = m.match_("fb", "foo_bar");
    assert_eq!(m.cache_size(), 1);
    assert_eq!(r1.score, r2.score);
    assert_eq!(r1.positions, r2.positions);
}

#[test]
fn best_alignment_beats_alternatives() {
    // "ab" against "a_b ab": the contiguous pair at [4, 5] scores
    // (2 + 1) * (1 + 1) = 6.0, above the split alignments starting at 0.
    let mut m = FuzzySearch::new(false, false);
    let r = m.match_("ab", "a_b ab");
    assert_eq!(r.positions, vec![4, 5]);
    assert_eq!(value(&r.score), 6.0);
}

#[test]
fn trailing_occurrences_stay_reachable() {
    // The scan for the i-th query character keeps every occurrence that
    // still leaves room for the remaining query characters. Here the 'c'
    // right after the '/' is the last feasible occurrence and wins in path
    // mode: (3 + 1) * (1 + (1/3)^2) = 40/9, above 39/9 for the earlier 'c'.
    let mut m = FuzzySearch::new(true, true);
    let r = m.match_("abc", "xaxbc/c");
    assert_eq!(r.positions, vec![1, 3, 6]);
    assert_eq!(r.score.num, 40);
    assert_eq!(r.score.den, 9);
}

#[test]
fn modes_disagree_on_word_boundaries() {
    // After '-' is a word start in Default mode but not a segment start in
    // Path mode, so the fast-path boost applies only in Default mode.
    let mut default_mode = FuzzySearch::new(false, false);
    let rd = default_mode.match_("a", "x-a");
    assert_eq!(rd.score.num, 4);
    let mut path_mode = FuzzySearch::new(false, true);
    let rp = path_mode.match_("a", "x-a");
    assert_eq!(rp.score.num, 1);
    assert_eq!(rp.positions, vec![2]);
}

#[test]
fn empty_candidate_yields_sentinel() {
    let mut m = FuzzySearch::new(false, false);
    let r = m.match_("a", "");
    assert_eq!(r.score.num, 0);
    assert!(r.positions.is_empty());
}

#[test]
fn folding_may_change_length() {
    // 'İ' lowercases to two code points; positions index the folded text.
    let mut m = FuzzySearch::new(false, false);
    let r = m.match_("i", "İx");
    assert_eq!(r.positions, vec![0]);
    assert_eq!(r.score.num, 4);
}

#[test]
fn multibyte_positions_are_code_point_indices() {
    let mut m = FuzzySearch::new(false, false);
    let r = m.match_("né", "une étoile");
    assert!(r.score.num > 0);
    assert_eq!(r.positions, vec![1, 4]);
}
