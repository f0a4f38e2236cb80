use rust_fuzzy::FuzzySearch;
use rust_fuzzy::Score;

fn value(s: &Score) -> f64 {
    s.num as f64 / s.den as f64
}

fn small_set() -> Vec<String> {
    vec![
        String::from("foo_bar"),
        String::from(""),
        String::from("fbx"),
        String::from("xxx"),
        String::from("fab"),
    ]
}

fn large_set() -> Vec<String> {
    // Above the parallel threshold; a few real matches among filler.
    let mut v: Vec<String> = Vec::new();
    for i in 0..1200 {
        let s = match i {
            3 => "fbx",
            10 => "foo_bar",
            20 => "foo_bar",
            500 => "fab",
            _ => "zzz",
        };
        v.push(String::from(s));
    }
    v
}

#[test]
fn batch_small_is_index_aligned() {
    let mut m = FuzzySearch::new(false, false);
    let candidates = small_set();
    let results = m.match_batch("fb", candidates.clone());
    assert_eq!(results.len(), candidates.len());
    let mut single = FuzzySearch::new(false, false);
    for (i, c) in candidates.iter().enumerate() {
        let r = single.match_("fb", c);
        assert_eq!(results[i].score, r.score);
        assert_eq!(results[i].positions, r.positions);
    }
    assert_eq!(value(&results[0].score), 5.0);
    assert_eq!(results[1].score.num, 0);
    assert_eq!(value(&results[2].score), 6.0);
    assert_eq!(results[3].score.num, 0);
}

#[test]
fn batch_large_is_index_aligned() {
    let mut m = FuzzySearch::new(false, false);
    let candidates = large_set();
    let results = m.match_batch("fb", candidates.clone());
    assert_eq!(results.len(), candidates.len());
    for (i, r) in results.iter().enumerate() {
        match i {
            3 => assert_eq!(value(&r.score), 6.0),
            10 | 20 => assert_eq!(value(&r.score), 5.0),
            500 => assert_eq!(value(&r.score), 3.75),
            _ => assert_eq!(r.score.num, 0),
        }
    }
}

#[test]
fn batch_large_reuses_cached_results() {
    let mut m = FuzzySearch::new(false, false);
    let candidates = large_set();
    let first = m.match_batch("fb", candidates.clone());
    let second = m.match_batch("fb", candidates);
    assert_eq!(first.len(), second.len());
    for (a, b) in first.iter().zip(second.iter()) {
        assert_eq!(a.score, b.score);
        assert_eq!(a.positions, b.positions);
    }
}

#[test]
fn top_k_small_sorted_and_bounded() {
    let mut m = FuzzySearch::new(false, false);
    let top = m.match_batch_top_k("fb", small_set(), 2);
    assert_eq!(top.len(), 2);
    assert_eq!(top[0].0, 2);
    assert_eq!(value(&top[0].1), 6.0);
    assert_eq!(top[1].0, 0);
    assert_eq!(value(&top[1].1), 5.0);
}

#[test]
fn top_k_small_returns_all_when_k_large() {
    let mut m = FuzzySearch::new(false, false);
    let top = m.match_batch_top_k("fb", small_set(), 10);
    // Exactly the three positive candidates, best first.
    assert_eq!(top.len(), 3);
    assert_eq!(top[0].0, 2);
    assert_eq!(top[1].0, 0);
    assert_eq!(top[2].0, 4);
    assert_eq!(value(&top[2].1), 3.75);
}

#[test]
fn top_k_zero_is_empty() {
    let mut m = FuzzySearch::new(false, false);
    let top = m.match_batch_top_k("fb", small_set(), 0);
    assert!(top.is_empty());
}

#[test]
fn top_k_empty_candidates_is_empty() {
    let mut m = FuzzySearch::new(false, false);
    let top = m.match_batch_top_k("fb", Vec::new(), 4);
    assert!(top.is_empty());
}

#[test]
fn top_k_streaming_matches_batch_scores() {
    let mut m = FuzzySearch::new(false, false);
    let candidates = large_set();
    let top = m.match_batch_top_k("fb", candidates.clone(), 3);
    assert_eq!(top.len(), 3);
    assert_eq!(top[0].0, 3);
    assert_eq!(value(&top[0].1), 6.0);
    // Equal scores keep ascending index order.
    assert_eq!(top[1].0, 10);
    assert_eq!(value(&top[1].1), 5.0);
    assert_eq!(top[2].0, 20);
    assert_eq!(value(&top[2].1), 5.0);
    // Every returned score equals what the batch matcher computes.
    let mut check = FuzzySearch::new(false, false);
    let batch = check.match_batch("fb", candidates);
    for (idx, score, positions) in &top {
        assert_eq!(batch[*idx].score, *score);
        assert_eq!(&batch[*idx].positions, positions);
    }
}

#[test]
fn top_k_streaming_all_positive() {
    let mut m = FuzzySearch::new(false, false);
    let top = m.match_batch_top_k("fb", large_set(), 10);
    assert_eq!(top.len(), 4);
    for (_, score, positions) in &top {
        assert!(score.num > 0);
        assert!(!positions.is_empty());
    }
    for w in top.windows(2) {
        let a = value(&w[0].1);
        let b = value(&w[1].1);
        assert!(a > b || (a == b && w[0].0 < w[1].0));
    }
}

#[test]
fn top_k_streaming_uses_cache_hits() {
    let mut m = FuzzySearch::new(false, false);
    // Populate the memo first through the single-pair path.
    let direct = m.match_("fb", "fbx");
    let top = m.match_batch_top_k("fb", large_set(), 1);
    assert_eq!(top.len(), 1);
    assert_eq!(top[0].0, 3);
    assert_eq!(top[0].1, direct.score);
    assert_eq!(top[0].2, direct.positions);
}
