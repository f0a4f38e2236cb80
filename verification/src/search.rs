//! The matcher instance: fixed case-sensitivity and scoring mode, plus a
//! read-through, write-through memo of pair results that only an explicit
//! clear empties.

use crate::matching::lemma_match_spec_valid;
use crate::matching::match_pair;
use crate::matching::match_spec;
use crate::matching::result_matches;
use crate::matching::MatchResult;
use crate::score::Score;
use crate::score::ScoringMode;
use crate::topk::dominates;
use crate::topk::entries_distinct;
use crate::topk::entries_sorted;
use crate::topk::entries_wf;
use crate::topk::has_index;
use crate::topk::items_have_index;
use crate::topk::items_wf;
use crate::topk::lemma_select_translate;
use crate::topk::select_top_k;
use vstd::prelude::*;

verus! {

/// The spec results of one query against every candidate, index-aligned.
pub open spec fn topk_specs(
    q: Seq<char>,
    cands: Seq<String>,
    case_sensitive: bool,
    mode: ScoringMode,
) -> Seq<(int, int, Seq<int>)> {
    Seq::new(cands.len(), |i: int| match_spec(q, cands[i]@, case_sensitive, mode))
}

/// Whether one of the pairs in `s[lo..hi]` carries original index `i`.
pub open spec fn misses_have_index(s: Seq<(usize, String)>, lo: int, hi: int, i: int) -> bool {
    exists|u: int| lo <= u < hi && (#[trigger] s[u]).0 == i
}

/// One memoized pair: the exact query and candidate strings, and the best
/// result computed for them.
pub(crate) struct CacheEntry {
    pub query: String,
    pub candidate: String,
    pub result: MatchResult,
}

/// A fuzzy matcher with a fixed configuration and an unbounded memo of pair
/// results.
pub struct FuzzySearch {
    case_sensitive: bool,
    scoring_mode: ScoringMode,
    cache: Vec<CacheEntry>,
}

impl FuzzySearch {
    /// Whether matching is case-sensitive on this instance.
    pub closed spec fn spec_case_sensitive(&self) -> bool {
        self.case_sensitive
    }

    /// The scoring mode fixed at construction.
    pub closed spec fn spec_mode(&self) -> ScoringMode {
        self.scoring_mode
    }

    /// The number of memoized pairs.
    pub closed spec fn spec_cache_len(&self) -> nat {
        self.cache@.len()
    }

    /// Whether a result for this exact query and candidate is memoized.
    pub closed spec fn cache_contains(&self, q: Seq<char>, c: Seq<char>) -> bool {
        exists|e: int|
            0 <= e < self.cache@.len() && (#[trigger] self.cache@[e]).query@ == q
                && self.cache@[e].candidate@ == c
    }

    /// Every memoized result is exactly what matching its pair computes, and
    /// no pair is memoized twice.
    pub closed spec fn wf(&self) -> bool {
        &&& (forall|e: int|
            0 <= e < self.cache@.len() ==> result_matches(
                &(#[trigger] self.cache@[e]).result,
                match_spec(
                    self.cache@[e].query@,
                    self.cache@[e].candidate@,
                    self.case_sensitive,
                    self.scoring_mode,
                ),
            ))
        &&& (forall|e1: int, e2: int|
            0 <= e1 < e2 < self.cache@.len() ==> !((#[trigger] self.cache@[e1]).query@ == (
            #[trigger] self.cache@[e2]).query@ && self.cache@[e1].candidate@
                == self.cache@[e2].candidate@))
    }

    /// A matcher with the given configuration and an empty memo.
    pub fn new(case_sensitive: bool, path_mode: bool) -> (r: FuzzySearch)
        ensures
            r.wf(),
            r.spec_case_sensitive() == case_sensitive,
            r.spec_mode() == (if path_mode {
                ScoringMode::Path
            } else {
                ScoringMode::Default
            }),
            r.spec_cache_len() == 0,
    {
        FuzzySearch {
            case_sensitive,
            scoring_mode: if path_mode {
                ScoringMode::Path
            } else {
                ScoringMode::Default
            },
            cache: Vec::new(),
        }
    }

    /// The memoized result for this exact pair, if any.
    pub(crate) fn cache_get(&self, qk: &String, ck: &String) -> (r: Option<MatchResult>)
        requires
            self.wf(),
        ensures
            match r {
                Some(m) => self.cache_contains(qk@, ck@) && result_matches(
                    &m,
                    match_spec(qk@, ck@, self.spec_case_sensitive(), self.spec_mode()),
                ),
                None => !self.cache_contains(qk@, ck@),
            },
    {
        let mut e: usize = 0;
        while e < self.cache.len()
            invariant
                self.wf(),
                e <= self.cache@.len(),
                forall|u: int|
                    0 <= u < e ==> !((#[trigger] self.cache@[u]).query@ == qk@
                        && self.cache@[u].candidate@ == ck@),
            decreases self.cache@.len() - e,
        {
            if self.cache[e].query == *qk && self.cache[e].candidate == *ck {
                return Some(self.cache[e].result.duplicate());
            }
            e = e + 1;
        }
        None
    }

    /// Memoizes a result for a pair, unless the pair is already present (the
    /// stored result then already equals it).
    pub(crate) fn cache_insert(&mut self, qk: String, ck: String, m: MatchResult)
        requires
            old(self).wf(),
            result_matches(
                &m,
                match_spec(qk@, ck@, old(self).spec_case_sensitive(), old(self).spec_mode()),
            ),
        ensures
            final (self).wf(),
            final (self).spec_case_sensitive() == old(self).spec_case_sensitive(),
            final (self).spec_mode() == old(self).spec_mode(),
            final (self).cache_contains(qk@, ck@),
            forall|q2: Seq<char>, c2: Seq<char>|
                old(self).cache_contains(q2, c2) ==> #[trigger] final (self).cache_contains(
                    q2,
                    c2,
                ),
            old(self).cache_contains(qk@, ck@) ==> *final (self) == *old(self),
            !old(self).cache_contains(qk@, ck@) ==> final (self).spec_cache_len() == old(
                self,
            ).spec_cache_len() + 1,
    {
        match self.cache_get(&qk, &ck) {
            Some(_) => {},
            None => {
                self.cache.push(CacheEntry { query: qk, candidate: ck, result: m });
                proof {
                    assert(self.cache@[self.cache@.len() - 1].query@ == qk@);
                    assert forall|q2: Seq<char>, c2: Seq<char>|
                        old(self).cache_contains(q2, c2) implies #[trigger] self.cache_contains(
                        q2,
                        c2,
                    ) by {
                        let e = choose|e: int|
                            0 <= e < old(self).cache@.len() && (#[trigger] old(
                                self,
                            ).cache@[e]).query@ == q2 && old(self).cache@[e].candidate@ == c2;
                        assert(self.cache@[e].query@ == q2);
                    }
                }
            },
        }
    }

    /// Matches one pair through the memo: a hit returns the stored result; a
    /// miss computes, memoizes, and returns it. The result is always exactly
    /// what matching the pair computes, so a repeated call returns the same
    /// result and leaves the memo unchanged.
    pub fn match_(&mut self, query: &str, candidate: &str) -> (r: MatchResult)
        requires
            old(self).wf(),
        ensures
            final (self).wf(),
            final (self).spec_case_sensitive() == old(self).spec_case_sensitive(),
            final (self).spec_mode() == old(self).spec_mode(),
            result_matches(
                &r,
                match_spec(
                    query@,
                    candidate@,
                    old(self).spec_case_sensitive(),
                    old(self).spec_mode(),
                ),
            ),
            final (self).cache_contains(query@, candidate@),
            old(self).cache_contains(query@, candidate@) ==> *final (self) == *old(self),
            !old(self).cache_contains(query@, candidate@) ==> final (self).spec_cache_len() == old(
                self,
            ).spec_cache_len() + 1,
            forall|q2: Seq<char>, c2: Seq<char>|
                old(self).cache_contains(q2, c2) ==> #[trigger] final (self).cache_contains(
                    q2,
                    c2,
                ),
    {
        let qk = query.to_owned();
        let ck = candidate.to_owned();
        match self.cache_get(&qk, &ck) {
            Some(m) => m,
            None => {
                let r = match_pair(query, candidate, self.case_sensitive, self.scoring_mode);
                self.cache_insert(qk, ck, r.duplicate());
                r
            },
        }
    }

    /// Empties the memo.
    pub fn clear_cache(&mut self)
        requires
            old(self).wf(),
        ensures
            final (self).wf(),
            final (self).spec_case_sensitive() == old(self).spec_case_sensitive(),
            final (self).spec_mode() == old(self).spec_mode(),
            final (self).spec_cache_len() == 0,
    {
        self.cache.clear();
    }

    /// How many pairs are memoized.
    pub fn cache_size(&self) -> (n: usize)
        requires
            self.wf(),
        ensures
            n == self.spec_cache_len(),
    {
        self.cache.len()
    }

    /// Matches one query against every candidate, returning one result per
    /// candidate in the candidates' own order. Small batches go one pair at
    /// a time through the memo; larger ones are split into memoized pairs
    /// and misses, the misses are matched by a data-parallel fan-out, the
    /// new results are merged into the memo sequentially, and the output is
    /// reassembled in candidate order.
    pub fn match_batch(&mut self, query: &str, candidates: Vec<String>) -> (r: Vec<MatchResult>)
        requires
            old(self).wf(),
        ensures
            final (self).wf(),
            final (self).spec_case_sensitive() == old(self).spec_case_sensitive(),
            final (self).spec_mode() == old(self).spec_mode(),
            r@.len() == candidates@.len(),
            forall|i: int|
                0 <= i < r@.len() ==> result_matches(
                    &(#[trigger] r@[i]),
                    match_spec(
                        query@,
                        candidates@[i]@,
                        old(self).spec_case_sensitive(),
                        old(self).spec_mode(),
                    ),
                ),
            forall|i: int|
                0 <= i < candidates@.len() ==> final (self).cache_contains(
                    query@,
                    (#[trigger] candidates@[i])@,
                ),
            forall|q2: Seq<char>, c2: Seq<char>|
                old(self).cache_contains(q2, c2) ==> #[trigger] final (self).cache_contains(
                    q2,
                    c2,
                ),
    {
        let ghost cs = old(self).spec_case_sensitive();
        let ghost mode = old(self).spec_mode();
        if candidates.len() < PARALLEL_THRESHOLD {
            let mut out: Vec<MatchResult> = Vec::new();
            let mut i: usize = 0;
            while i < candidates.len()
                invariant
                    self.wf(),
                    self.spec_case_sensitive() == cs,
                    self.spec_mode() == mode,
                    i <= candidates@.len(),
                    out@.len() == i,
                    forall|j: int|
                        0 <= j < i ==> result_matches(
                            &(#[trigger] out@[j]),
                            match_spec(query@, candidates@[j]@, cs, mode),
                        ),
                    forall|j: int|
                        0 <= j < i ==> self.cache_contains(query@, (#[trigger] candidates@[j])@),
                    forall|q2: Seq<char>, c2: Seq<char>|
                        old(self).cache_contains(q2, c2) ==> #[trigger] self.cache_contains(
                            q2,
                            c2,
                        ),
                decreases candidates@.len() - i,
            {
                let m = self.match_(query, candidates[i].as_str());
                out.push(m);
                i = i + 1;
            }
            out
        } else {
            let qk = query.to_owned();
            let mut misses: Vec<(usize, String)> = Vec::new();
            let mut i: usize = 0;
            while i < candidates.len()
                invariant
                    *self == *old(self),
                    old(self).wf(),
                    qk@ == query@,
                    i <= candidates@.len(),
                    forall|t: int|
                        0 <= t < misses@.len() ==> (#[trigger] misses@[t]).0 < candidates@.len()
                            && misses@[t].1@ == candidates@[misses@[t].0 as int]@,
                    forall|j: int|
                        0 <= j < i ==> old(self).cache_contains(query@, candidates@[j]@) || exists|
                            t: int,
                        | 0 <= t < misses@.len() && (#[trigger] misses@[t]).0 == j,
                decreases candidates@.len() - i,
            {
                match self.cache_get(&qk, &candidates[i]) {
                    Some(_) => {
                        proof {
                            assert(old(self).cache_contains(query@, candidates@[i as int]@));
                        }
                    },
                    None => {
                        let ghost old_misses = misses@;
                        misses.push((i, candidates[i].clone()));
                        proof {
                            assert(misses@[misses@.len() - 1].0 == i as int);
                            assert forall|j: int|
                                0 <= j < i + 1 && !old(self).cache_contains(
                                    query@,
                                    candidates@[j]@,
                                ) implies exists|t: int|
                                0 <= t < misses@.len() && (#[trigger] misses@[t]).0 == j by {
                                if j == i as int {
                                    assert(misses@[misses@.len() - 1].0 == j);
                                } else {
                                    let t0 = choose|t: int|
                                        0 <= t < old_misses.len() && (#[trigger] old_misses[t]).0
                                            == j;
                                    assert(misses@[t0].0 == j);
                                }
                            }
                        }
                    },
                }
                i = i + 1;
            }
            let computed = crate::par::par_match(
                query,
                self.case_sensitive,
                self.scoring_mode,
                &misses,
                false,
            );
            let mut t: usize = 0;
            while t < computed.len()
                invariant
                    self.wf(),
                    self.spec_case_sensitive() == cs,
                    self.spec_mode() == mode,
                    old(self).wf(),
                    qk@ == query@,
                    t <= computed@.len(),
                    forall|u: int|
                        0 <= u < computed@.len() ==> result_matches(
                            &(#[trigger] computed@[u]).2,
                            match_spec(query@, computed@[u].1@, cs, mode),
                        ),
                    forall|q2: Seq<char>, c2: Seq<char>|
                        old(self).cache_contains(q2, c2) ==> #[trigger] self.cache_contains(
                            q2,
                            c2,
                        ),
                    forall|u: int|
                        0 <= u < t ==> self.cache_contains(
                            query@,
                            (#[trigger] computed@[u]).1@,
                        ),
                decreases computed@.len() - t,
            {
                let ck = computed[t].1.clone();
                let m = computed[t].2.duplicate();
                self.cache_insert(qk.clone(), ck, m);
                t = t + 1;
            }
            proof {
                assert forall|j: int| 0 <= j < candidates@.len() implies self.cache_contains(
                    query@,
                    (#[trigger] candidates@[j])@,
                ) by {
                    if old(self).cache_contains(query@, candidates@[j]@) {
                    } else {
                        let u = choose|u: int|
                            0 <= u < misses@.len() && (#[trigger] misses@[u]).0 == j;
                        assert(computed@[u].1@ == misses@[u].1@);
                        assert(self.cache_contains(query@, computed@[u].1@));
                    }
                }
            }
            let mut out: Vec<MatchResult> = Vec::new();
            let mut i2: usize = 0;
            while i2 < candidates.len()
                invariant
                    self.wf(),
                    self.spec_case_sensitive() == cs,
                    self.spec_mode() == mode,
                    qk@ == query@,
                    i2 <= candidates@.len(),
                    out@.len() == i2,
                    forall|j: int|
                        0 <= j < candidates@.len() ==> self.cache_contains(
                            query@,
                            (#[trigger] candidates@[j])@,
                        ),
                    forall|j: int|
                        0 <= j < i2 ==> result_matches(
                            &(#[trigger] out@[j]),
                            match_spec(query@, candidates@[j]@, cs, mode),
                        ),
                decreases candidates@.len() - i2,
            {
                match self.cache_get(&qk, &candidates[i2]) {
                    Some(m) => out.push(m),
                    None => out.push(vstd::pervasive::unreached()),
                }
                i2 = i2 + 1;
            }
            out
        }
    }
    /// Matches one query against every candidate and keeps only the at most
    /// `k` best positive results, in top-K order: descending score, and
    /// ascending original index among equal scores. Small batches, or a
    /// large `k`, delegate to the batch matcher and then select; otherwise
    /// misses are pre-filtered and matched by a parallel fan-out, new
    /// positive results are merged into the memo, and a bounded selection
    /// keeps the best `k` throughout.
    #[verifier::rlimit(100)]
    pub fn match_batch_top_k(&mut self, query: &str, candidates: Vec<String>, k: usize) -> (r: Vec<
        (usize, Score, Vec<usize>),
    >)
        requires
            old(self).wf(),
        ensures
            final (self).wf(),
            final (self).spec_case_sensitive() == old(self).spec_case_sensitive(),
            final (self).spec_mode() == old(self).spec_mode(),
            r@.len() <= k,
            entries_wf(
                r@,
                topk_specs(
                    query@,
                    candidates@,
                    old(self).spec_case_sensitive(),
                    old(self).spec_mode(),
                ),
            ),
            entries_sorted(r@),
            entries_distinct(r@),
            r@.len() < k ==> forall|i: int|
                0 <= i < candidates@.len() && (#[trigger] topk_specs(
                    query@,
                    candidates@,
                    old(self).spec_case_sensitive(),
                    old(self).spec_mode(),
                )[i]).0 > 0 ==> has_index(r@, i),
            forall|i: int|
                0 <= i < candidates@.len() && (#[trigger] topk_specs(
                    query@,
                    candidates@,
                    old(self).spec_case_sensitive(),
                    old(self).spec_mode(),
                )[i]).0 > 0 && !has_index(r@, i) ==> dominates(
                    r@,
                    i,
                    topk_specs(
                        query@,
                        candidates@,
                        old(self).spec_case_sensitive(),
                        old(self).spec_mode(),
                    )[i].0,
                    topk_specs(
                        query@,
                        candidates@,
                        old(self).spec_case_sensitive(),
                        old(self).spec_mode(),
                    )[i].1,
                ),
            forall|q2: Seq<char>, c2: Seq<char>|
                old(self).cache_contains(q2, c2) ==> #[trigger] final (self).cache_contains(
                    q2,
                    c2,
                ),
            candidates@.len() == 0 || k == 0 ==> *final (self) == *old(self),
            candidates@.len() > 0 && k > 0 ==> forall|i: int|
                0 <= i < candidates@.len() && (#[trigger] topk_specs(
                    query@,
                    candidates@,
                    old(self).spec_case_sensitive(),
                    old(self).spec_mode(),
                )[i]).0 > 0 ==> final (self).cache_contains(query@, candidates@[i]@),
    {
        let ghost cs = old(self).spec_case_sensitive();
        let ghost mode = old(self).spec_mode();
        let ghost cands = candidates@;
        let ghost specs = topk_specs(query@, candidates@, cs, mode);
        proof {
            assert(specs.len() == cands.len());
            assert forall|j: int| 0 <= j < cands.len() implies (#[trigger] specs[j]) == match_spec(
                query@,
                cands[j]@,
                cs,
                mode,
            ) && specs[j].0 >= 0 && specs[j].1 >= 1 by {
                lemma_match_spec_valid(query@, cands[j]@, cs, mode);
            }
        }
        if candidates.len() == 0 || k == 0 {
            let r: Vec<(usize, Score, Vec<usize>)> = Vec::new();
            return r;
        }
        if candidates.len() < PARALLEL_THRESHOLD || k >= candidates.len() / 2 {
            let batch = self.match_batch(query, candidates);
            let mut items: Vec<(usize, MatchResult)> = Vec::new();
            let mut i: usize = 0;
            while i < batch.len()
                invariant
                    i <= batch@.len(),
                    batch@.len() == cands.len(),
                    specs.len() == cands.len(),
                    forall|j: int|
                        0 <= j < cands.len() ==> (#[trigger] specs[j]).0 >= 0 && specs[j].1 >= 1,
                    forall|j: int|
                        0 <= j < batch@.len() ==> result_matches(
                            &(#[trigger] batch@[j]),
                            specs[j],
                        ),
                    items_wf(items@, specs),
                    forall|t: int| 0 <= t < items@.len() ==> (#[trigger] items@[t]).0 < i,
                    forall|j: int|
                        0 <= j < i && (#[trigger] specs[j]).0 > 0 ==> items_have_index(
                            items@,
                            items@.len() as int,
                            j,
                        ),
                decreases batch@.len() - i,
            {
                let ghost items0 = items@;
                if batch[i].score.is_positive() {
                    items.push((i, batch[i].duplicate()));
                    proof {
                        assert(items@[items@.len() - 1].0 == i);
                        assert(result_matches(&items@[items@.len() - 1].1, specs[i as int]));
                        assert forall|j: int|
                            0 <= j < i + 1 && (#[trigger] specs[j]).0 > 0 implies items_have_index(
                            items@,
                            items@.len() as int,
                            j,
                        ) by {
                            if j == i as int {
                                assert(items@[items@.len() - 1].0 == j);
                            } else {
                                let u = choose|u: int|
                                    0 <= u < items0.len() && (#[trigger] items0[u]).0 == j;
                                assert(items@[u].0 == j);
                            }
                        }
                    }
                } else {
                    proof {
                        assert(specs[i as int].0 == batch@[i as int].score.num);
                    }
                }
                i = i + 1;
            }
            let r = select_top_k(&items, k, Ghost(specs));
            proof {
                lemma_select_translate(r@, items@, k as int, specs);
            }
            r
        } else {
            let qk = query.to_owned();
            let mut items: Vec<(usize, MatchResult)> = Vec::new();
            let mut misses: Vec<(usize, String)> = Vec::new();
            let mut i: usize = 0;
            while i < candidates.len()
                invariant
                    *self == *old(self),
                    old(self).wf(),
                    qk@ == query@,
                    i <= cands.len(),
                    cands == candidates@,
                    specs.len() == cands.len(),
                    forall|j: int|
                        0 <= j < cands.len() ==> (#[trigger] specs[j]) == match_spec(
                            query@,
                            cands[j]@,
                            cs,
                            mode,
                        ) && specs[j].0 >= 0 && specs[j].1 >= 1,
                    cs == old(self).spec_case_sensitive(),
                    mode == old(self).spec_mode(),
                    forall|t: int|
                        0 <= t < misses@.len() ==> (#[trigger] misses@[t]).0 < i
                            && misses@[t].1@ == cands[misses@[t].0 as int]@,
                    forall|t1: int, t2: int|
                        0 <= t1 < t2 < misses@.len() ==> (#[trigger] misses@[t1]).0 < (
                        #[trigger] misses@[t2]).0,
                    items_wf(items@, specs),
                    forall|t: int| 0 <= t < items@.len() ==> (#[trigger] items@[t]).0 < i,
                    forall|t1: int, t2: int|
                        0 <= t1 < items@.len() && 0 <= t2 < misses@.len() ==> (
                        #[trigger] items@[t1]).0 != (#[trigger] misses@[t2]).0,
                    forall|j: int|
                        0 <= j < i && (#[trigger] specs[j]).0 > 0 ==> items_have_index(
                            items@,
                            items@.len() as int,
                            j,
                        ) || misses_have_index(misses@, 0, misses@.len() as int, j),
                    forall|j: int|
                        0 <= j < i ==> old(self).cache_contains(query@, (#[trigger] cands[j])@)
                            || misses_have_index(misses@, 0, misses@.len() as int, j),
                decreases cands.len() - i,
            {
                let ghost items0 = items@;
                let ghost misses0 = misses@;
                match self.cache_get(&qk, &candidates[i]) {
                    Some(m) => {
                        if m.score.is_positive() {
                            items.push((i, m));
                            proof {
                                assert(items@[items@.len() - 1].0 == i);
                                assert(result_matches(
                                    &items@[items@.len() - 1].1,
                                    specs[i as int],
                                ));
                            }
                        } else {
                            proof {
                                assert(specs[i as int].0 == m.score.num);
                            }
                        }
                    },
                    None => {
                        misses.push((i, candidates[i].clone()));
                        proof {
                            assert(misses@[misses@.len() - 1].0 == i);
                        }
                    },
                }
                proof {
                    assert forall|j: int|
                        0 <= j < i + 1 && !old(self).cache_contains(
                            query@,
                            (#[trigger] cands[j])@,
                        ) implies misses_have_index(misses@, 0, misses@.len() as int, j) by {
                        if j == i as int {
                        } else {
                            let u = choose|u: int|
                                0 <= u < misses0.len() && (#[trigger] misses0[u]).0 == j;
                            assert(misses@[u].0 == j);
                        }
                    }
                    assert forall|j: int|
                        0 <= j < i + 1 && (#[trigger] specs[j]).0 > 0 implies items_have_index(
                        items@,
                        items@.len() as int,
                        j,
                    ) || misses_have_index(misses@, 0, misses@.len() as int, j) by {
                        if j == i as int {
                        } else {
                            if items_have_index(items0, items0.len() as int, j) {
                                let u = choose|u: int|
                                    0 <= u < items0.len() && (#[trigger] items0[u]).0 == j;
                                assert(items@[u].0 == j);
                            } else if misses_have_index(misses0, 0, misses0.len() as int, j) {
                                let u = choose|u: int|
                                    0 <= u < misses0.len() && (#[trigger] misses0[u]).0 == j;
                                assert(misses@[u].0 == j);
                            }
                        }
                    }
                }
                i = i + 1;
            }
            let computed = crate::par::par_match(
                query,
                self.case_sensitive,
                self.scoring_mode,
                &misses,
                true,
            );
            proof {
                assert forall|u: int| 0 <= u < computed@.len() implies result_matches(
                    &(#[trigger] computed@[u]).2,
                    specs[computed@[u].0 as int],
                ) && computed@[u].0 == misses@[u].0 by {
                    assert(misses@[u].1@ == cands[misses@[u].0 as int]@);
                    assert(result_matches(
                        &computed@[u].2,
                        match_spec(query@, misses@[u].1@, cs, mode),
                    ));
                }
            }
            let ghost items1 = items@;
            let mut t: usize = 0;
            while t < computed.len()
                invariant
                    self.wf(),
                    self.spec_case_sensitive() == cs,
                    self.spec_mode() == mode,
                    qk@ == query@,
                    t <= computed@.len(),
                    cands == candidates@,
                    specs.len() == cands.len(),
                    forall|j: int|
                        0 <= j < cands.len() ==> (#[trigger] specs[j]) == match_spec(
                            query@,
                            cands[j]@,
                            cs,
                            mode,
                        ) && specs[j].0 >= 0 && specs[j].1 >= 1,
                    computed@.len() == misses@.len(),
                    forall|u: int|
                        0 <= u < computed@.len() ==> result_matches(
                            &(#[trigger] computed@[u]).2,
                            specs[computed@[u].0 as int],
                        ) && computed@[u].0 == misses@[u].0 && computed@[u].1@
                            == misses@[u].1@,
                    forall|u: int|
                        0 <= u < misses@.len() ==> (#[trigger] misses@[u]).0 < cands.len()
                            && misses@[u].1@ == cands[misses@[u].0 as int]@,
                    forall|u1: int, u2: int|
                        0 <= u1 < u2 < misses@.len() ==> (#[trigger] misses@[u1]).0 < (
                        #[trigger] misses@[u2]).0,
                    items_wf(items@, specs),
                    items1.len() <= items@.len(),
                    forall|j: int| 0 <= j < items1.len() ==> #[trigger] items@[j] == items1[j],
                    forall|t1: int, t2: int|
                        0 <= t1 < items1.len() && 0 <= t2 < misses@.len() ==> (
                        #[trigger] items1[t1]).0 != (#[trigger] misses@[t2]).0,
                    forall|j: int|
                        items1.len() <= j < items@.len() ==> misses_have_index(
                            misses@,
                            0,
                            t as int,
                            (#[trigger] items@[j]).0 as int,
                        ),
                    forall|j: int|
                        0 <= j < cands.len() && (#[trigger] specs[j]).0 > 0 ==> items_have_index(
                            items@,
                            items@.len() as int,
                            j,
                        ) || misses_have_index(misses@, t as int, misses@.len() as int, j),
                    forall|q2: Seq<char>, c2: Seq<char>|
                        old(self).cache_contains(q2, c2) ==> #[trigger] self.cache_contains(
                            q2,
                            c2,
                        ),
                    forall|u: int|
                        0 <= u < t && specs[(#[trigger] computed@[u]).0 as int].0 > 0
                            ==> self.cache_contains(query@, cands[computed@[u].0 as int]@),
                decreases computed@.len() - t,
            {
                let ghost items0 = items@;
                let idx = computed[t].0;
                if computed[t].2.score.is_positive() {
                    let ck = computed[t].1.clone();
                    proof {
                        assert(computed@[t as int].1@ == cands[idx as int]@);
                    }
                    self.cache_insert(qk.clone(), ck, computed[t].2.duplicate());
                    let m2 = computed[t].2.duplicate();
                    proof {
                        assert(self.cache_contains(query@, cands[idx as int]@));
                    }
                    proof {
                        // The fresh index is distinct from everything held.
                        assert forall|j: int| 0 <= j < items0.len() implies (
                        #[trigger] items0[j]).0 != idx by {
                            if j >= items1.len() {
                                assert(misses_have_index(
                                    misses@,
                                    0,
                                    t as int,
                                    items0[j].0 as int,
                                ));
                                let u = choose|u: int|
                                    0 <= u < t && (#[trigger] misses@[u]).0 == items0[j].0 as int;
                                assert(misses@[u].0 < misses@[t as int].0);
                            } else {
                                assert(items1[j].0 != misses@[t as int].0);
                            }
                        }
                    }
                    items.push((idx, m2));
                    proof {
                        assert(items@[items@.len() - 1].0 == idx);
                        assert(result_matches(&items@[items@.len() - 1].1, specs[idx as int]));
                        assert(forall|j: int|
                            0 <= j < items0.len() ==> #[trigger] items@[j] == items0[j]);
                    }
                } else {
                    proof {
                        assert(specs[idx as int].0 == computed@[t as int].2.score.num);
                    }
                }
                proof {
                    assert forall|j: int|
                        0 <= j < cands.len() && (#[trigger] specs[j]).0 > 0 implies items_have_index(
                        items@,
                        items@.len() as int,
                        j,
                    ) || misses_have_index(misses@, t as int + 1, misses@.len() as int, j) by {
                        if items_have_index(items0, items0.len() as int, j) {
                            let u = choose|u: int|
                                0 <= u < items0.len() && (#[trigger] items0[u]).0 == j;
                            assert(items@[u].0 == j);
                        } else if misses_have_index(misses@, t as int, misses@.len() as int, j) {
                            let u = choose|u: int|
                                t <= u < misses@.len() && (#[trigger] misses@[u]).0 == j;
                            if u == t as int {
                                assert(j == idx as int);
                                assert(specs[j].0 > 0);
                                assert(items@[items@.len() - 1].0 == j);
                            } else {
                                assert(misses_have_index(
                                    misses@,
                                    t as int + 1,
                                    misses@.len() as int,
                                    j,
                                ));
                            }
                        }
                    }
                }
                t = t + 1;
            }
            proof {
                assert forall|j: int|
                    0 <= j < cands.len() && (#[trigger] specs[j]).0 > 0 implies items_have_index(
                    items@,
                    items@.len() as int,
                    j,
                ) by {
                    assert(!misses_have_index(misses@, t as int, misses@.len() as int, j));
                }
                assert forall|j: int|
                    0 <= j < cands.len() && (#[trigger] specs[j]).0 > 0 implies self.cache_contains(
                    query@,
                    cands[j]@,
                ) by {
                    if old(self).cache_contains(query@, cands[j]@) {
                    } else {
                        let u = choose|u: int|
                            0 <= u < misses@.len() && (#[trigger] misses@[u]).0 == j;
                        assert(computed@[u].0 == j);
                        assert(result_matches(&computed@[u].2, specs[j]));
                        assert(self.cache_contains(query@, cands[computed@[u].0 as int]@));
                    }
                }
            }
            let r = select_top_k(&items, k, Ghost(specs));
            proof {
                lemma_select_translate(r@, items@, k as int, specs);
            }
            r
        }
    }
}

/// Below this many candidates a batch is matched serially: the overhead of
/// the parallel fan-out exceeds its benefit.
pub const PARALLEL_THRESHOLD: usize = 1000;

} // verus!
