//! The single-pair matching pipeline: case folding, the single-character
//! fast path, occurrence lists, alignment enumeration, scoring, and the
//! best-alignment reduction.

use crate::alignments::all_alignments;
use crate::alignments::alignment_ok;
use crate::alignments::get_all_offsets;
use crate::alignments::ints_view;
use crate::alignments::lemma_alignments_sound;
use crate::alignments::lists_view;
use crate::chars::chars_vec;
use crate::chars::lower_of;
use crate::chars::to_lower;
use crate::positions::find_occurrences;
use crate::positions::lemma_occurrences_empty;
use crate::positions::lemma_occurrences_sound;
use crate::positions::letter_lists;
use crate::positions::occurrences;
use crate::score::is_first_letter;
use crate::score::is_first_letter_at;
use crate::score::lemma_score_num_positive;
use crate::score::score_den_of;
use crate::score::score_num_of;
use crate::score::score_positions;
use crate::score::Score;
use crate::score::ScoringMode;
use crate::score::MAX_QUERY_LEN;
use vstd::prelude::*;

verus! {

/// The best alignment for one query and candidate: an exact score and the
/// chosen candidate indices, or the sentinel `(0, [])` when nothing matches.
pub struct MatchResult {
    pub score: Score,
    pub positions: Vec<usize>,
}

/// The sentinel spec result for "no match".
pub open spec fn sentinel() -> (int, int, Seq<int>) {
    (0, 1, Seq::empty())
}

/// Whether an executable result carries exactly the spec result `s`.
pub open spec fn result_matches(r: &MatchResult, s: (int, int, Seq<int>)) -> bool {
    &&& r.score.num == s.0
    &&& r.score.den == s.1
    &&& ints_view(r.positions@) == s.2
}

impl MatchResult {
    /// A fresh copy of this result.
    pub fn duplicate(&self) -> (r: MatchResult)
        ensures
            r.score == self.score,
            r.positions@ == self.positions@,
    {
        let mut positions: Vec<usize> = Vec::new();
        let mut k: usize = 0;
        while k < self.positions.len()
            invariant
                k <= self.positions@.len(),
                positions@ == self.positions@.subrange(0, k as int),
            decreases self.positions@.len() - k,
        {
            positions.push(self.positions[k]);
            k = k + 1;
            proof {
                assert(positions@ =~= self.positions@.subrange(0, k as int));
            }
        }
        proof {
            assert(positions@ =~= self.positions@);
        }
        MatchResult { score: self.score, positions }
    }
}

/// The first index at or after `from` where `qc` occurs at a first-letter
/// position of `c`.
pub open spec fn first_boosted_occ(c: Seq<char>, qc: char, mode: ScoringMode, from: int) -> Option<
    int,
>
    decreases c.len() - from,
{
    if from < 0 || from >= c.len() {
        None
    } else if c[from] == qc && is_first_letter(c, mode, from) {
        Some(from)
    } else {
        first_boosted_occ(c, qc, mode, from + 1)
    }
}

/// The first index at or after `from` where `qc` occurs in `c`.
pub open spec fn first_occ(c: Seq<char>, qc: char, from: int) -> Option<int>
    decreases c.len() - from,
{
    if from < 0 || from >= c.len() {
        None
    } else if c[from] == qc {
        Some(from)
    } else {
        first_occ(c, qc, from + 1)
    }
}

/// The fast-path result for a one-character query: the first occurrence on a
/// first-letter position scores 4, else the first occurrence anywhere scores
/// 1, else the sentinel. These fixed scores deliberately differ from what
/// the general formula would give for a single matched character.
pub open spec fn single_char_spec(qc: char, c: Seq<char>, mode: ScoringMode) -> (int, int, Seq<
    int,
>) {
    match first_boosted_occ(c, qc, mode, 0) {
        Some(p) => (4, 1, seq![p]),
        None => match first_occ(c, qc, 0) {
            Some(p) => (1, 1, seq![p]),
            None => sentinel(),
        },
    }
}

pub proof fn lemma_first_boosted_occ_sound(c: Seq<char>, qc: char, mode: ScoringMode, from: int)
    ensures
        match first_boosted_occ(c, qc, mode, from) {
            Some(p) => from <= p < c.len() && c[p] == qc && is_first_letter(c, mode, p),
            None => true,
        },
    decreases c.len() - from,
{
    if from < 0 || from >= c.len() {
    } else if c[from] == qc && is_first_letter(c, mode, from) {
    } else {
        lemma_first_boosted_occ_sound(c, qc, mode, from + 1);
    }
}

pub proof fn lemma_first_occ_sound(c: Seq<char>, qc: char, from: int)
    requires
        0 <= from,
    ensures
        match first_occ(c, qc, from) {
            Some(p) => from <= p < c.len() && c[p] == qc,
            None => forall|p: int| from <= p < c.len() ==> c[p] != qc,
        },
    decreases c.len() - from,
{
    if from < 0 || from >= c.len() {
    } else if c[from] == qc {
    } else {
        lemma_first_occ_sound(c, qc, from + 1);
    }
}

/// The fast path for single-character queries: one scan of the candidate.
pub fn match_single_char(qc: char, c: &Vec<char>, mode: ScoringMode) -> (r: MatchResult)
    ensures
        result_matches(&r, single_char_spec(qc, c@, mode)),
{
    let mut plain: Option<usize> = None;
    let mut idx: usize = 0;
    while idx < c.len()
        invariant
            idx <= c@.len(),
            first_boosted_occ(c@, qc, mode, 0) == first_boosted_occ(c@, qc, mode, idx as int),
            match plain {
                Some(p) => first_occ(c@, qc, 0) == Some(p as int) && (p as int) < idx,
                None => first_occ(c@, qc, 0) == first_occ(c@, qc, idx as int),
            },
        decreases c@.len() - idx,
    {
        if c[idx] == qc {
            if is_first_letter_at(c, mode, idx) {
                let mut positions: Vec<usize> = Vec::new();
                positions.push(idx);
                proof {
                    assert(first_boosted_occ(c@, qc, mode, idx as int) == Some(idx as int));
                    assert(ints_view(positions@) =~= seq![idx as int]);
                }
                return MatchResult { score: Score { num: 4, den: 1 }, positions };
            }
            if plain.is_none() {
                plain = Some(idx);
            }
        }
        idx = idx + 1;
    }
    match plain {
        Some(p) => {
            let mut positions: Vec<usize> = Vec::new();
            positions.push(p);
            proof {
                assert(ints_view(positions@) =~= seq![p as int]);
            }
            MatchResult { score: Score { num: 1, den: 1 }, positions }
        },
        None => {
            proof {
                assert(ints_view(Seq::<usize>::empty()) =~= Seq::<int>::empty());
            }
            MatchResult { score: Score { num: 0, den: 1 }, positions: Vec::new() }
        },
    }
}

/// Prepends already-built occurrence lists to the outcome for the remaining
/// query characters.
pub open spec fn ll_extend(prefix: Seq<Seq<int>>, rest: Option<Seq<Seq<int>>>) -> Option<
    Seq<Seq<int>>,
> {
    match rest {
        None => None,
        Some(r) => Some(prefix + r),
    }
}

/// Builds the per-query-character occurrence lists, or reports that some
/// query character has no occurrence left.
pub fn build_letter_lists(q: &Vec<char>, c: &Vec<char>) -> (r: Option<Vec<Vec<usize>>>)
    requires
        q@.len() <= c@.len(),
    ensures
        match r {
            None => letter_lists(q@, c@, 0, 0) is None,
            Some(lp) => letter_lists(q@, c@, 0, 0) == Some(lists_view(lp@)) && lp@.len()
                == q@.len(),
        },
{
    let qlen = q.len();
    let clen = c.len();
    let mut lp: Vec<Vec<usize>> = Vec::new();
    let mut i: usize = 0;
    let mut cursor: usize = 0;
    while i < qlen
        invariant
            qlen == q@.len(),
            clen == c@.len(),
            qlen <= clen,
            i <= qlen,
            i <= cursor,
            lp@.len() == i,
            letter_lists(q@, c@, 0, 0) == ll_extend(
                lists_view(lp@),
                letter_lists(q@, c@, i as int, cursor as int),
            ),
        decreases qlen - i,
    {
        if cursor >= clen {
            proof {
                assert(occurrences(c@, q@[i as int], cursor as int, c@.len() - q@.len() + i
                    + 1) =~= Seq::<int>::empty());
                assert(letter_lists(q@, c@, i as int, cursor as int) is None);
            }
            return None;
        }
        let bound = clen - qlen + i + 1;
        let occ = find_occurrences(c, q[i], cursor, bound);
        proof {
            lemma_occurrences_sound(c@, q@[i as int], cursor as int, bound as int);
        }
        if occ.len() == 0 {
            proof {
                assert(letter_lists(q@, c@, i as int, cursor as int) is None);
            }
            return None;
        }
        let first = occ[0];
        proof {
            assert(ints_view(occ@)[0] == occ@[0] as int);
            assert(occurrences(c@, q@[i as int], cursor as int, bound as int)[0] == first as int);
            assert(first < clen);
        }
        let ghost old_lp = lp@;
        let ghost i0 = i as int;
        let ghost cur0 = cursor as int;
        let ghost occ_spec = occurrences(c@, q@[i0], cur0, bound as int);
        lp.push(occ);
        cursor = first + 1;
        i = i + 1;
        proof {
            assert(bound as int == c@.len() - q@.len() + i0 + 1);
            assert(lists_view(lp@) =~= lists_view(old_lp) + seq![occ_spec]);
            assert(occ_spec[0] == first as int);
            assert(i as int == i0 + 1 && cursor as int == occ_spec[0] + 1);
            let rest = letter_lists(q@, c@, i0 + 1, occ_spec[0] + 1);
            if rest is None {
                assert(letter_lists(q@, c@, i0, cur0) is None);
            } else {
                let r = rest->0;
                assert(letter_lists(q@, c@, i0, cur0) == Some(seq![occ_spec] + r));
                assert((lists_view(old_lp) + seq![occ_spec]) + r =~= lists_view(old_lp) + (
                seq![occ_spec] + r));
            }
        }
    }
    proof {
        assert(letter_lists(q@, c@, i as int, cursor as int) == Some(Seq::<Seq<int>>::empty()));
        assert(lists_view(lp@) + Seq::<Seq<int>>::empty() =~= lists_view(lp@));
    }
    Some(lp)
}

/// Every list holds genuine occurrences: indices into `c` at which the
/// matching query character stands.
pub proof fn lemma_letter_lists_sound(q: Seq<char>, c: Seq<char>, i: int, cursor: int)
    requires
        0 <= i <= q.len(),
        0 <= cursor,
        letter_lists(q, c, i, cursor) is Some,
    ensures
        letter_lists(q, c, i, cursor)->0.len() == q.len() - i,
        forall|t: int, j: int|
            0 <= t < q.len() - i && 0 <= j < letter_lists(q, c, i, cursor)->0[t].len() ==> {
                let p = #[trigger] letter_lists(q, c, i, cursor)->0[t][j];
                0 <= p < c.len() && c[p] == q[i + t]
            },
    decreases q.len() - i,
{
    if i >= q.len() {
    } else {
        let occ = occurrences(c, q[i], cursor, c.len() - q.len() + i + 1);
        lemma_occurrences_sound(c, q[i], cursor, c.len() - q.len() + i + 1);
        let rest = letter_lists(q, c, i + 1, occ[0] + 1);
        lemma_letter_lists_sound(q, c, i + 1, occ[0] + 1);
        let ls = letter_lists(q, c, i, cursor)->0;
        assert(ls == seq![occ] + rest->0);
        assert(ls[0] == occ);
        assert(forall|t: int| 1 <= t < ls.len() ==> ls[t] == rest->0[t - 1]);
    }
}

/// The first-encountered highest-scoring alignment among `aligns[0..k]`: a
/// later alignment replaces the running best only when it scores strictly
/// higher.
pub open spec fn best_upto(
    c: Seq<char>,
    mode: ScoringMode,
    aligns: Seq<Seq<int>>,
    k: int,
) -> Seq<int>
    decreases k,
{
    if k <= 1 {
        aligns[0]
    } else {
        let prev = best_upto(c, mode, aligns, k - 1);
        let cand = aligns[k - 1];
        if crate::score::score_lt(
            score_num_of(c, mode, prev),
            score_den_of(prev),
            score_num_of(c, mode, cand),
            score_den_of(cand),
        ) {
            cand
        } else {
            prev
        }
    }
}

pub proof fn lemma_best_upto_is_element(c: Seq<char>, mode: ScoringMode, aligns: Seq<Seq<int>>, k: int)
    requires
        1 <= k <= aligns.len(),
    ensures
        exists|t: int| 0 <= t < k && best_upto(c, mode, aligns, k) == aligns[t],
    decreases k,
{
    if k <= 1 {
        assert(best_upto(c, mode, aligns, k) == aligns[0]);
    } else {
        lemma_best_upto_is_element(c, mode, aligns, k - 1);
    }
}

/// Folds all alignments down to the single best-scoring one, keeping the
/// first on ties.
pub fn best_match(c: &Vec<char>, mode: ScoringMode, aligns: &Vec<Vec<usize>>) -> (r: MatchResult)
    requires
        aligns@.len() >= 1,
        forall|k: int|
            0 <= k < aligns@.len() ==> 1 <= (#[trigger] aligns@[k])@.len() <= MAX_QUERY_LEN,
        forall|k: int, t: int|
            0 <= k < aligns@.len() && 0 <= t < aligns@[k]@.len() ==> (#[trigger] aligns@[k]@[t])
                < c@.len(),
    ensures
        ({
            let av = aligns@.map_values(|v: Vec<usize>| ints_view(v@));
            let b = best_upto(c@, mode, av, av.len() as int);
            result_matches(&r, (score_num_of(c@, mode, b), score_den_of(b), b))
        }),
{
    let ghost av = aligns@.map_values(|v: Vec<usize>| ints_view(v@));
    let mut best_idx: usize = 0;
    let mut best_score: Score = score_positions(c, mode, &aligns[0]);
    let mut k: usize = 1;
    while k < aligns.len()
        invariant
            av == aligns@.map_values(|v: Vec<usize>| ints_view(v@)),
            1 <= k <= aligns@.len(),
            best_idx < k,
            forall|j: int|
                0 <= j < aligns@.len() ==> 1 <= (#[trigger] aligns@[j])@.len() <= MAX_QUERY_LEN,
            forall|j: int, t: int|
                0 <= j < aligns@.len() && 0 <= t < aligns@[j]@.len() ==> (#[trigger] aligns@[j]@[t])
                    < c@.len(),
            av[best_idx as int] == best_upto(c@, mode, av, k as int),
            best_score.num == score_num_of(c@, mode, av[best_idx as int]),
            best_score.den == score_den_of(av[best_idx as int]),
            best_score.num >= 1,
            best_score.den >= 1,
        decreases aligns@.len() - k,
    {
        let s = score_positions(c, mode, &aligns[k]);
        if s.gt(&best_score) {
            best_idx = k;
            best_score = s;
        }
        k = k + 1;
    }
    let positions = crate::alignments::copy_indices(&aligns[best_idx]);
    MatchResult { score: best_score, positions }
}

/// A character sequence after the matcher's case normalization: unchanged
/// when case-sensitive, lowercase-folded otherwise.
pub open spec fn folded(s: Seq<char>, case_sensitive: bool) -> Seq<char> {
    if case_sensitive {
        s
    } else {
        lower_of(s)
    }
}

/// The result of matching an already-folded query against an already-folded
/// candidate: the sentinel for an empty query, the fast path for a
/// one-character query, and otherwise the best-scoring alignment drawn from
/// the occurrence lists — or the sentinel when none exists. Queries longer
/// than `MAX_QUERY_LEN` report "no match" rather than risk a score outside
/// 64 bits.
pub open spec fn match_chars(fq: Seq<char>, fc: Seq<char>, mode: ScoringMode) -> (int, int, Seq<
    int,
>) {
    if fq.len() == 0 {
        sentinel()
    } else if fq.len() == 1 {
        single_char_spec(fq[0], fc, mode)
    } else if fq.len() > MAX_QUERY_LEN {
        sentinel()
    } else {
        match letter_lists(fq, fc, 0, 0) {
            None => sentinel(),
            Some(lp) => {
                let aligns = all_alignments(lp, 0, -1);
                if aligns.len() == 0 {
                    sentinel()
                } else {
                    let b = best_upto(fc, mode, aligns, aligns.len() as int);
                    (score_num_of(fc, mode, b), score_den_of(b), b)
                }
            },
        }
    }
}

/// The result of matching a raw query against a raw candidate under the
/// given configuration.
pub open spec fn match_spec(
    q: Seq<char>,
    c: Seq<char>,
    case_sensitive: bool,
    mode: ScoringMode,
) -> (int, int, Seq<int>) {
    if q.len() == 0 {
        sentinel()
    } else {
        match_chars(folded(q, case_sensitive), folded(c, case_sensitive), mode)
    }
}

/// The sentinel as an executable result.
pub fn sentinel_result() -> (r: MatchResult)
    ensures
        result_matches(&r, sentinel()),
{
    proof {
        assert(ints_view(Seq::<usize>::empty()) =~= Seq::<int>::empty());
    }
    MatchResult { score: Score { num: 0, den: 1 }, positions: Vec::new() }
}

/// Whether `qc` occurs anywhere in `c`.
pub fn contains_char(c: &Vec<char>, qc: char) -> (r: bool)
    ensures
        r == exists|p: int| 0 <= p < c@.len() && c@[p] == qc,
{
    let mut idx: usize = 0;
    while idx < c.len()
        invariant
            idx <= c@.len(),
            forall|p: int| 0 <= p < idx ==> c@[p] != qc,
        decreases c@.len() - idx,
    {
        if c[idx] == qc {
            return true;
        }
        idx = idx + 1;
    }
    false
}

/// If some query character at or beyond position `k` never occurs in the
/// candidate, no complete set of occurrence lists exists.
pub proof fn lemma_absent_char_no_lists(q: Seq<char>, c: Seq<char>, i: int, cursor: int, k: int)
    requires
        0 <= i <= k < q.len(),
        0 <= cursor,
        forall|p: int| 0 <= p < c.len() ==> c[p] != q[k],
    ensures
        letter_lists(q, c, i, cursor) is None,
    decreases q.len() - i,
{
    let occ = occurrences(c, q[i], cursor, c.len() - q.len() + i + 1);
    if occ.len() == 0 {
    } else {
        lemma_occurrences_sound(c, q[i], cursor, c.len() - q.len() + i + 1);
        if k == i {
            assert(c[occ[0]] == q[i]);
            assert(false);
        } else {
            lemma_absent_char_no_lists(q, c, i + 1, occ[0] + 1, k);
        }
    }
}

/// A strictly increasing sequence of non-negative integers grows at least as
/// fast as its index.
proof fn lemma_increasing_lower_bound(s: Seq<int>, t: int)
    requires
        0 <= t < s.len(),
        forall|u: int| 0 <= u < s.len() ==> #[trigger] s[u] >= 0,
        forall|u: int| 1 <= u < s.len() ==> s[u - 1] < #[trigger] s[u],
    ensures
        s[t] >= t,
    decreases t,
{
    if t > 0 {
        lemma_increasing_lower_bound(s, t - 1);
    }
}

/// What a folded-level match result looks like: the score is non-negative
/// with a positive denominator; a zero score is exactly the sentinel; and a
/// positive score comes with one strictly increasing candidate position per
/// query character, reading the query out of the candidate.
pub proof fn lemma_match_chars_valid(fq: Seq<char>, fc: Seq<char>, mode: ScoringMode)
    ensures
        match_chars(fq, fc, mode).0 >= 0,
        match_chars(fq, fc, mode).1 >= 1,
        match_chars(fq, fc, mode).0 == 0 ==> match_chars(fq, fc, mode) == sentinel(),
        match_chars(fq, fc, mode).0 > 0 ==> {
            let pos = match_chars(fq, fc, mode).2;
            &&& pos.len() == fq.len()
            &&& (forall|t: int|
                0 <= t < pos.len() ==> 0 <= #[trigger] pos[t] < fc.len() && fc[pos[t]] == fq[t])
            &&& (forall|t: int| 1 <= t < pos.len() ==> pos[t - 1] < #[trigger] pos[t])
        },
{
    if fq.len() == 0 {
    } else if fq.len() == 1 {
        lemma_first_boosted_occ_sound(fc, fq[0], mode, 0);
        lemma_first_occ_sound(fc, fq[0], 0);
        let r = match_chars(fq, fc, mode);
        if first_boosted_occ(fc, fq[0], mode, 0) is Some {
            let p = first_boosted_occ(fc, fq[0], mode, 0)->0;
            assert(r.2 == seq![p]);
            assert(r.2[0] == p);
        } else if first_occ(fc, fq[0], 0) is Some {
            let p = first_occ(fc, fq[0], 0)->0;
            assert(r.2 == seq![p]);
            assert(r.2[0] == p);
        }
    } else if fq.len() > MAX_QUERY_LEN {
    } else {
        let lls = letter_lists(fq, fc, 0, 0);
        if lls is Some {
            let lp = lls->0;
            lemma_letter_lists_sound(fq, fc, 0, 0);
            let aligns = all_alignments(lp, 0, -1);
            if aligns.len() > 0 {
                lemma_best_upto_is_element(fc, mode, aligns, aligns.len() as int);
                lemma_alignments_sound(lp, 0, -1);
                let b = best_upto(fc, mode, aligns, aligns.len() as int);
                let t0 = choose|t: int| 0 <= t < aligns.len() && b == aligns[t];
                assert(alignment_ok(lp, 0, -1, aligns[t0]));
                assert(b.len() == lp.len());
                assert(lp.len() == fq.len());
                lemma_score_num_positive(fc, mode, b);
                assert forall|t: int| 0 <= t < b.len() implies 0 <= #[trigger] b[t] < fc.len()
                    && fc[b[t]] == fq[t] by {
                    assert(lp[t].contains(b[t]));
                    let j = choose|j: int| 0 <= j < lp[t].len() && lp[t][j] == b[t];
                    assert(0 <= lp[t][j] < fc.len() && fc[lp[t][j]] == fq[t]);
                    if t == 0 {
                        assert(b[0] > -1);
                    } else {
                        assert(b[t] > b[t - 1]);
                    }
                }
                assert forall|t: int| 1 <= t < b.len() implies b[t - 1] < #[trigger] b[t] by {}
            }
        }
    }
}

/// The pair-level counterpart of `lemma_match_chars_valid`, over the raw
/// query and candidate.
pub proof fn lemma_match_spec_valid(q: Seq<char>, c: Seq<char>, case_sensitive: bool, mode: ScoringMode)
    ensures
        match_spec(q, c, case_sensitive, mode).0 >= 0,
        match_spec(q, c, case_sensitive, mode).1 >= 1,
        match_spec(q, c, case_sensitive, mode).0 == 0 ==> match_spec(q, c, case_sensitive, mode)
            == sentinel(),
{
    if q.len() == 0 {
    } else {
        lemma_match_chars_valid(folded(q, case_sensitive), folded(c, case_sensitive), mode);
    }
}

/// A candidate with fewer folded characters than the folded query cannot
/// match: there is no room for one strictly increasing position per query
/// character.
pub proof fn lemma_short_candidate_sentinel(fq: Seq<char>, fc: Seq<char>, mode: ScoringMode)
    requires
        fc.len() < fq.len(),
    ensures
        match_chars(fq, fc, mode) == sentinel(),
{
    lemma_match_chars_valid(fq, fc, mode);
    let r = match_chars(fq, fc, mode);
    if r.0 > 0 {
        let pos = r.2;
        assert forall|u: int| 0 <= u < pos.len() implies #[trigger] pos[u] >= 0 by {
            if u == 0 {
            } else {
                assert(pos[u] > pos[u - 1] - 1);
            }
        }
        lemma_increasing_lower_bound(pos, pos.len() - 1);
        assert(pos[pos.len() - 1] >= fq.len() - 1);
        assert(pos[pos.len() - 1] < fc.len());
        assert(false);
    }
}

/// If some folded query character never occurs in the folded candidate, the
/// match is the sentinel, whatever else the two strings hold.
pub proof fn lemma_absent_char_sentinel(fq: Seq<char>, fc: Seq<char>, mode: ScoringMode, k: int)
    requires
        0 <= k < fq.len(),
        forall|p: int| 0 <= p < fc.len() ==> fc[p] != fq[k],
    ensures
        match_chars(fq, fc, mode) == sentinel(),
{
    if fq.len() == 1 {
        lemma_first_boosted_occ_sound(fc, fq[0], mode, 0);
        lemma_first_occ_sound(fc, fq[0], 0);
    } else if fq.len() > MAX_QUERY_LEN {
    } else {
        lemma_absent_char_no_lists(fq, fc, 0, 0, k);
    }
}

/// The verified matching pipeline over already-folded character vectors:
/// character-set pre-check, occurrence lists, alignment enumeration, and the
/// best-alignment reduction.
pub fn match_core(fq: &Vec<char>, fc: &Vec<char>, mode: ScoringMode) -> (r: MatchResult)
    ensures
        result_matches(&r, match_chars(fq@, fc@, mode)),
{
    if fq.len() == 0 {
        return sentinel_result();
    }
    if fq.len() == 1 {
        return match_single_char(fq[0], fc, mode);
    }
    if fq.len() > MAX_QUERY_LEN {
        return sentinel_result();
    }
    if fc.len() < fq.len() {
        proof {
            lemma_short_candidate_sentinel(fq@, fc@, mode);
        }
        return sentinel_result();
    }
    let mut qi: usize = 0;
    while qi < fq.len()
        invariant
            qi <= fq@.len(),
        decreases fq@.len() - qi,
    {
        if !contains_char(fc, fq[qi]) {
            proof {
                lemma_absent_char_sentinel(fq@, fc@, mode, qi as int);
            }
            return sentinel_result();
        }
        qi = qi + 1;
    }
    match build_letter_lists(fq, fc) {
        None => sentinel_result(),
        Some(lp) => {
            let mut results: Vec<Vec<usize>> = Vec::new();
            let empty_prefix: Vec<usize> = Vec::new();
            proof {
                assert(ints_view(empty_prefix@) =~= Seq::<int>::empty());
            }
            get_all_offsets(&lp, 0, empty_prefix, &mut results);
            let ghost lpv = lists_view(lp@);
            let ghost aligns = all_alignments(lpv, 0, -1);
            let ghost av = results@.map_values(|v: Vec<usize>| ints_view(v@));
            proof {
                assert(av =~= aligns.map_values(|s: Seq<int>| Seq::<int>::empty() + s));
                assert forall|t: int| 0 <= t < aligns.len() implies av[t] == aligns[t] by {
                    assert(av[t] == Seq::<int>::empty() + aligns[t]);
                    assert(Seq::<int>::empty() + aligns[t] =~= aligns[t]);
                }
                assert(av =~= aligns);
            }
            if results.len() == 0 {
                sentinel_result()
            } else {
                proof {
                    lemma_alignments_sound(lpv, 0, -1);
                    lemma_letter_lists_sound(fq@, fc@, 0, 0);
                    assert forall|k: int| 0 <= k < results@.len() implies 1 <= (
                    #[trigger] results@[k])@.len() <= MAX_QUERY_LEN by {
                        assert(alignment_ok(lpv, 0, -1, aligns[k]));
                        assert(av[k] == aligns[k]);
                        assert(results@[k]@.len() == av[k].len());
                    }
                    assert forall|k: int, t: int|
                        0 <= k < results@.len() && 0 <= t < results@[k]@.len() implies (
                    #[trigger] results@[k]@[t]) < fc@.len() by {
                        assert(alignment_ok(lpv, 0, -1, aligns[k]));
                        assert(av[k] == aligns[k]);
                        assert(av[k][t] == results@[k]@[t] as int);
                        assert(lpv[t].contains(aligns[k][t]));
                        let j = choose|j: int| 0 <= j < lpv[t].len() && lpv[t][j] == aligns[k][t];
                        assert(0 <= lpv[t][j] < fc@.len());
                    }
                }
                best_match(fc, mode, &results)
            }
        },
    }
}

/// Matches one query against one candidate under the given configuration,
/// with no cache: folds both per the configuration and runs the pipeline.
pub fn match_pair(query: &str, candidate: &str, case_sensitive: bool, mode: ScoringMode) -> (r:
    MatchResult)
    ensures
        result_matches(&r, match_spec(query@, candidate@, case_sensitive, mode)),
{
    if query.is_empty() {
        return sentinel_result();
    }
    let fq: Vec<char>;
    let fc: Vec<char>;
    if case_sensitive {
        fq = chars_vec(query);
        fc = chars_vec(candidate);
    } else {
        let ql = to_lower(query);
        let cl = to_lower(candidate);
        fq = chars_vec(ql.as_str());
        fc = chars_vec(cl.as_str());
    }
    match_core(&fq, &fc, mode)
}

/// Matches one pair as `match_pair` does, but applies the top-K selector's
/// cheap pre-filters first: a candidate with too few characters, or without
/// the query's first character, is rejected without running the pipeline.
pub fn match_pair_filtered(
    query: &str,
    candidate: &str,
    case_sensitive: bool,
    mode: ScoringMode,
) -> (r: MatchResult)
    ensures
        result_matches(&r, match_spec(query@, candidate@, case_sensitive, mode)),
{
    if query.is_empty() {
        return sentinel_result();
    }
    let fq: Vec<char>;
    let fc: Vec<char>;
    if case_sensitive {
        fq = chars_vec(query);
        fc = chars_vec(candidate);
    } else {
        let ql = to_lower(query);
        let cl = to_lower(candidate);
        fq = chars_vec(ql.as_str());
        fc = chars_vec(cl.as_str());
    }
    if fc.len() < fq.len() {
        proof {
            lemma_short_candidate_sentinel(fq@, fc@, mode);
        }
        return sentinel_result();
    }
    if fq.len() >= 1 && !contains_char(&fc, fq[0]) {
        proof {
            lemma_absent_char_sentinel(fq@, fc@, mode, 0);
        }
        return sentinel_result();
    }
    match_core(&fq, &fc, mode)
}

/// A positive match embeds the whole normalized query in the normalized
/// candidate: one strictly increasing candidate position per query
/// character, and reading the candidate at those positions yields the query.
pub proof fn lemma_match_positions_valid(
    q: Seq<char>,
    c: Seq<char>,
    case_sensitive: bool,
    mode: ScoringMode,
)
    ensures
        match_spec(q, c, case_sensitive, mode).0 > 0 ==> {
            let pos = match_spec(q, c, case_sensitive, mode).2;
            let fq = folded(q, case_sensitive);
            let fc = folded(c, case_sensitive);
            &&& pos.len() == fq.len()
            &&& (forall|t: int|
                0 <= t < pos.len() ==> 0 <= #[trigger] pos[t] < fc.len() && fc[pos[t]] == fq[t])
            &&& (forall|t: int| 1 <= t < pos.len() ==> pos[t - 1] < #[trigger] pos[t])
        },
        match_spec(q, c, case_sensitive, mode).0 == 0 <==> match_spec(
            q,
            c,
            case_sensitive,
            mode,
        ).2.len() == 0,
{
    lemma_match_spec_valid(q, c, case_sensitive, mode);
    if q.len() != 0 {
        lemma_match_chars_valid(folded(q, case_sensitive), folded(c, case_sensitive), mode);
        if match_spec(q, c, case_sensitive, mode).0 > 0 {
            assert(folded(q, case_sensitive).len() > 0);
        }
    }
}

/// An empty query matches nothing: the result is the sentinel, whatever the
/// candidate.
pub proof fn lemma_empty_query_sentinel(
    q: Seq<char>,
    c: Seq<char>,
    case_sensitive: bool,
    mode: ScoringMode,
)
    requires
        q.len() == 0,
    ensures
        match_spec(q, c, case_sensitive, mode) == sentinel(),
{
}

/// A query with a character the candidate never contains (after case
/// normalization) matches nothing: the result is the sentinel.
pub proof fn lemma_absent_query_char_sentinel(
    q: Seq<char>,
    c: Seq<char>,
    case_sensitive: bool,
    mode: ScoringMode,
    k: int,
)
    requires
        0 <= k < folded(q, case_sensitive).len(),
        forall|p: int|
            0 <= p < folded(c, case_sensitive).len() ==> folded(c, case_sensitive)[p] != folded(
                q,
                case_sensitive,
            )[k],
    ensures
        match_spec(q, c, case_sensitive, mode) == sentinel(),
{
    if q.len() != 0 {
        lemma_absent_char_sentinel(folded(q, case_sensitive), folded(c, case_sensitive), mode, k);
    }
}

/// If some embedding of the remaining query characters survives from
/// `cursor` on, the occurrence lists exist: each list picks up at least the
/// embedding's own position, and the greedy cursor never overtakes it.
proof fn lemma_lists_exist(q: Seq<char>, c: Seq<char>, i: int, cursor: int, p: Seq<int>)
    requires
        0 <= i <= q.len(),
        0 <= cursor,
        p.len() == q.len() - i,
        forall|t: int| 0 <= t < p.len() ==> 0 <= #[trigger] p[t] < c.len() && c[p[t]] == q[i + t],
        forall|t: int| 1 <= t < p.len() ==> p[t - 1] < #[trigger] p[t],
        p.len() > 0 ==> p[0] >= cursor,
    ensures
        letter_lists(q, c, i, cursor) is Some,
    decreases q.len() - i,
{
    if i == q.len() {
    } else {
        let occ = occurrences(c, q[i], cursor, c.len() - q.len() + i + 1);
        lemma_occurrences_empty(c, q[i], cursor, c.len() - q.len() + i + 1);
        assert(cursor <= p[0] < c.len() && c[p[0]] == q[i]);
        assert(occ.len() > 0);
        crate::positions::lemma_occurrences_first_minimal(c, q[i], cursor, c.len() - q.len() + i + 1);
        lemma_occurrences_sound(c, q[i], cursor, c.len() - q.len() + i + 1);
        assert(occ[0] <= p[0]);
        let p2 = p.subrange(1, p.len() as int);
        assert(forall|t: int| 0 <= t < p2.len() ==> #[trigger] p2[t] == p[t + 1]);
        if p2.len() > 0 {
            assert(p2[0] == p[1] && p[1] > p[0] && p[0] >= occ[0]);
        }
        lemma_lists_exist(q, c, i + 1, occ[0] + 1, p2);
    }
}

/// The converse of `lemma_match_chars_valid`: whenever the folded query does
/// embed in the folded candidate — one strictly increasing candidate
/// position per query character — the match succeeds with a positive score.
pub proof fn lemma_embedding_positive(q: Seq<char>, c: Seq<char>, mode: ScoringMode, p: Seq<int>)
    requires
        1 <= q.len() <= MAX_QUERY_LEN,
        p.len() == q.len(),
        forall|t: int| 0 <= t < p.len() ==> 0 <= #[trigger] p[t] < c.len() && c[p[t]] == q[t],
        forall|t: int| 1 <= t < p.len() ==> p[t - 1] < #[trigger] p[t],
    ensures
        match_chars(q, c, mode).0 > 0,
{
    if q.len() == 1 {
        lemma_first_boosted_occ_sound(c, q[0], mode, 0);
        lemma_first_occ_sound(c, q[0], 0);
        if first_boosted_occ(c, q[0], mode, 0) is None && first_occ(c, q[0], 0) is None {
            assert(c[p[0]] != q[0]);
            assert(false);
        }
    } else {
        lemma_lists_exist(q, c, 0, 0, p);
        let lp = letter_lists(q, c, 0, 0)->0;
        crate::positions::lemma_letter_lists_chain(q, c, 0, 0);
        lemma_letter_lists_sound(q, c, 0, 0);
        assert(lp.len() == q.len());
        assert(lp[0].len() > 0);
        lemma_alignments_sound(lp, 0, -1);
        crate::alignments::lemma_alignments_nonempty(lp, 0, -1);
        let aligns = all_alignments(lp, 0, -1);
        lemma_best_upto_is_element(c, mode, aligns, aligns.len() as int);
        let b = best_upto(c, mode, aligns, aligns.len() as int);
        let t0 = choose|t: int| 0 <= t < aligns.len() && b == aligns[t];
        assert(alignment_ok(lp, 0, -1, aligns[t0]));
        assert(b.len() == q.len());
        lemma_score_num_positive(c, mode, b);
    }
}

/// Success, stated over the raw strings: a query whose normalized form
/// embeds in the normalized candidate, and is not longer than
/// `MAX_QUERY_LEN`, always scores above zero.
pub proof fn lemma_embedded_query_matches(
    q: Seq<char>,
    c: Seq<char>,
    case_sensitive: bool,
    mode: ScoringMode,
    p: Seq<int>,
)
    requires
        q.len() > 0,
        1 <= folded(q, case_sensitive).len() <= MAX_QUERY_LEN,
        p.len() == folded(q, case_sensitive).len(),
        forall|t: int|
            0 <= t < p.len() ==> 0 <= #[trigger] p[t] < folded(c, case_sensitive).len() && folded(
                c,
                case_sensitive,
            )[p[t]] == folded(q, case_sensitive)[t],
        forall|t: int| 1 <= t < p.len() ==> p[t - 1] < #[trigger] p[t],
    ensures
        match_spec(q, c, case_sensitive, mode).0 > 0,
{
    lemma_embedding_positive(folded(q, case_sensitive), folded(c, case_sensitive), mode, p);
}

/// Matches one pair, with or without the top-K pre-filters; either way the
/// result is exactly the pair's match.
pub fn match_one(
    query: &str,
    candidate: &str,
    case_sensitive: bool,
    mode: ScoringMode,
    prefiltered: bool,
) -> (r: MatchResult)
    ensures
        result_matches(&r, match_spec(query@, candidate@, case_sensitive, mode)),
{
    if prefiltered {
        match_pair_filtered(query, candidate, case_sensitive, mode)
    } else {
        match_pair(query, candidate, case_sensitive, mode)
    }
}

} // verus!
