//! Exact rational match scores, their ordering, and the scoring of one
//! alignment.

use crate::chars::char_is_word;
use crate::chars::is_word_char;
use vstd::prelude::*;

verus! {

/// The longest query (in folded code points) the general scoring path
/// accepts; beyond it the score numerator could no longer be computed in 64
/// bits, and the matcher reports "no match" instead.
pub const MAX_QUERY_LEN: usize = 1048576;

/// How first-letter positions are chosen when scoring.
#[derive(Clone, Copy, Debug, PartialEq, Eq, Structural)]
pub enum ScoringMode {
    /// First letters start each maximal run of word characters.
    Default,
    /// First letters are index 0 and every index right after a `/`.
    Path,
}

/// A match score as an exact non-negative rational `num / den`.
///
/// `num == 0` is the sentinel for "no match"; the general scoring formula
/// always has denominator `m * m` for an alignment of `m` positions, and the
/// single-character fast path and the sentinel use denominator 1.
#[derive(Clone, Copy, Debug, PartialEq, Eq, Structural)]
pub struct Score {
    pub num: u64,
    pub den: u64,
}

/// `a/b < c/d` for rationals with positive denominators, by cross
/// multiplication.
pub open spec fn score_lt(a_num: int, a_den: int, b_num: int, b_den: int) -> bool {
    a_num * b_den < b_num * a_den
}

impl Score {
    /// Whether this score is strictly greater than `other`, as rationals.
    pub fn gt(&self, other: &Score) -> (r: bool)
        requires
            self.den >= 1,
            other.den >= 1,
        ensures
            r == score_lt(other.num as int, other.den as int, self.num as int, self.den as int),
    {
        proof {
            assert((other.num as u128) * (self.den as u128) < 0x100000000000000000000000000000000
                && (self.num as u128) * (other.den as u128)
                < 0x100000000000000000000000000000000) by (nonlinear_arith)
                requires
                    other.num <= u64::MAX,
                    self.den <= u64::MAX,
                    self.num <= u64::MAX,
                    other.den <= u64::MAX,
            ;
        }
        (other.num as u128) * (self.den as u128) < (self.num as u128) * (other.den as u128)
    }

    /// Whether this score is strictly positive, i.e. a real match.
    pub fn is_positive(&self) -> (r: bool)
        ensures
            r == (self.num > 0),
    {
        self.num > 0
    }
}

/// Whether index `i` of candidate `c` is a first-letter position under
/// `mode`: the start of a word (a maximal run of word characters) in
/// `Default` mode; index 0 or an index right after a `/` in `Path` mode.
pub open spec fn is_first_letter(c: Seq<char>, mode: ScoringMode, i: int) -> bool {
    match mode {
        ScoringMode::Default => 0 <= i < c.len() && is_word_char(c[i]) && (i == 0 || !is_word_char(
            c[i - 1],
        )),
        ScoringMode::Path => 0 <= i < c.len() && (i == 0 || c[i - 1] == '/'),
    }
}

/// How many of the positions are first-letter positions.
pub open spec fn first_letter_count(c: Seq<char>, mode: ScoringMode, pos: Seq<int>) -> int
    decreases pos.len(),
{
    if pos.len() == 0 {
        0
    } else {
        first_letter_count(c, mode, pos.drop_last()) + if is_first_letter(c, mode, pos.last()) {
            1int
        } else {
            0int
        }
    }
}

pub proof fn lemma_first_letter_count_bounds(c: Seq<char>, mode: ScoringMode, pos: Seq<int>)
    ensures
        0 <= first_letter_count(c, mode, pos) <= pos.len(),
    decreases pos.len(),
{
    if pos.len() > 0 {
        lemma_first_letter_count_bounds(c, mode, pos.drop_last());
    }
}

/// The number of maximal runs of consecutive indices in `pos`; a run breaks
/// wherever an index is not one past its predecessor.
pub open spec fn group_count(pos: Seq<int>) -> int
    decreases pos.len(),
{
    if pos.len() <= 1 {
        1
    } else {
        group_count(pos.drop_last()) + if pos[pos.len() - 1] == pos[pos.len() - 2] + 1 {
            0int
        } else {
            1int
        }
    }
}

pub proof fn lemma_group_count_bounds(pos: Seq<int>)
    requires
        pos.len() >= 1,
    ensures
        1 <= group_count(pos) <= pos.len(),
    decreases pos.len(),
{
    if pos.len() > 1 {
        lemma_group_count_bounds(pos.drop_last());
    }
}

/// The numerator of the score of alignment `pos` against candidate `c`: with
/// `m` matched positions, `f` of them first letters, and `g` groups, the
/// score is `(m + f) * (1 + ((m - (g - 1)) / m)^2) == num / (m * m)`.
pub open spec fn score_num_of(c: Seq<char>, mode: ScoringMode, pos: Seq<int>) -> int {
    let m = pos.len() as int;
    let f = first_letter_count(c, mode, pos);
    let g = group_count(pos);
    (m + f) * (m * m + (m - g + 1) * (m - g + 1))
}

/// The denominator of the score of alignment `pos`.
pub open spec fn score_den_of(pos: Seq<int>) -> int {
    (pos.len() * pos.len()) as int
}

/// A nonempty alignment always scores strictly above zero.
pub proof fn lemma_score_num_positive(c: Seq<char>, mode: ScoringMode, pos: Seq<int>)
    requires
        pos.len() >= 1,
    ensures
        score_num_of(c, mode, pos) >= 1,
        score_den_of(pos) >= 1,
{
    lemma_first_letter_count_bounds(c, mode, pos);
    lemma_group_count_bounds(pos);
    let m = pos.len() as int;
    let f = first_letter_count(c, mode, pos);
    let g = group_count(pos);
    assert((m + f) * (m * m + (m - g + 1) * (m - g + 1)) >= 1) by (nonlinear_arith)
        requires
            m >= 1,
            f >= 0,
            1 <= g <= m,
    ;
    assert(m * m >= 1) by (nonlinear_arith)
        requires
            m >= 1,
    ;
}

/// Whether index `i` of `c` is a first-letter position under `mode`.
pub fn is_first_letter_at(c: &Vec<char>, mode: ScoringMode, i: usize) -> (r: bool)
    requires
        i < c@.len(),
    ensures
        r == is_first_letter(c@, mode, i as int),
{
    match mode {
        ScoringMode::Default => {
            if !char_is_word(c[i]) {
                false
            } else if i == 0 {
                true
            } else {
                !char_is_word(c[i - 1])
            }
        },
        ScoringMode::Path => { i == 0 || c[i - 1] == '/' },
    }
}

/// Scores one alignment of `pos.len()` matched positions against `c`,
/// exactly: the result is `score_num_of / score_den_of` as a rational, and
/// the sentinel for an empty alignment.
pub fn score_positions(c: &Vec<char>, mode: ScoringMode, pos: &Vec<usize>) -> (r: Score)
    requires
        pos@.len() <= MAX_QUERY_LEN,
        forall|k: int| 0 <= k < pos@.len() ==> #[trigger] pos@[k] < c@.len(),
    ensures
        pos@.len() == 0 ==> r == (Score { num: 0u64, den: 1u64 }),
        pos@.len() >= 1 ==> {
            &&& r.num == score_num_of(c@, mode, pos@.map_values(|v: usize| v as int))
            &&& r.den == score_den_of(pos@.map_values(|v: usize| v as int))
            &&& r.num >= 1
            &&& r.den >= 1
        },
{
    let ghost posi = pos@.map_values(|v: usize| v as int);
    if pos.len() == 0 {
        return Score { num: 0, den: 1 };
    }
    let m: u64 = pos.len() as u64;
    let mut f: u64 = 0;
    let mut k: usize = 0;
    while k < pos.len()
        invariant
            k <= pos@.len(),
            pos@.len() <= MAX_QUERY_LEN,
            posi == pos@.map_values(|v: usize| v as int),
            forall|j: int| 0 <= j < pos@.len() ==> #[trigger] pos@[j] < c@.len(),
            f == first_letter_count(c@, mode, posi.take(k as int)),
            f <= k,
        decreases pos@.len() - k,
    {
        proof {
            lemma_first_letter_count_bounds(c@, mode, posi.take(k as int));
            assert(posi.take(k as int + 1).drop_last() =~= posi.take(k as int));
            assert(posi.take(k as int + 1).last() == posi[k as int]);
        }
        if is_first_letter_at(c, mode, pos[k]) {
            f = f + 1;
        }
        k = k + 1;
    }
    proof {
        assert(posi.take(pos@.len() as int) =~= posi);
    }
    let mut g: u64 = 1;
    let mut k2: usize = 1;
    while k2 < pos.len()
        invariant
            1 <= k2 <= pos@.len(),
            pos@.len() <= MAX_QUERY_LEN,
            posi == pos@.map_values(|v: usize| v as int),
            g == group_count(posi.take(k2 as int)),
            g <= k2,
        decreases pos@.len() - k2,
    {
        proof {
            assert(posi.take(k2 as int + 1).drop_last() =~= posi.take(k2 as int));
            assert(posi.take(k2 as int + 1).len() == k2 + 1);
            assert(posi.take(k2 as int + 1)[k2 as int] == posi[k2 as int]);
            assert(posi.take(k2 as int + 1)[k2 as int - 1] == posi[k2 as int - 1]);
        }
        let consecutive = pos[k2 - 1] < usize::MAX && pos[k2] == pos[k2 - 1] + 1;
        if !consecutive {
            g = g + 1;
        }
        k2 = k2 + 1;
    }
    proof {
        assert(posi.take(posi.len() as int) =~= posi);
        lemma_group_count_bounds(posi);
    }
    let d: u64 = m - (g - 1);
    proof {
        assert(0 <= (m + f) * (m * m + d * d) <= 0x4000000000000000) by (nonlinear_arith)
            requires
                0 < m <= 1048576,
                0 <= f <= m,
                0 < d <= m,
        ;
        assert(m * m <= 0x10000000000) by (nonlinear_arith)
            requires
                0 < m <= 1048576,
        ;
        assert(d * d <= 0x10000000000) by (nonlinear_arith)
            requires
                0 < d <= 1048576,
        ;
    }
    let num: u64 = (m + f) * (m * m + d * d);
    let den: u64 = m * m;
    proof {
        lemma_score_num_positive(c@, mode, posi);
    }
    Score { num, den }
}

} // verus!
