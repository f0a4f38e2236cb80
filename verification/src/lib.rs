//! A fuzzy subsequence matcher: decides whether every character of a short
//! query appears, in order, inside a candidate string, and scores such
//! matches so that alignments on word or path-segment boundaries and long
//! contiguous runs rank highest.
//!
//! Scores are exact rationals (`Score`), never floating point: the scoring
//! formula `(m + f) * (1 + g * g)` with `g = (m - (groups - 1)) / m` always
//! has denominator `m * m`, so both parts fit in integers.

pub mod alignments;
pub mod chars;
pub mod matching;
mod par;
pub mod positions;
pub mod score;
pub mod search;
pub mod topk;

pub use chars::is_word_char;
pub use chars::lower_of;
pub use matching::MatchResult;
pub use score::Score;
pub use score::ScoringMode;
pub use search::FuzzySearch;
