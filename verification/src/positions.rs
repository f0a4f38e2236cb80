//! Position finding: for each query character, the ordered list of candidate
//! indices at which it occurs, subject to a running cursor and a feasibility
//! bound.

use vstd::prelude::*;

verus! {

/// The occurrence indices of `letter` in `c`, scanning upward from `from`,
/// recording each occurrence and stopping right after recording one whose
/// successor index reaches `bound` (past that point too few candidate
/// characters remain to place the rest of the query).
pub open spec fn occurrences(c: Seq<char>, letter: char, from: int, bound: int) -> Seq<int>
    decreases c.len() - from,
{
    if from < 0 || from >= c.len() {
        Seq::empty()
    } else if c[from] == letter {
        if from + 1 >= bound {
            seq![from]
        } else {
            seq![from] + occurrences(c, letter, from + 1, bound)
        }
    } else {
        occurrences(c, letter, from + 1, bound)
    }
}

/// Every recorded occurrence lies in `[from, c.len())` and really carries
/// `letter`, and the list is strictly increasing with its head minimal.
pub proof fn lemma_occurrences_sound(c: Seq<char>, letter: char, from: int, bound: int)
    ensures
        forall|j: int|
            0 <= j < occurrences(c, letter, from, bound).len() ==> {
                let p = #[trigger] occurrences(c, letter, from, bound)[j];
                &&& from <= p < c.len()
                &&& c[p] == letter
                &&& p >= from + j
            },
        forall|j1: int, j2: int|
            0 <= j1 < j2 < occurrences(c, letter, from, bound).len()
                ==> #[trigger] occurrences(c, letter, from, bound)[j1]
                < #[trigger] occurrences(c, letter, from, bound)[j2],
    decreases c.len() - from,
{
    if from < 0 || from >= c.len() {
    } else if c[from] == letter {
        if from + 1 >= bound {
        } else {
            lemma_occurrences_sound(c, letter, from + 1, bound);
            let occ = occurrences(c, letter, from, bound);
            let rest = occurrences(c, letter, from + 1, bound);
            assert(occ == seq![from] + rest);
            assert(forall|j: int| 0 <= j < rest.len() ==> occ[j + 1] == rest[j]);
            assert forall|j1: int, j2: int| 0 <= j1 < j2 < occ.len() implies occ[j1]
                < occ[j2] by {
                if j1 == 0 {
                    assert(occ[j2] == rest[j2 - 1]);
                    assert(rest[j2 - 1] >= from + 1 + (j2 - 1));
                } else {
                    assert(occ[j1] == rest[j1 - 1] && occ[j2] == rest[j2 - 1]);
                }
            }
        }
    } else {
        lemma_occurrences_sound(c, letter, from + 1, bound);
        let occ = occurrences(c, letter, from, bound);
        let rest = occurrences(c, letter, from + 1, bound);
        assert(occ == rest);
    }
}

/// An occurrence list is empty exactly when `letter` does not occur in `c` at
/// or after `from`.
pub proof fn lemma_occurrences_empty(c: Seq<char>, letter: char, from: int, bound: int)
    requires
        0 <= from,
    ensures
        occurrences(c, letter, from, bound).len() == 0 <==> forall|p: int|
            from <= p < c.len() ==> c[p] != letter,
    decreases c.len() - from,
{
    if from < 0 || from >= c.len() {
    } else if c[from] == letter {
    } else {
        lemma_occurrences_empty(c, letter, from + 1, bound);
    }
}

/// The head of a nonempty occurrence list is the least occurrence at or
/// after `from`.
pub proof fn lemma_occurrences_first_minimal(c: Seq<char>, letter: char, from: int, bound: int)
    requires
        0 <= from,
        occurrences(c, letter, from, bound).len() > 0,
    ensures
        forall|p: int|
            from <= p < c.len() && c[p] == letter ==> occurrences(c, letter, from, bound)[0] <= p,
    decreases c.len() - from,
{
    if from >= c.len() {
    } else if c[from] == letter {
    } else {
        lemma_occurrences_first_minimal(c, letter, from + 1, bound);
    }
}

/// When the lists exist, each is nonempty, each head is at least the running
/// cursor, and each head strictly exceeds the previous one.
pub proof fn lemma_letter_lists_chain(q: Seq<char>, c: Seq<char>, i: int, cursor: int)
    requires
        0 <= i <= q.len(),
        0 <= cursor,
        letter_lists(q, c, i, cursor) is Some,
    ensures
        ({
            let ls = letter_lists(q, c, i, cursor)->0;
            &&& (forall|t: int| 0 <= t < ls.len() ==> (#[trigger] ls[t]).len() > 0)
            &&& (ls.len() > 0 ==> ls[0][0] >= cursor)
            &&& (forall|t: int| 0 < t < ls.len() ==> (#[trigger] ls[t])[0] > ls[t - 1][0])
        }),
    decreases q.len() - i,
{
    if i >= q.len() {
    } else {
        let occ = occurrences(c, q[i], cursor, c.len() - q.len() + i + 1);
        lemma_occurrences_sound(c, q[i], cursor, c.len() - q.len() + i + 1);
        lemma_letter_lists_chain(q, c, i + 1, occ[0] + 1);
        let ls = letter_lists(q, c, i, cursor)->0;
        let rest = letter_lists(q, c, i + 1, occ[0] + 1)->0;
        assert(ls == seq![occ] + rest);
        assert(ls[0] == occ);
        assert(forall|t: int| 1 <= t < ls.len() ==> ls[t] == rest[t - 1]);
        if rest.len() > 0 {
            assert(rest[0][0] >= occ[0] + 1);
        }
    }
}

/// Collects `occurrences(c@, letter, from, bound)` by a single scan.
pub fn find_occurrences(c: &Vec<char>, letter: char, from: usize, bound: usize) -> (r: Vec<usize>)
    ensures
        r@.map_values(|v: usize| v as int) == occurrences(c@, letter, from as int, bound as int),
{
    let mut r: Vec<usize> = Vec::new();
    let mut idx: usize = from;
    loop
        invariant_except_break
            from <= idx,
            occurrences(c@, letter, from as int, bound as int) == r@.map_values(
                |v: usize| v as int,
            ) + occurrences(c@, letter, idx as int, bound as int),
        ensures
            occurrences(c@, letter, from as int, bound as int) == r@.map_values(
                |v: usize| v as int,
            ),
        decreases c@.len() - idx,
    {
        if idx >= c.len() {
            proof {
                assert(occurrences(c@, letter, idx as int, bound as int) =~= Seq::<int>::empty());
                assert(r@.map_values(|v: usize| v as int) + Seq::<int>::empty() =~= r@.map_values(
                    |v: usize| v as int,
                ));
            }
            break ;
        }
        if c[idx] == letter {
            r.push(idx);
            proof {
                assert(r@.map_values(|v: usize| v as int) =~= r@.drop_last().map_values(
                    |v: usize| v as int,
                ) + seq![idx as int]);
            }
            if idx + 1 >= bound {
                proof {
                    assert(occurrences(c@, letter, idx as int, bound as int) =~= seq![idx as int]);
                }
                break ;
            }
            proof {
                assert(occurrences(c@, letter, idx as int, bound as int) =~= seq![idx as int]
                    + occurrences(c@, letter, idx as int + 1, bound as int));
                assert(r@.drop_last().map_values(|v: usize| v as int) + (seq![idx as int]
                    + occurrences(c@, letter, idx as int + 1, bound as int)) =~= r@.map_values(
                    |v: usize| v as int,
                ) + occurrences(c@, letter, idx as int + 1, bound as int));
            }
        }
        idx = idx + 1;
    }
    r
}

/// The per-query-character occurrence lists, or `None` as soon as one query
/// character has no occurrence left: list `i` scans from a cursor one past
/// the first occurrence recorded for character `i - 1`, and stops once fewer
/// than `q.len() - i` candidate characters remain after a recorded index —
/// not enough room for the rest of the query.
pub open spec fn letter_lists(q: Seq<char>, c: Seq<char>, i: int, cursor: int) -> Option<
    Seq<Seq<int>>,
>
    decreases q.len() - i,
{
    if i < 0 || i >= q.len() {
        Some(Seq::empty())
    } else {
        let occ = occurrences(c, q[i], cursor, c.len() - q.len() + i + 1);
        if occ.len() == 0 {
            None
        } else {
            match letter_lists(q, c, i + 1, occ[0] + 1) {
                None => None,
                Some(rest) => Some(seq![occ] + rest),
            }
        }
    }
}

} // verus!
