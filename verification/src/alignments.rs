//! Alignment enumeration: every way to pick one candidate index per query
//! character so that the picks strictly increase left to right, by
//! exhaustive backtracking over the per-character occurrence lists.

use vstd::prelude::*;

verus! {

/// The occurrence lists as mathematical sequences.
pub open spec fn lists_view(lp: Seq<Vec<usize>>) -> Seq<Seq<int>> {
    lp.map_values(|v: Vec<usize>| v@.map_values(|x: usize| x as int))
}

/// A position vector as a mathematical sequence.
pub open spec fn ints_view(p: Seq<usize>) -> Seq<int> {
    p.map_values(|x: usize| x as int)
}

/// The lower bound the next pick must exceed: one below zero for an empty
/// prefix, else the last pick.
pub open spec fn last_of(p: Seq<int>) -> int {
    if p.len() == 0 {
        -1
    } else {
        p.last()
    }
}

/// Every completion of a partial alignment whose picks for lists `i..` all
/// exceed `last`, in backtracking order: list order outermost, one suffix
/// per viable pick.
pub open spec fn all_alignments(lp: Seq<Seq<int>>, i: int, last: int) -> Seq<Seq<int>>
    decreases lp.len() - i, lp[i].len() + 1,
{
    if i < 0 || i >= lp.len() {
        seq![Seq::<int>::empty()]
    } else {
        align_from(lp, i, last, 0)
    }
}

/// The completions whose first pick is drawn from `lp[i]` at offset `j` or
/// later.
pub open spec fn align_from(lp: Seq<Seq<int>>, i: int, last: int, j: int) -> Seq<Seq<int>>
    decreases lp.len() - i, lp[i].len() - j,
{
    if i < 0 || i >= lp.len() || j < 0 || j >= lp[i].len() {
        Seq::empty()
    } else {
        let head = if lp[i][j] > last {
            all_alignments(lp, i + 1, lp[i][j]).map_values(|s: Seq<int>| seq![lp[i][j]] + s)
        } else {
            Seq::<Seq<int>>::empty()
        };
        head + align_from(lp, i, last, j + 1)
    }
}

/// What each enumerated completion looks like: one pick per remaining list,
/// each drawn from its list, strictly increasing, the first above `last`.
pub open spec fn alignment_ok(lp: Seq<Seq<int>>, i: int, last: int, s: Seq<int>) -> bool {
    &&& s.len() == lp.len() - i
    &&& (forall|t: int| 0 <= t < s.len() ==> lp[i + t].contains(#[trigger] s[t]))
    &&& (forall|t: int|
        0 <= t < s.len() ==> #[trigger] s[t] > (if t == 0 {
            last
        } else {
            s[t - 1]
        }))
}

pub proof fn lemma_alignments_sound(lp: Seq<Seq<int>>, i: int, last: int)
    requires
        0 <= i <= lp.len(),
    ensures
        forall|k: int|
            0 <= k < all_alignments(lp, i, last).len() ==> alignment_ok(
                lp,
                i,
                last,
                #[trigger] all_alignments(lp, i, last)[k],
            ),
    decreases lp.len() - i, lp[i].len() + 1,
{
    if i == lp.len() {
        assert(all_alignments(lp, i, last) == seq![Seq::<int>::empty()]);
        assert(alignment_ok(lp, i, last, Seq::<int>::empty()));
        assert(all_alignments(lp, i, last)[0] == Seq::<int>::empty());
    } else {
        lemma_align_from_sound(lp, i, last, 0);
        assert forall|k: int| 0 <= k < all_alignments(lp, i, last).len() implies alignment_ok(
            lp,
            i,
            last,
            #[trigger] all_alignments(lp, i, last)[k],
        ) by {
            assert(all_alignments(lp, i, last) == align_from(lp, i, last, 0));
            assert(alignment_ok(lp, i, last, align_from(lp, i, last, 0)[k]));
        }
    }
}

#[verifier::rlimit(100)]
pub proof fn lemma_align_from_sound(lp: Seq<Seq<int>>, i: int, last: int, j: int)
    requires
        0 <= i < lp.len(),
        0 <= j,
    ensures
        forall|k: int|
            0 <= k < align_from(lp, i, last, j).len() ==> alignment_ok(
                lp,
                i,
                last,
                #[trigger] align_from(lp, i, last, j)[k],
            ),
    decreases lp.len() - i, lp[i].len() - j,
{
    if j >= lp[i].len() {
    } else {
        lemma_align_from_sound(lp, i, last, j + 1);
        let v = lp[i][j];
        let rest = align_from(lp, i, last, j + 1);
        if v > last {
            lemma_alignments_sound(lp, i + 1, v);
            let subs = all_alignments(lp, i + 1, v);
            let head = subs.map_values(|s: Seq<int>| seq![v] + s);
            assert(align_from(lp, i, last, j) == head + rest);
            assert forall|k: int| 0 <= k < head.len() implies alignment_ok(
                lp,
                i,
                last,
                head[k],
            ) by {
                let s = head[k];
                let sub = subs[k];
                assert(alignment_ok(lp, i + 1, v, sub));
                assert(s == seq![v] + sub);
                assert(s[0] == v);
                assert(forall|t: int| 1 <= t < s.len() ==> #[trigger] s[t] == sub[t - 1]);
                assert(lp[i].contains(v));
                assert forall|t: int| 0 <= t < s.len() implies lp[i + t].contains(
                    #[trigger] s[t],
                ) by {
                    if t >= 1 {
                        assert(sub[t - 1] == s[t]);
                        assert(lp[i + 1 + (t - 1)].contains(sub[t - 1]));
                    }
                }
                assert forall|t: int| 0 <= t < s.len() implies #[trigger] s[t] > (if t == 0 {
                    last
                } else {
                    s[t - 1]
                }) by {
                    if t == 1 {
                        assert(sub[0] > v);
                    } else if t > 1 {
                        assert(sub[t - 1] > sub[t - 2]);
                    }
                }
            }
            assert forall|k: int| 0 <= k < align_from(lp, i, last, j).len() implies alignment_ok(
                lp,
                i,
                last,
                #[trigger] align_from(lp, i, last, j)[k],
            ) by {
                if k < head.len() {
                    assert(align_from(lp, i, last, j)[k] == head[k]);
                } else {
                    assert(align_from(lp, i, last, j)[k] == rest[k - head.len()]);
                }
            }
        } else {
            assert(align_from(lp, i, last, j) == rest);
        }
    }
}

/// Occurrence lists whose heads form a strictly increasing chain always
/// admit at least one alignment: picking every head.
pub proof fn lemma_alignments_nonempty(lp: Seq<Seq<int>>, i: int, last: int)
    requires
        0 <= i <= lp.len(),
        forall|t: int| i <= t < lp.len() ==> (#[trigger] lp[t]).len() > 0,
        forall|t: int| i < t < lp.len() ==> (#[trigger] lp[t])[0] > lp[t - 1][0],
        i < lp.len() ==> lp[i][0] > last,
    ensures
        all_alignments(lp, i, last).len() > 0,
    decreases lp.len() - i,
{
    if i == lp.len() {
    } else {
        let v = lp[i][0];
        lemma_alignments_nonempty(lp, i + 1, v);
        let head = all_alignments(lp, i + 1, v).map_values(|s: Seq<int>| seq![v] + s);
        assert(align_from(lp, i, last, 0) == head + align_from(lp, i, last, 1));
        assert(head.len() > 0);
    }
}

/// Copies a vector of indices.
pub fn copy_indices(v: &Vec<usize>) -> (r: Vec<usize>)
    ensures
        r@ == v@,
{
    let mut r: Vec<usize> = Vec::new();
    let mut k: usize = 0;
    while k < v.len()
        invariant
            k <= v@.len(),
            r@ == v@.subrange(0, k as int),
        decreases v@.len() - k,
    {
        r.push(v[k]);
        k = k + 1;
        proof {
            assert(r@ =~= v@.subrange(0, k as int));
        }
    }
    proof {
        assert(r@ =~= v@);
    }
    r
}

/// Extends `results` with every completion of `prefix` drawn from lists
/// `i..`, in backtracking order, each completion appended to `prefix`.
pub fn get_all_offsets(
    lp: &Vec<Vec<usize>>,
    i: usize,
    prefix: Vec<usize>,
    results: &mut Vec<Vec<usize>>,
)
    requires
        i <= lp@.len(),
    ensures
        final (results)@.map_values(|v: Vec<usize>| ints_view(v@)) == old(results)@.map_values(
            |v: Vec<usize>| ints_view(v@),
        ) + all_alignments(lists_view(lp@), i as int, last_of(ints_view(prefix@))).map_values(
            |s: Seq<int>| ints_view(prefix@) + s,
        ),
    decreases lp@.len() - i,
{
    let ghost lpv = lists_view(lp@);
    let ghost pv = ints_view(prefix@);
    let ghost last = last_of(pv);
    if i == lp.len() {
        results.push(prefix);
        proof {
            assert(all_alignments(lpv, i as int, last) == seq![Seq::<int>::empty()]);
            assert(all_alignments(lpv, i as int, last).map_values(|s: Seq<int>| pv + s)
                =~= seq![pv + Seq::<int>::empty()]);
            assert(pv + Seq::<int>::empty() =~= pv);
            assert(results@.map_values(|v: Vec<usize>| ints_view(v@)) =~= old(results)@.map_values(
                |v: Vec<usize>| ints_view(v@),
            ) + seq![pv]);
        }
        return ;
    }
    let mut j: usize = 0;
    while j < lp[i].len()
        invariant
            i < lp@.len(),
            lp@.len() <= usize::MAX,
            j <= lp@[i as int]@.len(),
            lpv == lists_view(lp@),
            pv == ints_view(prefix@),
            last == last_of(pv),
            results@.map_values(|v: Vec<usize>| ints_view(v@)) + align_from(
                lpv,
                i as int,
                last,
                j as int,
            ).map_values(|s: Seq<int>| pv + s) =~= old(results)@.map_values(
                |v: Vec<usize>| ints_view(v@),
            ) + align_from(lpv, i as int, last, 0).map_values(|s: Seq<int>| pv + s),
        decreases lp@[i as int]@.len() - j,
    {
        let off = lp[i][j];
        let viable = prefix.len() == 0 || off > prefix[prefix.len() - 1];
        proof {
            assert(lpv[i as int] == lp@[i as int]@.map_values(|x: usize| x as int));
            assert(lpv[i as int][j as int] == off as int);
            assert(viable == (off as int > last));
        }
        if viable {
            let mut np = copy_indices(&prefix);
            np.push(off);
            proof {
                assert(ints_view(np@) =~= pv + seq![off as int]);
                assert(last_of(ints_view(np@)) == off as int);
            }
            get_all_offsets(lp, i + 1, np, results);
            proof {
                let subs = all_alignments(lpv, i as int + 1, off as int);
                let head = subs.map_values(|s: Seq<int>| seq![off as int] + s);
                assert(align_from(lpv, i as int, last, j as int) == head + align_from(
                    lpv,
                    i as int,
                    last,
                    j as int + 1,
                ));
                assert(subs.map_values(|s: Seq<int>| (pv + seq![off as int]) + s)
                    =~= head.map_values(|s: Seq<int>| pv + s)) by {
                    assert forall|k: int| 0 <= k < subs.len() implies (pv + seq![off as int])
                        + subs[k] =~= pv + (seq![off as int] + subs[k]) by {}
                }
                assert((head + align_from(lpv, i as int, last, j as int + 1)).map_values(
                    |s: Seq<int>| pv + s,
                ) =~= head.map_values(|s: Seq<int>| pv + s) + align_from(
                    lpv,
                    i as int,
                    last,
                    j as int + 1,
                ).map_values(|s: Seq<int>| pv + s));
            }
        } else {
            proof {
                assert(align_from(lpv, i as int, last, j as int) == align_from(
                    lpv,
                    i as int,
                    last,
                    j as int + 1,
                ));
            }
        }
        j = j + 1;
    }
    proof {
        assert(align_from(lpv, i as int, last, j as int) =~= Seq::<Seq<int>>::empty());
        assert(align_from(lpv, i as int, last, j as int).map_values(|s: Seq<int>| pv + s)
            =~= Seq::<Seq<int>>::empty());
        assert(results@.map_values(|v: Vec<usize>| ints_view(v@)) + Seq::<Seq<int>>::empty()
            =~= results@.map_values(|v: Vec<usize>| ints_view(v@)));
    }
}

} // verus!
