//! Bounded top-K selection: keeps the K best positive results under a strict
//! total order (higher score first, smaller original index among equal
//! scores), so the selection is deterministic whatever order results arrive
//! in.

use crate::alignments::copy_indices;
use crate::alignments::ints_view;
use crate::matching::result_matches;
use crate::matching::MatchResult;
use crate::score::score_lt;
use crate::score::Score;
use vstd::prelude::*;

verus! {

/// Whether a selected entry carries exactly the spec result `s`.
pub open spec fn entry_matches(e: (usize, Score, Vec<usize>), s: (int, int, Seq<int>)) -> bool {
    &&& e.1.num == s.0
    &&& e.1.den == s.1
    &&& ints_view(e.2@) == s.2
}

/// The strict total order on scored entries: a higher score comes first, and
/// among equal scores the smaller original index comes first.
pub open spec fn entry_precedes(i1: int, n1: int, d1: int, i2: int, n2: int, d2: int) -> bool {
    score_lt(n2, d2, n1, d1) || (n1 * d2 == n2 * d1 && i1 < i2)
}

/// Shorthand: output entry `e1` comes before output entry `e2`.
pub open spec fn eprec(e1: (usize, Score, Vec<usize>), e2: (usize, Score, Vec<usize>)) -> bool {
    entry_precedes(
        e1.0 as int,
        e1.1.num as int,
        e1.1.den as int,
        e2.0 as int,
        e2.1.num as int,
        e2.1.den as int,
    )
}

/// Every entry points into `specs`, carries exactly its spec result, and is
/// positive with a meaningful denominator.
pub open spec fn entries_wf(
    s: Seq<(usize, Score, Vec<usize>)>,
    specs: Seq<(int, int, Seq<int>)>,
) -> bool {
    forall|j: int|
        0 <= j < s.len() ==> (#[trigger] s[j]).0 < specs.len() && entry_matches(
            s[j],
            specs[s[j].0 as int],
        ) && s[j].1.num > 0 && s[j].1.den >= 1
}

/// Earlier entries come before later ones in top-K order.
pub open spec fn entries_sorted(s: Seq<(usize, Score, Vec<usize>)>) -> bool {
    forall|j1: int, j2: int| 0 <= j1 < j2 < s.len() ==> eprec(#[trigger] s[j1], #[trigger] s[j2])
}

/// No two entries share an original index.
pub open spec fn entries_distinct(s: Seq<(usize, Score, Vec<usize>)>) -> bool {
    forall|j1: int, j2: int|
        0 <= j1 < j2 < s.len() ==> (#[trigger] s[j1]).0 != (#[trigger] s[j2]).0
}

/// Whether some entry carries original index `i`.
pub open spec fn has_index(s: Seq<(usize, Score, Vec<usize>)>, i: int) -> bool {
    exists|j: int| 0 <= j < s.len() && (#[trigger] s[j]).0 == i
}

/// Whether one of the first `t` inputs carries original index `i`.
pub open spec fn items_have_index(items: Seq<(usize, MatchResult)>, t: int, i: int) -> bool {
    exists|u: int| 0 <= u < t && (#[trigger] items[u]).0 == i
}

/// Every entry comes before the scored index `(i, n/d)` in top-K order.
pub open spec fn dominates(s: Seq<(usize, Score, Vec<usize>)>, i: int, n: int, d: int) -> bool {
    forall|j: int|
        0 <= j < s.len() ==> entry_precedes(
            (#[trigger] s[j]).0 as int,
            s[j].1.num as int,
            s[j].1.den as int,
            i,
            n,
            d,
        )
}

/// What holds of the input collection: indices within `specs`, each result
/// exactly its index's spec result, positive, and pairwise distinct indices.
pub open spec fn items_wf(
    items: Seq<(usize, MatchResult)>,
    specs: Seq<(int, int, Seq<int>)>,
) -> bool {
    &&& (forall|t: int| 0 <= t < items.len() ==> (#[trigger] items[t]).0 < specs.len())
    &&& (forall|t: int|
        0 <= t < items.len() ==> result_matches(
            &(#[trigger] items[t]).1,
            specs[items[t].0 as int],
        ) && items[t].1.score.num > 0 && items[t].1.score.den >= 1)
    &&& (forall|t1: int, t2: int|
        0 <= t1 < t2 < items.len() ==> (#[trigger] items[t1]).0 != (#[trigger] items[t2]).0)
}

/// The running state after the first `t` inputs: a sorted, duplicate-free
/// selection of at most `k` of them, complete while below `k`, and coming
/// before every unselected processed input in top-K order.
pub open spec fn selection_inv(
    best: Seq<(usize, Score, Vec<usize>)>,
    items: Seq<(usize, MatchResult)>,
    t: int,
    k: int,
    specs: Seq<(int, int, Seq<int>)>,
) -> bool {
    &&& best.len() <= k
    &&& entries_wf(best, specs)
    &&& entries_sorted(best)
    &&& entries_distinct(best)
    &&& (forall|j: int|
        0 <= j < best.len() ==> items_have_index(items, t, (#[trigger] best[j]).0 as int))
    &&& (best.len() < k ==> forall|u: int|
        0 <= u < t ==> has_index(best, (#[trigger] items[u]).0 as int))
    &&& (forall|u: int|
        0 <= u < t && !has_index(best, (#[trigger] items[u]).0 as int) ==> dominates(
            best,
            items[u].0 as int,
            items[u].1.score.num as int,
            items[u].1.score.den as int,
        ))
}

/// The order is transitive over entries with positive denominators.
pub proof fn lemma_precedes_trans(
    i1: int,
    n1: int,
    d1: int,
    i2: int,
    n2: int,
    d2: int,
    i3: int,
    n3: int,
    d3: int,
)
    requires
        d1 >= 1,
        d2 >= 1,
        d3 >= 1,
        entry_precedes(i1, n1, d1, i2, n2, d2),
        entry_precedes(i2, n2, d2, i3, n3, d3),
    ensures
        entry_precedes(i1, n1, d1, i3, n3, d3),
{
    if score_lt(n2, d2, n1, d1) {
        if score_lt(n3, d3, n2, d2) {
            assert(n3 * d1 < n1 * d3) by (nonlinear_arith)
                requires
                    n2 * d1 < n1 * d2,
                    n3 * d2 < n2 * d3,
                    d1 >= 1,
                    d2 >= 1,
                    d3 >= 1,
            ;
        } else {
            assert(n3 * d1 < n1 * d3) by (nonlinear_arith)
                requires
                    n2 * d1 < n1 * d2,
                    n2 * d3 == n3 * d2,
                    d1 >= 1,
                    d2 >= 1,
                    d3 >= 1,
            ;
        }
    } else {
        if score_lt(n3, d3, n2, d2) {
            assert(n3 * d1 < n1 * d3) by (nonlinear_arith)
                requires
                    n1 * d2 == n2 * d1,
                    n3 * d2 < n2 * d3,
                    d1 >= 1,
                    d2 >= 1,
                    d3 >= 1,
            ;
        } else {
            assert(n1 * d3 == n3 * d1) by (nonlinear_arith)
                requires
                    n1 * d2 == n2 * d1,
                    n2 * d3 == n3 * d2,
                    d1 >= 1,
                    d2 >= 1,
                    d3 >= 1,
            ;
        }
    }
}

/// Entries with distinct indices are always ordered one way or the other.
pub proof fn lemma_precedes_total(i1: int, n1: int, d1: int, i2: int, n2: int, d2: int)
    requires
        i1 != i2,
    ensures
        entry_precedes(i1, n1, d1, i2, n2, d2) || entry_precedes(i2, n2, d2, i1, n1, d1),
{
}

/// Inserting a fresh entry at the boundary the scan found keeps the
/// selection sorted and duplicate-free.
proof fn lemma_insert_entry(
    ob: Seq<(usize, Score, Vec<usize>)>,
    pos: int,
    e: (usize, Score, Vec<usize>),
)
    requires
        0 <= pos <= ob.len(),
        entries_sorted(ob),
        entries_distinct(ob),
        forall|j: int| 0 <= j < ob.len() ==> (#[trigger] ob[j]).1.den >= 1,
        e.1.den >= 1,
        forall|p: int| 0 <= p < pos ==> eprec(#[trigger] ob[p], e),
        pos < ob.len() ==> eprec(e, ob[pos]),
        forall|j: int| 0 <= j < ob.len() ==> (#[trigger] ob[j]).0 != e.0,
    ensures
        ob.insert(pos, e).len() == ob.len() + 1,
        forall|p: int| 0 <= p < pos ==> #[trigger] ob.insert(pos, e)[p] == ob[p],
        ob.insert(pos, e)[pos] == e,
        forall|p: int| pos < p < ob.len() + 1 ==> #[trigger] ob.insert(pos, e)[p] == ob[p - 1],
        entries_sorted(ob.insert(pos, e)),
        entries_distinct(ob.insert(pos, e)),
{
    ob.insert_ensures(pos, e);
    let nb = ob.insert(pos, e);
    assert(forall|p: int| pos < p < nb.len() ==> #[trigger] nb[p] == ob[p - 1]) by {
        assert(forall|i: int| pos <= i < ob.len() ==> nb[i + 1] == #[trigger] ob[i]);
    }
    assert forall|p: int| pos <= p < ob.len() implies eprec(e, #[trigger] ob[p]) by {
        if p > pos {
            lemma_precedes_trans(
                e.0 as int,
                e.1.num as int,
                e.1.den as int,
                ob[pos].0 as int,
                ob[pos].1.num as int,
                ob[pos].1.den as int,
                ob[p].0 as int,
                ob[p].1.num as int,
                ob[p].1.den as int,
            );
        }
    }
    assert forall|j1: int, j2: int| 0 <= j1 < j2 < nb.len() implies eprec(
        #[trigger] nb[j1],
        #[trigger] nb[j2],
    ) && nb[j1].0 != nb[j2].0 by {
        if j1 == pos {
            assert(nb[j2] == ob[j2 - 1]);
        } else if j2 == pos {
            assert(nb[j1] == ob[j1]);
        } else {
            let o1 = if j1 < pos {
                j1
            } else {
                j1 - 1
            };
            let o2 = if j2 < pos {
                j2
            } else {
                j2 - 1
            };
            assert(nb[j1] == ob[o1] && nb[j2] == ob[o2] && o1 < o2);
        }
    }
}

/// Dropping the last entry of a sorted selection leaves every retained entry
/// before the dropped one.
proof fn lemma_drop_last(mid: Seq<(usize, Score, Vec<usize>)>)
    requires
        mid.len() >= 1,
        entries_sorted(mid),
    ensures
        forall|j: int|
            0 <= j < mid.len() - 1 ==> eprec(#[trigger] mid.drop_last()[j], mid.last()),
{
    assert forall|j: int| 0 <= j < mid.len() - 1 implies eprec(
        #[trigger] mid.drop_last()[j],
        mid.last(),
    ) by {
        assert(mid.drop_last()[j] == mid[j]);
        assert(eprec(mid[j], mid[mid.len() - 1]));
    }
}

/// Everything that comes before `m` also comes before whatever `m` comes
/// before.
proof fn lemma_dominates_through(
    s: Seq<(usize, Score, Vec<usize>)>,
    m: (usize, Score, Vec<usize>),
    i: int,
    n: int,
    d: int,
)
    requires
        forall|j: int| 0 <= j < s.len() ==> eprec(#[trigger] s[j], m) && s[j].1.den >= 1,
        m.1.den >= 1,
        d >= 1,
        entry_precedes(m.0 as int, m.1.num as int, m.1.den as int, i, n, d),
    ensures
        dominates(s, i, n, d),
{
    assert forall|j: int| 0 <= j < s.len() implies entry_precedes(
        (#[trigger] s[j]).0 as int,
        s[j].1.num as int,
        s[j].1.den as int,
        i,
        n,
        d,
    ) by {
        lemma_precedes_trans(
            s[j].0 as int,
            s[j].1.num as int,
            s[j].1.den as int,
            m.0 as int,
            m.1.num as int,
            m.1.den as int,
            i,
            n,
            d,
        );
    }
}

/// Whether the entry `(i1, s1)` comes before `(i2, s2)` in top-K order.
fn entry_precedes_exec(i1: usize, s1: &Score, i2: usize, s2: &Score) -> (r: bool)
    ensures
        r == entry_precedes(
            i1 as int,
            s1.num as int,
            s1.den as int,
            i2 as int,
            s2.num as int,
            s2.den as int,
        ),
{
    proof {
        assert((s2.num as u128) * (s1.den as u128) < 0x100000000000000000000000000000000 && (
        s1.num as u128) * (s2.den as u128) < 0x100000000000000000000000000000000)
            by (nonlinear_arith)
            requires
                s1.num <= u64::MAX,
                s1.den <= u64::MAX,
                s2.num <= u64::MAX,
                s2.den <= u64::MAX,
        ;
    }
    let a = (s2.num as u128) * (s1.den as u128);
    let b = (s1.num as u128) * (s2.den as u128);
    if a < b {
        true
    } else if a == b {
        i1 < i2
    } else {
        false
    }
}

/// Offers one input to the running selection: inserted in order if the
/// selection is below capacity or if it beats the retained minimum, which is
/// then evicted; otherwise left out, already dominated.
#[verifier::rlimit(100)]
fn select_step(
    best: &mut Vec<(usize, Score, Vec<usize>)>,
    k: usize,
    items: &Vec<(usize, MatchResult)>,
    t: usize,
    Ghost(specs): Ghost<Seq<(int, int, Seq<int>)>>,
)
    requires
        t < items@.len(),
        items_wf(items@, specs),
        selection_inv(old(best)@, items@, t as int, k as int, specs),
    ensures
        selection_inv(final (best)@, items@, t as int + 1, k as int, specs),
{
    let idx = items[t].0;
    let sc = items[t].1.score;
    let mut pos: usize = 0;
    while pos < best.len() && entry_precedes_exec(best[pos].0, &best[pos].1, idx, &sc)
        invariant
            pos <= best@.len(),
            idx == items@[t as int].0,
            sc == items@[t as int].1.score,
            *best == *old(best),
            forall|p: int|
                0 <= p < pos ==> entry_precedes(
                    (#[trigger] best@[p]).0 as int,
                    best@[p].1.num as int,
                    best@[p].1.den as int,
                    idx as int,
                    sc.num as int,
                    sc.den as int,
                ),
        decreases best@.len() - pos,
    {
        pos = pos + 1;
    }
    let ghost ob = best@;
    proof {
        assert forall|j: int| 0 <= j < ob.len() implies (#[trigger] ob[j]).0 != idx by {
            assert(items_have_index(items@, t as int, ob[j].0 as int));
            let u = choose|u: int| 0 <= u < t && (#[trigger] items@[u]).0 == ob[j].0 as int;
            assert(items@[u].0 != items@[t as int].0);
        }
        if (pos as int) < ob.len() {
            lemma_precedes_total(
                idx as int,
                sc.num as int,
                sc.den as int,
                ob[pos as int].0 as int,
                ob[pos as int].1.num as int,
                ob[pos as int].1.den as int,
            );
        }
    }
    let was_full = best.len() == k;
    if !was_full || pos < best.len() {
        let positions = copy_indices(&items[t].1.positions);
        let ghost e = (idx, sc, positions);
        proof {
            lemma_insert_entry(ob, pos as int, e);
        }
        best.insert(pos, (idx, sc, positions));
        proof {
            assert(best@ =~= ob.insert(pos as int, e));
        }
        if was_full {
            let ghost mid = best@;
            best.pop();
            proof {
                assert(best@ =~= mid.drop_last());
                lemma_drop_last(mid);
                assert(mid.last() == ob[ob.len() - 1]) by {
                    assert((pos as int) < ob.len());
                    assert(mid[(ob.len() - 1) + 1] == ob[ob.len() - 1]);
                }
            }
        }
        proof {
            let nb = best@;
            let p0 = pos as int;
            // Slot correspondence between the new and old selections.
            assert(forall|p: int| 0 <= p < p0 ==> #[trigger] nb[p] == ob[p]);
            assert(nb[p0] == e);
            assert(forall|p: int| p0 < p < nb.len() ==> #[trigger] nb[p] == ob[p - 1]);
            assert(entries_sorted(nb) && entries_distinct(nb)) by {
                if was_full {
                    let mid = ob.insert(p0, e);
                    assert(forall|j1: int, j2: int|
                        0 <= j1 < j2 < nb.len() ==> #[trigger] nb[j1] == mid[j1]
                            && #[trigger] nb[j2] == mid[j2]);
                }
            }
            assert forall|j: int| 0 <= j < nb.len() implies (#[trigger] nb[j]).0 < specs.len()
                && entry_matches(nb[j], specs[nb[j].0 as int]) && nb[j].1.num > 0 && nb[j].1.den
                >= 1 by {
                if j == p0 {
                    assert(result_matches(&items@[t as int].1, specs[idx as int]));
                } else {
                    let jo = if j < p0 {
                        j
                    } else {
                        j - 1
                    };
                    assert(nb[j] == ob[jo]);
                }
            }
            assert forall|j: int| 0 <= j < nb.len() implies items_have_index(
                items@,
                t as int + 1,
                (#[trigger] nb[j]).0 as int,
            ) by {
                if j == p0 {
                    assert(items@[t as int].0 == nb[j].0);
                } else {
                    let jo = if j < p0 {
                        j
                    } else {
                        j - 1
                    };
                    assert(nb[j] == ob[jo]);
                    assert(items_have_index(items@, t as int, ob[jo].0 as int));
                    let u = choose|u: int| 0 <= u < t && (#[trigger] items@[u]).0 == ob[jo].0 as int;
                    assert(items@[u].0 == nb[j].0);
                }
            }
            if was_full {
                let m = ob[ob.len() - 1];
                assert(nb.len() == k);
                assert forall|j: int| 0 <= j < nb.len() implies eprec(#[trigger] nb[j], m) by {
                    let mid = ob.insert(p0, e);
                    assert(nb[j] == mid.drop_last()[j]);
                }
                assert forall|u: int|
                    0 <= u < t + 1 && !has_index(nb, (#[trigger] items@[u]).0 as int) implies dominates(
                    nb,
                    items@[u].0 as int,
                    items@[u].1.score.num as int,
                    items@[u].1.score.den as int,
                ) by {
                    assert(nb[p0].0 == idx);
                    assert(u < t);
                    if has_index(ob, items@[u].0 as int) {
                        // Only the evicted minimum can have left the
                        // selection, and its stored score is its index's
                        // unique spec score.
                        let j0 = choose|j0: int|
                            0 <= j0 < ob.len() && (#[trigger] ob[j0]).0 == items@[u].0;
                        if j0 < ob.len() - 1 {
                            let jn = if j0 < p0 {
                                j0
                            } else {
                                j0 + 1
                            };
                            assert(nb[jn] == ob[j0]);
                            assert(has_index(nb, items@[u].0 as int));
                        }
                        assert(ob[j0] == m);
                        assert(entry_matches(m, specs[m.0 as int]));
                        assert(result_matches(&items@[u].1, specs[items@[u].0 as int]));
                        assert(m.1.num == items@[u].1.score.num && m.1.den
                            == items@[u].1.score.den);
                        assert forall|j: int| 0 <= j < nb.len() implies entry_precedes(
                            (#[trigger] nb[j]).0 as int,
                            nb[j].1.num as int,
                            nb[j].1.den as int,
                            items@[u].0 as int,
                            items@[u].1.score.num as int,
                            items@[u].1.score.den as int,
                        ) by {
                            assert(eprec(nb[j], m));
                        }
                    } else {
                        assert(dominates(
                            ob,
                            items@[u].0 as int,
                            items@[u].1.score.num as int,
                            items@[u].1.score.den as int,
                        ));
                        assert(entry_precedes(
                            m.0 as int,
                            m.1.num as int,
                            m.1.den as int,
                            items@[u].0 as int,
                            items@[u].1.score.num as int,
                            items@[u].1.score.den as int,
                        ));
                        lemma_dominates_through(
                            nb,
                            m,
                            items@[u].0 as int,
                            items@[u].1.score.num as int,
                            items@[u].1.score.den as int,
                        );
                    }
                }
            } else {
                assert(ob.len() < k && nb.len() == ob.len() + 1);
                assert forall|u: int| 0 <= u < t + 1 implies has_index(
                    nb,
                    (#[trigger] items@[u]).0 as int,
                ) by {
                    if u == t as int {
                        assert(nb[p0].0 == items@[t as int].0);
                    } else {
                        assert(has_index(ob, items@[u].0 as int));
                        let j0 = choose|j0: int|
                            0 <= j0 < ob.len() && (#[trigger] ob[j0]).0 == items@[u].0;
                        let jn = if j0 < p0 {
                            j0
                        } else {
                            j0 + 1
                        };
                        assert(nb[jn] == ob[j0]);
                    }
                }
            }
        }
    } else {
        proof {
            assert(pos as int == ob.len() && ob.len() == k);
            assert forall|u: int|
                0 <= u < t + 1 && !has_index(best@, (#[trigger] items@[u]).0 as int) implies dominates(
                best@,
                items@[u].0 as int,
                items@[u].1.score.num as int,
                items@[u].1.score.den as int,
            ) by {
                if u == t as int {
                    assert(forall|p: int|
                        0 <= p < best@.len() ==> entry_precedes(
                            (#[trigger] best@[p]).0 as int,
                            best@[p].1.num as int,
                            best@[p].1.den as int,
                            idx as int,
                            sc.num as int,
                            sc.den as int,
                        ));
                }
            }
        }
    }
}

/// Restates what the selection guarantees about the inputs in terms of the
/// spec results themselves, for a collection that holds every positive spec
/// result.
pub(crate) proof fn lemma_select_translate(
    r: Seq<(usize, Score, Vec<usize>)>,
    items: Seq<(usize, MatchResult)>,
    k: int,
    specs: Seq<(int, int, Seq<int>)>,
)
    requires
        items_wf(items, specs),
        r.len() < k ==> forall|u: int|
            0 <= u < items.len() ==> has_index(r, (#[trigger] items[u]).0 as int),
        forall|u: int|
            0 <= u < items.len() && !has_index(r, (#[trigger] items[u]).0 as int) ==> dominates(
                r,
                items[u].0 as int,
                items[u].1.score.num as int,
                items[u].1.score.den as int,
            ),
        forall|i: int|
            0 <= i < specs.len() && (#[trigger] specs[i]).0 > 0 ==> items_have_index(
                items,
                items.len() as int,
                i,
            ),
    ensures
        r.len() < k ==> forall|i: int|
            0 <= i < specs.len() && (#[trigger] specs[i]).0 > 0 ==> has_index(r, i),
        forall|i: int|
            0 <= i < specs.len() && (#[trigger] specs[i]).0 > 0 && !has_index(r, i) ==> dominates(
                r,
                i,
                specs[i].0,
                specs[i].1,
            ),
{
    if r.len() < k {
        assert forall|i: int| 0 <= i < specs.len() && (#[trigger] specs[i]).0 > 0 implies has_index(
            r,
            i,
        ) by {
            let u = choose|u: int| 0 <= u < items.len() && (#[trigger] items[u]).0 == i;
            assert(has_index(r, items[u].0 as int));
        }
    }
    assert forall|i: int|
        0 <= i < specs.len() && (#[trigger] specs[i]).0 > 0 && !has_index(r, i) implies dominates(
        r,
        i,
        specs[i].0,
        specs[i].1,
    ) by {
        let u = choose|u: int| 0 <= u < items.len() && (#[trigger] items[u]).0 == i;
        assert(result_matches(&items[u].1, specs[items[u].0 as int]));
        assert(items[u].1.score.num == specs[i].0 && items[u].1.score.den == specs[i].1);
        assert(dominates(
            r,
            items[u].0 as int,
            items[u].1.score.num as int,
            items[u].1.score.den as int,
        ));
    }
}

/// Selects the at most `k` first entries, in top-K order, from a collection
/// of positive per-candidate results with pairwise distinct indices; every
/// unselected input comes after every selected one in that order.
pub(crate) fn select_top_k(
    items: &Vec<(usize, MatchResult)>,
    k: usize,
    Ghost(specs): Ghost<Seq<(int, int, Seq<int>)>>,
) -> (r: Vec<(usize, Score, Vec<usize>)>)
    requires
        items_wf(items@, specs),
    ensures
        r@.len() <= k,
        entries_wf(r@, specs),
        entries_sorted(r@),
        entries_distinct(r@),
        forall|j: int|
            0 <= j < r@.len() ==> items_have_index(items@, items@.len() as int, (#[trigger] r@[j]).0 as int),
        r@.len() < k ==> forall|u: int|
            0 <= u < items@.len() ==> has_index(r@, (#[trigger] items@[u]).0 as int),
        forall|u: int|
            0 <= u < items@.len() && !has_index(r@, (#[trigger] items@[u]).0 as int) ==> dominates(
                r@,
                items@[u].0 as int,
                items@[u].1.score.num as int,
                items@[u].1.score.den as int,
            ),
{
    let mut best: Vec<(usize, Score, Vec<usize>)> = Vec::new();
    let mut t: usize = 0;
    while t < items.len()
        invariant
            t <= items@.len(),
            items_wf(items@, specs),
            selection_inv(best@, items@, t as int, k as int, specs),
        decreases items@.len() - t,
    {
        select_step(&mut best, k, items, t, Ghost(specs));
        t = t + 1;
    }
    proof {
        assert(t as int == items@.len() as int);
        assert(selection_inv(best@, items@, items@.len() as int, k as int, specs));
    }
    best
}

} // verus!
