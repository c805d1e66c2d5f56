//! Dominator tree and dominance frontiers over successor and predecessor lists.

use vstd::prelude::*;
use std::collections::BTreeSet;
use crate::graph::{closed, converse, dominates, edge, is_idom, is_path, leads, reach_avoiding, reaches, rows, strictly_dominates};
use crate::graph::{lemma_dominates_antisymmetric, lemma_dominates_reflexive, lemma_dominates_transitive, lemma_dominators_chain, lemma_entry_dominates, lemma_path_nodes, lemma_path_prefix, lemma_reaches_step, lemma_reaches_self};

verus! {

/// `idom` holds the immediate dominator of every node reachable from `entry`,
/// the entry itself for the entry, and nothing for the others.
pub open spec fn idom_tree(succ: Seq<Seq<u32>>, entry: u32, idom: Seq<Option<u32>>) -> bool {
    &&& idom.len() == succ.len()
    &&& entry < succ.len()
    &&& idom[entry as int] == Some(entry)
    &&& forall|b: u32|
        b < succ.len() ==> match #[trigger] idom[b as int] {
            Some(d) => reaches(succ, entry, b, None) && d < succ.len() && (b == entry || is_idom(
                succ,
                entry,
                d,
                b,
            )),
            None => !reaches(succ, entry, b, None),
        }
}

/// A node has at most one immediate dominator, so the tree is determined.
pub proof fn law_idom_unique(succ: Seq<Seq<u32>>, entry: u32, a: Seq<Option<u32>>, b: Seq<Option<u32>>)
    requires
        succ.len() <= u32::MAX,
        idom_tree(succ, entry, a),
        idom_tree(succ, entry, b),
    ensures
        a == b,
{
    assert forall|i: int| 0 <= i < a.len() implies a[i] == b[i] by {
        let x = i as u32;
        assert(a[x as int] is Some <==> b[x as int] is Some);
        if a[x as int] is Some && x != entry {
            let d = a[x as int]->0;
            let e = b[x as int]->0;
            assert(is_idom(succ, entry, d, x) && is_idom(succ, entry, e, x));
            assert(strictly_dominates(succ, entry, d, x));
            assert(strictly_dominates(succ, entry, e, x));
            lemma_dominator_reached(succ, entry, d, x);
            lemma_dominates_antisymmetric(succ, entry, d, e);
        }
    }
    assert(a =~= b);
}

/// What dominates a reachable node is reachable.
pub proof fn lemma_dominator_reached(succ: Seq<Seq<u32>>, entry: u32, d: u32, b: u32)
    requires
        reaches(succ, entry, b, None),
        dominates(succ, entry, d, b),
    ensures
        reaches(succ, entry, d, None),
{
    let p = choose|p: Seq<u32>| #[trigger] leads(succ, p, entry, b, None);
    assert(p.contains(d)) by {
        if !p.contains(d) {
            assert(leads(succ, p, entry, b, Some(d)));
        }
    }
    let i = choose|i: int| 0 <= i < p.len() && p[i] == d;
    lemma_path_prefix(succ, p, i + 1);
    assert(leads(succ, p.take(i + 1), entry, d, None));
}

/// The immediate dominators of a graph.
pub open spec fn idom_of(succ: Seq<Seq<u32>>, entry: u32) -> Seq<Option<u32>> {
    choose|idom: Seq<Option<u32>>| idom_tree(succ, entry, idom)
}

/// Immediate dominator of every block.
///
/// The entry is its own immediate dominator; unreachable blocks have none.
pub fn build_idom(succ: &[Vec<u32>], pred: &[Vec<u32>], entry: u32) -> (idom: Vec<Option<u32>>)
    requires
        closed(rows(succ@)),
        converse(rows(succ@), rows(pred@)),
        entry < rows(succ@).len(),
        rows(succ@).len() <= u32::MAX,
    ensures
        idom_tree(rows(succ@), entry, idom@),
        idom@ == idom_of(rows(succ@), entry),
{
    let n: usize = succ.len();
    let reached = reach_avoiding(succ, entry, None);
    // Row `d`: the nodes that a path reaches without `d`.
    let mut without: Vec<Vec<bool>> = Vec::new();
    let mut d: usize = 0;
    while d < n
        invariant
            d <= n,
            n == rows(succ@).len(),
            n <= u32::MAX,
            closed(rows(succ@)),
            entry < n,
            without@.len() == d,
            forall|k: int| 0 <= k < d ==> (#[trigger] without@[k])@.len() == n,
            forall|k: u32, b: u32|
                k < d && b < n ==> (#[trigger] without@[k as int]@[b as int] <==> reaches(
                    rows(succ@),
                    entry,
                    b,
                    Some(k),
                )),
        decreases n - d,
    {
        let row = reach_avoiding(succ, entry, Some(d as u32));
        without.push(row);
        d += 1;
    }
    let mut idom: Vec<Option<u32>> = Vec::new();
    let mut b: usize = 0;
    while b < n
        invariant
            b <= n,
            n == rows(succ@).len(),
            n <= u32::MAX,
            closed(rows(succ@)),
            entry < n,
            reached@.len() == n,
            forall|x: u32|
                x < n ==> (#[trigger] reached@[x as int] <==> reaches(rows(succ@), entry, x, None)),
            without@.len() == n,
            forall|k: int| 0 <= k < n ==> (#[trigger] without@[k])@.len() == n,
            forall|k: u32, x: u32|
                k < n && x < n ==> (#[trigger] without@[k as int]@[x as int] <==> reaches(
                    rows(succ@),
                    entry,
                    x,
                    Some(k),
                )),
            idom@.len() == b,
            forall|x: u32|
                x < b ==> match #[trigger] idom@[x as int] {
                    Some(d) => reaches(rows(succ@), entry, x, None) && d < n && (x == entry && d == entry
                        || x != entry && is_idom(rows(succ@), entry, d, x)),
                    None => !reaches(rows(succ@), entry, x, None),
                },
        decreases n - b,
    {
        if !reached[b] {
            assert(!reached@[(b as u32) as int]);
            idom.push(None);
        } else if b == entry as usize {
            assert(reached@[(b as u32) as int]);
            idom.push(Some(entry));
        } else {
            let ghost bb = b as u32;
            proof {
                assert(reached@[bb as int]);
                lemma_entry_dominates(rows(succ@), entry, bb);
            }
            let mut best: u32 = entry;
            let mut k: usize = 0;
            proof {
                assert forall|e: u32|
                    e < 0 && #[trigger] strictly_dominates(rows(succ@), entry, e, bb) implies dominates(
                    rows(succ@),
                    entry,
                    e,
                    best,
                ) by {}
            }
            while k < n
                invariant
                    k <= n,
                    n == rows(succ@).len(),
                    n <= u32::MAX,
                    closed(rows(succ@)),
                    entry < n,
                    b < n,
                    bb == b,
                    best < n,
                    reaches(rows(succ@), entry, bb, None),
                    without@.len() == n,
                    forall|k: int| 0 <= k < n ==> (#[trigger] without@[k])@.len() == n,
                    forall|k: u32, x: u32|
                        k < n && x < n ==> (#[trigger] without@[k as int]@[x as int] <==> reaches(
                            rows(succ@),
                            entry,
                            x,
                            Some(k),
                        )),
                    strictly_dominates(rows(succ@), entry, best, bb),
                    forall|e: u32|
                        e < k && #[trigger] strictly_dominates(rows(succ@), entry, e, bb) ==> dominates(
                            rows(succ@),
                            entry,
                            e,
                            best,
                        ),
                decreases n - k,
            {
                let ghost kk = k as u32;
                assert(without@[kk as int]@[bb as int] <==> reaches(rows(succ@), entry, bb, Some(kk)));
                assert(without@[best as int]@[kk as int] <==> reaches(rows(succ@), entry, kk, Some(best)));
                let ghost prev = best;
                if k != b && !without[k][b] {
                    proof {
                        assert(strictly_dominates(rows(succ@), entry, kk, bb));
                        lemma_dominators_chain(rows(succ@), entry, kk, best, bb);
                        lemma_dominates_reflexive(rows(succ@), entry, kk);
                    }
                    if !without[best as usize][k] {
                        best = k as u32;
                    }
                }
                proof {
                    assert forall|e: u32|
                        e < k + 1 && #[trigger] strictly_dominates(
                            rows(succ@),
                            entry,
                            e,
                            bb,
                        ) implies dominates(rows(succ@), entry, e, best) by {
                        if e < k && best != prev {
                            assert(dominates(rows(succ@), entry, e, prev));
                            lemma_dominates_transitive(rows(succ@), entry, e, prev, best);
                        }
                    }
                }
                k += 1;
            }
            idom.push(Some(best));
        }
        b += 1;
    }
    proof {
        lemma_reaches_self(rows(succ@), entry, None);
        assert(idom@[entry as int] == Some(entry));
        assert(idom_tree(rows(succ@), entry, idom@));
        law_idom_unique(rows(succ@), entry, idom@, idom_of(rows(succ@), entry));
    }
    idom
}

// ─── Dominance frontier ─────────────────────────────────────────────────────

/// The node after `k` steps up from `p`, while `stop` has not been met.
pub open spec fn climb(idom: Seq<Option<u32>>, p: u32, stop: Option<u32>, k: nat) -> Option<u32>
    decreases k,
{
    if k == 0 {
        if Some(p) == stop {
            None
        } else {
            Some(p)
        }
    } else {
        match climb(idom, p, stop, (k - 1) as nat) {
            Some(x) => if x < idom.len() && idom[x as int] != stop {
                idom[x as int]
            } else {
                None
            },
            None => None,
        }
    }
}

/// The climb from `p` ends within `k` steps.
pub open spec fn ends_by(idom: Seq<Option<u32>>, p: u32, stop: Option<u32>, k: nat) -> bool {
    climb(idom, p, stop, k) is None
}

/// `r` is met on the climb from `p`.
pub open spec fn met_at(idom: Seq<Option<u32>>, p: u32, stop: Option<u32>, r: u32, k: nat) -> bool {
    climb(idom, p, stop, k) == Some(r)
}

/// `b` merges at least two edges, and the climb from one of its predecessors to
/// its immediate dominator meets `r`.
pub open spec fn in_frontier(pred: Seq<Seq<u32>>, idom: Seq<Option<u32>>, r: u32, b: u32) -> bool {
    &&& b < pred.len()
    &&& pred[b as int].len() >= 2
    &&& exists|j: int, k: nat|
        0 <= j < pred[b as int].len() && #[trigger] met_at(
            idom,
            pred[b as int][j],
            idom[b as int],
            r,
            k,
        )
}

/// The climb from `p` comes to an end.
pub open spec fn climb_ends(idom: Seq<Option<u32>>, p: u32, stop: Option<u32>) -> bool {
    exists|k: nat| ends_by(idom, p, stop, k)
}

/// Every climb that the frontier needs comes to an end.
pub open spec fn climbs_end(pred: Seq<Seq<u32>>, idom: Seq<Option<u32>>) -> bool {
    forall|b: int, j: int|
        0 <= b < pred.len() && pred[b].len() >= 2 && 0 <= j < pred[b].len()
            ==> #[trigger] climb_ends(idom, pred[b][j], idom[b])
}

/// Once ended, a climb stays ended.
pub proof fn lemma_ended(idom: Seq<Option<u32>>, p: u32, stop: Option<u32>, k: nat, m: nat)
    requires
        k <= m,
        ends_by(idom, p, stop, k),
    ensures
        ends_by(idom, p, stop, m),
    decreases m,
{
    if k < m {
        lemma_ended(idom, p, stop, k, (m - 1) as nat);
    }
}

fn empty_sets(n: usize) -> (r: Vec<BTreeSet<u32>>)
    ensures
        r@.len() == n,
        forall|i: int| 0 <= i < n ==> (#[trigger] r@[i])@ == Set::<u32>::empty(),
{
    let mut r: Vec<BTreeSet<u32>> = Vec::new();
    let mut i: usize = 0;
    while i < n
        invariant
            i <= n,
            r@.len() == i,
            forall|j: int| 0 <= j < i ==> (#[trigger] r@[j])@ == Set::<u32>::empty(),
        decreases n - i,
    {
        r.push(BTreeSet::new());
        i += 1;
    }
    r
}

/// Dominance frontier of every block: the merges just beyond what it dominates.
pub fn dominance_frontier(succ: &[Vec<u32>], pred: &[Vec<u32>], idom: &[Option<u32>]) -> (df: Vec<BTreeSet<u32>>)
    requires
        rows(succ@).len() <= u32::MAX,
        rows(pred@).len() == rows(succ@).len(),
        idom@.len() == rows(succ@).len(),
        closed(rows(pred@)),
        forall|b: int| 0 <= b < idom@.len() && (#[trigger] idom@[b]) is Some ==> idom@[b]->0 < idom@.len(),
        climbs_end(rows(pred@), idom@),
    ensures
        df@.len() == rows(succ@).len(),
        forall|r: u32, b: u32|
            r < rows(succ@).len() ==> (#[trigger] df@[r as int]@.contains(b) <==> in_frontier(
                rows(pred@),
                idom@,
                r,
                b,
            )),
{
    let n: usize = succ.len();
    let mut df = empty_sets(n);
    let mut b: usize = 0;
    while b < n
        invariant
            b <= n,
            n == rows(pred@).len(),
            n == idom@.len(),
            n <= u32::MAX,
            closed(rows(pred@)),
            forall|x: int| 0 <= x < n && (#[trigger] idom@[x]) is Some ==> idom@[x]->0 < n,
            climbs_end(rows(pred@), idom@),
            df@.len() == n,
            forall|r: u32, x: u32|
                r < n ==> (#[trigger] df@[r as int]@.contains(x) <==> x < b && in_frontier(
                    rows(pred@),
                    idom@,
                    r,
                    x,
                )),
        decreases n - b,
    {
        let ghost bb = b as u32;
        let ghost df0 = df@;
        if pred[b].len() >= 2 {
            let mut j: usize = 0;
            while j < pred[b].len()
                invariant
                    b < n,
                    bb == b,
                    n == rows(pred@).len(),
                    n == idom@.len(),
                    n <= u32::MAX,
                    closed(rows(pred@)),
                    rows(pred@)[b as int].len() >= 2,
                    j <= rows(pred@)[b as int].len(),
                    forall|x: int| 0 <= x < n && (#[trigger] idom@[x]) is Some ==> idom@[x]->0 < n,
                    climbs_end(rows(pred@), idom@),
                    df@.len() == n,
                    forall|r: u32, x: u32|
                        r < n && x != bb ==> (#[trigger] df@[r as int]@.contains(x) <==> x < b
                            && in_frontier(rows(pred@), idom@, r, x)),
                    forall|r: u32|
                        r < n ==> (#[trigger] df@[r as int]@.contains(bb) <==> exists|i: int, k: nat|
                            0 <= i < j && #[trigger] met_at(
                                idom@,
                                rows(pred@)[b as int][i],
                                idom@[b as int],
                                r,
                                k,
                            )),
                decreases rows(pred@)[b as int].len() - j,
            {
                let p = pred[b][j];
                let stop = idom[b];
                assert(rows(pred@)[b as int][j as int] < n);
                assert(climb_ends(idom@, rows(pred@)[b as int][j as int], idom@[b as int]));
                let ghost last: nat = choose|k: nat| ends_by(idom@, p, stop, k);
                let mut runner: Option<u32> = if stop == Some(p) {
                    None
                } else {
                    Some(p)
                };
                let ghost mut k: nat = 0;
                let ghost df1 = df@;
                proof {
                    assert(rows(pred@)[b as int][j as int] == p);
                    if runner is None {
                        lemma_ended(idom@, p, stop, 0, last);
                    }
                }
                while runner.is_some()
                    invariant
                        b < n,
                        bb == b,
                        n == rows(pred@).len(),
                        n == idom@.len(),
                        n <= u32::MAX,
                        p < n,
                        stop == idom@[b as int],
                        forall|x: int|
                            0 <= x < n && (#[trigger] idom@[x]) is Some ==> idom@[x]->0 < n,
                        runner == climb(idom@, p, stop, k),
                        runner is Some ==> runner->0 < n,
                        ends_by(idom@, p, stop, last),
                        runner is Some ==> k < last,
                        df@.len() == n,
                        df1.len() == n,
                        forall|r: u32, x: u32|
                            r < n && x != bb ==> (#[trigger] df@[r as int]@.contains(x)
                                <==> df1[r as int]@.contains(x)),
                        forall|r: u32|
                            r < n ==> (#[trigger] df@[r as int]@.contains(bb)
                                <==> df1[r as int]@.contains(bb) || exists|m: nat|
                                m < k && #[trigger] met_at(idom@, p, stop, r, m)),
                    decreases last - k,
                {
                    let at = runner.unwrap();
                    let ghost df2 = df@;
                    let mut row = df.remove(at as usize);
                    row.insert(b as u32);
                    df.insert(at as usize, row);
                    proof {
                        assert(df@.len() == n);
                        assert forall|r: u32|
                            r < n && r != at implies df@[r as int] == df2[r as int] by {}
                        assert(df@[at as int]@ == df2[at as int]@.insert(bb));
                        assert(met_at(idom@, p, stop, at, k));
                        assert forall|r: u32| r < n implies (#[trigger] df@[r as int]@.contains(bb)
                            <==> df1[r as int]@.contains(bb) || exists|m: nat|
                            m < k + 1 && #[trigger] met_at(idom@, p, stop, r, m)) by {
                            if df@[r as int]@.contains(bb) && !df1[r as int]@.contains(bb) {
                                if r == at {
                                } else {
                                    assert(df2[r as int]@.contains(bb));
                                }
                            }
                            if exists|m: nat| m < k + 1 && #[trigger] met_at(idom@, p, stop, r, m) {
                                let m = choose|m: nat|
                                    m < k + 1 && #[trigger] met_at(idom@, p, stop, r, m);
                                if m == k {
                                    assert(r == at);
                                } else {
                                    assert(df2[r as int]@.contains(bb));
                                }
                            }
                            if df1[r as int]@.contains(bb) {
                                assert(df2[r as int]@.contains(bb));
                            }
                        }
                        assert forall|r: u32, x: u32| r < n && x != bb implies (
                        #[trigger] df@[r as int]@.contains(x) <==> df1[r as int]@.contains(x)) by {
                            assert(df2[r as int]@.contains(x) <==> df1[r as int]@.contains(x));
                        }
                    }
                    let up = idom[at as usize];
                    runner = if up == stop {
                        None
                    } else {
                        up
                    };
                    proof {
                        k = k + 1;
                        assert(climb(idom@, p, stop, k) == runner);
                        if runner is Some && k >= last {
                            lemma_ended(idom@, p, stop, last, k);
                        }
                    }
                }
                proof {
                    assert forall|r: u32| r < n implies (#[trigger] df@[r as int]@.contains(bb)
                        <==> exists|i: int, m: nat|
                        0 <= i < j + 1 && #[trigger] met_at(
                            idom@,
                            rows(pred@)[b as int][i],
                            idom@[b as int],
                            r,
                            m,
                        )) by {
                        if df@[r as int]@.contains(bb) {
                            if !df1[r as int]@.contains(bb) {
                                let m = choose|m: nat|
                                    m < k && #[trigger] met_at(idom@, p, stop, r, m);
                                assert(met_at(
                                    idom@,
                                    rows(pred@)[b as int][j as int],
                                    idom@[b as int],
                                    r,
                                    m,
                                ));
                            }
                        }
                        if exists|i: int, m: nat|
                            0 <= i < j + 1 && #[trigger] met_at(
                                idom@,
                                rows(pred@)[b as int][i],
                                idom@[b as int],
                                r,
                                m,
                            ) {
                            let (i, m) = choose|i: int, m: nat|
                                0 <= i < j + 1 && #[trigger] met_at(
                                    idom@,
                                    rows(pred@)[b as int][i],
                                    idom@[b as int],
                                    r,
                                    m,
                                );
                            if i == j {
                                if m >= k {
                                    lemma_ended(idom@, p, stop, k, m);
                                }
                                assert(met_at(idom@, p, stop, r, m));
                            } else {
                                assert(df1[r as int]@.contains(bb));
                            }
                        }
                    }
                    assert forall|r: u32, x: u32| r < n && x != bb implies (
                    #[trigger] df@[r as int]@.contains(x) <==> x < b && in_frontier(
                        rows(pred@),
                        idom@,
                        r,
                        x,
                    )) by {
                        assert(df1[r as int]@.contains(x) <==> x < b && in_frontier(
                            rows(pred@),
                            idom@,
                            r,
                            x,
                        ));
                    }
                }
                j += 1;
            }
        }
        b += 1;
    }
    df
}

// ─── Iterated dominance frontier ────────────────────────────────────────────

/// The sets of a vector of sets.
pub open spec fn sets(v: Seq<BTreeSet<u32>>) -> Seq<Set<u32>> {
    Seq::new(v.len(), |i: int| v[i]@)
}


/// Step `i` of `q` goes from a block into its frontier.
pub open spec fn frontier_step(df: Seq<Set<u32>>, q: Seq<u32>, i: int) -> bool {
    q[i] < df.len() && df[q[i] as int].contains(q[i + 1])
}

/// `q` starts in `seed` and follows frontiers, at least once, up to `y`.
pub open spec fn frontier_chain(df: Seq<Set<u32>>, seed: Set<u32>, q: Seq<u32>, y: u32) -> bool {
    &&& q.len() >= 2
    &&& seed.contains(q[0])
    &&& q.last() == y
    &&& forall|i: int| 0 <= i < q.len() - 1 ==> #[trigger] frontier_step(df, q, i)
}

/// `y` lies in the iterated frontier of `seed`.
pub open spec fn in_iterated(df: Seq<Set<u32>>, seed: Set<u32>, y: u32) -> bool {
    exists|q: Seq<u32>| #[trigger] frontier_chain(df, seed, q, y)
}

/// Every frontier lists existing blocks only.
pub open spec fn frontiers_closed(df: Seq<Set<u32>>) -> bool {
    forall|a: int, b: u32| 0 <= a < df.len() && (#[trigger] df[a].contains(b)) ==> b < df.len()
}

pub proof fn lemma_chain_extend(df: Seq<Set<u32>>, seed: Set<u32>, a: u32, b: u32)
    requires
        seed.contains(a) || in_iterated(df, seed, a),
        a < df.len(),
        df[a as int].contains(b),
    ensures
        in_iterated(df, seed, b),
{
    if seed.contains(a) {
        let q = seq![a, b];
        assert(frontier_step(df, q, 0));
        assert(frontier_chain(df, seed, q, b));
    } else {
        let p = choose|p: Seq<u32>| #[trigger] frontier_chain(df, seed, p, a);
        let q = p.push(b);
        assert forall|i: int| 0 <= i < q.len() - 1 implies #[trigger] frontier_step(df, q, i) by {
            if i < p.len() - 1 {
                assert(frontier_step(df, p, i));
            }
        }
        assert(frontier_chain(df, seed, q, b));
    }
}

proof fn lemma_chain_inside(df: Seq<Set<u32>>, seed: Set<u32>, found: Set<u32>, q: Seq<u32>, y: u32, i: int)
    requires
        frontier_chain(df, seed, q, y),
        forall|a: u32, b: u32|
            #![trigger df[a as int].contains(b)]
            a < df.len() && (seed.contains(a) || found.contains(a)) && df[a as int].contains(b)
                ==> found.contains(b),
        1 <= i < q.len(),
    ensures
        found.contains(q[i]),
    decreases i,
{
    if i > 1 {
        lemma_chain_inside(df, seed, found, q, y, i - 1);
    }
    assert(frontier_step(df, q, i - 1));
}

/// Iterated dominance frontier of `seed`: its frontier, the frontier of that,
/// and so on. A seed block belongs to it only if such a chain leads back to it.
pub fn iterated_df(df: &[BTreeSet<u32>], seed: &BTreeSet<u32>) -> (result: BTreeSet<u32>)
    requires
        df@.len() <= u32::MAX,
        frontiers_closed(sets(df@)),
        forall|b: u32| seed@.contains(b) ==> b < df@.len(),
    ensures
        forall|y: u32| result@.contains(y) <==> in_iterated(sets(df@), seed@, y),
{
    let n: usize = df.len();
    let mut result: BTreeSet<u32> = BTreeSet::new();
    let mut found = crate::graph::all_false(n);
    let mut work: Vec<u32> = Vec::new();
    let mut i: usize = 0;
    while i < n
        invariant
            i <= n,
            n == df@.len(),
            n <= u32::MAX,
            forall|k: int| 0 <= k < work@.len() ==> seed@.contains(#[trigger] work@[k]),
            forall|b: u32| b < i && seed@.contains(b) ==> work@.contains(b),
        decreases n - i,
    {
        let ghost w0 = work@;
        if seed.contains(&(i as u32)) {
            work.push(i as u32);
            assert(work@[work@.len() - 1] == i as u32);
            assert forall|b: u32| w0.contains(b) implies work@.contains(b) by {
                let k = choose|k: int| 0 <= k < w0.len() && w0[k] == b;
                assert(work@[k] == b);
            }
        }
        i += 1;
    }
    while work.len() > 0
        invariant
            n == df@.len(),
            n <= u32::MAX,
            frontiers_closed(sets(df@)),
            forall|b: u32| seed@.contains(b) ==> b < n,
            found@.len() == n,
            forall|b: u32| result@.contains(b) <==> b < n && found@[b as int],
            forall|b: u32| #[trigger] result@.contains(b) ==> in_iterated(sets(df@), seed@, b),
            forall|k: int|
                0 <= k < work@.len() ==> (#[trigger] work@[k]) < n && (seed@.contains(work@[k])
                    || result@.contains(work@[k])),
            forall|a: u32, b: u32|
                #![trigger sets(df@)[a as int].contains(b)]
                a < n && (seed@.contains(a) || result@.contains(a)) && sets(df@)[a as int].contains(b)
                    ==> result@.contains(b) || work@.contains(a),
        decreases crate::graph::misses(found@), work@.len(),
    {
        let ghost before = work@;
        let node = work[work.len() - 1];
        work.pop();
        assert(before[before.len() - 1] == node);
        assert forall|a: u32| before.contains(a) implies a == node || work@.contains(a) by {
            let k = choose|k: int| 0 <= k < before.len() && before[k] == a;
            if k < work@.len() {
                assert(work@[k] == a);
            }
        }
        let ghost start = crate::graph::misses(found@);
        let ghost rest = work@.len();
        let mut y: usize = 0;
        while y < n
            invariant
                n == df@.len(),
                n <= u32::MAX,
                y <= n,
                node < n,
                seed@.contains(node) || result@.contains(node),
                found@.len() == n,
                forall|b: u32| result@.contains(b) <==> b < n && found@[b as int],
                forall|b: u32| #[trigger] result@.contains(b) ==> in_iterated(sets(df@), seed@, b),
                forall|k: int|
                    0 <= k < work@.len() ==> (#[trigger] work@[k]) < n && (seed@.contains(work@[k])
                        || result@.contains(work@[k])),
                forall|a: u32, b: u32|
                    #![trigger sets(df@)[a as int].contains(b)]
                    a < n && a != node && (seed@.contains(a) || result@.contains(a))
                        && sets(df@)[a as int].contains(b) ==> result@.contains(b) || work@.contains(a),
                forall|b: u32|
                    b < y && #[trigger] sets(df@)[node as int].contains(b) ==> result@.contains(b)
                        || work@.contains(node),
                crate::graph::misses(found@) < start || (crate::graph::misses(found@) == start
                    && work@.len() == rest),
            decreases n - y,
        {
            let ghost yy = y as u32;
            if df[node as usize].contains(&(y as u32)) && !found[y] {
                let ghost w0 = work@;
                let ghost r0 = result@;
                proof {
                    lemma_chain_extend(sets(df@), seed@, node, yy);
                    crate::graph::lemma_misses_set(found@, y as int);
                }
                found.set(y, true);
                result.insert(y as u32);
                work.push(y as u32);
                assert(work@[work@.len() - 1] == yy);
                assert forall|a: u32| w0.contains(a) implies work@.contains(a) by {
                    let k = choose|k: int| 0 <= k < w0.len() && w0[k] == a;
                    assert(work@[k] == a);
                }
                assert(result@ == r0.insert(yy));
            }
            y += 1;
        }
    }
    assert forall|y: u32| in_iterated(sets(df@), seed@, y) implies result@.contains(y) by {
        let q = choose|q: Seq<u32>| #[trigger] frontier_chain(sets(df@), seed@, q, y);
        lemma_chain_inside(sets(df@), seed@, result@, q, y, q.len() - 1);
    }
    result
}

// ─── Laws ───────────────────────────────────────────────────────────────────

/// The node `k` steps up from `x`.
pub open spec fn ancestor(idom: Seq<Option<u32>>, x: u32, k: nat) -> Option<u32> {
    climb(idom, x, None, k)
}

/// An ancestor in the tree is a dominator.
pub proof fn lemma_ancestor_dominates(succ: Seq<Seq<u32>>, entry: u32, idom: Seq<Option<u32>>, x: u32, k: nat)
    requires
        idom_tree(succ, entry, idom),
        x < succ.len(),
    ensures
        ancestor(idom, x, k) matches Some(a) ==> a < succ.len() && dominates(succ, entry, a, x) && (
        reaches(succ, entry, x, None) ==> reaches(succ, entry, a, None)),
    decreases k,
{
    if k == 0 {
        lemma_dominates_reflexive(succ, entry, x);
    } else {
        lemma_ancestor_dominates(succ, entry, idom, x, (k - 1) as nat);
        if let Some(y) = ancestor(idom, x, (k - 1) as nat) {
            if let Some(a) = idom[y as int] {
                lemma_entry_dominates(succ, entry, y);
                lemma_dominates_transitive(succ, entry, a, y, x);
                if reaches(succ, entry, x, None) {
                    let p = choose|p: Seq<u32>| #[trigger] leads(succ, p, entry, x, None);
                    assert(p.contains(a)) by {
                        if !p.contains(a) {
                            assert(leads(succ, p, entry, x, Some(a)));
                        }
                    }
                    let i = choose|i: int| 0 <= i < p.len() && p[i] == a;
                    lemma_path_prefix(succ, p, i + 1);
                    assert(leads(succ, p.take(i + 1), entry, a, None));
                }
            }
        }
    }
}

/// A climb is the chain of ancestors up to the first that equals `stop`.
proof fn lemma_climb_shift(idom: Seq<Option<u32>>, x: u32, stop: Option<u32>, k: nat)
    requires
        x < idom.len(),
        Some(x) != stop,
    ensures
        climb(idom, x, stop, k + 1) == match idom[x as int] {
            Some(y) => climb(idom, y, stop, k),
            None => None,
        },
    decreases k,
{
    if k > 0 {
        lemma_climb_shift(idom, x, stop, (k - 1) as nat);
    } else {
        assert(climb(idom, x, stop, 0) == Some(x));
    }
}

/// Every dominator of a reachable node is met on the way up from it.
pub proof fn lemma_dominator_is_ancestor(succ: Seq<Seq<u32>>, entry: u32, idom: Seq<Option<u32>>, p: Seq<u32>, i: int, d: u32) -> (k: nat)
    requires
        closed(succ),
        idom_tree(succ, entry, idom),
        is_path(succ, p),
        p[0] == entry,
        0 <= i < p.len(),
        d < succ.len(),
        dominates(succ, entry, d, p[i]),
    ensures
        ancestor(idom, p[i], k) == Some(d),
    decreases i,
{
    let x = p[i];
    lemma_path_nodes(succ, p, i);
    lemma_path_prefix(succ, p, i + 1);
    let q = p.take(i + 1);
    assert(leads(succ, q, entry, x, None));
    if d == x {
        0
    } else {
        assert(idom[x as int] is Some);
        if x == entry {
            // The one-node path to the entry leaves no room for another dominator.
            assert(leads(succ, seq![entry], entry, entry, Some(d)));
            0
        } else {
            let y = idom[x as int]->0;
            assert(is_idom(succ, entry, y, x));
            assert(strictly_dominates(succ, entry, d, x));
            assert(dominates(succ, entry, d, y));
            assert(q.contains(y)) by {
                if !q.contains(y) {
                    assert(leads(succ, q, entry, x, Some(y)));
                }
            }
            let j = choose|j: int| 0 <= j < q.len() && q[j] == y;
            assert(p[j] == y);
            let k = lemma_dominator_is_ancestor(succ, entry, idom, p, j, d);
            lemma_climb_shift(idom, x, None, k);
            k + 1
        }
    }
}

/// A climb that has not ended agrees with the chain of ancestors.
pub proof fn lemma_climb_is_ancestor(idom: Seq<Option<u32>>, x: u32, stop: Option<u32>, k: nat)
    ensures
        climb(idom, x, stop, k) is Some ==> climb(idom, x, stop, k) == ancestor(idom, x, k),
        climb(idom, x, stop, k) is Some ==> climb(idom, x, stop, k) != stop,
    decreases k,
{
    if k > 0 {
        lemma_climb_is_ancestor(idom, x, stop, (k - 1) as nat);
    }
}

/// A climb ends no later than the ancestor chain meets `stop`.
pub proof fn lemma_climb_stops(idom: Seq<Option<u32>>, x: u32, stop: u32, k: nat)
    requires
        ancestor(idom, x, k) == Some(stop),
    ensures
        ends_by(idom, x, Some(stop), k),
{
    lemma_climb_is_ancestor(idom, x, Some(stop), k);
}

/// What strictly dominates a block, or is its immediate dominator, dominates each
/// reachable predecessor.
pub proof fn lemma_idom_dominates_pred(succ: Seq<Seq<u32>>, entry: u32, d: u32, p: u32, b: u32)
    requires
        strictly_dominates(succ, entry, d, b),
        edge(succ, p, b),
        b < succ.len(),
    ensures
        dominates(succ, entry, d, p),
{
    if reaches(succ, entry, p, Some(d)) {
        lemma_reaches_step(succ, entry, p, b, Some(d));
    }
}

/// The immediate dominators of a graph give climbs that all end, so its
/// dominance frontiers are defined.
pub proof fn law_climbs_end(succ: Seq<Seq<u32>>, pred: Seq<Seq<u32>>, entry: u32, idom: Seq<Option<u32>>)
    requires
        closed(succ),
        converse(succ, pred),
        closed(pred),
        succ.len() <= u32::MAX,
        idom_tree(succ, entry, idom),
    ensures
        climbs_end(pred, idom),
{
    assert forall|b: int, j: int|
        0 <= b < pred.len() && pred[b].len() >= 2 && 0 <= j < pred[b].len() implies #[trigger] climb_ends(
        idom,
        pred[b][j],
        idom[b],
    ) by {
        let p = pred[b][j];
        let bb = b as u32;
        assert(edge(pred, bb, p));
        assert(p < pred.len());
        assert(edge(succ, p, bb));
        if !reaches(succ, entry, p, None) {
            assert(idom[p as int] is None);
            reveal_with_fuel(climb, 2);
            assert(ends_by(idom, p, idom[b], 1));
        } else {
            lemma_reaches_step(succ, entry, p, bb, None);
            assert(idom[bb as int] is Some);
            let d = idom[b]->0;
            if bb == entry {
                lemma_entry_dominates(succ, entry, p);
            } else {
                lemma_idom_dominates_pred(succ, entry, d, p, bb);
            }
            let path = choose|q: Seq<u32>| #[trigger] leads(succ, q, entry, p, None);
            let k = lemma_dominator_is_ancestor(succ, entry, idom, path, path.len() - 1, d);
            lemma_climb_stops(idom, p, d, k);
            assert(ends_by(idom, p, idom[b], k));
        }
    }
}

/// From a node without a parent only the node itself is met.
proof fn lemma_unreachable_climb(idom: Seq<Option<u32>>, p: u32, stop: Option<u32>, k: nat)
    requires
        p < idom.len(),
        idom[p as int] is None,
        climb(idom, p, stop, k) is Some,
    ensures
        climb(idom, p, stop, k) == Some(p),
    decreases k,
{
    if k > 0 {
        lemma_unreachable_climb(idom, p, stop, (k - 1) as nat);
    }
}

/// Going up `m + j` steps is going up `m`, then `j`.
proof fn lemma_ancestor_split(idom: Seq<Option<u32>>, x: u32, m: nat, j: nat)
    ensures
        ancestor(idom, x, m + j) == match ancestor(idom, x, m) {
            Some(y) => ancestor(idom, y, j),
            None => None,
        },
    decreases j,
{
    if j > 0 {
        lemma_ancestor_split(idom, x, m, (j - 1) as nat);
    } else if ancestor(idom, x, m) is None {
    }
}

/// An ancestor is met by the climb unless `stop` comes first.
proof fn lemma_climb_or_stop(idom: Seq<Option<u32>>, x: u32, stop: Option<u32>, k: nat)
    requires
        ancestor(idom, x, k) is Some,
    ensures
        climb(idom, x, stop, k) == ancestor(idom, x, k) || exists|m: nat|
            m <= k && #[trigger] ancestor(idom, x, m) == stop,
    decreases k,
{
    if k == 0 {
        if Some(x) == stop {
            assert(ancestor(idom, x, 0) == stop);
        }
    } else {
        lemma_climb_or_stop(idom, x, stop, (k - 1) as nat);
        if climb(idom, x, stop, (k - 1) as nat) == ancestor(idom, x, (k - 1) as nat) {
            if ancestor(idom, x, k) == stop {
            }
        } else {
            let m = choose|m: nat|
                m <= (k - 1) as nat && #[trigger] ancestor(idom, x, m) == stop;
            assert(m <= k && ancestor(idom, x, m) == stop);
        }
    }
}

/// The frontier of a reachable block `r` is the textbook one: `r` dominates a
/// predecessor of the merge `b` but does not strictly dominate `b` itself.
/// (The entry is its own immediate dominator here, so it is never in its own
/// frontier.)
pub proof fn law_frontier(succ: Seq<Seq<u32>>, pred: Seq<Seq<u32>>, entry: u32, idom: Seq<Option<u32>>, r: u32, b: u32)
    requires
        closed(succ),
        converse(succ, pred),
        closed(pred),
        succ.len() <= u32::MAX,
        idom_tree(succ, entry, idom),
        r < succ.len(),
        b < succ.len(),
        r != entry || b != entry,
        reaches(succ, entry, r, None),
        pred[b as int].len() >= 2,
    ensures
        in_frontier(pred, idom, r, b) <==> (exists|p: u32|
            #[trigger] edge(succ, p, b) && reaches(succ, entry, p, None) && dominates(
                succ,
                entry,
                r,
                p,
            )) && !strictly_dominates(succ, entry, r, b),
{
    if in_frontier(pred, idom, r, b) {
        lemma_frontier_forward(succ, pred, entry, idom, r, b);
    }
    if (exists|p: u32|
        #[trigger] edge(succ, p, b) && reaches(succ, entry, p, None) && dominates(succ, entry, r, p))
        && !strictly_dominates(succ, entry, r, b) {
        let p = choose|p: u32|
            #[trigger] edge(succ, p, b) && reaches(succ, entry, p, None) && dominates(
                succ,
                entry,
                r,
                p,
            );
        lemma_frontier_backward(succ, pred, entry, idom, r, b, p);
    }
}

proof fn lemma_frontier_forward(succ: Seq<Seq<u32>>, pred: Seq<Seq<u32>>, entry: u32, idom: Seq<Option<u32>>, r: u32, b: u32)
    requires
        closed(succ),
        converse(succ, pred),
        closed(pred),
        idom_tree(succ, entry, idom),
        r < succ.len(),
        b < succ.len(),
        reaches(succ, entry, r, None),
        in_frontier(pred, idom, r, b),
    ensures
        exists|p: u32|
            #[trigger] edge(succ, p, b) && reaches(succ, entry, p, None) && dominates(
                succ,
                entry,
                r,
                p,
            ),
        !strictly_dominates(succ, entry, r, b),
{
    let (j, k) = choose|j: int, k: nat|
        0 <= j < pred[b as int].len() && #[trigger] met_at(
            idom,
            pred[b as int][j],
            idom[b as int],
            r,
            k,
        );
    let p = pred[b as int][j];
    assert(edge(pred, b, p));
    assert(p < pred.len());
    assert(edge(succ, p, b));
    lemma_climb_is_ancestor(idom, p, idom[b as int], k);
    lemma_ancestor_dominates(succ, entry, idom, p, k);
    if !reaches(succ, entry, p, None) {
        assert(idom[p as int] is None);
        lemma_unreachable_climb(idom, p, idom[b as int], k);
    }
    assert(reaches(succ, entry, p, None));
    lemma_reaches_step(succ, entry, p, b, None);
    assert(idom[b as int] is Some);
    if strictly_dominates(succ, entry, r, b) {
        let d = idom[b as int]->0;
        if b == entry {
            assert(leads(succ, seq![entry], entry, entry, Some(r)));
        } else {
            assert(is_idom(succ, entry, d, b));
            assert(dominates(succ, entry, r, d));
            lemma_idom_dominates_pred(succ, entry, d, p, b);
            let path = choose|q: Seq<u32>| #[trigger] leads(succ, q, entry, p, None);
            let m = lemma_dominator_is_ancestor(succ, entry, idom, path, path.len() - 1, d);
            lemma_climb_stops(idom, p, d, m);
            if m <= k {
                lemma_ended(idom, p, Some(d), m, k);
            }
            lemma_ancestor_split(idom, p, k, (m - k) as nat);
            lemma_ancestor_dominates(succ, entry, idom, r, (m - k) as nat);
            lemma_dominates_antisymmetric(succ, entry, r, d);
        }
    }
}

proof fn lemma_frontier_backward(succ: Seq<Seq<u32>>, pred: Seq<Seq<u32>>, entry: u32, idom: Seq<Option<u32>>, r: u32, b: u32, p: u32)
    requires
        closed(succ),
        converse(succ, pred),
        closed(pred),
        idom_tree(succ, entry, idom),
        r < succ.len(),
        b < succ.len(),
        r != entry || b != entry,
        reaches(succ, entry, r, None),
        pred[b as int].len() >= 2,
        edge(succ, p, b),
        reaches(succ, entry, p, None),
        dominates(succ, entry, r, p),
        !strictly_dominates(succ, entry, r, b),
    ensures
        in_frontier(pred, idom, r, b),
{
    assert(edge(pred, b, p));
    let j = choose|j: int| 0 <= j < pred[b as int].len() && pred[b as int][j] == p;
    lemma_reaches_step(succ, entry, p, b, None);
    assert(idom[b as int] is Some);
    let d = idom[b as int]->0;
    let path = choose|q: Seq<u32>| #[trigger] leads(succ, q, entry, p, None);
    let k = lemma_dominator_is_ancestor(succ, entry, idom, path, path.len() - 1, r);
    lemma_climb_or_stop(idom, p, idom[b as int], k);
    if climb(idom, p, idom[b as int], k) != ancestor(idom, p, k) {
        let m = choose|m: nat| m <= k && #[trigger] ancestor(idom, p, m) == idom[b as int];
        lemma_ancestor_split(idom, p, m, (k - m) as nat);
        lemma_ancestor_dominates(succ, entry, idom, d, (k - m) as nat);
        if b == entry {
            assert(d == entry);
            lemma_entry_dominates(succ, entry, r);
            lemma_dominates_antisymmetric(succ, entry, r, entry);
        } else {
            assert(is_idom(succ, entry, d, b));
            lemma_dominates_transitive(succ, entry, r, d, b);
            if r == b {
                lemma_dominates_antisymmetric(succ, entry, b, d);
            }
        }
    }
    assert(met_at(idom, pred[b as int][j], idom[b as int], r, k));
}

} // verus!
