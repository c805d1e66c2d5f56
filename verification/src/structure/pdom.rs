//! Post-dominators: dominators of the reversed graph, rooted at a virtual exit
//! that follows every block without successors.

use vstd::prelude::*;
use crate::graph::{closed, converse, dominates, edge, leads, lemma_path_reversed, reaches, rows};
use crate::ssa::cfg::{build_idom, idom_of, idom_tree};
use crate::ssa::{copy_ids, SsaFunction};

verus! {

/// Index of the virtual exit node: one past the last block.
pub fn virtual_exit(n_blocks: usize) -> (r: u32)
    requires
        n_blocks <= u32::MAX,
    ensures
        r == n_blocks,
{
    n_blocks as u32
}

/// The nodes below `n` without successors, ascending.
pub open spec fn exits(succ: Seq<Seq<u32>>, n: int) -> Seq<u32>
    decreases n,
{
    if n <= 0 {
        Seq::empty()
    } else if succ[n - 1].len() == 0 {
        exits(succ, n - 1).push((n - 1) as u32)
    } else {
        exits(succ, n - 1)
    }
}

/// The reversed graph: each node leads to its predecessors, and one more node,
/// the virtual exit, leads to the exits.
pub open spec fn reversed(succ: Seq<Seq<u32>>, pred: Seq<Seq<u32>>) -> Seq<Seq<u32>> {
    pred.push(exits(succ, succ.len() as int))
}

/// The graph with an edge from each exit to the virtual exit.
pub open spec fn extended(succ: Seq<Seq<u32>>) -> Seq<Seq<u32>> {
    Seq::new(
        succ.len() + 1,
        |i: int|
            if i < succ.len() && succ[i].len() == 0 {
                seq![succ.len() as u32]
            } else if i < succ.len() {
                succ[i]
            } else {
                Seq::empty()
            },
    )
}

proof fn lemma_exits(succ: Seq<Seq<u32>>, n: int, x: u32)
    requires
        0 <= n <= succ.len() <= u32::MAX,
    ensures
        exits(succ, n).contains(x) <==> x < n && succ[x as int].len() == 0,
    decreases n,
{
    if n > 0 {
        lemma_exits(succ, n - 1, x);
        let e = exits(succ, n - 1);
        if succ[n - 1].len() == 0 {
            let f = e.push((n - 1) as u32);
            assert(f[f.len() - 1] == (n - 1) as u32);
            if e.contains(x) {
                let k = choose|k: int| 0 <= k < e.len() && e[k] == x;
                assert(f[k] == x);
            }
            if f.contains(x) {
                let k = choose|k: int| 0 <= k < f.len() && f[k] == x;
                if k < e.len() {
                    assert(e[k] == x);
                }
            }
        }
    }
}

/// The reversed graph and the extended one list each other's edges.
proof fn lemma_reversed(succ: Seq<Seq<u32>>, pred: Seq<Seq<u32>>)
    requires
        succ.len() < u32::MAX,
        closed(succ),
        closed(pred),
        converse(succ, pred),
    ensures
        closed(reversed(succ, pred)),
        converse(reversed(succ, pred), extended(succ)),
{
    let r = reversed(succ, pred);
    let x = extended(succ);
    let n = succ.len();
    assert forall|a: int, k: int| 0 <= a < r.len() && 0 <= k < r[a].len() implies (
    #[trigger] r[a][k]) < r.len() by {
        if a < n {
            assert(pred[a][k] < pred.len());
        } else {
            lemma_exits(succ, n as int, r[a][k]);
            assert(exits(succ, n as int).contains(r[a][k]));
        }
    }
    assert forall|a: u32, b: u32| a < r.len() && b < r.len() implies (#[trigger] edge(r, a, b)
        <==> edge(x, b, a)) by {
        if a < n && b < n {
            assert(edge(succ, b, a) <==> edge(pred, a, b));
            if succ[b as int].len() == 0 {
                assert(!edge(succ, b, a));
                assert(x[b as int] =~= seq![n as u32]);
                assert(x[b as int].contains(a) ==> a == n);
            }
        } else if a == n && b < n {
            lemma_exits(succ, n as int, b);
            if succ[b as int].len() == 0 {
                assert(x[b as int][0] == a);
            } else {
                if x[b as int].contains(a) {
                    let k = choose|k: int| 0 <= k < succ[b as int].len() && succ[b as int][k] == a;
                    assert(succ[b as int][k] < succ.len());
                }
            }
        } else if a < n {
            if pred[a as int].contains(b) {
                let k = choose|k: int| 0 <= k < pred[a as int].len() && pred[a as int][k] == b;
                assert(pred[a as int][k] < pred.len());
            }
        } else {
            lemma_exits(succ, n as int, b);
        }
    }
}

/// The immediate post-dominators: the dominator tree of the reversed graph.
pub open spec fn ipdom_of(succ: Seq<Seq<u32>>, pred: Seq<Seq<u32>>) -> Seq<Option<u32>> {
    idom_of(reversed(succ, pred), succ.len() as u32)
}

/// A node lies on the way of the reversed graph exactly where it lies on the way to the
/// virtual exit: what dominates in the reversed graph is what every path to the exit
/// goes through.
pub proof fn law_post_dominance(succ: Seq<Seq<u32>>, pred: Seq<Seq<u32>>, d: u32, b: u32)
    requires
        succ.len() < u32::MAX,
        closed(succ),
        closed(pred),
        converse(succ, pred),
    ensures
        dominates(reversed(succ, pred), succ.len() as u32, d, b) <==> !reaches(
            extended(succ),
            b,
            succ.len() as u32,
            Some(d),
        ),
{
    let r = reversed(succ, pred);
    let x = extended(succ);
    let ve = succ.len() as u32;
    lemma_reversed(succ, pred);
    if reaches(r, ve, b, Some(d)) {
        let p = choose|p: Seq<u32>| #[trigger] leads(r, p, ve, b, Some(d));
        lemma_path_reversed(r, x, p, ve, b, Some(d));
    }
    if reaches(x, b, ve, Some(d)) {
        let p = choose|p: Seq<u32>| #[trigger] leads(x, p, b, ve, Some(d));
        assert forall|a: int, k: int| 0 <= a < x.len() && 0 <= k < x[a].len() implies (
        #[trigger] x[a][k]) < x.len() by {
            if a < succ.len() && succ[a].len() > 0 {
                assert(succ[a][k] < succ.len());
            }
        }
        assert forall|a: u32, c: u32| a < x.len() && c < x.len() implies (#[trigger] edge(x, a, c) <==> edge(
            r,
            c,
            a,
        )) by {
            assert(edge(r, c, a) <==> edge(x, a, c));
        }
        lemma_path_reversed(x, r, p, b, ve, Some(d));
    }
}

/// Immediate post-dominator of every block, and the virtual exit for itself.
///
/// A block from which no exit can be reached has none.
pub fn build_ipdom(succ: &[Vec<u32>], pred: &[Vec<u32>]) -> (ipdom: Vec<Option<u32>>)
    requires
        succ@.len() < u32::MAX,
        closed(rows(succ@)),
        closed(rows(pred@)),
        converse(rows(succ@), rows(pred@)),
    ensures
        idom_tree(reversed(rows(succ@), rows(pred@)), succ@.len() as u32, ipdom@),
        ipdom@ == ipdom_of(rows(succ@), rows(pred@)),
{
    let n: usize = succ.len();
    let ve = virtual_exit(n);
    let mut ext: Vec<Vec<u32>> = Vec::new();
    let mut rev: Vec<Vec<u32>> = Vec::new();
    let mut last: Vec<u32> = Vec::new();
    let ghost s = rows(succ@);
    let ghost p = rows(pred@);
    let mut i: usize = 0;
    while i < n
        invariant
            i <= n,
            n == succ@.len(),
            n == pred@.len(),
            n < u32::MAX,
            ve == n,
            s == rows(succ@),
            p == rows(pred@),
            ext@.len() == i,
            rev@.len() == i,
            forall|k: int| 0 <= k < i ==> (#[trigger] ext@[k])@ == extended(s)[k],
            forall|k: int| 0 <= k < i ==> (#[trigger] rev@[k])@ == p[k],
            last@ == exits(s, i as int),
        decreases n - i,
    {
        rev.push(copy_ids(&pred[i]));
        if succ[i].len() == 0 {
            let mut row: Vec<u32> = Vec::new();
            row.push(ve);
            assert(row@ =~= seq![ve]);
            assert(s[i as int].len() == 0);
            ext.push(row);
            last.push(i as u32);
        } else {
            assert(s[i as int].len() != 0);
            ext.push(copy_ids(&succ[i]));
        }
        i += 1;
    }
    ext.push(Vec::new());
    rev.push(last);
    proof {
        lemma_reversed(s, p);
        assert(rows(rev@) =~= reversed(s, p));
        assert(rows(ext@) =~= extended(s));
    }
    build_idom(&rev, &ext, ve)
}

/// The nodes below `n` whose parent is `p`, ascending.
pub open spec fn children_of(ipdom: Seq<Option<u32>>, p: u32, n: int) -> Seq<u32>
    decreases n,
{
    if n <= 0 {
        Seq::empty()
    } else if ipdom[n - 1] == Some(p) && p != (n - 1) as u32 {
        children_of(ipdom, p, n - 1).push((n - 1) as u32)
    } else {
        children_of(ipdom, p, n - 1)
    }
}

/// Children of each node in the post-dominator tree.
pub fn pdt_children(ipdom: &[Option<u32>]) -> (children: Vec<Vec<u32>>)
    requires
        ipdom@.len() <= u32::MAX,
        forall|i: int| 0 <= i < ipdom@.len() && (#[trigger] ipdom@[i]) is Some ==> ipdom@[i]->0 < ipdom@.len(),
    ensures
        children@.len() == ipdom@.len(),
        forall|p: int|
            0 <= p < children@.len() ==> (#[trigger] children@[p])@ == children_of(
                ipdom@,
                p as u32,
                ipdom@.len() as int,
            ),
{
    let n: usize = ipdom.len();
    let mut children: Vec<Vec<u32>> = Vec::new();
    let mut p: usize = 0;
    while p < n
        invariant
            p <= n,
            n == ipdom@.len(),
            n <= u32::MAX,
            children@.len() == p,
            forall|q: int|
                0 <= q < p ==> (#[trigger] children@[q])@ == children_of(
                    ipdom@,
                    q as u32,
                    n as int,
                ),
        decreases n - p,
    {
        let mut row: Vec<u32> = Vec::new();
        let mut i: usize = 0;
        while i < n
            invariant
                i <= n,
                p < n,
                n == ipdom@.len(),
                n <= u32::MAX,
                row@ == children_of(ipdom@, p as u32, i as int),
            decreases n - i,
        {
            if ipdom[i] == Some(p as u32) && p != i {
                row.push(i as u32);
            }
            i += 1;
        }
        children.push(row);
        p += 1;
    }
    children
}

/// Extract successor / predecessor adjacency from a function.
pub fn adj_from_ssa(ssa: &SsaFunction) -> (r: (Vec<Vec<u32>>, Vec<Vec<u32>>))
    ensures
        rows(r.0@) == ssa.succs(),
        rows(r.1@) == ssa.preds(),
{
    let mut succ: Vec<Vec<u32>> = Vec::new();
    let mut pred: Vec<Vec<u32>> = Vec::new();
    let mut i: usize = 0;
    while i < ssa.blocks.len()
        invariant
            i <= ssa.blocks@.len(),
            succ@.len() == i,
            pred@.len() == i,
            forall|k: int| 0 <= k < i ==> (#[trigger] succ@[k])@ == ssa.blocks@[k].successor_ids@,
            forall|k: int| 0 <= k < i ==> (#[trigger] pred@[k])@ == ssa.blocks@[k].predecessor_ids@,
        decreases ssa.blocks@.len() - i,
    {
        succ.push(copy_ids(&ssa.blocks[i].successor_ids));
        pred.push(copy_ids(&ssa.blocks[i].predecessor_ids));
        i += 1;
    }
    assert(rows(succ@) =~= ssa.succs());
    assert(rows(pred@) =~= ssa.preds());
    (succ, pred)
}

/// Full post-dominator analysis: immediate post-dominators, tree children and
/// the virtual exit.
pub fn analyze(ssa: &SsaFunction) -> (r: (Vec<Option<u32>>, Vec<Vec<u32>>, u32))
    requires
        ssa.wf(),
    ensures
        r.0@ == ipdom_of(ssa.succs(), ssa.preds()),
        r.1@.len() == ssa.blocks@.len() + 1,
        forall|p: int|
            0 <= p < r.1@.len() ==> (#[trigger] r.1@[p])@ == children_of(
                r.0@,
                p as u32,
                r.0@.len() as int,
            ),
        r.2 == ssa.blocks@.len(),
{
    let (succ, pred) = adj_from_ssa(ssa);
    let ipdom = build_ipdom(&succ, &pred);
    assert forall|i: int| 0 <= i < ipdom@.len() && (#[trigger] ipdom@[i]) is Some implies ipdom@[i]->0
        < ipdom@.len() by {
        assert(ipdom@[(i as u32) as int] is Some);
    }
    let children = pdt_children(&ipdom);
    let ve = virtual_exit(ssa.blocks.len());
    (ipdom, children, ve)
}

} // verus!
