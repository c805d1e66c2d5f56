//! Directed graphs as successor lists: paths, reachability and dominance.

use vstd::prelude::*;

verus! {

/// The lists of a vector of vectors.
pub open spec fn rows(v: Seq<Vec<u32>>) -> Seq<Seq<u32>> {
    Seq::new(v.len(), |i: int| v[i]@)
}

/// `b` is listed as a successor of `a`.
pub open spec fn edge(g: Seq<Seq<u32>>, a: u32, b: u32) -> bool {
    a < g.len() && g[a as int].contains(b)
}

/// Every listed node exists.
pub open spec fn closed(g: Seq<Seq<u32>>) -> bool {
    forall|a: int, k: int|
        0 <= a < g.len() && 0 <= k < g[a].len() ==> (#[trigger] g[a][k]) < g.len()
}

/// `pred` lists exactly the reversed edges of `succ`.
pub open spec fn converse(succ: Seq<Seq<u32>>, pred: Seq<Seq<u32>>) -> bool {
    &&& pred.len() == succ.len()
    &&& forall|a: u32, b: u32|
        a < succ.len() && b < succ.len() ==> (#[trigger] edge(succ, a, b) <==> edge(pred, b, a))
}

/// Step `i` of `p` follows an edge to an existing node.
pub open spec fn step(g: Seq<Seq<u32>>, p: Seq<u32>, i: int) -> bool {
    edge(g, p[i], p[i + 1]) && p[i + 1] < g.len()
}

/// `p` is a walk along edges of `g`.
pub open spec fn is_path(g: Seq<Seq<u32>>, p: Seq<u32>) -> bool {
    &&& p.len() > 0
    &&& p[0] < g.len()
    &&& forall|i: int| 0 <= i < p.len() - 1 ==> #[trigger] step(g, p, i)
}

/// `p` keeps clear of `avoid`.
pub open spec fn clear(p: Seq<u32>, avoid: Option<u32>) -> bool {
    match avoid {
        Some(a) => !p.contains(a),
        None => true,
    }
}

/// `p` leads from `from` to `to`, clear of `avoid`.
pub open spec fn leads(g: Seq<Seq<u32>>, p: Seq<u32>, from: u32, to: u32, avoid: Option<u32>) -> bool {
    is_path(g, p) && p[0] == from && p.last() == to && clear(p, avoid)
}

/// Some path leads from `from` to `to` without touching `avoid`.
pub open spec fn reaches(g: Seq<Seq<u32>>, from: u32, to: u32, avoid: Option<u32>) -> bool {
    exists|p: Seq<u32>| #[trigger] leads(g, p, from, to, avoid)
}

/// Every path from `entry` to `b` goes through `d`.
pub open spec fn dominates(g: Seq<Seq<u32>>, entry: u32, d: u32, b: u32) -> bool {
    !reaches(g, entry, b, Some(d))
}

/// `d` dominates `b` and is another node.
pub open spec fn strictly_dominates(g: Seq<Seq<u32>>, entry: u32, d: u32, b: u32) -> bool {
    d != b && dominates(g, entry, d, b)
}

/// `d` is the strict dominator of `b` that every strict dominator of `b` dominates.
pub open spec fn is_idom(g: Seq<Seq<u32>>, entry: u32, d: u32, b: u32) -> bool {
    &&& d < g.len()
    &&& strictly_dominates(g, entry, d, b)
    &&& forall|e: u32|
        e < g.len() && #[trigger] strictly_dominates(g, entry, e, b) ==> dominates(g, entry, e, d)
}

// ─── Paths ──────────────────────────────────────────────────────────────────

/// A path stays inside the graph.
pub proof fn lemma_path_nodes(g: Seq<Seq<u32>>, p: Seq<u32>, i: int)
    requires
        is_path(g, p),
        0 <= i < p.len(),
    ensures
        p[i] < g.len(),
{
    if i > 0 {
        assert(step(g, p, i - 1));
    }
}

/// The start of a path is a path.
pub proof fn lemma_path_prefix(g: Seq<Seq<u32>>, p: Seq<u32>, n: int)
    requires
        is_path(g, p),
        0 < n <= p.len(),
    ensures
        is_path(g, p.take(n)),
        forall|x: u32| p.take(n).contains(x) ==> p.contains(x),
{
    let q = p.take(n);
    assert forall|i: int| 0 <= i < q.len() - 1 implies #[trigger] step(g, q, i) by {
        assert(step(g, p, i));
    }
    assert forall|x: u32| q.contains(x) implies p.contains(x) by {
        let i = choose|i: int| 0 <= i < q.len() && q[i] == x;
        assert(p[i] == x);
    }
}

/// A path can go on from where another begins.
pub proof fn lemma_path_join(g: Seq<Seq<u32>>, p: Seq<u32>, q: Seq<u32>)
    requires
        is_path(g, p),
        is_path(g, q),
        p.last() == q[0],
    ensures
        is_path(g, p + q.skip(1)),
        (p + q.skip(1))[0] == p[0],
        (p + q.skip(1)).last() == q.last(),
        forall|x: u32| (p + q.skip(1)).contains(x) ==> p.contains(x) || q.skip(1).contains(x),
{
    let r = p + q.skip(1);
    assert forall|i: int| 0 <= i < r.len() - 1 implies #[trigger] step(g, r, i) by {
        if i < p.len() - 1 {
            assert(step(g, p, i));
        } else {
            assert(step(g, q, i - (p.len() - 1)));
        }
    }
    assert forall|x: u32| r.contains(x) implies p.contains(x) || q.skip(1).contains(x) by {
        let i = choose|i: int| 0 <= i < r.len() && r[i] == x;
        if i < p.len() {
            assert(p[i] == x);
        } else {
            assert(q.skip(1)[i - p.len()] == x);
        }
    }
    if q.len() == 1 {
        assert(r =~= p);
    }
}

/// The end of a path is a path.
pub proof fn lemma_path_suffix(g: Seq<Seq<u32>>, p: Seq<u32>, n: int)
    requires
        is_path(g, p),
        0 <= n < p.len(),
    ensures
        is_path(g, p.skip(n)),
        p.skip(n)[0] == p[n],
        p.skip(n).last() == p.last(),
{
    let q = p.skip(n);
    lemma_path_nodes(g, p, n);
    assert forall|i: int| 0 <= i < q.len() - 1 implies #[trigger] step(g, q, i) by {
        assert(step(g, p, i + n));
    }
}

/// One more edge makes a longer path.
pub proof fn lemma_reaches_step(g: Seq<Seq<u32>>, from: u32, a: u32, b: u32, avoid: Option<u32>)
    requires
        reaches(g, from, a, avoid),
        edge(g, a, b),
        b < g.len(),
        avoid != Some(b),
    ensures
        reaches(g, from, b, avoid),
{
    let p = choose|p: Seq<u32>| #[trigger] leads(g, p, from, a, avoid);
    let q = p.push(b);
    assert forall|i: int| 0 <= i < q.len() - 1 implies #[trigger] step(g, q, i) by {
        if i < p.len() - 1 {
            assert(step(g, p, i));
        }
    }
    if let Some(x) = avoid {
        assert(!q.contains(x)) by {
            if q.contains(x) {
                let i = choose|i: int| 0 <= i < q.len() && q[i] == x;
                if i < p.len() {
                    assert(p[i] == x);
                }
            }
        }
    }
    assert(leads(g, q, from, b, avoid));
}

/// The one-node path.
pub proof fn lemma_reaches_self(g: Seq<Seq<u32>>, a: u32, avoid: Option<u32>)
    requires
        a < g.len(),
        avoid != Some(a),
    ensures
        reaches(g, a, a, avoid),
{
    assert(leads(g, seq![a], a, a, avoid));
}

/// A set that holds the start and every allowed successor holds each node on an allowed path.
pub proof fn lemma_closed_set(g: Seq<Seq<u32>>, seen: Seq<bool>, p: Seq<u32>, from: u32, avoid: Option<u32>, i: int)
    requires
        seen.len() == g.len(),
        is_path(g, p),
        p[0] == from,
        clear(p, avoid),
        seen[from as int],
        forall|a: u32, b: u32|
            #![trigger edge(g, a, b)]
            a < g.len() && b < g.len() && seen[a as int] && edge(g, a, b) && avoid != Some(b)
                ==> seen[b as int],
        0 <= i < p.len(),
    ensures
        p[i] < g.len() && seen[p[i] as int],
    decreases i,
{
    lemma_path_nodes(g, p, i);
    if i > 0 {
        lemma_closed_set(g, seen, p, from, avoid, i - 1);
        assert(step(g, p, i - 1));
        assert(p.contains(p[i]));
    }
}

// ─── Reachability ───────────────────────────────────────────────────────────

/// How many entries of `s` are false.
pub open spec fn misses(s: Seq<bool>) -> nat
    decreases s.len(),
{
    if s.len() == 0 {
        0
    } else {
        misses(s.drop_last()) + if s.last() {
            0nat
        } else {
            1nat
        }
    }
}

/// Setting a false entry leaves one fewer.
pub proof fn lemma_misses_set(s: Seq<bool>, i: int)
    requires
        0 <= i < s.len(),
        !s[i],
    ensures
        misses(s.update(i, true)) + 1 == misses(s),
    decreases s.len(),
{
    let t = s.update(i, true);
    if i == s.len() - 1 {
        assert(t.drop_last() =~= s.drop_last());
    } else {
        assert(t.drop_last() =~= s.drop_last().update(i, true));
        lemma_misses_set(s.drop_last(), i);
    }
}

/// `n` entries of `false`.
pub fn all_false(n: usize) -> (r: Vec<bool>)
    ensures
        r@.len() == n,
        forall|i: int| 0 <= i < n ==> !#[trigger] r@[i],
{
    let mut r: Vec<bool> = Vec::new();
    let mut i: usize = 0;
    while i < n
        invariant
            i <= n,
            r@.len() == i,
            forall|j: int| 0 <= j < i ==> !#[trigger] r@[j],
        decreases n - i,
    {
        r.push(false);
        i += 1;
    }
    r
}

/// Which nodes a path from `from` reaches without touching `avoid`.
pub fn reach_avoiding(g: &[Vec<u32>], from: u32, avoid: Option<u32>) -> (r: Vec<bool>)
    requires
        from < rows(g@).len(),
    ensures
        r@.len() == rows(g@).len(),
        forall|b: u32| b < rows(g@).len() ==> (#[trigger] r@[b as int] <==> reaches(rows(g@), from, b, avoid)),
{
    let n: usize = g.len();
    let mut seen = all_false(n);
    if avoid == Some(from) {
        assert forall|b: u32| b < rows(g@).len() implies (#[trigger] seen@[b as int] <==> reaches(
            rows(g@),
            from,
            b,
            avoid,
        )) by {
            if reaches(rows(g@), from, b, avoid) {
                let p = choose|p: Seq<u32>| #[trigger] leads(rows(g@), p, from, b, avoid);
                assert(p.contains(p[0]));
            }
        }
        return seen;
    }
    seen.set(from as usize, true);
    let mut stack: Vec<u32> = Vec::new();
    stack.push(from);
    proof {
        lemma_reaches_self(rows(g@), from, avoid);
        assert(stack@.contains(from)) by {
            assert(stack@[0] == from);
        }
    }
    while stack.len() > 0
        invariant
            n == rows(g@).len(),
            from < n,
            seen@.len() == n,
            seen@[from as int],
            forall|b: u32| b < n && #[trigger] seen@[b as int] ==> reaches(rows(g@), from, b, avoid),
            forall|k: int|
                0 <= k < stack@.len() ==> (#[trigger] stack@[k]) < n && seen@[stack@[k] as int],
            forall|a: u32, b: u32|
                #![trigger edge(rows(g@), a, b)]
                a < n && b < n && seen@[a as int] && edge(rows(g@), a, b) && avoid != Some(b) ==> seen@[b as int]
                    || stack@.contains(a),
        decreases misses(seen@), stack@.len(),
    {
        let ghost before = stack@;
        let node = stack[stack.len() - 1];
        stack.pop();
        assert(node < n && seen@[node as int]) by {
            assert(before[before.len() - 1] == node);
        }
        assert forall|a: u32| before.contains(a) implies a == node || stack@.contains(a) by {
            let k = choose|k: int| 0 <= k < before.len() && before[k] == a;
            if k < stack@.len() {
                assert(stack@[k] == a);
            }
        }
        let row = &g[node as usize];
        let ghost start = misses(seen@);
        let ghost rest = stack@.len();
        let mut k: usize = 0;
        while k < row.len()
            invariant
                n == rows(g@).len(),
                    from < n,
                node < n,
                row@ == rows(g@)[node as int],
                k <= row@.len(),
                seen@.len() == n,
                seen@[from as int],
                seen@[node as int],
                forall|b: u32| b < n && #[trigger] seen@[b as int] ==> reaches(rows(g@), from, b, avoid),
                forall|j: int|
                    0 <= j < stack@.len() ==> (#[trigger] stack@[j]) < n && seen@[stack@[j] as int],
                forall|a: u32, b: u32|
                    #![trigger edge(rows(g@), a, b)]
                    a < n && b < n && a != node && seen@[a as int] && edge(rows(g@), a, b) && avoid != Some(b)
                        ==> seen@[b as int] || stack@.contains(a),
                forall|j: int|
                    0 <= j < k && avoid != Some(#[trigger] row@[j]) && row@[j] < n ==> seen@[row@[j] as int]
                        || stack@.contains(node),
                misses(seen@) < start || (misses(seen@) == start && stack@.len() == rest),
            decreases row@.len() - k,
        {
            let s = row[k];
            if avoid != Some(s) && (s as usize) < n && !seen[s as usize] {
                proof {
                    assert(edge(rows(g@), node, s)) by {
                        assert(row@[k as int] == s);
                    }
                    lemma_reaches_step(rows(g@), from, node, s, avoid);
                    lemma_misses_set(seen@, s as int);
                }
                let ghost old_stack = stack@;
                seen.set(s as usize, true);
                stack.push(s);
                assert(stack@.contains(s)) by {
                    assert(stack@[stack@.len() - 1] == s);
                }
                assert forall|a: u32| old_stack.contains(a) implies stack@.contains(a) by {
                    let j = choose|j: int| 0 <= j < old_stack.len() && old_stack[j] == a;
                    assert(stack@[j] == a);
                }
            }
            k += 1;
        }
        assert forall|a: u32, b: u32|
            #![trigger edge(rows(g@), a, b)]
            a < n && b < n && seen@[a as int] && edge(rows(g@), a, b) && avoid != Some(b) implies seen@[b as int]
            || stack@.contains(a) by {
            if a == node {
                let j = choose|j: int| 0 <= j < row@.len() && row@[j] == b;
                assert(row@[j] == b);
            }
        }
    }
    assert forall|b: u32| b < rows(g@).len() implies (#[trigger] seen@[b as int] <==> reaches(
        rows(g@),
        from,
        b,
        avoid,
    )) by {
        if reaches(rows(g@), from, b, avoid) {
            let p = choose|p: Seq<u32>| #[trigger] leads(rows(g@), p, from, b, avoid);
            lemma_closed_set(rows(g@), seen@, p, from, avoid, p.len() - 1);
        }
    }
    seen
}

/// A path walked backwards is a path of the converse graph.
pub proof fn lemma_path_reversed(g: Seq<Seq<u32>>, h: Seq<Seq<u32>>, p: Seq<u32>, from: u32, to: u32, avoid: Option<u32>)
    requires
        closed(g),
        converse(g, h),
        leads(g, p, from, to, avoid),
    ensures
        leads(h, p.reverse(), to, from, avoid),
{
    let q = p.reverse();
    let n = p.len();
    assert(q.len() == n);
    assert forall|i: int| 0 <= i < n - 1 implies #[trigger] step(h, q, i) by {
        let j = n - 2 - i;
        assert(q[i] == p[j + 1]);
        assert(q[i + 1] == p[j]);
        assert(step(g, p, j));
        lemma_path_nodes(g, p, j);
        lemma_path_nodes(g, p, j + 1);
        assert(edge(g, p[j], p[j + 1]) <==> edge(h, p[j + 1], p[j]));
    }
    lemma_path_nodes(g, p, n - 1);
    assert(q[0] == p[n - 1]);
    assert(q[n - 1] == p[0]);
    if let Some(x) = avoid {
        if q.contains(x) {
            let k = choose|k: int| 0 <= k < q.len() && q[k] == x;
            assert(p[n - 1 - k] == x);
        }
    }
}

/// A set of numbers below `n` has at most `n` members.
pub proof fn lemma_small_set(s: Set<u32>, n: int)
    requires
        0 <= n,
        forall|x: u32| #[trigger] s.contains(x) ==> x < n,
    ensures
        s.finite(),
        s.len() <= n,
    decreases n,
{
    if n == 0 {
        assert(s =~= Set::empty());
    } else {
        let top = (n - 1) as u32;
        let rest = s.remove(top);
        lemma_small_set(rest, n - 1);
        if s.contains(top) {
            assert(s =~= rest.insert(top));
        } else {
            assert(s =~= rest);
        }
    }
}

// ─── Dominance ──────────────────────────────────────────────────────────────

/// The entry dominates every node.
pub proof fn lemma_entry_dominates(g: Seq<Seq<u32>>, entry: u32, b: u32)
    ensures
        dominates(g, entry, entry, b),
{
    assert forall|p: Seq<u32>| !#[trigger] leads(g, p, entry, b, Some(entry)) by {
        if leads(g, p, entry, b, Some(entry)) {
            assert(p.contains(p[0]));
        }
    }
}

/// Every node dominates itself.
pub proof fn lemma_dominates_reflexive(g: Seq<Seq<u32>>, entry: u32, b: u32)
    ensures
        dominates(g, entry, b, b),
{
    assert forall|p: Seq<u32>| !#[trigger] leads(g, p, entry, b, Some(b)) by {
        if leads(g, p, entry, b, Some(b)) {
            assert(p.contains(p[p.len() - 1]));
        }
    }
}

/// Dominance is transitive.
pub proof fn lemma_dominates_transitive(g: Seq<Seq<u32>>, entry: u32, a: u32, b: u32, c: u32)
    requires
        dominates(g, entry, a, b),
        dominates(g, entry, b, c),
    ensures
        dominates(g, entry, a, c),
{
    assert forall|p: Seq<u32>| !#[trigger] leads(g, p, entry, c, Some(a)) by {
        if leads(g, p, entry, c, Some(a)) {
            if p.contains(b) {
                let i = choose|i: int| 0 <= i < p.len() && p[i] == b;
                lemma_path_prefix(g, p, i + 1);
                assert(leads(g, p.take(i + 1), entry, b, Some(a)));
            } else {
                assert(leads(g, p, entry, c, Some(b)));
            }
        }
    }
}

/// Of two dominators of a reachable node, one dominates the other.
pub proof fn lemma_dominators_chain(g: Seq<Seq<u32>>, entry: u32, d: u32, e: u32, b: u32)
    requires
        reaches(g, entry, b, None),
        dominates(g, entry, d, b),
        dominates(g, entry, e, b),
    ensures
        dominates(g, entry, d, e) || dominates(g, entry, e, d),
{
    if !dominates(g, entry, d, e) && !dominates(g, entry, e, d) {
        let p = choose|p: Seq<u32>| #[trigger] leads(g, p, entry, b, None);
        assert(p.contains(d)) by {
            if !p.contains(d) {
                assert(leads(g, p, entry, b, Some(d)));
            }
        }
        assert(p.contains(e)) by {
            if !p.contains(e) {
                assert(leads(g, p, entry, b, Some(e)));
            }
        }
        let i = last_index(p, d);
        let j = last_index(p, e);
        lemma_last_index(p, d);
        lemma_last_index(p, e);
        if d == e {
            lemma_dominates_reflexive(g, entry, d);
        } else if i < j {
            lemma_detour(g, entry, d, e, b, p, j);
        } else {
            lemma_detour(g, entry, e, d, b, p, i);
        }
    }
}

/// Last position of `x` in `p`.
pub open spec fn last_index(p: Seq<u32>, x: u32) -> int
    decreases p.len(),
{
    if p.len() == 0 {
        -1
    } else if p.last() == x {
        p.len() - 1
    } else {
        last_index(p.drop_last(), x)
    }
}

pub proof fn lemma_last_index(p: Seq<u32>, x: u32)
    requires
        p.contains(x),
    ensures
        0 <= last_index(p, x) < p.len(),
        p[last_index(p, x)] == x,
        forall|k: int| last_index(p, x) < k < p.len() ==> p[k] != x,
    decreases p.len(),
{
    if p.last() != x {
        let i = choose|i: int| 0 <= i < p.len() && p[i] == x;
        assert(p.drop_last()[i] == x);
        lemma_last_index(p.drop_last(), x);
        assert forall|k: int| last_index(p, x) < k < p.len() implies p[k] != x by {
            if k < p.len() - 1 {
                assert(p.drop_last()[k] == p[k]);
            }
        }
    }
}

/// A path to `e` clear of `d`, and the end of `p` from `e` on, give a path to `b` clear of `d`.
proof fn lemma_detour(g: Seq<Seq<u32>>, entry: u32, d: u32, e: u32, b: u32, p: Seq<u32>, j: int)
    requires
        leads(g, p, entry, b, None),
        0 <= j < p.len(),
        p[j] == e,
        d != e,
        forall|k: int| j < k < p.len() ==> p[k] != d,
        reaches(g, entry, e, Some(d)),
    ensures
        reaches(g, entry, b, Some(d)),
{
    let q = choose|q: Seq<u32>| #[trigger] leads(g, q, entry, e, Some(d));
    lemma_path_suffix(g, p, j);
    let t = p.skip(j);
    lemma_path_join(g, q, t);
    let r = q + t.skip(1);
    assert(!r.contains(d)) by {
        if r.contains(d) {
            assert(t.skip(1).contains(d));
            let k = choose|k: int| 0 <= k < t.skip(1).len() && t.skip(1)[k] == d;
            assert(p[j + 1 + k] == d);
        }
    }
    assert(leads(g, r, entry, b, Some(d)));
}

/// Two reachable nodes that dominate each other are the same.
pub proof fn lemma_dominates_antisymmetric(g: Seq<Seq<u32>>, entry: u32, a: u32, b: u32)
    requires
        reaches(g, entry, a, None),
        dominates(g, entry, a, b),
        dominates(g, entry, b, a),
    ensures
        a == b,
{
    if a != b {
        let p = choose|p: Seq<u32>| #[trigger] leads(g, p, entry, a, None);
        lemma_no_first(g, entry, a, b, p);
    }
}

proof fn lemma_no_first(g: Seq<Seq<u32>>, entry: u32, a: u32, b: u32, p: Seq<u32>)
    requires
        a != b,
        dominates(g, entry, a, b),
        dominates(g, entry, b, a),
    ensures
        !leads(g, p, entry, a, None),
    decreases p.len(),
{
    if leads(g, p, entry, a, None) {
        assert(p.contains(b)) by {
            if !p.contains(b) {
                assert(leads(g, p, entry, a, Some(b)));
            }
        }
        let i = choose|i: int| 0 <= i < p.len() && p[i] == b;
        lemma_path_prefix(g, p, i + 1);
        lemma_no_first(g, entry, b, a, p.take(i + 1));
    }
}

} // verus!
