//! Ascending lists without repetition.

use vstd::prelude::*;

verus! {

/// Strictly ascending.
pub open spec fn ascending(s: Seq<u32>) -> bool {
    forall|i: int, j: int| 0 <= i < j < s.len() ==> s[i] < s[j]
}

/// Adds `x` to an ascending list, unless it stands there already.
pub fn insert_ascending(v: &mut Vec<u32>, x: u32)
    requires
        ascending(old(v)@),
    ensures
        ascending(final(v)@),
        forall|y: u32| #[trigger] final(v)@.contains(y) <==> y == x || old(v)@.contains(y),
{
    let ghost before = v@;
    let mut i: usize = 0;
    while i < v.len() && v[i] < x
        invariant
            i <= v@.len(),
            v@ == before,
            forall|j: int| 0 <= j < i ==> v@[j] < x,
        decreases v@.len() - i,
    {
        i += 1;
    }
    if i < v.len() && v[i] == x {
        assert(before[i as int] == x);
        return;
    }
    v.insert(i, x);
    assert(v@ == before.insert(i as int, x));
    assert forall|a: int, b: int| 0 <= a < b < v@.len() implies v@[a] < v@[b] by {
        let oa = if a < i {
            a
        } else {
            a - 1
        };
        let ob = if b < i {
            b
        } else {
            b - 1
        };
        if a != i && b != i {
            assert(before[oa] < before[ob]);
        } else if a == i {
            assert(before[i as int] <= before[b - 1]);
        }
    }
    assert forall|y: u32| #[trigger] v@.contains(y) <==> y == x || before.contains(y) by {
        if v@.contains(y) {
            let k = choose|k: int| 0 <= k < v@.len() && v@[k] == y;
            if k < i {
                assert(before[k] == y);
            } else if k > i {
                assert(before[k - 1] == y);
            }
        }
        if y == x {
            assert(v@[i as int] == x);
        }
        if before.contains(y) {
            let k = choose|k: int| 0 <= k < before.len() && before[k] == y;
            if k < i {
                assert(v@[k] == y);
            } else {
                assert(v@[k + 1] == y);
            }
        }
    }
}

/// `x` stands in `v`.
pub fn has_id(v: &Vec<u32>, x: u32) -> (r: bool)
    ensures
        r == v@.contains(x),
{
    let mut i: usize = 0;
    while i < v.len()
        invariant
            i <= v@.len(),
            forall|j: int| 0 <= j < i ==> v@[j] != x,
        decreases v@.len() - i,
    {
        if v[i] == x {
            return true;
        }
        i += 1;
    }
    false
}

/// `x` put into `t` behind the entries that do not exceed it.
pub open spec fn put(t: Seq<i64>, x: i64) -> Seq<i64>
    decreases t.len(),
{
    if t.len() == 0 || t.last() <= x {
        t.push(x)
    } else {
        put(t.drop_last(), x).push(t.last())
    }
}

/// The entries of `s` in order.
pub open spec fn sorted(s: Seq<i64>) -> Seq<i64>
    decreases s.len(),
{
    if s.len() == 0 {
        s
    } else {
        put(sorted(s.drop_last()), s.last())
    }
}

/// Ascending, with repetition.
pub open spec fn in_order(s: Seq<i64>) -> bool {
    forall|i: int, j: int| 0 <= i <= j < s.len() ==> s[i] <= s[j]
}

proof fn lemma_put(t: Seq<i64>, x: i64)
    requires
        in_order(t),
    ensures
        in_order(put(t, x)),
        put(t, x).to_multiset() == t.to_multiset().insert(x),
        forall|y: i64| put(t, x).contains(y) ==> y == x || t.contains(y),
    decreases t.len(),
{
    broadcast use vstd::seq_lib::group_to_multiset_ensures;

    if t.len() == 0 || t.last() <= x {
        assert forall|y: i64| t.push(x).contains(y) implies y == x || t.contains(y) by {
            let k = choose|k: int| 0 <= k < t.push(x).len() && t.push(x)[k] == y;
            if k < t.len() {
                assert(t[k] == y);
            }
        }
    } else {
        let d = t.drop_last();
        lemma_put(d, x);
        let p = put(d, x);
        assert(t =~= d.push(t.last()));
        assert forall|i: int, j: int| 0 <= i <= j < p.push(t.last()).len() implies p.push(t.last())[i]
            <= p.push(t.last())[j] by {
            let q = p.push(t.last());
            if j < p.len() {
                assert(p[i] <= p[j]);
            } else if i < p.len() {
                let v = p[i];
                assert(p.contains(v));
                assert(v == x || d.contains(v));
                if v != x {
                    let k = choose|k: int| 0 <= k < d.len() && d[k] == v;
                    assert(t[k] <= t[t.len() - 1]);
                }
                assert(q[i] == v);
            }
        }
        assert forall|y: i64| p.push(t.last()).contains(y) implies y == x || t.contains(y) by {
            let q = p.push(t.last());
            let k = choose|k: int| 0 <= k < q.len() && q[k] == y;
            if k < p.len() {
                assert(p[k] == y);
                assert(p.contains(y));
                assert(y == x || d.contains(y));
                if y != x {
                    let m = choose|m: int| 0 <= m < d.len() && d[m] == y;
                    assert(t[m] == y);
                }
            } else {
                assert(t[t.len() - 1] == y);
            }
        }
        assert(p.push(t.last()).to_multiset() == t.to_multiset().insert(x)) by {
            assert(d.to_multiset().insert(x).insert(t.last()) =~= d.to_multiset().insert(
                t.last(),
            ).insert(x));
        }
    }
}

/// Sorting orders the entries and keeps each as often as it stood there.
pub proof fn law_sorted(s: Seq<i64>)
    ensures
        in_order(sorted(s)),
        sorted(s).to_multiset() == s.to_multiset(),
    decreases s.len(),
{
    broadcast use vstd::seq_lib::group_to_multiset_ensures;

    if s.len() > 0 {
        law_sorted(s.drop_last());
        lemma_put(sorted(s.drop_last()), s.last());
        assert(s =~= s.drop_last().push(s.last()));
    }
}

fn put_into(t: &Vec<i64>, x: i64) -> (r: Vec<i64>)
    ensures
        r@ == put(t@, x),
{
    // Everything behind the last entry that does not exceed `x` moves up by one.
    let mut n: usize = t.len();
    assert(t@.take(n as int) =~= t@);
    assert(put(t@, x) =~= put(t@.take(n as int), x) + t@.skip(n as int));
    while n > 0 && t[n - 1] > x
        invariant
            n <= t@.len(),
            put(t@, x) == put(t@.take(n as int), x) + t@.skip(n as int),
        decreases n,
    {
        let ghost a = t@.take(n as int);
        assert(a.drop_last() =~= t@.take(n - 1));
        assert(put(t@.take(n - 1), x).push(t@[n - 1]) + t@.skip(n as int) =~= put(
            t@.take(n - 1),
            x,
        ) + t@.skip(n - 1));
        n -= 1;
    }
    let mut r: Vec<i64> = Vec::new();
    let mut i: usize = 0;
    while i < n
        invariant
            i <= n <= t@.len(),
            r@ == t@.take(i as int),
        decreases n - i,
    {
        r.push(t[i]);
        assert(t@.take(i + 1) =~= t@.take(i as int).push(t@[i as int]));
        i += 1;
    }
    r.push(x);
    let ghost head = r@;
    assert(head == put(t@.take(n as int), x));
    while i < t.len()
        invariant
            n <= i <= t@.len(),
            r@ == head + t@.subrange(n as int, i as int),
        decreases t@.len() - i,
    {
        r.push(t[i]);
        assert(head + t@.subrange(n as int, i + 1) =~= (head + t@.subrange(n as int, i as int)).push(
            t@[i as int],
        ));
        i += 1;
    }
    assert(t@.subrange(n as int, t@.len() as int) =~= t@.skip(n as int));
    r
}

/// The entries of `s` in order.
pub fn sort_values(s: &Vec<i64>) -> (r: Vec<i64>)
    ensures
        r@ == sorted(s@),
{
    let mut r: Vec<i64> = Vec::new();
    let mut i: usize = 0;
    while i < s.len()
        invariant
            i <= s@.len(),
            r@ == sorted(s@.take(i as int)),
        decreases s@.len() - i,
    {
        assert(s@.take(i + 1).drop_last() =~= s@.take(i as int));
        r = put_into(&r, s[i]);
        i += 1;
    }
    assert(s@.take(s@.len() as int) =~= s@);
    r
}

} // verus!
