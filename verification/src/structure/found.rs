//! What the recovered contracts of a function list.

use vstd::prelude::*;
use crate::sets::{law_sorted, sorted};
use crate::structure::contracts::{dedup, loops_of, switches_of, values_of, CaseView, LoopContract, LoopKind};
use crate::structure::region::{Region, RegionView};

verus! {

/// The entry tells of the loop that the region of its header is.
pub open spec fn tells_loop(regions: Map<u32, Region>, l: LoopContract) -> bool {
    &&& regions.dom().contains(l.header)
    &&& match l.kind {
        LoopKind::While => regions[l.header]@ == (RegionView::While { body_entry: l.body_entry, exit: l.exit }),
        LoopKind::DoWhile => regions[l.header]@ matches RegionView::DoWhile { body_entry, exit, .. } && body_entry
            == l.body_entry && exit == l.exit,
    }
}

/// The list of loops has one entry for every loop region, by header, and no other.
pub proof fn law_loops_are_listed(regions: Map<u32, Region>, n: int)
    requires
        0 <= n <= u32::MAX,
    ensures
        forall|k: int|
            0 <= k < loops_of(regions, n).len() ==> tells_loop(regions, #[trigger] loops_of(regions, n)[k]) && loops_of(
                regions,
                n,
            )[k].header < n,
        forall|i: int, j: int|
            0 <= i < j < loops_of(regions, n).len() ==> (#[trigger] loops_of(regions, n)[i]).header < (
            #[trigger] loops_of(regions, n)[j]).header,
        forall|b: u32|
            b < n && #[trigger] regions.dom().contains(b) && (regions[b]@ is While || regions[b]@ is DoWhile) ==> exists|k: int|
                0 <= k < loops_of(regions, n).len() && (#[trigger] loops_of(regions, n)[k]).header == b,
    decreases n,
{
    if n > 0 {
        law_loops_are_listed(regions, n - 1);
        let less = loops_of(regions, n - 1);
        let all = loops_of(regions, n);
        assert forall|k: int| 0 <= k < all.len() implies tells_loop(regions, #[trigger] all[k]) && all[k].header < n by {
            if k < less.len() {
                assert(all[k] == less[k]);
            }
        }
        assert forall|i: int, j: int| 0 <= i < j < all.len() implies (#[trigger] all[i]).header < (#[trigger] all[j]).header by {
            assert(all[i] == less[i]);
            if j < less.len() {
                assert(all[j] == less[j]);
            }
        }
        assert forall|b: u32|
            b < n && #[trigger] regions.dom().contains(b) && (regions[b]@ is While || regions[b]@ is DoWhile) implies exists|k: int|
            0 <= k < all.len() && (#[trigger] all[k]).header == b by {
            if b < n - 1 {
                let k = choose|k: int| 0 <= k < less.len() && (#[trigger] less[k]).header == b;
                assert(all[k] == less[k]);
            } else {
                assert(all[all.len() - 1].header == b);
            }
        }
    }
}

/// The entry tells of the switch that the region of its block is: its case values in order, each
/// as often as the table has it, and where its cases come together.
pub open spec fn tells_switch(regions: Map<u32, Region>, c: CaseView) -> bool {
    &&& regions.dom().contains(c.switch_block)
    &&& regions[c.switch_block]@ matches RegionView::Switch { cases, merge } && c.merge == merge && c.values.to_multiset()
        == cases.map_values(|x: (i64, u32)| x.0).to_multiset()
    &&& forall|i: int, j: int| 0 <= i < j < c.values.len() ==> #[trigger] c.values[i] <= #[trigger] c.values[j]
}

/// The list of switches has one entry for every switch region, by block, and no other.
pub proof fn law_switches_are_listed(regions: Map<u32, Region>, n: int)
    requires
        0 <= n <= u32::MAX,
    ensures
        forall|k: int|
            0 <= k < switches_of(regions, n).len() ==> tells_switch(regions, #[trigger] switches_of(regions, n)[k])
                && switches_of(regions, n)[k].switch_block < n,
        forall|b: u32|
            b < n && #[trigger] regions.dom().contains(b) && regions[b]@ is Switch ==> exists|k: int|
                0 <= k < switches_of(regions, n).len() && (#[trigger] switches_of(regions, n)[k]).switch_block == b,
    decreases n,
{
    if n > 0 {
        law_switches_are_listed(regions, n - 1);
        let less = switches_of(regions, n - 1);
        let all = switches_of(regions, n);
        let b = (n - 1) as u32;
        assert forall|k: int| 0 <= k < all.len() implies tells_switch(regions, #[trigger] all[k]) && all[k].switch_block < n by {
            if k < less.len() {
                assert(all[k] == less[k]);
            } else if let RegionView::Switch { cases, merge } = regions[b]@ {
                law_sorted(values_of(cases));
                assert(values_of(cases) =~= cases.map_values(|x: (i64, u32)| x.0));
            }
        }
        assert forall|b: u32| b < n && #[trigger] regions.dom().contains(b) && regions[b]@ is Switch implies exists|k: int|
            0 <= k < all.len() && (#[trigger] all[k]).switch_block == b by {
            if b < n - 1 {
                let k = choose|k: int| 0 <= k < less.len() && (#[trigger] less[k]).switch_block == b;
                assert(all[k] == less[k]);
            } else {
                assert(all[all.len() - 1].switch_block == b);
            }
        }
    }
}

proof fn lemma_dedup(s: Seq<i64>)
    requires
        forall|i: int, j: int| 0 <= i < j < s.len() ==> #[trigger] s[i] <= #[trigger] s[j],
    ensures
        forall|i: int, j: int| 0 <= i < j < dedup(s).len() ==> #[trigger] dedup(s)[i] < #[trigger] dedup(s)[j],
        forall|x: i64| #[trigger] dedup(s).contains(x) <==> s.contains(x),
        s.len() > 0 ==> dedup(s).len() > 0 && dedup(s).last() == s.last(),
    decreases s.len(),
{
    if s.len() >= 2 {
        let less = s.drop_last();
        assert(less.last() == s[s.len() - 2]);
        lemma_dedup(less);
        let r = dedup(s);
        let d = dedup(less);
        assert forall|x: i64| #[trigger] r.contains(x) <==> s.contains(x) by {
            if s.contains(x) {
                let i = choose|i: int| 0 <= i < s.len() && s[i] == x;
                if i < less.len() {
                    assert(less[i] == x);
                    assert(less.contains(x));
                    assert(d.contains(x));
                    let k = choose|k: int| 0 <= k < d.len() && d[k] == x;
                    assert(r[k] == x);
                } else {
                    assert(r[r.len() - 1] == x);
                }
            }
            if r.contains(x) {
                let k = choose|k: int| 0 <= k < r.len() && r[k] == x;
                if k < d.len() {
                    assert(d[k] == x);
                    assert(d.contains(x));
                    assert(less.contains(x));
                    let i = choose|i: int| 0 <= i < less.len() && less[i] == x;
                    assert(s[i] == x);
                } else {
                    assert(s[s.len() - 1] == x);
                }
            }
        }
        assert forall|i: int, j: int| 0 <= i < j < r.len() implies #[trigger] r[i] < #[trigger] r[j] by {
            assert(r[i] == d[i]);
            if j < d.len() {
                assert(r[j] == d[j]);
            } else {
                assert(d[i] <= d.last());
                assert(s[s.len() - 2] <= s[s.len() - 1]);
            }
        }
    }
}

/// The distinct labels of a list: each of its labels once, in rising order, and no other.
pub proof fn law_distinct_labels(s: Seq<i64>)
    ensures
        forall|i: int, j: int|
            0 <= i < j < dedup(sorted(s)).len() ==> #[trigger] dedup(sorted(s))[i] < #[trigger] dedup(sorted(s))[j],
        forall|x: i64| #[trigger] dedup(sorted(s)).contains(x) <==> s.contains(x),
{
    law_sorted(s);
    lemma_dedup(sorted(s));
    assert forall|x: i64| #[trigger] dedup(sorted(s)).contains(x) <==> s.contains(x) by {
        s.to_multiset_ensures();
        sorted(s).to_multiset_ensures();
        assert(s.contains(x) <==> s.to_multiset().count(x) > 0);
        assert(sorted(s).contains(x) <==> sorted(s).to_multiset().count(x) > 0);
    }
}

} // verus!
