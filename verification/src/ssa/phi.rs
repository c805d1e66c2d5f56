//! Which blocks define a location, and where its phis go.

use vstd::prelude::*;
use std::collections::BTreeSet;
use crate::ssa::cfg::{frontiers_closed, in_iterated, iterated_df, sets};
use crate::ssa::lower::{block_views, FlatView};
use crate::ssa::{FlatOp, Location};

verus! {

// ─── Order of locations ─────────────────────────────────────────────────────

/// Position of the kind of a location.
pub open spec fn rank(l: Location) -> int {
    match l {
        Location::Register { .. } => 0,
        Location::StackSlot { .. } => 1,
        Location::Unique { .. } => 2,
        Location::RawRam => 3,
    }
}

/// `a` stands before `b`: registers first, then slots, temporaries and memory,
/// each by its fields.
pub open spec fn before(a: Location, b: Location) -> bool {
    match (a, b) {
        (
            Location::Register { base_offset: x },
            Location::Register { base_offset: y },
        ) => x < y,
        (
            Location::StackSlot { base_reg: x, disp: p },
            Location::StackSlot { base_reg: y, disp: q },
        ) => x < y || (x == y && p < q),
        (
            Location::Unique { instruction_va: x, offset: p, size: s },
            Location::Unique { instruction_va: y, offset: q, size: t },
        ) => x < y || (x == y && (p < q || (p == q && s < t))),
        _ => rank(a) < rank(b),
    }
}

fn rank_of(l: &Location) -> (r: u8)
    ensures
        r == rank(*l),
{
    match l {
        Location::Register { .. } => 0,
        Location::StackSlot { .. } => 1,
        Location::Unique { .. } => 2,
        Location::RawRam => 3,
    }
}

fn is_before(a: &Location, b: &Location) -> (r: bool)
    ensures
        r == before(*a, *b),
{
    match (a, b) {
        (
            Location::Register { base_offset: x },
            Location::Register { base_offset: y },
        ) => *x < *y,
        (
            Location::StackSlot { base_reg: x, disp: p },
            Location::StackSlot { base_reg: y, disp: q },
        ) => *x < *y || (*x == *y && *p < *q),
        (
            Location::Unique { instruction_va: x, offset: p, size: s },
            Location::Unique { instruction_va: y, offset: q, size: t },
        ) => *x < *y || (*x == *y && (*p < *q || (*p == *q && *s < *t))),
        _ => rank_of(a) < rank_of(b),
    }
}

// ─── Definitions by location ────────────────────────────────────────────────

/// For every location, the blocks that define it; in the order of locations.
pub struct DefBlocks {
    pub entries: Vec<(Location, BTreeSet<u32>)>,
}

/// Strictly ordered by location.
pub open spec fn ordered(e: Seq<(Location, BTreeSet<u32>)>) -> bool {
    forall|i: int, j: int| 0 <= i < j < e.len() ==> before((#[trigger] e[i]).0, (#[trigger] e[j]).0)
}

/// The entry of `l` lists block `b`.
pub open spec fn lists(e: Seq<(Location, BTreeSet<u32>)>, l: Location, b: u32) -> bool {
    exists|i: int| 0 <= i < e.len() && (#[trigger] e[i]).0 == l && e[i].1@.contains(b)
}

/// `l` has an entry.
pub open spec fn listed(e: Seq<(Location, BTreeSet<u32>)>, l: Location) -> bool {
    exists|i: int| 0 <= i < e.len() && (#[trigger] e[i]).0 == l
}

/// One of the first `n` operations of a block defines `l`, and `l` can be live
/// beyond its instruction.
pub open spec fn block_defines(ops: Seq<FlatView>, n: int, l: Location) -> bool {
    exists|k: int| 0 <= k < n && (#[trigger] ops[k]).def == Some(l) && !(l is Unique)
}

impl DefBlocks {
    /// The entries are ordered, none is empty, and each lists the blocks below `n`
    /// that define its location.
    pub open spec fn describes(&self, flat: Seq<Seq<FlatView>>, n: int) -> bool {
        &&& ordered(self.entries@)
        &&& forall|l: Location, b: u32|
            #[trigger] lists(self.entries@, l, b) <==> b < n && b < flat.len() && block_defines(
                flat[b as int],
                flat[b as int].len() as int,
                l,
            )
        &&& forall|l: Location|
            #[trigger] listed(self.entries@, l) ==> exists|b: u32| lists(self.entries@, l, b)
    }

    pub fn contains_key(&self, l: &Location) -> (r: bool)
        ensures
            r == listed(self.entries@, *l),
    {
        let mut i: usize = 0;
        while i < self.entries.len()
            invariant
                i <= self.entries@.len(),
                forall|j: int| 0 <= j < i ==> (#[trigger] self.entries@[j]).0 != *l,
            decreases self.entries@.len() - i,
        {
            if self.entries[i].0 == *l {
                return true;
            }
            i += 1;
        }
        false
    }

    /// Records that block `b` defines `l`.
    fn record(&mut self, l: Location, b: u32)
        requires
            ordered(old(self).entries@),
        ensures
            ordered(final(self).entries@),
            forall|x: Location, c: u32|
                #[trigger] lists(final(self).entries@, x, c) <==> lists(
                    old(self).entries@,
                    x,
                    c,
                ) || (x == l && c == b),
            forall|x: Location|
                #[trigger] listed(final(self).entries@, x) <==> listed(old(self).entries@, x) || x
                    == l,
    {
        let ghost e0 = self.entries@;
        let mut i: usize = 0;
        while i < self.entries.len() && is_before(&self.entries[i].0, &l)
            invariant
                i <= self.entries@.len(),
                self.entries@ == e0,
                forall|j: int| 0 <= j < i ==> before((#[trigger] e0[j]).0, l),
            decreases self.entries@.len() - i,
        {
            i += 1;
        }
        if i < self.entries.len() && self.entries[i].0 == l {
            let mut entry = self.entries.remove(i);
            entry.1.insert(b);
            self.entries.insert(i, entry);
            let ghost e1 = self.entries@;
            proof {
                assert(e1.len() == e0.len());
                assert forall|j: int| 0 <= j < e0.len() && j != i implies #[trigger] e1[j] == e0[j] by {}
                assert(e1[i as int].0 == l && e1[i as int].1@ == e0[i as int].1@.insert(b));
                assert forall|x: int, y: int| 0 <= x < y < e1.len() implies before(
                    (#[trigger] e1[x]).0,
                    (#[trigger] e1[y]).0,
                ) by {
                    assert(before(e0[x].0, e0[y].0));
                }
                assert forall|x: Location, c: u32| #[trigger] lists(e1, x, c) <==> lists(e0, x, c)
                    || (x == l && c == b) by {
                    if lists(e1, x, c) {
                        let j = choose|j: int|
                            0 <= j < e1.len() && (#[trigger] e1[j]).0 == x && e1[j].1@.contains(c);
                        assert(e0[j].0 == x);
                    }
                    if lists(e0, x, c) {
                        let j = choose|j: int|
                            0 <= j < e0.len() && (#[trigger] e0[j]).0 == x && e0[j].1@.contains(c);
                        assert(e1[j].0 == x);
                    }
                    if x == l && c == b {
                        assert(e1[i as int].0 == x);
                    }
                }
                assert forall|x: Location| #[trigger] listed(e1, x) <==> listed(e0, x) || x == l by {
                    if listed(e1, x) {
                        let j = choose|j: int| 0 <= j < e1.len() && (#[trigger] e1[j]).0 == x;
                        assert(e0[j].0 == x);
                    }
                    if listed(e0, x) {
                        let j = choose|j: int| 0 <= j < e0.len() && (#[trigger] e0[j]).0 == x;
                        assert(e1[j].0 == x);
                    }
                    assert(e1[i as int].0 == l);
                }
            }
        } else {
            let mut set: BTreeSet<u32> = BTreeSet::new();
            set.insert(b);
            self.entries.insert(i, (l, set));
            let ghost e1 = self.entries@;
            proof {
                assert(e1 == e0.insert(i as int, (l, set)));
                if i < e0.len() {
                    lemma_order_total(e0[i as int].0, l);
                }
                assert forall|x: int, y: int| 0 <= x < y < e1.len() implies before(
                    (#[trigger] e1[x]).0,
                    (#[trigger] e1[y]).0,
                ) by {
                    let ox = if x < i {
                        x
                    } else {
                        x - 1
                    };
                    let oy = if y < i {
                        y
                    } else {
                        y - 1
                    };
                    if x != i && y != i {
                        assert(before(e0[ox].0, e0[oy].0));
                    } else if x == i {
                        if oy > i {
                            assert(before(e0[i as int].0, e0[oy].0));
                            lemma_order_transitive(l, e0[i as int].0, e0[oy].0);
                        }
                    }
                }
                assert forall|x: Location, c: u32| #[trigger] lists(e1, x, c) <==> lists(e0, x, c)
                    || (x == l && c == b) by {
                    if lists(e1, x, c) {
                        let j = choose|j: int|
                            0 <= j < e1.len() && (#[trigger] e1[j]).0 == x && e1[j].1@.contains(c);
                        if j < i {
                            assert(e0[j].0 == x);
                        } else if j > i {
                            assert(e0[j - 1].0 == x);
                        }
                    }
                    if lists(e0, x, c) {
                        let j = choose|j: int|
                            0 <= j < e0.len() && (#[trigger] e0[j]).0 == x && e0[j].1@.contains(c);
                        if j < i {
                            assert(e1[j].0 == x);
                        } else {
                            assert(e1[j + 1].0 == x);
                        }
                    }
                    if x == l && c == b {
                        assert(e1[i as int].0 == x);
                    }
                }
                assert forall|x: Location| #[trigger] listed(e1, x) <==> listed(e0, x) || x == l by {
                    if listed(e1, x) {
                        let j = choose|j: int| 0 <= j < e1.len() && (#[trigger] e1[j]).0 == x;
                        if j < i {
                            assert(e0[j].0 == x);
                        } else if j > i {
                            assert(e0[j - 1].0 == x);
                        }
                    }
                    if listed(e0, x) {
                        let j = choose|j: int| 0 <= j < e0.len() && (#[trigger] e0[j]).0 == x;
                        if j < i {
                            assert(e1[j].0 == x);
                        } else {
                            assert(e1[j + 1].0 == x);
                        }
                    }
                    assert(e1[i as int].0 == l);
                }
            }
        }
    }
}

proof fn lemma_order_total(a: Location, b: Location)
    ensures
        before(a, b) || a == b || before(b, a),
{
}

proof fn lemma_order_transitive(a: Location, b: Location, c: Location)
    requires
        before(a, b),
        before(b, c),
    ensures
        before(a, c),
{
}

/// For every location, the blocks among the first `n` that define it. Temporaries
/// are left out: they never need a phi.
pub fn collect_def_blocks(block_flat: &[Vec<FlatOp>], n: usize) -> (r: DefBlocks)
    requires
        block_flat@.len() <= u32::MAX,
    ensures
        r.describes(block_views(block_flat@), n as int),
{
    let ghost flat = block_views(block_flat@);
    let mut r = DefBlocks { entries: Vec::new() };
    let mut b: usize = 0;
    while b < block_flat.len() && b < n
        invariant
            b <= block_flat@.len(),
            b <= n,
            block_flat@.len() <= u32::MAX,
            flat == block_views(block_flat@),
            r.describes(flat, b as int),
        decreases block_flat@.len() - b,
    {
        let ops = &block_flat[b];
        let ghost row = flat[b as int];
        let ghost e0 = r.entries@;
        let mut k: usize = 0;
        while k < ops.len()
            invariant
                k <= ops@.len(),
                b < block_flat@.len(),
                b < u32::MAX,
                *ops == block_flat@[b as int],
                row == crate::ssa::lower::flat_views(ops@),
                flat.len() == block_flat@.len(),
                flat[b as int] == row,
                ordered(r.entries@),
                forall|l: Location, c: u32|
                    #[trigger] lists(r.entries@, l, c) <==> (c < b && block_defines(
                        flat[c as int],
                        flat[c as int].len() as int,
                        l,
                    )) || (c == b && block_defines(row, k as int, l)),
                forall|l: Location|
                    #[trigger] listed(r.entries@, l) ==> exists|c: u32| lists(r.entries@, l, c),
            decreases ops@.len() - k,
        {
            let ghost e1 = r.entries@;
            assert(row[k as int] == ops@[k as int]@);
            if let Some(l) = &ops[k].def {
                if !l.is_instruction_scoped() {
                    r.record(*l, b as u32);
                    proof {
                        let loc = *l;
                        assert forall|x: Location| #[trigger] listed(r.entries@, x) implies exists|c: u32|
                            lists(r.entries@, x, c) by {
                            if x == loc {
                                assert(lists(r.entries@, x, b as u32));
                            } else {
                                assert(listed(e1, x));
                                let c = choose|c: u32| lists(e1, x, c);
                                assert(lists(r.entries@, x, c));
                            }
                        }
                    }
                }
            }
            proof {
                assert forall|l: Location, c: u32| #[trigger] lists(r.entries@, l, c) <==> (c < b
                    && block_defines(flat[c as int], flat[c as int].len() as int, l)) || (c == b
                    && block_defines(row, k + 1, l)) by {
                    if block_defines(row, k + 1, l) {
                        let m = choose|m: int|
                            0 <= m < k + 1 && (#[trigger] row[m]).def == Some(l) && !(l is Unique);
                        if m < k {
                            assert(block_defines(row, k as int, l));
                        }
                    }
                    if block_defines(row, k as int, l) {
                        let m = choose|m: int|
                            0 <= m < k && (#[trigger] row[m]).def == Some(l) && !(l is Unique);
                        assert(0 <= m < k + 1);
                    }
                    if row[k as int].def == Some(l) && !(l is Unique) {
                        assert(block_defines(row, k + 1, l));
                    }
                    assert(lists(e1, l, c) || !lists(e1, l, c));
                }
            }
            k += 1;
        }
        b += 1;
    }
    proof {
        assert forall|l: Location, c: u32| #[trigger] lists(r.entries@, l, c) <==> c < n && c
            < flat.len() && block_defines(flat[c as int], flat[c as int].len() as int, l) by {}
    }
    r
}

// ─── Phi placement ──────────────────────────────────────────────────────────

/// Location `e` needs a phi at block `b`: it lies in the iterated dominance frontier
/// of the blocks that define it.
pub open spec fn needs_phi(e: (Location, BTreeSet<u32>), df: Seq<Set<u32>>, b: u32) -> bool {
    in_iterated(df, e.1@, b)
}

/// The locations among the first `n` entries that need a phi at block `b`.
pub open spec fn phis_at(e: Seq<(Location, BTreeSet<u32>)>, df: Seq<Set<u32>>, b: u32, n: int) -> Seq<Location>
    decreases n,
{
    if n <= 0 {
        Seq::empty()
    } else if needs_phi(e[n - 1], df, b) {
        phis_at(e, df, b, n - 1).push(e[n - 1].0)
    } else {
        phis_at(e, df, b, n - 1)
    }
}

/// For each block, the locations that need a phi at its head, in their order.
pub fn place_phis(def_blocks: &DefBlocks, df: &[BTreeSet<u32>]) -> (phi_locs: Vec<Vec<Location>>)
    requires
        df@.len() <= u32::MAX,
        frontiers_closed(sets(df@)),
        forall|l: Location, b: u32| #[trigger] lists(def_blocks.entries@, l, b) ==> b < df@.len(),
    ensures
        phi_locs@.len() == df@.len(),
        forall|b: int|
            0 <= b < df@.len() ==> (#[trigger] phi_locs@[b])@ == phis_at(
                def_blocks.entries@,
                sets(df@),
                b as u32,
                def_blocks.entries@.len() as int,
            ),
{
    let n: usize = df.len();
    let ghost e = def_blocks.entries@;
    // The iterated frontier of each location.
    let mut where_to: Vec<BTreeSet<u32>> = Vec::new();
    let mut i: usize = 0;
    while i < def_blocks.entries.len()
        invariant
            i <= e.len(),
            e == def_blocks.entries@,
            df@.len() <= u32::MAX,
            frontiers_closed(sets(df@)),
            forall|l: Location, b: u32| #[trigger] lists(e, l, b) ==> b < df@.len(),
            where_to@.len() == i,
            forall|k: int, b: u32|
                0 <= k < i ==> (#[trigger] needs_phi(e[k], sets(df@), b)
                    <==> where_to@[k]@.contains(b)),
        decreases e.len() - i,
    {
        let blocks = &def_blocks.entries[i].1;
        assert forall|b: u32| blocks@.contains(b) implies b < df@.len() by {
            assert(e[i as int].0 == e[i as int].0 && e[i as int].1@.contains(b));
            assert(lists(e, e[i as int].0, b));
        }
        where_to.push(iterated_df(df, blocks));
        i += 1;
    }
    let mut phi_locs: Vec<Vec<Location>> = Vec::new();
    let mut b: usize = 0;
    while b < n
        invariant
            b <= n,
            n == df@.len(),
            n <= u32::MAX,
            e == def_blocks.entries@,
            where_to@.len() == e.len(),
            forall|k: int, x: u32|
                0 <= k < e.len() ==> (#[trigger] needs_phi(e[k], sets(df@), x)
                    <==> where_to@[k]@.contains(x)),
            phi_locs@.len() == b,
            forall|k: int|
                0 <= k < b ==> (#[trigger] phi_locs@[k])@ == phis_at(
                    e,
                    sets(df@),
                    k as u32,
                    e.len() as int,
                ),
        decreases n - b,
    {
        let mut row: Vec<Location> = Vec::new();
        let mut k: usize = 0;
        while k < def_blocks.entries.len()
            invariant
                k <= e.len(),
                b < n,
                n <= u32::MAX,
                e == def_blocks.entries@,
                where_to@.len() == e.len(),
                forall|m: int, x: u32|
                    0 <= m < e.len() ==> (#[trigger] needs_phi(e[m], sets(df@), x)
                        <==> where_to@[m]@.contains(x)),
                row@ == phis_at(e, sets(df@), b as u32, k as int),
            decreases e.len() - k,
        {
            let here = where_to[k].contains(&(b as u32));
            assert(here == needs_phi(e[k as int], sets(df@), b as u32));
            if here {
                row.push(def_blocks.entries[k].0);
            }
            k += 1;
        }
        phi_locs.push(row);
        b += 1;
    }
    phi_locs
}

/// No temporary of an instruction is listed, so none ever gets a phi.
pub proof fn law_no_phi_for_temporaries(d: DefBlocks, flat: Seq<Seq<FlatView>>, n: int, df: Seq<Set<u32>>, b: u32, m: int)
    requires
        d.describes(flat, n),
        0 <= m <= d.entries@.len(),
    ensures
        forall|k: int|
            0 <= k < phis_at(d.entries@, df, b, m).len() ==> !((#[trigger] phis_at(
                d.entries@,
                df,
                b,
                m,
            )[k]) is Unique),
    decreases m,
{
    if m > 0 {
        law_no_phi_for_temporaries(d, flat, n, df, b, m - 1);
        let e = d.entries@[m - 1];
        let rest = phis_at(d.entries@, df, b, m - 1);
        assert(listed(d.entries@, e.0));
        let c = choose|c: u32| lists(d.entries@, e.0, c);
        assert(lists(d.entries@, e.0, c));
        assert forall|k: int| 0 <= k < phis_at(d.entries@, df, b, m).len() implies !((
        #[trigger] phis_at(d.entries@, df, b, m)[k]) is Unique) by {
            if k < rest.len() {
                assert(!(rest[k] is Unique));
            }
        }
    }
}

} // verus!
