//! Maps keyed by SSA variables or storage locations, kept as lists of entries.

use vstd::prelude::*;
use crate::ssa::{Location, SsaVar};
use crate::text::copy_text;

verus! {

/// The map that a list of entries stands for: later entries win.
pub open spec fn entries_map<K, V>(s: Seq<(K, V)>) -> Map<K, V>
    decreases s.len(),
{
    if s.len() == 0 {
        Map::empty()
    } else {
        entries_map(s.drop_last()).insert(s.last().0, s.last().1)
    }
}

/// The entry of a key in the map, if it has one.
pub open spec fn lookup<K, V>(m: Map<K, V>, k: K) -> Option<V> {
    if m.dom().contains(k) {
        Some(m[k])
    } else {
        None
    }
}

/// A map keyed by SSA variables.
#[derive(Clone, Debug)]
pub struct VarMap<V> {
    pub entries: Vec<(SsaVar, V)>,
}

impl<V> View for VarMap<V> {
    type V = Map<SsaVar, V>;

    open spec fn view(&self) -> Map<SsaVar, V> {
        entries_map(self.entries@)
    }
}

impl<V> VarMap<V> {
    pub fn new() -> (r: VarMap<V>)
        ensures
            r@ == Map::<SsaVar, V>::empty(),
    {
        VarMap { entries: Vec::new() }
    }

    pub fn insert(&mut self, k: SsaVar, v: V)
        ensures
            final(self)@ == old(self)@.insert(k, v),
    {
        self.entries.push((k, v));
        assert(self.entries@.drop_last() =~= old(self).entries@);
    }

    pub fn get(&self, k: &SsaVar) -> (r: Option<&V>)
        ensures
            match r {
                Some(v) => self@.dom().contains(*k) && self@[*k] == *v,
                None => !self@.dom().contains(*k),
            },
    {
        let mut n: usize = self.entries.len();
        assert(self.entries@.take(n as int) =~= self.entries@);
        while n > 0
            invariant
                n <= self.entries@.len(),
                lookup(entries_map(self.entries@.take(n as int)), *k) == lookup(self@, *k),
            decreases n,
        {
            assert(self.entries@.take(n as int).drop_last() =~= self.entries@.take(n - 1));
            if self.entries[n - 1].0 == *k {
                return Some(&self.entries[n - 1].1);
            }
            n -= 1;
        }
        None
    }

    pub fn has(&self, k: &SsaVar) -> (r: bool)
        ensures
            r == self@.dom().contains(*k),
    {
        self.get(k).is_some()
    }
}

/// A map from storage locations.
#[derive(Clone, Debug)]
pub struct LocMap<V> {
    pub entries: Vec<(Location, V)>,
}

impl<V> View for LocMap<V> {
    type V = Map<Location, V>;

    open spec fn view(&self) -> Map<Location, V> {
        entries_map(self.entries@)
    }
}

impl<V> LocMap<V> {
    pub fn new() -> (r: LocMap<V>)
        ensures
            r@ == Map::<Location, V>::empty(),
    {
        LocMap { entries: Vec::new() }
    }

    pub fn insert(&mut self, k: Location, v: V)
        ensures
            final(self)@ == old(self)@.insert(k, v),
    {
        self.entries.push((k, v));
        assert(self.entries@.drop_last() =~= old(self).entries@);
    }

    pub fn get(&self, k: &Location) -> (r: Option<&V>)
        ensures
            match r {
                Some(v) => self@.dom().contains(*k) && self@[*k] == *v,
                None => !self@.dom().contains(*k),
            },
    {
        let mut n: usize = self.entries.len();
        assert(self.entries@.take(n as int) =~= self.entries@);
        while n > 0
            invariant
                n <= self.entries@.len(),
                lookup(entries_map(self.entries@.take(n as int)), *k) == lookup(self@, *k),
            decreases n,
        {
            assert(self.entries@.take(n as int).drop_last() =~= self.entries@.take(n - 1));
            if self.entries[n - 1].0 == *k {
                return Some(&self.entries[n - 1].1);
            }
            n -= 1;
        }
        None
    }
}

/// The texts that a map of expressions holds.
pub open spec fn texts(m: Map<SsaVar, Vec<char>>) -> Map<SsaVar, Seq<char>> {
    m.map_values(|v: Vec<char>| v@)
}

/// Expression texts by the variable they define.
#[derive(Clone, Debug)]
pub struct TextMap {
    pub map: VarMap<Vec<char>>,
}

impl View for TextMap {
    type V = Map<SsaVar, Seq<char>>;

    open spec fn view(&self) -> Map<SsaVar, Seq<char>> {
        texts(self.map@)
    }
}

impl TextMap {
    pub fn new() -> (r: TextMap)
        ensures
            r@ == Map::<SsaVar, Seq<char>>::empty(),
    {
        let r = TextMap { map: VarMap::new() };
        assert(r@ =~= Map::empty());
        r
    }

    pub fn insert(&mut self, k: SsaVar, v: Vec<char>)
        ensures
            final(self)@ == old(self)@.insert(k, v@),
    {
        self.map.insert(k, v);
        assert(self@ =~= old(self)@.insert(k, v@));
    }

    pub fn has(&self, k: &SsaVar) -> (r: bool)
        ensures
            r == self@.dom().contains(*k),
    {
        self.map.has(k)
    }

    /// A copy of the text for `k`.
    pub fn get(&self, k: &SsaVar) -> (r: Option<Vec<char>>)
        ensures
            crate::text::opt_text(r) == lookup(self@, *k),
    {
        match self.map.get(k) {
            Some(v) => Some(copy_text(v)),
            None => None,
        }
    }
}

// ─── Aliases ────────────────────────────────────────────────────────────────

/// The representative of `v`.
pub open spec fn root(rep: Map<SsaVar, SsaVar>, v: SsaVar) -> SsaVar {
    if rep.dom().contains(v) {
        rep[v]
    } else {
        v
    }
}

/// `rep` with the class of `a` moved to the representative `b`.
pub open spec fn unite(rep: Map<SsaVar, SsaVar>, a: SsaVar, b: SsaVar) -> Map<SsaVar, SsaVar> {
    rep.map_values(
        |v: SsaVar|
            if v == a {
                b
            } else {
                v
            },
    ).insert(a, b)
}

/// Alias classes: each variable that is no representative is listed with its own.
pub struct AliasMap {
    pub entries: Vec<(SsaVar, SsaVar)>,
}

impl View for AliasMap {
    type V = Map<SsaVar, SsaVar>;

    open spec fn view(&self) -> Map<SsaVar, SsaVar> {
        entries_map(self.entries@)
    }
}

/// Representatives stand for themselves.
pub open spec fn settled(rep: Map<SsaVar, SsaVar>) -> bool {
    forall|v: SsaVar| #[trigger] rep.dom().contains(v) ==> !rep.dom().contains(rep[v])
}

/// Representatives stand for themselves after uniting two of them.
pub proof fn lemma_unite_settled(rep: Map<SsaVar, SsaVar>, a: SsaVar, b: SsaVar)
    requires
        settled(rep),
        !rep.dom().contains(a),
        !rep.dom().contains(b),
        a != b,
    ensures
        settled(unite(rep, a, b)),
        forall|v: SsaVar|
            root(unite(rep, a, b), v) == if root(rep, v) == a {
                b
            } else {
                root(rep, v)
            },
{
    let u = unite(rep, a, b);
    assert forall|v: SsaVar| #[trigger] u.dom().contains(v) implies !u.dom().contains(u[v]) by {
        if v != a {
            assert(rep.dom().contains(v));
        }
    }
}

/// A representative has no entry.
pub proof fn lemma_root_free(rep: Map<SsaVar, SsaVar>, v: SsaVar)
    requires
        settled(rep),
    ensures
        !rep.dom().contains(root(rep, v)),
        root(rep, root(rep, v)) == root(rep, v),
{
}

proof fn lemma_map_entries(s: Seq<(SsaVar, SsaVar)>, t: Seq<(SsaVar, SsaVar)>, f: spec_fn(SsaVar) -> SsaVar)
    requires
        s.len() == t.len(),
        forall|i: int| 0 <= i < s.len() ==> #[trigger] t[i] == (s[i].0, f(s[i].1)),
    ensures
        entries_map(t) == entries_map(s).map_values(f),
    decreases s.len(),
{
    if s.len() == 0 {
        assert(entries_map(t) =~= entries_map(s).map_values(f));
    } else {
        lemma_map_entries(s.drop_last(), t.drop_last(), f);
        assert(t.last() == (s.last().0, f(s.last().1)));
        assert(entries_map(t) =~= entries_map(s).map_values(f));
    }
}

impl AliasMap {
    pub fn new() -> (r: AliasMap)
        ensures
            r@ == Map::<SsaVar, SsaVar>::empty(),
    {
        AliasMap { entries: Vec::new() }
    }

    pub fn find(&self, v: &SsaVar) -> (r: SsaVar)
        ensures
            r == root(self@, *v),
    {
        let mut n: usize = self.entries.len();
        assert(self.entries@.take(n as int) =~= self.entries@);
        while n > 0
            invariant
                n <= self.entries@.len(),
                root(entries_map(self.entries@.take(n as int)), *v) == root(self@, *v),
            decreases n,
        {
            assert(self.entries@.take(n as int).drop_last() =~= self.entries@.take(n - 1));
            if self.entries[n - 1].0 == *v {
                return self.entries[n - 1].1;
            }
            n -= 1;
        }
        assert(self.entries@.take(0) =~= Seq::empty());
        *v
    }

    /// Moves the class of `a` to the representative `b`.
    pub fn unite(&mut self, a: SsaVar, b: SsaVar)
        ensures
            final(self)@ == unite(old(self)@, a, b),
    {
        let ghost before = self.entries@;
        let ghost f = |v: SsaVar|
            if v == a {
                b
            } else {
                v
            };
        let mut i: usize = 0;
        while i < self.entries.len()
            invariant
                i <= self.entries@.len(),
                self.entries@.len() == before.len(),
                forall|j: int| 0 <= j < i ==> #[trigger] self.entries@[j] == (before[j].0, f(before[j].1)),
                forall|j: int| i <= j < before.len() ==> #[trigger] self.entries@[j] == before[j],
                f == (|v: SsaVar|
                    if v == a {
                        b
                    } else {
                        v
                    }),
            decreases self.entries@.len() - i,
        {
            let (k, v) = self.entries[i];
            if v == a {
                self.entries.set(i, (k, b));
            }
            i += 1;
        }
        proof {
            lemma_map_entries(before, self.entries@, f);
        }
        let ghost mid = self.entries@;
        self.entries.push((a, b));
        assert(self.entries@.drop_last() =~= mid);
        assert(self@ =~= unite(old(self)@, a, b));
    }
}

} // verus!
