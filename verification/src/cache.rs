//! Cache of decompiled output, and where it is asked for.

use vstd::prelude::*;
use crate::text::{chars_of, same, string_of};

verus! {

/// Where output is asked for unless told otherwise.
pub const DEFAULT_ENDPOINT: &'static str = "http://127.0.0.1:8000/decompile";

/// How long an answer may take, in seconds.
pub const DEFAULT_TIMEOUT_SECS: u64 = 120;

/// Key of decompiled output. A result holds only while the image and the operation
/// sequence are unchanged.
#[derive(Clone, Debug, Hash, PartialEq, Eq)]
pub struct DecompileCacheKey {
    pub image_sha256: String,
    pub va: u64,
    pub op_seq: u64,
}

/// Key of output that came from the service. Any change of the project raises the
/// operation sequence, and with it drops earlier results.
#[derive(Clone, Debug, Hash, PartialEq, Eq)]
pub struct DecompilerCacheKey {
    pub image_sha256: String,
    pub va: u64,
    pub op_seq: u64,
}

/// A key as a value.
#[verifier::ext_equal]
pub struct KeyView {
    pub image: Seq<char>,
    pub va: u64,
    pub op_seq: u64,
}

impl View for DecompileCacheKey {
    type V = KeyView;

    open spec fn view(&self) -> KeyView {
        KeyView { image: self.image_sha256@, va: self.va, op_seq: self.op_seq }
    }
}

impl View for DecompilerCacheKey {
    type V = KeyView;

    open spec fn view(&self) -> KeyView {
        KeyView { image: self.image_sha256@, va: self.va, op_seq: self.op_seq }
    }
}

/// One cached output.
pub struct CacheEntry {
    key: DecompilerCacheKey,
    pseudocode: String,
}

/// The first output cached under `k` among the entries from `i` on.
pub closed spec fn held_from(v: Seq<CacheEntry>, k: KeyView, i: int) -> Option<Seq<char>>
    decreases v.len() - i,
{
    if i < 0 || i >= v.len() {
        None
    } else if v[i].key@ == k {
        Some(v[i].pseudocode@)
    } else {
        held_from(v, k, i + 1)
    }
}

/// Decompiled output by key.
pub struct OutputCache {
    entries: Vec<CacheEntry>,
}

impl View for OutputCache {
    type V = Map<KeyView, Seq<char>>;

    closed spec fn view(&self) -> Map<KeyView, Seq<char>> {
        Map::new(
            |k: KeyView| held_from(self.entries@, k, 0) is Some,
            |k: KeyView| held_from(self.entries@, k, 0)->0,
        )
    }
}

/// An entry behind the others is found under its key alone.
proof fn lemma_held_push(v: Seq<CacheEntry>, e: CacheEntry, k: KeyView, i: int)
    requires
        0 <= i <= v.len(),
    ensures
        held_from(v.push(e), k, i) == (match held_from(v, k, i) {
            Some(t) => Some(t),
            None => if e.key@ == k {
                Some(e.pseudocode@)
            } else {
                None
            },
        }),
    decreases v.len() - i,
{
    let w = v.push(e);
    if i < v.len() {
        lemma_held_push(v, e, k, i + 1);
        assert(w[i] == v[i]);
    } else {
        assert(w[i] == e);
        assert(held_from(w, k, i + 1) is None);
    }
}

/// A new output in the first entry of its key is found there, the others as before.
proof fn lemma_held_update(v: Seq<CacheEntry>, e: CacheEntry, p: int, k: KeyView, i: int)
    requires
        0 <= i <= p < v.len(),
        v[p].key@ == e.key@,
        forall|j: int| 0 <= j < p ==> (#[trigger] v[j]).key@ != e.key@,
    ensures
        held_from(v.update(p, e), k, i) == (if e.key@ == k {
            Some(e.pseudocode@)
        } else {
            held_from(v, k, i)
        }),
    decreases p - i,
{
    let w = v.update(p, e);
    if i < p {
        lemma_held_update(v, e, p, k, i + 1);
        assert(w[i] == v[i]);
    } else {
        assert(w[i] == e);
        if e.key@ != k {
            lemma_held_tail(v, e, p, k, p + 1);
        }
    }
}

/// Entries behind position `p` are found as before a change at `p`.
proof fn lemma_held_tail(v: Seq<CacheEntry>, e: CacheEntry, p: int, k: KeyView, i: int)
    requires
        0 <= p < i <= v.len(),
    ensures
        held_from(v.update(p, e), k, i) == held_from(v, k, i),
    decreases v.len() - i,
{
    if i < v.len() {
        lemma_held_tail(v, e, p, k, i + 1);
        assert(v.update(p, e)[i] == v[i]);
    }
}

fn same_key(a: &DecompilerCacheKey, b: &DecompilerCacheKey) -> (r: bool)
    ensures
        r == (a@ == b@),
{
    let eq = a.va == b.va && a.op_seq == b.op_seq && same(
        &chars_of(a.image_sha256.as_str()),
        &chars_of(b.image_sha256.as_str()),
    );
    assert(eq ==> a@ =~= b@);
    eq
}

impl OutputCache {
    /// A cache without entries.
    pub fn new() -> (r: OutputCache)
        ensures
            r@ == Map::<KeyView, Seq<char>>::empty(),
    {
        let r = OutputCache { entries: Vec::new() };
        assert(r@ =~= Map::<KeyView, Seq<char>>::empty());
        r
    }

    /// The output cached under a key.
    pub fn get(&self, key: &DecompilerCacheKey) -> (r: Option<String>)
        ensures
            match r {
                Some(t) => self@.dom().contains(key@) && t@ == self@[key@],
                None => !self@.dom().contains(key@),
            },
    {
        let mut i: usize = 0;
        while i < self.entries.len()
            invariant
                i <= self.entries@.len(),
                held_from(self.entries@, key@, i as int) == held_from(self.entries@, key@, 0),
            decreases self.entries@.len() - i,
        {
            if same_key(&self.entries[i].key, key) {
                return Some(string_of(&chars_of(self.entries[i].pseudocode.as_str())));
            }
            i += 1;
        }
        None
    }

    /// Caches an output under a key, in place of an earlier one.
    pub fn insert(&mut self, key: DecompilerCacheKey, pseudocode: String)
        ensures
            final(self)@ == old(self)@.insert(key@, pseudocode@),
    {
        let ghost v = self.entries@;
        let ghost k0 = key@;
        let ghost out = pseudocode@;
        let mut i: usize = 0;
        while i < self.entries.len()
            invariant
                i <= self.entries@.len(),
                v == self.entries@,
                v == old(self).entries@,
                k0 == key@,
                out == pseudocode@,
                forall|j: int| 0 <= j < i ==> (#[trigger] v[j]).key@ != key@,
            decreases self.entries@.len() - i,
        {
            if same_key(&self.entries[i].key, &key) {
                let e = CacheEntry { key, pseudocode };
                let ghost e0 = e;
                self.entries.set(i, e);
                proof {
                    assert forall|k: KeyView| #[trigger] held_from(self.entries@, k, 0) == (if k0 == k {
                        Some(out)
                    } else {
                        held_from(v, k, 0)
                    }) by {
                        lemma_held_update(v, e0, i as int, k, 0);
                    }
                    assert(self@ =~= old(self)@.insert(k0, out));
                }
                return;
            }
            i += 1;
        }
        let e = CacheEntry { key, pseudocode };
        let ghost e0 = e;
        self.entries.push(e);
        proof {
            lemma_absent(v, k0, 0);
            assert forall|k: KeyView| #[trigger] held_from(self.entries@, k, 0) == (if k0 == k {
                Some(out)
            } else {
                held_from(v, k, 0)
            }) by {
                lemma_held_push(v, e0, k, 0);
            }
            assert(self@ =~= old(self)@.insert(k0, out));
        }
    }
}

/// A key that no entry has finds nothing.
proof fn lemma_absent(v: Seq<CacheEntry>, k: KeyView, i: int)
    requires
        0 <= i <= v.len(),
        forall|j: int| 0 <= j < v.len() ==> (#[trigger] v[j]).key@ != k,
    ensures
        held_from(v, k, i) is None,
    decreases v.len() - i,
{
    if i < v.len() {
        lemma_absent(v, k, i + 1);
    }
}

/// What a request leads to.
pub enum CacheStep {
    /// The answer is known.
    Answer(String),
    /// The service has to be asked.
    Ask,
}

/// Decides whether a request goes out.
pub fn request(cache: &OutputCache, key: &DecompilerCacheKey) -> (r: CacheStep)
    ensures
        match r {
            CacheStep::Answer(t) => cache@.dom().contains(key@) && t@ == cache@[key@],
            CacheStep::Ask => !cache@.dom().contains(key@),
        },
{
    match cache.get(key) {
        Some(t) => CacheStep::Answer(t),
        None => CacheStep::Ask,
    }
}

/// The endpoint given, or the default one.
pub fn endpoint_or_default(given: Option<String>) -> (r: String)
    ensures
        r@ == (match given {
            Some(e) => e@,
            None => DEFAULT_ENDPOINT@,
        }),
{
    match given {
        Some(e) => e,
        None => string_of(&chars_of(DEFAULT_ENDPOINT)),
    }
}

/// A result that was cached under one operation sequence does not answer for another.
pub proof fn law_changes_invalidate(cache: Map<KeyView, Seq<char>>, image: Seq<char>, va: u64, before: u64, after: u64, out: Seq<char>)
    requires
        before != after,
    ensures
        cache.insert((KeyView { image, va, op_seq: before }), out).dom().contains(
            (KeyView { image, va, op_seq: after }),
        ) <==> cache.dom().contains((KeyView { image, va, op_seq: after })),
{
}

} // verus!
