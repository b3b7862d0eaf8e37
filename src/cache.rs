//! Bookkeeping of the region cache: which regions are held, by how many
//! operations, whether they are loaded, and which of them a sweep evicts.
use vstd::prelude::*;

use crate::grouping::RegionKey;

verus! {

/// One cached region.
#[derive(Debug, Clone, Copy, PartialEq, Eq, Structural)]
pub struct CacheEntry {
    pub key: RegionKey,
    /// Operations that currently hold the region.
    pub users: usize,
    /// Whether the region has been read into memory.
    pub loaded: bool,
}

/// The entries of the cache, at most one per region.
pub struct RegionCache {
    pub entries: Vec<CacheEntry>,
}

/// Whether the keys of `es` are distinct.
pub open spec fn keys_distinct(es: Seq<CacheEntry>) -> bool {
    forall|a: int, b: int| 0 <= a < es.len() && 0 <= b < es.len() && a != b ==> es[a].key != es[b].key
}

/// Position of the entry for `k`, if any.
pub open spec fn position_of(es: Seq<CacheEntry>, k: RegionKey) -> Option<int> {
    if exists|i: int| 0 <= i < es.len() && (#[trigger] es[i]).key == k {
        Some(choose|i: int| 0 <= i < es.len() && (#[trigger] es[i]).key == k)
    } else {
        None
    }
}

/// Whether a sweep keeps entry `e`: it is held, or not loaded yet.
pub open spec fn kept(e: CacheEntry) -> bool {
    e.users > 0 || !e.loaded
}

/// The entries left by a sweep: those it keeps, in order.
pub open spec fn swept(es: Seq<CacheEntry>) -> Seq<CacheEntry>
    decreases es.len(),
{
    if es.len() == 0 {
        es
    } else {
        let rest = swept(es.drop_last());
        if kept(es.last()) {
            rest.push(es.last())
        } else {
            rest
        }
    }
}

/// Whether `es` holds an entry for `k` that a sweep evicts.
pub open spec fn evictable(es: Seq<CacheEntry>, k: RegionKey) -> bool {
    exists|j: int| 0 <= j < es.len() && !kept(#[trigger] es[j]) && es[j].key == k
}

/// The entries after an operation on `k` ends.
pub open spec fn released(es: Seq<CacheEntry>, k: RegionKey) -> Seq<CacheEntry> {
    match position_of(es, k) {
        Some(i) => if es[i].users > 0 {
            es.update(i, CacheEntry { users: (es[i].users - 1) as usize, ..es[i] })
        } else {
            es
        },
        None => es,
    }
}

proof fn lemma_swept(es: Seq<CacheEntry>)
    ensures
        forall|i: int| 0 <= i < swept(es).len() ==> kept(#[trigger] swept(es)[i]) && es.contains(swept(es)[i]),
        forall|i: int| 0 <= i < es.len() && kept(#[trigger] es[i]) ==> swept(es).contains(es[i]),
    decreases es.len(),
{
    if es.len() > 0 {
        let t = es.drop_last();
        lemma_swept(t);
        let r = swept(t);
        assert forall|i: int| 0 <= i < swept(es).len() implies kept(#[trigger] swept(es)[i]) && es.contains(swept(es)[i]) by {
            if i < r.len() {
                let j = choose|j: int| 0 <= j < t.len() && t[j] == r[i];
                assert(es[j] == t[j]);
            } else {
                assert(es[es.len() - 1] == es.last());
            }
        }
        assert forall|i: int| 0 <= i < es.len() && kept(#[trigger] es[i]) implies swept(es).contains(es[i]) by {
            if i < es.len() - 1 {
                assert(t[i] == es[i]);
                let j = choose|j: int| 0 <= j < r.len() && r[j] == t[i];
                if kept(es.last()) {
                    assert(swept(es)[j] == r[j]);
                }
            } else {
                assert(swept(es)[swept(es).len() - 1] == es.last());
            }
        }
    }
}

/// A sweep evicts every loaded region that no operation holds, and keeps the others.
pub proof fn lemma_sweep_evicts(es: Seq<CacheEntry>, k: RegionKey)
    requires
        keys_distinct(es),
    ensures
        (forall|i: int| 0 <= i < es.len() && (#[trigger] es[i]).key == k ==> !kept(es[i]))
            ==> forall|i: int| 0 <= i < swept(es).len() ==> (#[trigger] swept(es)[i]).key != k,
        forall|i: int| 0 <= i < es.len() && kept(#[trigger] es[i]) ==> swept(es).contains(es[i]),
{
    lemma_swept(es);
    if forall|i: int| 0 <= i < es.len() && (#[trigger] es[i]).key == k ==> !kept(es[i]) {
        assert forall|i: int| 0 <= i < swept(es).len() implies (#[trigger] swept(es)[i]).key != k by {
            let j = choose|j: int| 0 <= j < es.len() && es[j] == swept(es)[i];
        }
    }
}

/// Once the last operation on a loaded region ends, the next sweep evicts it.
pub proof fn lemma_release_then_sweep(es: Seq<CacheEntry>, k: RegionKey)
    requires
        keys_distinct(es),
        forall|i: int| 0 <= i < es.len() && (#[trigger] es[i]).key == k ==> es[i].users <= 1 && es[i].loaded,
    ensures
        forall|i: int| 0 <= i < swept(released(es, k)).len() ==> (#[trigger] swept(released(es, k))[i]).key != k,
{
    let r = released(es, k);
    assert(keys_distinct(r));
    assert forall|i: int| 0 <= i < r.len() && (#[trigger] r[i]).key == k implies !kept(r[i]) by {
        match position_of(es, k) {
            Some(p) => {
                assert(p == i);
            },
            None => {},
        }
    }
    lemma_sweep_evicts(r, k);
}

impl RegionCache {
    pub open spec fn wf(&self) -> bool {
        keys_distinct(self.entries@)
    }

    /// An empty cache.
    pub fn new() -> (r: RegionCache)
        ensures
            r.wf(),
            r.entries@.len() == 0,
    {
        RegionCache { entries: Vec::new() }
    }

    /// Position of the entry for `k`.
    pub fn find(&self, k: RegionKey) -> (r: Option<usize>)
        ensures
            r matches Some(i) ==> (i < self.entries@.len() && self.entries@[i as int].key == k),
            r is None ==> forall|i: int| 0 <= i < self.entries@.len() ==> (#[trigger] self.entries@[i]).key != k,
    {
        let mut i: usize = 0;
        while i < self.entries.len()
            invariant
                i <= self.entries@.len(),
                forall|t: int| 0 <= t < i ==> (#[trigger] self.entries@[t]).key != k,
            decreases self.entries@.len() - i,
        {
            if self.entries[i].key == k {
                return Some(i);
            }
            i = i + 1;
        }
        None
    }

    /// An operation on `k` begins: its entry, created if absent, gains a user.
    /// Returns whether the region still has to be loaded.
    pub fn acquire(&mut self, k: RegionKey) -> (r: bool)
        requires
            old(self).wf(),
            forall|i: int| 0 <= i < old(self).entries@.len() ==> (#[trigger] old(self).entries@[i]).users < usize::MAX,
        ensures
            final(self).wf(),
            match position_of(old(self).entries@, k) {
                Some(i) => final(self).entries@ == old(self).entries@.update(i, CacheEntry { users: (old(self).entries@[i].users + 1) as usize, ..old(self).entries@[i] })
                    && r == !old(self).entries@[i].loaded,
                None => final(self).entries@ == old(self).entries@.push(CacheEntry { key: k, users: 1, loaded: false }) && r,
            },
    {
        match self.find(k) {
            Some(i) => {
                let e = self.entries[i];
                self.entries.set(i, CacheEntry { users: e.users + 1, ..e });
                assert(position_of(old(self).entries@, k) == Some(i as int));
                !e.loaded
            },
            None => {
                self.entries.push(CacheEntry { key: k, users: 1, loaded: false });
                true
            },
        }
    }

    /// The region `k` has been read into memory.
    pub fn mark_loaded(&mut self, k: RegionKey)
        requires
            old(self).wf(),
        ensures
            final(self).wf(),
            match position_of(old(self).entries@, k) {
                Some(i) => final(self).entries@ == old(self).entries@.update(i, CacheEntry { loaded: true, ..old(self).entries@[i] }),
                None => final(self).entries@ == old(self).entries@,
            },
    {
        if let Some(i) = self.find(k) {
            let e = self.entries[i];
            self.entries.set(i, CacheEntry { loaded: true, ..e });
            assert(position_of(old(self).entries@, k) == Some(i as int));
        }
    }

    /// An operation on `k` ends: its entry loses a user.
    pub fn release(&mut self, k: RegionKey)
        requires
            old(self).wf(),
        ensures
            final(self).wf(),
            final(self).entries@ == released(old(self).entries@, k),
    {
        if let Some(i) = self.find(k) {
            let e = self.entries[i];
            assert(position_of(old(self).entries@, k) == Some(i as int));
            if e.users > 0 {
                self.entries.set(i, CacheEntry { users: e.users - 1, ..e });
            }
        } else {
            assert(position_of(old(self).entries@, k) is None);
        }
    }

    /// Evicts every loaded region that no operation holds; returns their keys.
    pub fn sweep(&mut self) -> (r: Vec<RegionKey>)
        requires
            old(self).wf(),
        ensures
            final(self).wf(),
            final(self).entries@ == swept(old(self).entries@),
            forall|i: int| 0 <= i < r@.len() ==> #[trigger] evictable(old(self).entries@, r@[i]),
    {
        let ghost es = self.entries@;
        let mut keep: Vec<CacheEntry> = Vec::new();
        let mut gone: Vec<RegionKey> = Vec::new();
        let mut i: usize = 0;
        while i < self.entries.len()
            invariant
                es == self.entries@,
                i <= es.len(),
                keep@ == swept(es.subrange(0, i as int)),
                forall|t: int| 0 <= t < gone@.len() ==> #[trigger] evictable(es, gone@[t]),
            decreases es.len() - i,
        {
            let e = self.entries[i];
            assert(es.subrange(0, i + 1).drop_last() =~= es.subrange(0, i as int));
            if e.users > 0 || !e.loaded {
                keep.push(e);
            } else {
                gone.push(e.key);
                assert(!kept(es[i as int]));
            }
            i = i + 1;
        }
        assert(es.subrange(0, es.len() as int) =~= es);
        proof {
            lemma_swept(es);
            assert forall|a: int, b: int| 0 <= a < keep@.len() && 0 <= b < keep@.len() && a != b implies keep@[a].key != keep@[b].key by {
                lemma_swept_order(es, a, b);
            }
        }
        self.entries = keep;
        gone
    }

    /// Whether no operation holds any region.
    pub fn is_quiescent(&self) -> (r: bool)
        ensures
            r <==> forall|i: int| 0 <= i < self.entries@.len() ==> (#[trigger] self.entries@[i]).users == 0,
    {
        let mut i: usize = 0;
        while i < self.entries.len()
            invariant
                i <= self.entries@.len(),
                forall|t: int| 0 <= t < i ==> (#[trigger] self.entries@[t]).users == 0,
            decreases self.entries@.len() - i,
        {
            if self.entries[i].users != 0 {
                return false;
            }
            i = i + 1;
        }
        true
    }
}

/// Distinct positions of the swept entries come from distinct positions of `es`.
proof fn lemma_swept_order(es: Seq<CacheEntry>, a: int, b: int)
    requires
        keys_distinct(es),
        0 <= a < swept(es).len(),
        0 <= b < swept(es).len(),
        a != b,
    ensures
        swept(es)[a].key != swept(es)[b].key,
    decreases es.len(),
{
    let t = es.drop_last();
    let r = swept(t);
    assert(keys_distinct(t));
    lemma_swept(t);
    if a < r.len() && b < r.len() {
        lemma_swept_order(t, a, b);
    } else {
        let (x, y) = if a < r.len() { (a, b) } else { (b, a) };
        assert(y == r.len());
        let j = choose|j: int| 0 <= j < t.len() && t[j] == r[x];
        assert(es[j] == t[j]);
        assert(es[es.len() - 1] == es.last());
    }
}

} // verus!
