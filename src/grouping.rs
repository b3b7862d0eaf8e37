//! Bucketing chunk coordinates by the region file that holds them.
use vstd::prelude::*;

use crate::chunk::ChunkPos;
use crate::coords::{get_region_coords, region_of};

verus! {

/// Coordinates of a region: the chunk coordinates shifted right by five.
#[derive(Debug, Clone, Copy, PartialEq, Eq, PartialOrd, Ord, Hash, Structural)]
pub struct RegionKey {
    pub x: i32,
    pub z: i32,
}

/// The region that holds chunk `p`.
pub open spec fn key_of(p: ChunkPos) -> RegionKey {
    RegionKey { x: region_of(p.x as int) as i32, z: region_of(p.z as int) as i32 }
}

/// The region that holds chunk `p`.
pub fn region_key(p: ChunkPos) -> (r: RegionKey)
    ensures
        r == key_of(p),
        r.x as int == region_of(p.x as int),
        r.z as int == region_of(p.z as int),
{
    let (x, z) = get_region_coords(p.x, p.z);
    RegionKey { x, z }
}

/// Whether some coordinate lies in bucket `g`.
pub open spec fn is_used(group_of: Seq<usize>, g: int) -> bool {
    exists|i: int| 0 <= i < group_of.len() && #[trigger] group_of[i] == g as usize
}

/// Coordinates bucketed by region: the distinct regions, and for each coordinate
/// the position of its region among them.
pub struct RegionGroups {
    pub keys: Vec<RegionKey>,
    pub group_of: Vec<usize>,
}

impl RegionGroups {
    /// Whether this bucketing describes `ps`: distinct keys, each coordinate in
    /// the bucket of its region, no bucket empty.
    pub open spec fn describes(&self, ps: Seq<ChunkPos>) -> bool {
        &&& self.keys@.no_duplicates()
        &&& self.group_of@.len() == ps.len()
        &&& forall|i: int|
            0 <= i < ps.len() ==> #[trigger] self.group_of@[i] < self.keys@.len()
                && self.keys@[self.group_of@[i] as int] == key_of(ps[i])
        &&& forall|g: int| 0 <= g < self.keys@.len() ==> #[trigger] is_used(self.group_of@, g)
    }

    /// The positions, in increasing order, of the coordinates in bucket `g`.
    pub fn members(&self, g: usize) -> (r: Vec<usize>)
        ensures
            forall|k: int| 0 <= k < r@.len() ==> #[trigger] r@[k] < self.group_of@.len() && self.group_of@[r@[k] as int] == g,
            forall|k: int, l: int| 0 <= k < l < r@.len() ==> r@[k] < r@[l],
            forall|i: int| 0 <= i < self.group_of@.len() && #[trigger] self.group_of@[i] == g ==> r@.contains(i as usize),
    {
        let mut out: Vec<usize> = Vec::new();
        let mut i: usize = 0;
        while i < self.group_of.len()
            invariant
                i <= self.group_of@.len(),
                forall|k: int| 0 <= k < out@.len() ==> #[trigger] out@[k] < i && self.group_of@[out@[k] as int] == g,
                forall|k: int, l: int| 0 <= k < l < out@.len() ==> out@[k] < out@[l],
                forall|t: int| 0 <= t < i && #[trigger] self.group_of@[t] == g ==> out@.contains(t as usize),
            decreases self.group_of@.len() - i,
        {
            if self.group_of[i] == g {
                let ghost before = out@;
                out.push(i);
                proof {
                    assert forall|t: int| 0 <= t < i + 1 && #[trigger] self.group_of@[t] == g implies out@.contains(t as usize) by {
                        if t < i {
                            let k = choose|k: int| 0 <= k < before.len() && before[k] == t as usize;
                            assert(out@[k] == t as usize);
                        } else {
                            assert(out@[out@.len() - 1] == i);
                        }
                    }
                }
            }
            i = i + 1;
        }
        out
    }
}

/// Buckets `ps` by region, regions in order of first appearance.
pub fn group_by_region(ps: &[ChunkPos]) -> (r: RegionGroups)
    ensures
        r.describes(ps@),
{
    let mut keys: Vec<RegionKey> = Vec::new();
    let mut group_of: Vec<usize> = Vec::new();
    let mut i: usize = 0;
    while i < ps.len()
        invariant
            i <= ps@.len(),
            keys@.no_duplicates(),
            group_of@.len() == i,
            forall|t: int| 0 <= t < i ==> #[trigger] group_of@[t] < keys@.len() && keys@[group_of@[t] as int] == key_of(ps@[t]),
            forall|g: int| 0 <= g < keys@.len() ==> #[trigger] is_used(group_of@, g),
        decreases ps@.len() - i,
    {
        let k = region_key(ps[i]);
        let mut j: usize = 0;
        while j < keys.len()
            invariant
                j <= keys@.len(),
                forall|t: int| 0 <= t < j ==> keys@[t] != k,
            ensures
                j <= keys@.len(),
                j < keys@.len() ==> keys@[j as int] == k,
                forall|t: int| 0 <= t < j ==> keys@[t] != k,
            decreases keys@.len() - j,
        {
            if keys[j] == k {
                break;
            }
            j = j + 1;
        }
        if j == keys.len() {
            let ghost old_keys = keys@;
            keys.push(k);
            proof {
                assert forall|a: int, b: int| 0 <= a < keys@.len() && 0 <= b < keys@.len() && a != b implies keys@[a] != keys@[b] by {
                    if a < old_keys.len() && b < old_keys.len() {
                        assert(old_keys[a] != old_keys[b]);
                    }
                }
            }
        }
        let ghost old_group = group_of@;
        group_of.push(j);
        proof {
            assert(keys@[j as int] == k);
            assert forall|t: int| 0 <= t < i + 1 implies #[trigger] group_of@[t] < keys@.len() && keys@[group_of@[t] as int] == key_of(ps@[t]) by {
                if t < i {
                    assert(group_of@[t] == old_group[t]);
                }
            }
            assert forall|g: int| 0 <= g < keys@.len() implies #[trigger] is_used(group_of@, g) by {
                if g == j {
                    assert(group_of@[i as int] == g as usize);
                } else {
                    assert(is_used(old_group, g));
                    let t = choose|t: int| 0 <= t < old_group.len() && #[trigger] old_group[t] == g as usize;
                    assert(group_of@[t] == g as usize);
                }
            }
        }
        i = i + 1;
    }
    RegionGroups { keys, group_of }
}

} // verus!
