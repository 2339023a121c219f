//! The aggregator: per-cell, per-species accumulators, owned by a grid that
//! is built once and consumed once. Lookups are hash based: species names go
//! through a 64-bit FNV-1a index with collision buckets, cell keys through a
//! packed 128-bit index; both indexes are verified against the vectors that
//! hold the data in insertion order.

use crate::bytes::views;
use crate::bytes::bytes_eq;
use crate::counts::Counts;
use crate::counts::spec_apply;
use crate::grid::RegionKey;
use std::collections::HashMap;
use vstd::prelude::*;

verus! {

broadcast use vstd::std_specs::hash::group_hash_axioms;

/// The first position of `x` in `s`, or -1.
pub open spec fn first_index_of<T>(s: Seq<T>, x: T) -> int
    decreases s.len(),
{
    if s.len() == 0 {
        -1
    } else if s[0] == x {
        0
    } else {
        let r = first_index_of(s.drop_first(), x);
        if r < 0 {
            -1
        } else {
            r + 1
        }
    }
}

pub open spec fn seq_has<T>(s: Seq<T>, x: T) -> bool {
    exists|i: int| 0 <= i < s.len() && s[i] == x
}

pub open spec fn distinct_seq<T>(s: Seq<T>) -> bool {
    forall|i: int, j: int| 0 <= i < j < s.len() ==> s[i] != s[j]
}

pub proof fn lemma_first_index_of<T>(s: Seq<T>, x: T)
    ensures
        ({
            let r = first_index_of(s, x);
            if seq_has(s, x) {
                0 <= r < s.len() && s[r] == x
            } else {
                r == -1
            }
        }),
    decreases s.len(),
{
    if s.len() > 0 && s[0] != x {
        lemma_first_index_of(s.drop_first(), x);
        if seq_has(s, x) {
            let k = choose|k: int| 0 <= k < s.len() && s[k] == x;
            assert(s.drop_first()[k - 1] == x);
            assert(seq_has(s.drop_first(), x));
        } else {
            if seq_has(s.drop_first(), x) {
                let k = choose|k: int| 0 <= k < s.drop_first().len() && s.drop_first()[k] == x;
                assert(s[k + 1] == x);
            }
        }
    }
}

pub proof fn lemma_first_index_unique<T>(s: Seq<T>, x: T, i: int)
    requires
        distinct_seq(s),
        0 <= i < s.len(),
        s[i] == x,
    ensures
        first_index_of(s, x) == i,
{
    assert(seq_has(s, x));
    lemma_first_index_of(s, x);
    let r = first_index_of(s, x);
    if r < i {
        assert(s[r] != s[i]);
    } else if r > i {
        assert(s[i] != s[r]);
    }
}

/// The FNV-1a hash of a byte string: fully determined by the bytes.
pub open spec fn spec_fnv64(s: Seq<u8>) -> u64
    decreases s.len(),
{
    if s.len() == 0 {
        0xcbf29ce484222325u64
    } else {
        vstd::wrapping::u64_specs::wrapping_mul(
            spec_fnv64(s.drop_last()) ^ (s.last() as u64),
            0x100000001b3u64,
        )
    }
}

/// Computes the FNV-1a hash of a byte string.
pub fn fnv64(s: &[u8]) -> (h: u64)
    ensures
        h == spec_fnv64(s@),
{
    let mut h: u64 = 0xcbf29ce484222325;
    let mut i: usize = 0;
    while i < s.len()
        invariant
            0 <= i <= s@.len(),
            h == spec_fnv64(s@.take(i as int)),
        decreases s@.len() - i,
    {
        h = (h ^ (s[i] as u64)).wrapping_mul(0x100000001b3);
        proof {
            assert(s@.take(i + 1).drop_last() =~= s@.take(i as int));
            assert(s@.take(i + 1).last() == s@[i as int]);
        }
        i = i + 1;
    }
    proof {
        assert(s@.take(s@.len() as int) =~= s@);
    }
    h
}

/// Whether a bucket holds the store position `i`.
pub open spec fn in_bucket(b: Seq<usize>, i: int) -> bool {
    exists|j: int| 0 <= j < b.len() && b[j] == i
}

/// All per-species accumulators of one cell, in first-seen order, with a
/// hash index from name hash to store positions.
pub struct Region {
    /// The cell this region aggregates.
    pub key: RegionKey,
    /// The species names seen in this cell, distinct, in first-seen order.
    pub names: Vec<Vec<u8>>,
    /// The accumulator of each species, parallel to `names`.
    pub stats: Vec<Counts>,
    /// Hash index: name hash to store positions. Maintained by `wf`.
    pub index: HashMap<u64, Vec<usize>>,
}

/// Every accumulator of the region has at most `b` observations.
pub open spec fn region_obs_le(names: Seq<Seq<u8>>, stats: Seq<Counts>, b: int) -> bool {
    forall|i: int| 0 <= i < stats.len() ==> (#[trigger] stats[i]).observations <= b
}

impl Region {
    /// The region's hash index lists exactly the store positions, each under
    /// its name's hash, and names are distinct and parallel to their stats.
    pub open spec fn wf(self) -> bool {
        &&& self.names@.len() == self.stats@.len()
        &&& distinct_seq(views(self.names@))
        &&& forall|i: int|
            0 <= i < self.names@.len() ==> {
                &&& self.index@.contains_key(spec_fnv64((#[trigger] self.names@[i])@))
                &&& in_bucket(self.index@[spec_fnv64(self.names@[i]@)]@, i)
            }
        &&& forall|h: u64, t: int|
            self.index@.contains_key(h) && 0 <= t < self.index@[h]@.len() ==> {
                let idx = #[trigger] self.index@[h]@[t];
                &&& idx < self.names@.len()
                &&& spec_fnv64(self.names@[idx as int]@) == h
            }
    }

    /// A fresh region for one cell, with no species yet.
    pub fn new(key: RegionKey) -> (r: Region)
        ensures
            r.wf(),
            r.key == key,
            r.names@.len() == 0,
            r.stats@.len() == 0,
    {
        Region { key, names: Vec::new(), stats: Vec::new(), index: HashMap::new() }
    }

    /// The store position of a species name, if the region has seen it.
    pub fn find(&self, name: &[u8]) -> (r: Option<usize>)
        requires
            self.wf(),
        ensures
            match r {
                Some(i) => i < self.names@.len() && self.names@[i as int]@ == name@,
                None => !seq_has(views(self.names@), name@),
            },
    {
        let h = fnv64(name);
        match self.index.get(&h) {
            None => {
                proof {
                    if seq_has(views(self.names@), name@) {
                        let i = choose|i: int|
                            0 <= i < views(self.names@).len() && views(self.names@)[i] == name@;
                        assert(self.names@[i]@ == name@);
                        assert(self.index@.contains_key(spec_fnv64(self.names@[i]@)));
                    }
                }
                None
            },
            Some(bucket) => {
                let mut j: usize = 0;
                while j < bucket.len()
                    invariant
                        0 <= j <= bucket@.len(),
                        self.wf(),
                        h == spec_fnv64(name@),
                        self.index@.contains_key(h),
                        self.index@[h]@ == bucket@,
                        forall|t: int|
                            0 <= t < j ==> views(self.names@)[#[trigger] bucket@[t] as int]
                                != name@,
                    decreases bucket@.len() - j,
                {
                    let idx = bucket[j];
                    proof {
                        assert(self.index@[h]@[j as int] == idx);
                    }
                    if bytes_eq(self.names[idx].as_slice(), name) {
                        return Some(idx);
                    }
                    j = j + 1;
                }
                proof {
                    if seq_has(views(self.names@), name@) {
                        let i = choose|i: int|
                            0 <= i < views(self.names@).len() && views(self.names@)[i] == name@;
                        assert(self.names@[i]@ == name@);
                        assert(in_bucket(self.index@[h]@, i));
                        let t = choose|t: int| 0 <= t < bucket@.len() && bucket@[t] == i;
                        assert(views(self.names@)[bucket@[t] as int] != name@);
                    }
                }
                None
            },
        }
    }

    /// Folds one accepted record of a species into the region: the species'
    /// accumulator is updated in place, or created first if the name is new.
    pub fn fold_observation(
        &mut self,
        name: &[u8],
        individuals: u64,
        year: u64,
        anchor: u64,
        Ghost(cap): Ghost<u64>,
    )
        requires
            old(self).wf(),
            region_obs_le(views(old(self).names@), old(self).stats@, cap as int),
            cap < u64::MAX,
        ensures
            final(self).wf(),
            final(self).key == old(self).key,
            region_obs_le(views(final(self).names@), final(self).stats@, cap as int + 1),
            ({
                let on = views(old(self).names@);
                let i = first_index_of(on, name@);
                if i >= 0 {
                    &&& final(self).names@ == old(self).names@
                    &&& final(self).stats@ == old(self).stats@.update(
                        i,
                        spec_apply(old(self).stats@[i], individuals, year, anchor),
                    )
                } else {
                    &&& views(final(self).names@) == on.push(name@)
                    &&& final(self).stats@ == old(self).stats@.push(
                        spec_apply(
                            (Counts { observations: 0u64, individuals: 0u64, years: 0u64 }),
                            individuals,
                            year,
                            anchor,
                        ),
                    )
                }
            }),
    {
        let ghost on = views(old(self).names@);
        match self.find(name) {
            Some(i) => {
                proof {
                    lemma_first_index_unique(on, name@, i as int);
                }
                let mut c = self.stats[i];
                c.count_observation(individuals, year, anchor);
                self.stats[i] = c;
            },
            None => {
                proof {
                    lemma_first_index_of(on, name@);
                }
                let h = fnv64(name);
                let idx = self.names.len();
                self.names.push(vstd::slice::slice_to_vec(name));
                let mut c = Counts::new();
                c.count_observation(individuals, year, anchor);
                self.stats.push(c);
                let ghost oldmap = self.index@;
                let b = self.index.entry(h).or_insert(Vec::new());
                let ghost base_s = b@;
                b.push(idx);
                proof {
                    assert(self.index@.contains_key(h));
                    assert(self.index@[h]@ == base_s.push(idx));
                    assert(forall|h2: u64|
                        h2 != h ==> (self.index@.contains_key(h2) <==> oldmap.contains_key(h2)));
                    assert(forall|h2: u64|
                        h2 != h && oldmap.contains_key(h2) ==> self.index@[h2] == oldmap[h2]);
                    assert(oldmap.contains_key(h) ==> base_s == oldmap[h]@);
                    assert(!oldmap.contains_key(h) ==> base_s.len() == 0);
                    assert(views(self.names@) =~= on.push(name@));
                    let nn = views(self.names@);
                    // distinctness: the new name was absent
                    assert forall|i: int, j: int| 0 <= i < j < nn.len() implies nn[i] != nn[j] by {
                        if j == nn.len() - 1 {
                            assert(nn[i] == on[i]);
                        }
                    }
                    // completeness: every position is still indexed under its hash
                    assert forall|i: int| 0 <= i < self.names@.len() implies {
                        &&& self.index@.contains_key(spec_fnv64((#[trigger] self.names@[i])@))
                        &&& in_bucket(self.index@[spec_fnv64(self.names@[i]@)]@, i)
                    } by {
                        if i < idx {
                            let hi = spec_fnv64(old(self).names@[i]@);
                            assert(old(self).index@.contains_key(hi));
                            assert(in_bucket(old(self).index@[hi]@, i));
                            assert(self.names@[i] == old(self).names@[i]);
                            if hi == h {
                                let t = choose|t: int|
                                    0 <= t < base_s.len() && base_s[t] == i;
                                assert(base_s.push(idx)[t] == i);
                                assert(in_bucket(self.index@[hi]@, i));
                            } else {
                                assert(self.index@[hi] == oldmap[hi]);
                            }
                        } else {
                            assert(self.names@[i]@ == name@);
                            assert(spec_fnv64(self.names@[i]@) == h);
                            assert(base_s.push(idx)[base_s.len() as int] == idx);
                            assert(in_bucket(self.index@[h]@, i));
                        }
                    }
                    // soundness: every indexed position is valid with a matching hash
                    assert forall|h2: u64, t: int|
                        self.index@.contains_key(h2) && 0 <= t < self.index@[h2]@.len() implies {
                        let pos = #[trigger] self.index@[h2]@[t];
                        &&& pos < self.names@.len()
                        &&& spec_fnv64(self.names@[pos as int]@) == h2
                    } by {
                        if h2 == h {
                            if t < base_s.len() {
                                if oldmap.contains_key(h) {
                                    assert(base_s[t] == oldmap[h]@[t]);
                                    assert(oldmap[h]@[t] < old(self).names@.len());
                                } else {
                                    assert(base_s.len() == 0);
                                }
                            } else {
                                assert(self.index@[h2]@[t] == idx);
                            }
                        } else {
                            assert(self.index@[h2] == oldmap[h2]);
                            assert(oldmap[h2]@[t] < old(self).names@.len());
                        }
                    }
                }
            },
        }
    }
}

/// A cell key packed into one 128-bit integer: latitude index in the high
/// half, longitude index in the low half.
pub open spec fn spec_pack(k: RegionKey) -> u128 {
    ((k.lat_idx as u64 as int) * 0x10000000000000000 + (k.lon_idx as u64 as int)) as u128
}

/// Packs a cell key for the grid's hash index.
pub fn pack_key(k: RegionKey) -> (p: u128)
    ensures
        p == spec_pack(k),
{
    (k.lat_idx as u64 as u128) * 0x10000000000000000u128 + (k.lon_idx as u64 as u128)
}

/// Packing is injective: distinct cells get distinct packed keys.
pub proof fn lemma_pack_injective(a: RegionKey, b: RegionKey)
    requires
        spec_pack(a) == spec_pack(b),
    ensures
        a == b,
{
    let c = 0x10000000000000000int;
    let ha = a.lat_idx as u64 as int;
    let la = a.lon_idx as u64 as int;
    let hb = b.lat_idx as u64 as int;
    let lb = b.lon_idx as u64 as int;
    let p = spec_pack(a) as int;
    assert(ha * c + la < 0x100000000000000000000000000000000) by (nonlinear_arith)
        requires
            0 <= ha < 0x10000000000000000,
            0 <= la < 0x10000000000000000,
            c == 0x10000000000000000int,
    ;
    assert(hb * c + lb < 0x100000000000000000000000000000000) by (nonlinear_arith)
        requires
            0 <= hb < 0x10000000000000000,
            0 <= lb < 0x10000000000000000,
            c == 0x10000000000000000int,
    ;
    assert(p == ha * c + la);
    assert(p == hb * c + lb);
    vstd::arithmetic::div_mod::lemma_fundamental_div_mod_converse(p, c, ha, la);
    vstd::arithmetic::div_mod::lemma_fundamental_div_mod_converse(p, c, hb, lb);
    let x = a.lat_idx;
    let y = b.lat_idx;
    let u = a.lon_idx;
    let v = b.lon_idx;
    assert(x as u64 == y as u64 ==> x == y) by (bit_vector);
    assert(u as u64 == v as u64 ==> u == v) by (bit_vector);
}

/// Every key of the grid keeps its centroid arithmetic in range for the
/// given cell size; folds establish this for every cell they create.
pub open spec fn keys_bounded(g: Grid, grid_size: int) -> bool {
    forall|r: int|
        0 <= r < g.keys@.len() ==> crate::grid::idx_bounded(
            (#[trigger] g.keys@[r]).lat_idx as int,
            grid_size,
        ) && crate::grid::idx_bounded(g.keys@[r].lon_idx as int, grid_size)
}

/// Every accumulator in the grid has at most `b` observations.
pub open spec fn grid_obs_le(g: Grid, b: int) -> bool {
    forall|r: int|
        0 <= r < g.regions@.len() ==> region_obs_le(
            views((#[trigger] g.regions@[r]).names@),
            g.regions@[r].stats@,
            b,
        )
}

/// The whole aggregation state: one region per cell seen, in first-seen
/// order, with a hash index from packed cell key to store position.
pub struct Grid {
    /// The cells seen, distinct, in first-seen order.
    pub keys: Vec<RegionKey>,
    /// The region of each cell, parallel to `keys`.
    pub regions: Vec<Region>,
    /// Hash index: packed cell key to store position. Maintained by `wf`.
    pub index: HashMap<u128, usize>,
}

impl Grid {
    /// The grid's hash index maps exactly the packed keys to their store
    /// positions; keys are distinct and parallel to their regions, and every
    /// region is itself well formed under its own key.
    pub open spec fn wf(self) -> bool {
        &&& self.keys@.len() == self.regions@.len()
        &&& distinct_seq(self.keys@)
        &&& forall|r: int|
            0 <= r < self.regions@.len() ==> (#[trigger] self.regions@[r]).wf()
                && self.regions@[r].key == self.keys@[r]
        &&& forall|r: int|
            0 <= r < self.keys@.len() ==> {
                &&& self.index@.contains_key(spec_pack(#[trigger] self.keys@[r]))
                &&& self.index@[spec_pack(self.keys@[r])] == r as usize
            }
        &&& forall|p: u128|
            #[trigger] self.index@.contains_key(p) ==> self.index@[p] < self.keys@.len()
                && spec_pack(self.keys@[self.index@[p] as int]) == p
    }

    /// An empty grid.
    pub fn new() -> (g: Grid)
        ensures
            g.wf(),
            g.keys@.len() == 0,
            g.regions@.len() == 0,
            grid_obs_le(g, 0),
    {
        Grid { keys: Vec::new(), regions: Vec::new(), index: HashMap::new() }
    }

    /// The store position of a cell, if the grid has seen it.
    pub fn find_region(&self, key: RegionKey) -> (r: Option<usize>)
        requires
            self.wf(),
        ensures
            match r {
                Some(i) => i < self.keys@.len() && self.keys@[i as int] == key,
                None => !seq_has(self.keys@, key),
            },
    {
        let p = pack_key(key);
        match self.index.get(&p) {
            None => {
                proof {
                    if seq_has(self.keys@, key) {
                        let i = choose|i: int| 0 <= i < self.keys@.len() && self.keys@[i] == key;
                        assert(self.index@.contains_key(spec_pack(self.keys@[i])));
                    }
                }
                None
            },
            Some(r) => {
                let i = *r;
                proof {
                    assert(self.index@.contains_key(p) && self.index@[p] == i);
                    lemma_pack_injective(self.keys@[i as int], key);
                }
                Some(i)
            },
        }
    }

    /// Folds one accepted observation into the grid: the cell's region is
    /// updated in place, or created first if the cell is new; within it the
    /// species' accumulator gains the record.
    pub fn fold(
        &mut self,
        key: RegionKey,
        name: &[u8],
        individuals: u64,
        year: u64,
        anchor: u64,
        Ghost(cap): Ghost<u64>,
    )
        requires
            old(self).wf(),
            grid_obs_le(*old(self), cap as int),
            cap < u64::MAX,
        ensures
            final(self).wf(),
            grid_obs_le(*final(self), cap as int + 1),
            grid_folded(*old(self), *final(self), key, name@, individuals, year, anchor),
    {
        let r = match self.find_region(key) {
            Some(r) => {
                proof {
                    lemma_first_index_unique(self.keys@, key, r as int);
                }
                r
            },
            None => {
                proof {
                    lemma_first_index_of(old(self).keys@, key);
                }
                let r = self.keys.len();
                let p = pack_key(key);
                self.keys.push(key);
                self.regions.push(Region::new(key));
                self.index.insert(p, r);
                proof {
                    assert forall|r2: int| 0 <= r2 < self.keys@.len() implies {
                        &&& self.index@.contains_key(spec_pack(#[trigger] self.keys@[r2]))
                        &&& self.index@[spec_pack(self.keys@[r2])] == r2 as usize
                    } by {
                        if r2 < r {
                            assert(self.keys@[r2] == old(self).keys@[r2]);
                            assert(spec_pack(self.keys@[r2]) != p) by {
                                if spec_pack(old(self).keys@[r2]) == p {
                                    lemma_pack_injective(old(self).keys@[r2], key);
                                }
                            }
                        }
                    }
                    assert forall|p2: u128| #[trigger]
                        self.index@.contains_key(p2) implies self.index@[p2] < self.keys@.len()
                        && spec_pack(self.keys@[self.index@[p2] as int]) == p2 by {
                        if p2 != p {
                            assert(old(self).index@.contains_key(p2));
                            assert(old(self).index@[p2] < old(self).keys@.len());
                        }
                    }
                    assert forall|i: int, j: int|
                        0 <= i < j < self.keys@.len() implies self.keys@[i] != self.keys@[j] by {
                        if j == self.keys@.len() - 1 {
                            assert(!seq_has(old(self).keys@, key));
                            assert(old(self).keys@[i] == self.keys@[i]);
                            if self.keys@[i] == key {
                                assert(seq_has(old(self).keys@, key));
                            }
                        }
                    }
                }
                r
            },
        };
        let region = &mut self.regions[r];
        proof {
            assert(region.wf());
        }
        region.fold_observation(name, individuals, year, anchor, Ghost(cap));
        proof {
            if first_index_of(old(self).keys@, key) < 0 {
                let fresh = self.regions@.last();
                assert(views(fresh.names@) =~= Seq::<Seq<u8>>::empty().push(name@));
                assert(views(fresh.names@) =~= seq![name@]);
                assert(fresh.stats@ =~= seq![
                    spec_apply(
                        (Counts { observations: 0u64, individuals: 0u64, years: 0u64 }),
                        individuals,
                        year,
                        anchor,
                    ),
                ]);
            }
        }
    }
}

/// How one fold changes a region: the named species' accumulator is applied
/// once, in place or freshly created at the end.
pub open spec fn region_folded(
    before: Region,
    after: Region,
    name: Seq<u8>,
    individuals: u64,
    year: u64,
    anchor: u64,
) -> bool {
    let on = views(before.names@);
    let i = first_index_of(on, name);
    &&& after.key == before.key
    &&& if i >= 0 {
        &&& after.names@ == before.names@
        &&& after.stats@ == before.stats@.update(
            i,
            spec_apply(before.stats@[i], individuals, year, anchor),
        )
    } else {
        &&& views(after.names@) == on.push(name)
        &&& after.stats@ == before.stats@.push(
            spec_apply(
                (Counts { observations: 0u64, individuals: 0u64, years: 0u64 }),
                individuals,
                year,
                anchor,
            ),
        )
    }
}

/// How one fold changes the grid: the cell's region is folded once, every
/// other region stands untouched, and a new cell's region starts with just
/// the one species.
pub open spec fn grid_folded(
    before: Grid,
    after: Grid,
    key: RegionKey,
    name: Seq<u8>,
    individuals: u64,
    year: u64,
    anchor: u64,
) -> bool {
    let r = first_index_of(before.keys@, key);
    if r >= 0 {
        &&& after.keys@ == before.keys@
        &&& (forall|r2: int|
            0 <= r2 < before.regions@.len() && r2 != r ==> after.regions@[r2]
                == before.regions@[r2])
        &&& region_folded(before.regions@[r], after.regions@[r], name, individuals, year, anchor)
    } else {
        &&& after.keys@ == before.keys@.push(key)
        &&& (forall|r2: int|
            0 <= r2 < before.regions@.len() ==> after.regions@[r2] == before.regions@[r2])
        &&& after.regions@.len() == before.regions@.len() + 1
        &&& views(after.regions@.last().names@) == seq![name]
        &&& after.regions@.last().stats@ == seq![
            spec_apply(
                (Counts { observations: 0u64, individuals: 0u64, years: 0u64 }),
                individuals,
                year,
                anchor,
            ),
        ]
        &&& after.regions@.last().key == key
    }
}

/// The first position at which `s` holds `x`, pinned down: nothing before
/// `j` is `x` and `s[j]` is.
pub proof fn lemma_first_index_at<T>(s: Seq<T>, x: T, j: int)
    requires
        0 <= j < s.len(),
        s[j] == x,
        forall|t: int| 0 <= t < j ==> s[t] != x,
    ensures
        first_index_of(s, x) == j,
    decreases j,
{
    if j > 0 {
        lemma_first_index_at(s.drop_first(), x, j - 1);
    }
}

} // verus!
